//! End-to-end behaviour of the generation pipeline on hand-built trees.

use include_folder::content::classify;
use include_folder::content::is_hidden;
use include_folder::generate::generate;
use include_folder::instance::Instance;
use include_folder::normalize::merge_into_map;
use include_folder::normalize::process_tree;
use include_folder::normalize::split_name;
use include_folder::schema::FieldType;
use include_folder::schema::GenError;
use include_folder::tree::add_file_entry;
use include_folder::tree::navigate;
use include_folder::tree::Tree;
use include_folder::Data;
use include_folder::Directory;
use include_folder::FileData;

fn text_leaf(s: &str) -> Tree {
    Tree::Leaf(FileData::Text(s.to_string()))
}

fn branch(entries: Vec<(&str, Tree)>) -> Tree {
    Tree::Branch(entries.into_iter().map(|(k, v)| (k.to_string(), v)).collect())
}

fn nav<'a>(t: &'a Tree, path: &[&str]) -> Option<&'a Tree> {
    let segs: Vec<String> = path.iter().map(|s| s.to_string()).collect();
    navigate(t, &segs)
}

#[test]
fn classify_valid_utf8_is_text() {
    let data = classify(b"Hello World!\n".to_vec());
    assert_eq!(data, FileData::Text("Hello World!\n".to_string()));
}

#[test]
fn classify_invalid_utf8_is_blob() {
    let bytes = vec![0xFF, 0xFE, 0x00, 0x41];
    let data = classify(bytes.clone());
    assert_eq!(data, FileData::Blob(bytes));
}

#[test]
fn type_names_of_content_kinds() {
    assert_eq!(FileData::Text(String::new())._type(), "String");
    assert_eq!(FileData::Blob(Vec::new())._type(), "Vec<u8>");
}

#[test]
fn to_file_data_wraps_uniformly() {
    assert_eq!(
        "abc".to_string().to_file_data(),
        FileData::Text("abc".to_string())
    );
    assert_eq!(vec![1u8, 2].to_file_data(), FileData::Blob(vec![1u8, 2]));
}

#[test]
fn hidden_names_are_detected() {
    assert!(is_hidden(".secret"));
    assert!(!is_hidden("secret"));
    assert!(!is_hidden("a.b"));
    assert!(!is_hidden(""));
}

#[test]
fn merge_into_map_builds_a_branch_chain() {
    let mut map: Vec<(String, Tree)> = Vec::new();
    let parts = vec!["a".to_string(), "b".to_string()];
    merge_into_map(&mut map, &parts, FileData::Text("v".to_string()));
    let tree = Tree::Branch(map);
    match nav(&tree, &["a", "b"]) {
        Some(Tree::Leaf(FileData::Text(s))) => assert_eq!(s, "v"),
        other => panic!("merge must create the chain a -> b: {:?}", other),
    }
}

#[test]
fn hidden_file_never_enters_the_tree() {
    let mut entries: Vec<(String, Tree)> = Vec::new();
    add_file_entry(&mut entries, ".secret".to_string(), b"classified".to_vec());
    assert!(entries.is_empty());
    add_file_entry(&mut entries, "open.txt".to_string(), b"fine".to_vec());
    assert_eq!(entries.len(), 1);
    let tree = process_tree(Tree::Branch(entries));
    let files = tree.files();
    assert_eq!(files.len(), 1);
    assert!(files.iter().all(|f| !f.path.starts_with('.')));
}

#[test]
fn split_name_drops_empty_segments() {
    assert_eq!(split_name("a.b.txt"), vec!["a", "b", "txt"]);
    assert_eq!(split_name(".hidden"), vec!["hidden"]);
    assert_eq!(split_name("trailing."), vec!["trailing"]);
    assert_eq!(split_name("..."), Vec::<String>::new());
    assert_eq!(split_name("plain"), vec!["plain"]);
}

#[test]
fn dotted_siblings_merge_under_one_node() {
    let raw = branch(vec![("a.b.txt", text_leaf("B")), ("a.c.txt", text_leaf("C"))]);
    let tree = process_tree(raw);
    match &tree {
        Tree::Branch(es) => {
            assert_eq!(es.len(), 1);
            assert_eq!(es[0].0, "a");
        }
        Tree::Leaf(_) => panic!("root must stay a branch"),
    }
    match nav(&tree, &["a", "b", "txt"]) {
        Some(Tree::Leaf(FileData::Text(s))) => assert_eq!(s, "B"),
        other => panic!("unexpected node: {:?}", other),
    }
    match nav(&tree, &["a", "c", "txt"]) {
        Some(Tree::Leaf(FileData::Text(s))) => assert_eq!(s, "C"),
        other => panic!("unexpected node: {:?}", other),
    }
}

#[test]
fn conflict_later_dotted_name_overwrites_plain_leaf() {
    let raw = branch(vec![("a", text_leaf("plain")), ("a.b", text_leaf("dotted"))]);
    let tree = process_tree(raw);
    match nav(&tree, &["a"]) {
        Some(Tree::Branch(_)) => {}
        other => panic!("the plain leaf must be overwritten by a branch: {:?}", other),
    }
    match nav(&tree, &["a", "b"]) {
        Some(Tree::Leaf(FileData::Text(s))) => assert_eq!(s, "dotted"),
        other => panic!("unexpected node: {:?}", other),
    }
}

#[test]
fn conflict_later_plain_leaf_overwrites_dotted_branch() {
    let raw = branch(vec![("a.b", text_leaf("dotted")), ("a", text_leaf("plain"))]);
    let tree = process_tree(raw);
    match nav(&tree, &["a"]) {
        Some(Tree::Leaf(FileData::Text(s))) => assert_eq!(s, "plain"),
        other => panic!("the later plain leaf must win: {:?}", other),
    }
    assert!(nav(&tree, &["a", "b"]).is_none());
}

#[test]
fn name_of_dots_alone_is_kept_literally() {
    let raw = branch(vec![("...", text_leaf("dots"))]);
    let tree = process_tree(raw);
    match &tree {
        Tree::Branch(es) => {
            assert_eq!(es.len(), 1);
            assert_eq!(es[0].0, "...");
        }
        Tree::Leaf(_) => panic!("root must stay a branch"),
    }
}

#[test]
fn files_one_per_leaf_no_duplicates() {
    let raw = branch(vec![
        ("readme.txt", text_leaf("hi")),
        (
            "src",
            branch(vec![("main.rs", text_leaf("fn main() {}")), ("lib.rs", text_leaf("pub"))]),
        ),
        ("data.bin", Tree::Leaf(FileData::Blob(vec![0xFF, 0x00]))),
    ]);
    let tree = process_tree(raw);
    let files = tree.files();
    assert_eq!(files.len(), 4);
    let mut paths: Vec<String> = files.iter().map(|f| f.path.clone()).collect();
    paths.sort();
    let mut expected = vec![
        "data.bin".to_string(),
        "readme.txt".to_string(),
        "src.lib.rs".to_string(),
        "src.main.rs".to_string(),
    ];
    expected.sort();
    assert_eq!(paths, expected);
}

#[test]
fn files_round_trip_through_navigation() {
    let raw = branch(vec![
        ("nested", branch(vec![("folders", branch(vec![("test.txt", text_leaf("Hello World!\n"))]))])),
        ("parsing", branch(vec![("lexer.txt", text_leaf("lex")), ("lexer.rs", text_leaf("rs"))])),
    ]);
    let tree = process_tree(raw);
    let files = tree.files();
    assert_eq!(files.len(), 3);
    for f in &files {
        let segs = split_name(&f.path);
        match navigate(&tree, &segs) {
            Some(Tree::Leaf(data)) => assert_eq!(data, &f.data),
            other => panic!("path {} did not reach its leaf: {:?}", f.path, other),
        }
    }
}

#[test]
fn generation_is_deterministic() {
    let make = || {
        branch(vec![
            ("hello.txt", text_leaf("Hello World!\n")),
            ("raw.bin", Tree::Leaf(FileData::Blob(vec![1, 2, 3]))),
        ])
    };
    let g1 = generate(make(), "Demo").unwrap();
    let g2 = generate(make(), "Demo").unwrap();
    assert_eq!(g1.root_type, g2.root_type);
    assert_eq!(g1.accessor, g2.accessor);
    assert_eq!(g1.tree, g2.tree);
    assert_eq!(g1.schema, g2.schema);
    assert_eq!(g1.instance, g2.instance);
    assert_eq!(g1.tree.files(), g2.tree.files());
}

#[test]
fn end_to_end_hello_demo() {
    let raw = branch(vec![("hello.txt", text_leaf("Hello World!\n"))]);
    let g = generate(raw, "Demo").unwrap();
    assert_eq!(g.root_type, "Demo");
    assert_eq!(g.accessor, "demo");

    assert_eq!(g.schema.len(), 2);
    assert_eq!(g.schema[0].tname, "Demo");
    assert_eq!(g.schema[0].fields.len(), 1);
    assert_eq!(g.schema[0].fields[0].0, "hello");
    assert_eq!(g.schema[0].fields[0].1, FieldType::Named("DemoHello".to_string()));
    assert_eq!(g.schema[1].tname, "DemoHello");
    assert_eq!(g.schema[1].fields.len(), 1);
    assert_eq!(g.schema[1].fields[0].0, "txt");
    assert_eq!(g.schema[1].fields[0].1, FieldType::TextKind);

    match &g.instance {
        Instance::Record { tname, fields } => {
            assert_eq!(tname, "Demo");
            assert_eq!(fields.len(), 1);
            assert_eq!(fields[0].0, "hello");
            match &fields[0].1 {
                Instance::Record { tname, fields } => {
                    assert_eq!(tname, "DemoHello");
                    assert_eq!(fields[0].0, "txt");
                    assert_eq!(fields[0].1, Instance::Text("Hello World!\n".to_string()));
                }
                other => panic!("hello must be a record: {:?}", other),
            }
        }
        other => panic!("the root instance must be a record: {:?}", other),
    }

    let files = g.tree.files();
    assert_eq!(files.len(), 1);
    assert_eq!(files[0].path, "hello.txt");
    assert_eq!(files[0].data, FileData::Text("Hello World!\n".to_string()));
}

#[test]
fn invalid_field_name_reports_identifier_error() {
    let raw = branch(vec![("my-file", text_leaf("x"))]);
    match generate(raw, "Demo") {
        Err(GenError::InvalidIdentifier(name)) => assert_eq!(name, "my-file"),
        other => panic!("expected an identifier error: {:?}", other),
    }
}

#[test]
fn instance_exposes_the_same_files_as_the_tree() {
    let raw = branch(vec![
        ("hello.txt", text_leaf("Hello World!\n")),
        ("sub", branch(vec![("x.bin", Tree::Leaf(FileData::Blob(vec![7])))])),
    ]);
    let g = generate(raw, "Demo").unwrap();
    let mut from_instance: Vec<(String, FileData)> =
        g.instance.files().into_iter().map(|f| (f.path, f.data)).collect();
    let mut from_tree: Vec<(String, FileData)> =
        g.tree.files().into_iter().map(|f| (f.path, f.data)).collect();
    from_instance.sort_by(|a, b| a.0.cmp(&b.0));
    from_tree.sort_by(|a, b| a.0.cmp(&b.0));
    assert_eq!(from_instance.len(), 2);
    assert_eq!(from_instance, from_tree);
}

#[test]
fn case_conversion_derives_both_names() {
    let raw = branch(vec![("hello.txt", text_leaf("x"))]);
    let g = generate(raw, "build_dir").unwrap();
    assert_eq!(g.root_type, "BuildDir");
    assert_eq!(g.accessor, "build_dir");
    assert_eq!(g.schema[0].tname, "BuildDir");
    assert_eq!(
        g.schema[0].fields[0].1,
        FieldType::Named("BuildDirHello".to_string())
    );
}

#[test]
fn nested_directory_names_concatenate_pascal_cased() {
    let raw = branch(vec![(
        "nested_stuff",
        branch(vec![("a.txt", text_leaf("y"))]),
    )]);
    let g = generate(raw, "Demo").unwrap();
    let names: Vec<&str> = g.schema.iter().map(|e| e.tname.as_str()).collect();
    assert_eq!(names, vec!["Demo", "DemoNestedStuff", "DemoNestedStuffA"]);
}

#[test]
fn blob_content_survives_generation_unchanged() {
    let bytes = vec![0u8, 159, 146, 150];
    let raw = branch(vec![("img.bin", Tree::Leaf(FileData::Blob(bytes.clone())))]);
    let g = generate(raw, "Assets").unwrap();
    let files = g.tree.files();
    assert_eq!(files.len(), 1);
    assert_eq!(files[0].path, "img.bin");
    assert_eq!(files[0].data, FileData::Blob(bytes));
}
