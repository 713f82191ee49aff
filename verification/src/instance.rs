//! Instance building: one literal value per branch, mirroring the schema.
//!
//! The instance is built by the same traversal order as schema synthesis,
//! so its field set matches its type's field set one-to-one at every
//! nesting level. Leaf values carry the exact text or bytes captured at
//! scan time.

use vstd::prelude::*;

use crate::content::FileData;
use crate::content::FileDataV;
use crate::schema::fields_of;
use crate::schema::nested_tname;
use crate::schema::pascal_of;
use crate::content::File;
use crate::tree::entries_view;
use crate::tree::lemma_entries_view;
use crate::tree::tree_view;
use crate::tree::Tree;
use crate::tree::TreeV;

verus! {

/// A literal value mirroring the synthesized schema: records for branches,
/// raw content for leaves.
#[derive(Debug, PartialEq)]
pub enum Instance {
    Text(String),
    Blob(Vec<u8>),
    Record { tname: String, fields: Vec<(String, Instance)> },
}

/// Mathematical value of an [`Instance`].
#[verifier::ext_equal]
pub enum InstanceV {
    Text(Seq<char>),
    Blob(Seq<u8>),
    Record { tname: Seq<char>, fields: Seq<(Seq<char>, InstanceV)> },
}

/// The mathematical value of a record's field list.
pub open spec fn inst_entries_view(fs: Seq<(String, Instance)>) -> Seq<(Seq<char>, InstanceV)>
    decreases fs,
{
    if fs.len() == 0 {
        Seq::empty()
    } else {
        seq![(fs[0].0@, instance_view(fs[0].1))] + inst_entries_view(fs.drop_first())
    }
}

/// The mathematical value of an [`Instance`].
pub open spec fn instance_view(x: Instance) -> InstanceV
    decreases x,
{
    match x {
        Instance::Text(s) => InstanceV::Text(s@),
        Instance::Blob(b) => InstanceV::Blob(b@),
        Instance::Record { tname, fields } => InstanceV::Record {
            tname: tname@,
            fields: inst_entries_view(fields@),
        },
    }
}

impl View for Instance {
    type V = InstanceV;

    open spec fn view(&self) -> InstanceV {
        instance_view(*self)
    }
}

/// `inst_entries_view` maps the list pointwise.
pub proof fn lemma_inst_entries_view(fs: Seq<(String, Instance)>)
    ensures
        inst_entries_view(fs).len() == fs.len(),
        forall|i: int|
            0 <= i < fs.len() ==> #[trigger] inst_entries_view(fs)[i] == (
                fs[i].0@,
                instance_view(fs[i].1),
            ),
    decreases fs,
{
    if fs.len() > 0 {
        lemma_inst_entries_view(fs.drop_first());
    }
}

/// The instance built from `t` for a record type named `tname`.
pub open spec fn instance_spec(t: TreeV, tname: Seq<char>) -> InstanceV
    decreases t,
{
    match t {
        TreeV::Leaf(FileDataV::Text(s)) => InstanceV::Text(s),
        TreeV::Leaf(FileDataV::Blob(b)) => InstanceV::Blob(b),
        TreeV::Branch(es) => InstanceV::Record {
            tname,
            fields: instance_fields(es, tname),
        },
    }
}

/// The record fields built from the children of a branch named `parent`.
pub open spec fn instance_fields(es: Seq<(Seq<char>, TreeV)>, parent: Seq<char>) -> Seq<
    (Seq<char>, InstanceV),
>
    decreases es,
{
    if es.len() == 0 {
        Seq::empty()
    } else {
        seq![
            (es[0].0, instance_spec(es[0].1, parent + pascal_of(es[0].0))),
        ] + instance_fields(es.drop_first(), parent)
    }
}

/// `instance_fields` maps the child list pointwise.
pub proof fn lemma_instance_fields(es: Seq<(Seq<char>, TreeV)>, parent: Seq<char>)
    ensures
        instance_fields(es, parent).len() == es.len(),
        forall|i: int|
            0 <= i < es.len() ==> #[trigger] instance_fields(es, parent)[i] == (
                es[i].0,
                instance_spec(es[i].1, parent + pascal_of(es[i].0)),
            ),
    decreases es,
{
    if es.len() > 0 {
        lemma_instance_fields(es.drop_first(), parent);
        assert(forall|i: int|
            0 <= i < es.drop_first().len() ==> (#[trigger] es.drop_first()[i]) == es[i + 1]);
    }
}

/// The instance's field names coincide with the synthesized schema's field
/// names, one to one and in the same order.
pub proof fn lemma_instance_schema_fields(es: Seq<(Seq<char>, TreeV)>, tname: Seq<char>)
    ensures
        instance_fields(es, tname).len() == fields_of(es, tname).len(),
        forall|i: int|
            0 <= i < es.len() ==> (#[trigger] instance_fields(es, tname)[i]).0 == fields_of(
                es,
                tname,
            )[i].0,
{
    lemma_instance_fields(es, tname);
}

/// The tree an instance stands for: records back to branches, content
/// back to leaves.
pub open spec fn instance_tree(x: InstanceV) -> TreeV
    decreases x,
{
    match x {
        InstanceV::Text(s) => TreeV::Leaf(FileDataV::Text(s)),
        InstanceV::Blob(b) => TreeV::Leaf(FileDataV::Blob(b)),
        InstanceV::Record { tname: _, fields } => TreeV::Branch(instance_tree_fields(fields)),
    }
}

/// [`instance_tree`], over a record's field list.
pub open spec fn instance_tree_fields(fs: Seq<(Seq<char>, InstanceV)>) -> Seq<
    (Seq<char>, TreeV),
>
    decreases fs,
{
    if fs.len() == 0 {
        Seq::empty()
    } else {
        seq![(fs[0].0, instance_tree(fs[0].1))] + instance_tree_fields(fs.drop_first())
    }
}

/// `instance_tree_fields` maps the list pointwise.
pub proof fn lemma_instance_tree_fields(fs: Seq<(Seq<char>, InstanceV)>)
    ensures
        instance_tree_fields(fs).len() == fs.len(),
        forall|i: int|
            0 <= i < fs.len() ==> #[trigger] instance_tree_fields(fs)[i] == (
                fs[i].0,
                instance_tree(fs[i].1),
            ),
    decreases fs,
{
    if fs.len() > 0 {
        lemma_instance_tree_fields(fs.drop_first());
    }
}

/// Building an instance and stripping it back yields the tree it was built
/// from: the instance carries exactly the scanned structure and content.
pub proof fn lemma_instance_tree_round(t: TreeV, tname: Seq<char>)
    ensures
        instance_tree(instance_spec(t, tname)) == t,
    decreases t,
{
    match t {
        TreeV::Leaf(_) => {
        },
        TreeV::Branch(es) => {
            lemma_instance_fields(es, tname);
            lemma_instance_tree_fields(instance_fields(es, tname));
            assert forall|i: int| 0 <= i < es.len() implies #[trigger] instance_tree_fields(
                instance_fields(es, tname),
            )[i] == es[i] by {
                lemma_instance_tree_round(es[i].1, tname + pascal_of(es[i].0));
            }
            assert(instance_tree_fields(instance_fields(es, tname)) =~= es);
        },
    }
}

/// Rebuild the plain tree an instance stands for.
fn instance_to_tree(x: &Instance) -> (r: Tree)
    ensures
        r@ == instance_tree(x@),
    decreases *x,
{
    match x {
        Instance::Text(s) => Tree::Leaf(FileData::Text(s.clone())),
        Instance::Blob(b) => Tree::Leaf(FileData::Blob(b.clone())),
        Instance::Record { tname: _, fields } => {
            let ghost fv = inst_entries_view(fields@);
            let mut out: Vec<(String, Tree)> = Vec::new();
            let mut i: usize = 0;
            while i < fields.len()
                invariant
                    x@ == instance_view(*x),
                    (*x) matches Instance::Record { tname: _, fields: f } && f == *fields,
                    fv == inst_entries_view(fields@),
                    0 <= i <= fields@.len(),
                    out@.len() == i,
                    forall|j: int|
                        0 <= j < i ==> (#[trigger] out@[j]).0@ == fv[j].0 && tree_view(out@[j].1)
                            == instance_tree(fv[j].1),
                decreases fields@.len() - i,
            {
                proof {
                    lemma_inst_entries_view(fields@);
                    assert(fv[i as int] == (fields@[i as int].0@, instance_view(
                        fields@[i as int].1,
                    )));
                }
                let child: &Instance = &fields[i].1;
                proof {
                    assert(decreases_to!(*x => (*x)->Record_fields));
                    assert((*x)->Record_fields == *fields);
                    assert(decreases_to!(*fields => fields@));
                    assert(decreases_to!(fields@ => fields@[i as int]));
                    assert(decreases_to!(fields@[i as int] => fields@[i as int].1));
                    assert(decreases_to!(*x => *child));
                }
                let sub = instance_to_tree(child);
                out.push((fields[i].0.clone(), sub));
                i = i + 1;
            }
            proof {
                lemma_inst_entries_view(fields@);
                lemma_entries_view(out@);
                lemma_instance_tree_fields(fv);
                assert(entries_view(out@) =~= instance_tree_fields(fv));
            }
            Tree::Branch(out)
        },
    }
}

impl crate::flatten::Directory for Instance {
    open spec fn dir_tree(&self) -> TreeV {
        instance_tree(self@)
    }

    fn files(&self) -> (r: Vec<File>) {
        let t = instance_to_tree(self);
        let r = crate::flatten::get_files(&t, "");
        proof {
            reveal_strlit("");
            assert(""@ =~= Seq::<char>::empty());
        }
        r
    }
}

/// Build the literal instance of `t` for a record type named `tname`.
///
/// Content is carried over exactly as captured at scan time; the field
/// list of every record matches the tree's child list in order.
pub fn build_instance(t: &Tree, tname: String) -> (r: Instance)
    ensures
        r@ == instance_spec(t@, tname@),
    decreases *t,
{
    match t {
        Tree::Leaf(FileData::Text(s)) => Instance::Text(s.clone()),
        Tree::Leaf(FileData::Blob(b)) => Instance::Blob(b.clone()),
        Tree::Branch(es) => {
            let ghost ev = entries_view(es@);
            let mut fields: Vec<(String, Instance)> = Vec::new();
            let mut i: usize = 0;
            while i < es.len()
                invariant
                    *t == Tree::Branch(*es),
                    ev == entries_view(es@),
                    0 <= i <= es@.len(),
                    fields@.len() == i,
                    forall|j: int|
                        0 <= j < i ==> (#[trigger] fields@[j]).0@ == ev[j].0 && instance_view(
                            fields@[j].1,
                        ) == instance_spec(ev[j].1, tname@ + pascal_of(ev[j].0)),
                decreases es@.len() - i,
            {
                proof {
                    lemma_entries_view(es@);
                    assert(ev[i as int] == (es@[i as int].0@, tree_view(es@[i as int].1)));
                }
                let child_name = nested_tname(&tname, &es[i].0);
                let child: &Tree = &es[i].1;
                proof {
                    assert(decreases_to!(*t => (*t)->Branch_0));
                    assert((*t)->Branch_0 == *es);
                    assert(decreases_to!(*es => es@));
                    assert(decreases_to!(es@ => es@[i as int]));
                    assert(decreases_to!(es@[i as int] => es@[i as int].1));
                    assert(decreases_to!(*t => *child));
                }
                let sub = build_instance(child, child_name);
                fields.push((es[i].0.clone(), sub));
                i = i + 1;
            }
            proof {
                lemma_entries_view(es@);
                lemma_inst_entries_view(fields@);
                lemma_instance_fields(ev, tname@);
                assert(inst_entries_view(fields@) =~= instance_fields(ev, tname@));
            }
            Instance::Record { tname, fields }
        },
    }
}

} // verus!
