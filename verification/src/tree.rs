//! The recursive directory snapshot.
//!
//! A [`Tree`] is either a `Leaf` holding classified file content or a
//! `Branch` holding an ordered list of uniquely named children. The list
//! keeps insertion order, so every traversal of the same tree is
//! deterministic.

use vstd::prelude::*;

use crate::content::classify;
use crate::content::classify_spec;
use crate::content::is_hidden;
use crate::content::is_hidden_spec;
use crate::content::FileData;
use crate::content::FileDataV;

verus! {

/// Snapshot of a filesystem subtree: file content, or named children.
#[derive(Debug, PartialEq)]
pub enum Tree {
    Leaf(FileData),
    Branch(Vec<(String, Tree)>),
}

/// Mathematical value of a [`Tree`].
#[verifier::ext_equal]
pub enum TreeV {
    Leaf(FileDataV),
    Branch(Seq<(Seq<char>, TreeV)>),
}

/// The mathematical value of a branch's child list.
pub open spec fn entries_view(es: Seq<(String, Tree)>) -> Seq<(Seq<char>, TreeV)>
    decreases es,
{
    if es.len() == 0 {
        Seq::empty()
    } else {
        seq![(es[0].0@, tree_view(es[0].1))] + entries_view(es.drop_first())
    }
}

/// The mathematical value of a [`Tree`].
pub open spec fn tree_view(t: Tree) -> TreeV
    decreases t,
{
    match t {
        Tree::Leaf(d) => TreeV::Leaf(d@),
        Tree::Branch(es) => TreeV::Branch(entries_view(es@)),
    }
}

impl View for Tree {
    type V = TreeV;

    open spec fn view(&self) -> TreeV {
        tree_view(*self)
    }
}

/// `entries_view` maps the list pointwise.
pub proof fn lemma_entries_view(es: Seq<(String, Tree)>)
    ensures
        entries_view(es).len() == es.len(),
        forall|i: int|
            0 <= i < es.len() ==> #[trigger] entries_view(es)[i] == (
                es[i].0@,
                tree_view(es[i].1),
            ),
    decreases es,
{
    if es.len() > 0 {
        lemma_entries_view(es.drop_first());
    }
}

/// The views of a sequence of names.
pub open spec fn views_of(ss: Seq<String>) -> Seq<Seq<char>> {
    ss.map_values(|s: String| s@)
}

/// No two children of one branch share a name.
pub open spec fn keys_unique(es: Seq<(Seq<char>, TreeV)>) -> bool {
    forall|i: int, j: int| 0 <= i < j < es.len() ==> (#[trigger] es[i]).0 != (#[trigger] es[j]).0
}

/// Well-formed child list: unique, non-empty names; well-formed children.
pub open spec fn entries_wf(es: Seq<(Seq<char>, TreeV)>) -> bool {
    &&& keys_unique(es)
    &&& forall|i: int| 0 <= i < es.len() ==> (#[trigger] es[i]).0.len() > 0
    &&& forall|i: int| 0 <= i < es.len() ==> tree_wf((#[trigger] es[i]).1)
}

/// Well-formed tree: every branch has a well-formed child list.
pub open spec fn tree_wf(t: TreeV) -> bool
    decreases t,
{
    match t {
        TreeV::Leaf(_) => true,
        TreeV::Branch(es) => {
            &&& keys_unique(es)
            &&& forall|i: int| 0 <= i < es.len() ==> (#[trigger] es[i]).0.len() > 0
            &&& forall|i: int| 0 <= i < es.len() ==> tree_wf((#[trigger] es[i]).1)
        },
    }
}

/// The child of `es` named `k`, if any (first match).
pub open spec fn lookup_entries(es: Seq<(Seq<char>, TreeV)>, k: Seq<char>) -> Option<TreeV>
    decreases es.len(),
{
    if es.len() == 0 {
        None
    } else if es[0].0 == k {
        Some(es[0].1)
    } else {
        lookup_entries(es.drop_first(), k)
    }
}

/// Map-style insertion: replace the value in place where the name exists,
/// append a new entry where it does not.
pub open spec fn insert_entry(
    es: Seq<(Seq<char>, TreeV)>,
    k: Seq<char>,
    v: TreeV,
) -> Seq<(Seq<char>, TreeV)>
    decreases es.len(),
{
    if es.len() == 0 {
        seq![(k, v)]
    } else if es[0].0 == k {
        seq![(k, v)] + es.drop_first()
    } else {
        seq![es[0]] + insert_entry(es.drop_first(), k, v)
    }
}

/// The subtree reached from `t` by following `path` as child names.
pub open spec fn lookup_path(t: TreeV, path: Seq<Seq<char>>) -> Option<TreeV>
    decreases path.len(),
{
    if path.len() == 0 {
        Some(t)
    } else {
        match t {
            TreeV::Leaf(_) => None,
            TreeV::Branch(es) => match lookup_entries(es, path[0]) {
                Some(c) => lookup_path(c, path.drop_first()),
                None => None,
            },
        }
    }
}

/// Number of leaves reachable from `t`.
pub open spec fn leaf_count(t: TreeV) -> nat
    decreases t,
{
    match t {
        TreeV::Leaf(_) => 1,
        TreeV::Branch(es) => leaf_count_entries(es),
    }
}

/// Number of leaves reachable from a child list.
pub open spec fn leaf_count_entries(es: Seq<(Seq<char>, TreeV)>) -> nat
    decreases es,
{
    if es.len() == 0 {
        0
    } else {
        leaf_count(es[0].1) + leaf_count_entries(es.drop_first())
    }
}

/// Where `i` is the first entry named `k`, lookup returns that entry.
pub proof fn lemma_lookup_at(es: Seq<(Seq<char>, TreeV)>, k: Seq<char>, i: int)
    requires
        0 <= i < es.len(),
        es[i].0 == k,
        forall|j: int| 0 <= j < i ==> (#[trigger] es[j]).0 != k,
    ensures
        lookup_entries(es, k) == Some(es[i].1),
    decreases es.len(),
{
    if i > 0 {
        lemma_lookup_at(es.drop_first(), k, i - 1);
    }
}

/// Where no entry is named `k`, lookup returns nothing.
pub proof fn lemma_lookup_absent(es: Seq<(Seq<char>, TreeV)>, k: Seq<char>)
    requires
        forall|j: int| 0 <= j < es.len() ==> (#[trigger] es[j]).0 != k,
    ensures
        lookup_entries(es, k) is None,
    decreases es.len(),
{
    if es.len() > 0 {
        lemma_lookup_absent(es.drop_first(), k);
    }
}

/// Where `i` is the first entry named `k`, insertion updates it in place.
pub proof fn lemma_insert_at(es: Seq<(Seq<char>, TreeV)>, k: Seq<char>, v: TreeV, i: int)
    requires
        0 <= i < es.len(),
        es[i].0 == k,
        forall|j: int| 0 <= j < i ==> (#[trigger] es[j]).0 != k,
    ensures
        insert_entry(es, k, v) == es.update(i, (k, v)),
    decreases es.len(),
{
    if i == 0 {
        assert(insert_entry(es, k, v) =~= es.update(0, (k, v)));
    } else {
        lemma_insert_at(es.drop_first(), k, v, i - 1);
        assert(insert_entry(es, k, v) =~= es.update(i, (k, v)));
    }
}

/// Where no entry is named `k`, insertion appends.
pub proof fn lemma_insert_absent(es: Seq<(Seq<char>, TreeV)>, k: Seq<char>, v: TreeV)
    requires
        forall|j: int| 0 <= j < es.len() ==> (#[trigger] es[j]).0 != k,
    ensures
        insert_entry(es, k, v) == es.push((k, v)),
    decreases es.len(),
{
    if es.len() == 0 {
        assert(insert_entry(es, k, v) =~= es.push((k, v)));
    } else {
        lemma_insert_absent(es.drop_first(), k, v);
        assert(insert_entry(es, k, v) =~= es.push((k, v)));
    }
}

/// What insertion does to lookups, lengths and well-formedness.
pub proof fn lemma_insert_entry_props(es: Seq<(Seq<char>, TreeV)>, k: Seq<char>, v: TreeV)
    ensures
        lookup_entries(insert_entry(es, k, v), k) == Some(v),
        forall|k2: Seq<char>| k2 != k ==> #[trigger] lookup_entries(insert_entry(es, k, v), k2)
            == lookup_entries(es, k2),
        lookup_entries(es, k) is Some ==> insert_entry(es, k, v).len() == es.len(),
        lookup_entries(es, k) is None ==> insert_entry(es, k, v).len() == es.len() + 1,
        forall|i: int| 0 <= i < insert_entry(es, k, v).len() ==> (#[trigger] insert_entry(
            es,
            k,
            v,
        )[i]) == (k, v) || exists|j: int| 0 <= j < es.len() && insert_entry(es, k, v)[i] == es[j],
        keys_unique(es) ==> keys_unique(insert_entry(es, k, v)),
    decreases es.len(),
{
    let r = insert_entry(es, k, v);
    if es.len() == 0 {
        assert(r.drop_first() =~= Seq::<(Seq<char>, TreeV)>::empty());
        assert forall|k2: Seq<char>| k2 != k implies #[trigger] lookup_entries(r, k2)
            == lookup_entries(es, k2) by {
            assert(lookup_entries(r, k2) == lookup_entries(r.drop_first(), k2));
        }
    } else if es[0].0 == k {
        assert(r[0] == (k, v));
        assert(r.drop_first() =~= es.drop_first());
        assert forall|k2: Seq<char>| k2 != k implies #[trigger] lookup_entries(r, k2)
            == lookup_entries(es, k2) by {
            assert(lookup_entries(r, k2) == lookup_entries(es.drop_first(), k2));
            assert(lookup_entries(es, k2) == lookup_entries(es.drop_first(), k2));
        }
        assert forall|i: int| 0 <= i < r.len() implies (#[trigger] r[i]) == (k, v) || exists|j: int|
            0 <= j < es.len() && r[i] == es[j] by {
            if i > 0 {
                assert(r[i] == es[i]);
            }
        }
    } else {
        lemma_insert_entry_props(es.drop_first(), k, v);
        let rr = insert_entry(es.drop_first(), k, v);
        assert(r[0] == es[0]);
        assert(r.drop_first() =~= rr);
        assert forall|k2: Seq<char>| k2 != k implies #[trigger] lookup_entries(r, k2)
            == lookup_entries(es, k2) by {
            if es[0].0 != k2 {
                assert(lookup_entries(r, k2) == lookup_entries(rr, k2));
                assert(lookup_entries(es, k2) == lookup_entries(es.drop_first(), k2));
            }
        }
        assert forall|i: int| 0 <= i < r.len() implies (#[trigger] r[i]) == (k, v) || exists|j: int|
            0 <= j < es.len() && r[i] == es[j] by {
            if i > 0 {
                assert(r[i] == rr[i - 1]);
                if rr[i - 1] != (k, v) {
                    let j = choose|j: int| 0 <= j < es.drop_first().len() && rr[i - 1]
                        == es.drop_first()[j];
                    assert(r[i] == es[j + 1]);
                }
            }
        }
        if keys_unique(es) {
            assert forall|i: int, j: int| 0 <= i < j < r.len() implies (#[trigger] r[i]).0 != (
            #[trigger] r[j]).0 by {
                if i == 0 {
                    if rr[j - 1] == (k, v) {
                        assert(r[j].0 == k);
                    } else {
                        let j2 = choose|j2: int| 0 <= j2 < es.drop_first().len() && rr[j - 1]
                            == es.drop_first()[j2];
                        assert(r[j] == es[j2 + 1]);
                    }
                } else {
                    assert(r[i] == rr[i - 1] && r[j] == rr[j - 1]);
                }
            }
        }
    }
}

/// A successful lookup returns the value of some entry named `k`.
pub proof fn lemma_lookup_member(es: Seq<(Seq<char>, TreeV)>, k: Seq<char>)
    ensures
        match lookup_entries(es, k) {
            Some(v) => exists|i: int| 0 <= i < es.len() && #[trigger] es[i] == (k, v),
            None => true,
        },
    decreases es.len(),
{
    if es.len() > 0 {
        if es[0].0 == k {
            assert(es[0] == (k, es[0].1));
        } else {
            lemma_lookup_member(es.drop_first(), k);
            if lookup_entries(es, k) is Some {
                let v = lookup_entries(es, k)->Some_0;
                let i = choose|i: int|
                    0 <= i < es.drop_first().len() && #[trigger] es.drop_first()[i] == (k, v);
                assert(es[i + 1] == (k, v));
            }
        }
    }
}

/// Insertion of a well-formed tree under a non-empty name keeps a child
/// list well-formed.
pub proof fn lemma_insert_wf(es: Seq<(Seq<char>, TreeV)>, k: Seq<char>, v: TreeV)
    requires
        entries_wf(es),
        k.len() > 0,
        tree_wf(v),
    ensures
        entries_wf(insert_entry(es, k, v)),
{
    lemma_insert_entry_props(es, k, v);
    let r = insert_entry(es, k, v);
    assert forall|i: int| 0 <= i < r.len() implies (#[trigger] r[i]).0.len() > 0 && tree_wf(
        r[i].1,
    ) by {
        if r[i] != (k, v) {
            let j = choose|j: int| 0 <= j < es.len() && r[i] == #[trigger] es[j];
            assert(es[j].0.len() > 0 && tree_wf(es[j].1));
        }
    }
}

/// The first child of `es` named `k`, as an index.
pub fn find_entry_index(es: &Vec<(String, Tree)>, k: &String) -> (r: Option<usize>)
    ensures
        match r {
            Some(i) => {
                &&& i < es@.len()
                &&& es@[i as int].0@ == k@
                &&& forall|j: int| 0 <= j < i ==> (#[trigger] es@[j]).0@ != k@
            },
            None => forall|j: int| 0 <= j < es@.len() ==> (#[trigger] es@[j]).0@ != k@,
        },
{
    let mut i: usize = 0;
    while i < es.len()
        invariant
            i <= es@.len(),
            forall|j: int| 0 <= j < i ==> (#[trigger] es@[j]).0@ != k@,
        decreases es@.len() - i,
    {
        if es[i].0 == *k {
            return Some(i);
        }
        i = i + 1;
    }
    None
}

/// Insert `t` under `name`, replacing in place any child of that name.
pub fn branch_insert(es: &mut Vec<(String, Tree)>, name: String, t: Tree)
    ensures
        entries_view(final(es)@) == insert_entry(entries_view(old(es)@), name@, tree_view(t)),
{
    let ghost es0 = es@;
    let ghost ev0 = entries_view(es@);
    proof {
        lemma_entries_view(es0);
    }
    match find_entry_index(es, &name) {
        Some(i) => {
            proof {
                assert forall|j: int| 0 <= j < i implies (#[trigger] ev0[j]).0 != name@ by {
                    assert(ev0[j] == (es0[j].0@, tree_view(es0[j].1)));
                }
                lemma_insert_at(ev0, name@, tree_view(t), i as int);
            }
            es.remove(i);
            es.insert(i, (name, t));
            proof {
                assert(es@ =~= es0.update(i as int, (name, t)));
                lemma_entries_view(es@);
                assert(entries_view(es@) =~= ev0.update(i as int, (name@, tree_view(t))));
            }
        },
        None => {
            proof {
                assert forall|j: int| 0 <= j < ev0.len() implies (#[trigger] ev0[j]).0 != name@ by {
                    assert(ev0[j] == (es0[j].0@, tree_view(es0[j].1)));
                }
                lemma_insert_absent(ev0, name@, tree_view(t));
            }
            es.push((name, t));
            proof {
                lemma_entries_view(es@);
                assert(entries_view(es@) =~= ev0.push((name@, tree_view(t))));
            }
        },
    }
}

/// Record one scanned file among a branch's children: hidden names are
/// skipped, any other name gets a leaf with the classified bytes.
pub fn add_file_entry(es: &mut Vec<(String, Tree)>, name: String, bytes: Vec<u8>)
    requires
        name@.len() > 0,
    ensures
        is_hidden_spec(name@) ==> entries_view(final(es)@) == entries_view(old(es)@),
        !is_hidden_spec(name@) ==> entries_view(final(es)@) == insert_entry(
            entries_view(old(es)@),
            name@,
            TreeV::Leaf(classify_spec(bytes@)),
        ),
{
    if is_hidden(name.as_str()) {
        return ;
    }
    let data = classify(bytes);
    branch_insert(es, name, Tree::Leaf(data));
}

/// Record one scanned subdirectory among a branch's children: hidden names
/// are skipped, any other name gets the given subtree.
pub fn add_dir_entry(es: &mut Vec<(String, Tree)>, name: String, subtree: Tree)
    requires
        name@.len() > 0,
    ensures
        is_hidden_spec(name@) ==> entries_view(final(es)@) == entries_view(old(es)@),
        !is_hidden_spec(name@) ==> entries_view(final(es)@) == insert_entry(
            entries_view(old(es)@),
            name@,
            tree_view(subtree),
        ),
{
    if is_hidden(name.as_str()) {
        return ;
    }
    branch_insert(es, name, subtree);
}

/// Follow `path` from `t` as a chain of child names.
pub fn navigate<'a>(t: &'a Tree, path: &Vec<String>) -> (r: Option<&'a Tree>)
    ensures
        match r {
            Some(sub) => lookup_path(t@, views_of(path@)) == Some(sub@),
            None => lookup_path(t@, views_of(path@)) is None,
        },
{
    let mut cur: &Tree = t;
    let mut i: usize = 0;
    proof {
        assert(views_of(path@).skip(0) =~= views_of(path@));
    }
    while i < path.len()
        invariant
            i <= path@.len(),
            lookup_path(t@, views_of(path@)) == lookup_path(
                cur@,
                views_of(path@).skip(i as int),
            ),
        decreases path@.len() - i,
    {
        let ghost rest = views_of(path@).skip(i as int);
        proof {
            assert(rest.len() > 0);
            assert(rest[0] == path@[i as int]@);
        }
        match cur {
            Tree::Leaf(_) => {
                return None;
            },
            Tree::Branch(es) => {
                proof {
                    lemma_entries_view(es@);
                }
                match find_entry_index(es, &path[i]) {
                    Some(j) => {
                        let ghost ev = entries_view(es@);
                        proof {
                            assert forall|j2: int| 0 <= j2 < j implies (#[trigger] ev[j2]).0
                                != rest[0] by {
                                assert(ev[j2] == (es@[j2].0@, tree_view(es@[j2].1)));
                            }
                            assert(ev[j as int] == (es@[j as int].0@, tree_view(es@[j as int].1)));
                            lemma_lookup_at(ev, rest[0], j as int);
                            assert(rest.skip(1) =~= views_of(path@).skip(i as int + 1));
                        }
                        cur = &es[j].1;
                    },
                    None => {
                        proof {
                            let ghost ev = entries_view(es@);
                            assert forall|j2: int| 0 <= j2 < ev.len() implies (#[trigger] ev[j2]).0
                                != rest[0] by {
                                assert(ev[j2] == (es@[j2].0@, tree_view(es@[j2].1)));
                            }
                            lemma_lookup_absent(ev, rest[0]);
                        }
                        return None;
                    },
                }
            },
        }
        i = i + 1;
    }
    proof {
        assert(views_of(path@).skip(i as int) =~= Seq::<Seq<char>>::empty());
    }
    Some(cur)
}

} // verus!
