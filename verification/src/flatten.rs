//! Flattening: recover the complete (path, content) list from a tree.
//!
//! Every branch exposes `files()`: one [`File`] per reachable leaf, whose
//! `path` is the dot-joined chain of child names from that branch down to
//! the leaf. Navigating the same chain back through the tree reaches
//! content equal to the file's `data`.

use vstd::prelude::*;

use crate::content::is_hidden_spec;
use crate::content::File;
use crate::content::FileV;
use crate::normalize::split_dots;
use crate::normalize::lemma_split_join;
use crate::normalize::lemma_split_single;
use crate::normalize::lemma_dot_index_at;
use crate::tree::entries_view;
use crate::tree::leaf_count;
use crate::tree::leaf_count_entries;
use crate::tree::lemma_entries_view;
use crate::tree::lookup_entries;
use crate::tree::lookup_path;
use crate::tree::tree_view;
use crate::tree::tree_wf;
use crate::tree::Tree;
use crate::tree::TreeV;

verus! {

/// Extend an accumulated dot-joined path by one more name.
pub open spec fn join_path(prefix: Seq<char>, k: Seq<char>) -> Seq<char> {
    if prefix.len() == 0 {
        k
    } else {
        prefix + seq!['.'] + k
    }
}

/// The files reachable from `t`, with `prefix` already accumulated.
pub open spec fn flatten_spec(t: TreeV, prefix: Seq<char>) -> Seq<FileV>
    decreases t,
{
    match t {
        TreeV::Leaf(d) => seq![FileV { path: prefix, data: d }],
        TreeV::Branch(es) => flatten_entries(es, prefix),
    }
}

/// The files reachable from a child list, in list order.
pub open spec fn flatten_entries(es: Seq<(Seq<char>, TreeV)>, prefix: Seq<char>) -> Seq<FileV>
    decreases es,
{
    if es.len() == 0 {
        Seq::empty()
    } else {
        flatten_spec(es[0].1, join_path(prefix, es[0].0)) + flatten_entries(
            es.drop_first(),
            prefix,
        )
    }
}

/// The mathematical values of a list of files.
pub open spec fn files_view(fs: Seq<File>) -> Seq<FileV> {
    fs.map_values(|f: File| f@)
}

/// Collect every file reachable from `t`, joining names with `'.'` onto
/// `prefix` (an empty prefix is omitted rather than joined).
pub fn get_files(t: &Tree, prefix: &str) -> (r: Vec<File>)
    ensures
        files_view(r@) == flatten_spec(t@, prefix@),
    decreases *t,
{
    match t {
        Tree::Leaf(d) => {
            let mut v: Vec<File> = Vec::new();
            v.push(File { path: prefix.to_owned(), data: d.duplicate() });
            proof {
                assert(files_view(v@) =~= flatten_spec(t@, prefix@));
            }
            v
        },
        Tree::Branch(es) => {
            let mut out: Vec<File> = Vec::new();
            let mut i: usize = 0;
            proof {
                assert(files_view(out@) =~= Seq::<FileV>::empty());
                assert(entries_view(es@).skip(0) =~= entries_view(es@));
            }
            while i < es.len()
                invariant
                    *t == Tree::Branch(*es),
                    0 <= i <= es@.len(),
                    files_view(out@) + flatten_entries(
                        entries_view(es@).skip(i as int),
                        prefix@,
                    ) == flatten_entries(entries_view(es@), prefix@),
                decreases es@.len() - i,
            {
                let ghost ev = entries_view(es@);
                let ghost rest = ev.skip(i as int);
                proof {
                    lemma_entries_view(es@);
                    assert(rest[0] == ev[i as int]);
                    assert(ev[i as int] == (es@[i as int].0@, tree_view(es@[i as int].1)));
                    assert(rest.drop_first() =~= ev.skip(i as int + 1));
                }
                let child_prefix: String = if prefix.unicode_len() == 0 {
                    es[i].0.clone()
                } else {
                    let mut s = prefix.to_owned();
                    s.append(".");
                    s.append(es[i].0.as_str());
                    proof {
                        reveal_strlit(".");
                        assert(s@ =~= prefix@ + seq!['.'] + es@[i as int].0@);
                    }
                    s
                };
                proof {
                    assert(child_prefix@ == join_path(prefix@, es@[i as int].0@));
                }
                let child: &Tree = &es[i].1;
                proof {
                    assert(decreases_to!(*t => (*t)->Branch_0));
                    assert((*t)->Branch_0 == *es);
                    assert(decreases_to!(*es => es@));
                    assert(decreases_to!(es@ => es@[i as int]));
                    assert(decreases_to!(es@[i as int] => es@[i as int].1));
                    assert(decreases_to!(*t => *child));
                }
                let mut sub = get_files(child, child_prefix.as_str());
                let ghost out0 = out@;
                let ghost sub0 = sub@;
                out.append(&mut sub);
                proof {
                    assert(out@ == out0 + sub0);
                    assert(files_view(out@) =~= files_view(out0) + files_view(sub0));
                    assert(files_view(sub0) == flatten_spec(rest[0].1, join_path(
                        prefix@,
                        rest[0].0,
                    )));
                    assert(flatten_entries(rest, prefix@) == flatten_spec(rest[0].1, join_path(
                        prefix@,
                        rest[0].0,
                    )) + flatten_entries(rest.drop_first(), prefix@));
                    assert(files_view(out@) + flatten_entries(ev.skip(i as int + 1), prefix@)
                        =~= files_view(out0) + flatten_entries(rest, prefix@));
                }
                i = i + 1;
            }
            proof {
                lemma_entries_view(es@);
                assert(entries_view(es@).skip(i as int) =~= Seq::<(Seq<char>, TreeV)>::empty());
                assert(files_view(out@) + flatten_entries(
                    Seq::<(Seq<char>, TreeV)>::empty(),
                    prefix@,
                ) =~= files_view(out@));
            }
            out
        },
    }
}

/// A name usable as one path segment: non-empty and free of dots.
pub open spec fn key_plain(k: Seq<char>) -> bool {
    k.len() > 0 && forall|c: int| 0 <= c < k.len() ==> k[c] != '.'
}

/// Every name in the tree is a plain segment. This is the no-collision
/// condition: a normalized tree of a directory without colliding names
/// satisfies it, and under it paths identify leaves uniquely.
pub open spec fn tree_plain(t: TreeV) -> bool
    decreases t,
{
    match t {
        TreeV::Leaf(_) => true,
        TreeV::Branch(es) => {
            &&& forall|i: int| 0 <= i < es.len() ==> key_plain((#[trigger] es[i]).0)
            &&& forall|i: int| 0 <= i < es.len() ==> tree_plain((#[trigger] es[i]).1)
        },
    }
}

/// Join an already dot-joined tail onto a prefix, omitting the separator
/// beside an empty side.
pub open spec fn combine(p: Seq<char>, q: Seq<char>) -> Seq<char> {
    if p.len() == 0 {
        q
    } else if q.len() == 0 {
        p
    } else {
        p + seq!['.'] + q
    }
}

/// Flattening under a prefix yields the same files as flattening from the
/// node itself, with the prefix joined onto every path.
proof fn lemma_flatten_prefix(t: TreeV, p: Seq<char>)
    requires
        tree_plain(t),
    ensures
        flatten_spec(t, p).len() == flatten_spec(t, Seq::empty()).len(),
        forall|j: int| 0 <= j < flatten_spec(t, p).len() ==> (#[trigger] flatten_spec(t, p)[j]).data
            == flatten_spec(t, Seq::empty())[j].data && flatten_spec(t, p)[j].path == combine(
            p,
            flatten_spec(t, Seq::empty())[j].path,
        ),
    decreases t,
{
    match t {
        TreeV::Leaf(_) => {
        },
        TreeV::Branch(es) => {
            lemma_flatten_prefix_entries(es, p);
        },
    }
}

/// [`lemma_flatten_prefix`], over a child list.
proof fn lemma_flatten_prefix_entries(es: Seq<(Seq<char>, TreeV)>, p: Seq<char>)
    requires
        forall|i: int| 0 <= i < es.len() ==> key_plain((#[trigger] es[i]).0),
        forall|i: int| 0 <= i < es.len() ==> tree_plain((#[trigger] es[i]).1),
    ensures
        flatten_entries(es, p).len() == flatten_entries(es, Seq::empty()).len(),
        forall|j: int| 0 <= j < flatten_entries(es, p).len() ==> (#[trigger] flatten_entries(
            es,
            p,
        )[j]).data == flatten_entries(es, Seq::empty())[j].data && flatten_entries(es, p)[j].path
            == combine(p, flatten_entries(es, Seq::empty())[j].path),
    decreases es,
{
    if es.len() == 0 {
    } else {
        let k0 = es[0].0;
        let c0 = es[0].1;
        let df = es.drop_first();
        lemma_flatten_prefix(c0, join_path(p, k0));
        lemma_flatten_prefix(c0, k0);
        assert(forall|i: int| 0 <= i < df.len() ==> (#[trigger] df[i]) == es[i + 1]);
        lemma_flatten_prefix_entries(df, p);
        let fc = flatten_spec(c0, Seq::empty());
        let ap = flatten_spec(c0, join_path(p, k0));
        let a0 = flatten_spec(c0, k0);
        let bp = flatten_entries(df, p);
        let b0 = flatten_entries(df, Seq::empty());
        assert(join_path(Seq::empty(), k0) == k0);
        assert forall|j: int| 0 <= j < ap.len() implies ap[j].data == a0[j].data && ap[j].path
            == combine(p, a0[j].path) by {
            let q = fc[j].path;
            assert(ap[j].path == combine(join_path(p, k0), q));
            assert(a0[j].path == combine(k0, q));
            if p.len() == 0 {
            } else if q.len() == 0 {
            } else {
                assert((p + seq!['.'] + k0) + seq!['.'] + q =~= p + seq!['.'] + (k0 + seq![
                    '.',
                ] + q));
            }
        }
        assert forall|j: int| 0 <= j < flatten_entries(es, p).len() implies (
        #[trigger] flatten_entries(es, p)[j]).data == flatten_entries(es, Seq::empty())[j].data
            && flatten_entries(es, p)[j].path == combine(
            p,
            flatten_entries(es, Seq::empty())[j].path,
        ) by {
            if j < ap.len() {
                assert(flatten_entries(es, p)[j] == ap[j]);
                assert(flatten_entries(es, Seq::empty())[j] == a0[j]);
            } else {
                assert(flatten_entries(es, p)[j] == bp[j - ap.len()]);
                assert(flatten_entries(es, Seq::empty())[j] == b0[j - ap.len()]);
            }
        }
    }
}

/// Splitting an empty path yields no segments.
proof fn lemma_split_empty()
    ensures
        split_dots(Seq::<char>::empty()) == Seq::<Seq<char>>::empty(),
{
    lemma_dot_index_at(Seq::<char>::empty(), 0);
}

/// The flattened files of a well-formed tree with plain names are exact:
/// one file per leaf, pairwise distinct paths, and every file's path
/// navigates from the tree back to exactly that file's content. No path
/// begins with `'.'`.
pub proof fn lemma_files_exact(t: TreeV)
    requires
        tree_wf(t),
        tree_plain(t),
    ensures
        flatten_spec(t, Seq::empty()).len() == leaf_count(t),
        forall|j: int| 0 <= j < flatten_spec(t, Seq::empty()).len() ==> lookup_path(
            t,
            split_dots((#[trigger] flatten_spec(t, Seq::empty())[j]).path),
        ) == Some(TreeV::Leaf(flatten_spec(t, Seq::empty())[j].data)),
        forall|j1: int, j2: int|
            0 <= j1 < j2 < flatten_spec(t, Seq::empty()).len() ==> split_dots(
                (#[trigger] flatten_spec(t, Seq::empty())[j1]).path,
            ) != split_dots((#[trigger] flatten_spec(t, Seq::empty())[j2]).path),
        forall|j1: int, j2: int|
            0 <= j1 < j2 < flatten_spec(t, Seq::empty()).len() ==> (
            #[trigger] flatten_spec(t, Seq::empty())[j1]).path != (#[trigger] flatten_spec(
                t,
                Seq::empty(),
            )[j2]).path,
        forall|j: int| 0 <= j < flatten_spec(t, Seq::empty()).len() ==> !is_hidden_spec(
            (#[trigger] flatten_spec(t, Seq::empty())[j]).path,
        ),
    decreases t,
{
    match t {
        TreeV::Leaf(_) => {
            lemma_split_empty();
        },
        TreeV::Branch(es) => {
            lemma_files_exact_entries(es);
        },
    }
}

/// [`lemma_files_exact`], over the child list of one branch.
proof fn lemma_files_exact_entries(es: Seq<(Seq<char>, TreeV)>)
    requires
        forall|i: int, i2: int|
            0 <= i < i2 < es.len() ==> (#[trigger] es[i]).0 != (#[trigger] es[i2]).0,
        forall|i: int| 0 <= i < es.len() ==> key_plain((#[trigger] es[i]).0),
        forall|i: int| 0 <= i < es.len() ==> tree_wf((#[trigger] es[i]).1),
        forall|i: int| 0 <= i < es.len() ==> tree_plain((#[trigger] es[i]).1),
    ensures
        flatten_entries(es, Seq::empty()).len() == leaf_count_entries(es),
        forall|j: int| 0 <= j < flatten_entries(es, Seq::empty()).len() ==> (
        #[trigger] flatten_entries(es, Seq::empty())[j]).path.len() > 0,
        forall|j: int| 0 <= j < flatten_entries(es, Seq::empty()).len() ==> split_dots(
            (#[trigger] flatten_entries(es, Seq::empty())[j]).path,
        ).len() > 0,
        forall|j: int| 0 <= j < flatten_entries(es, Seq::empty()).len() ==> exists|i: int|
            0 <= i < es.len() && split_dots(
                (#[trigger] flatten_entries(es, Seq::empty())[j]).path,
            )[0] == es[i].0,
        forall|j: int| 0 <= j < flatten_entries(es, Seq::empty()).len() ==> lookup_path(
            TreeV::Branch(es),
            split_dots((#[trigger] flatten_entries(es, Seq::empty())[j]).path),
        ) == Some(TreeV::Leaf(flatten_entries(es, Seq::empty())[j].data)),
        forall|j1: int, j2: int|
            0 <= j1 < j2 < flatten_entries(es, Seq::empty()).len() ==> split_dots(
                (#[trigger] flatten_entries(es, Seq::empty())[j1]).path,
            ) != split_dots((#[trigger] flatten_entries(es, Seq::empty())[j2]).path),
        forall|j: int| 0 <= j < flatten_entries(es, Seq::empty()).len() ==> !is_hidden_spec(
            (#[trigger] flatten_entries(es, Seq::empty())[j]).path,
        ),
    decreases es,
{
    if es.len() == 0 {
    } else {
        let k0 = es[0].0;
        let c0 = es[0].1;
        let df = es.drop_first();
        assert(forall|i: int| 0 <= i < df.len() ==> (#[trigger] df[i]) == es[i + 1]);
        lemma_files_exact(c0);
        lemma_files_exact_entries(df);
        lemma_flatten_prefix(c0, k0);
        let fc = flatten_spec(c0, Seq::empty());
        let a = flatten_spec(c0, join_path(Seq::empty(), k0));
        let b = flatten_entries(df, Seq::empty());
        let f = flatten_entries(es, Seq::empty());
        assert(join_path(Seq::empty(), k0) == k0);
        assert(f == a + b);
        assert(key_plain(k0));
        // Each file of the first child splits to k0 followed by its own split.
        assert forall|j: int| 0 <= j < a.len() implies a[j].path.len() > 0 && split_dots(
            a[j].path,
        ) == seq![k0] + split_dots(fc[j].path) && a[j].data == fc[j].data && !is_hidden_spec(
            a[j].path,
        ) by {
            let q = fc[j].path;
            assert(a[j].path == combine(k0, q));
            if q.len() == 0 {
                lemma_split_single(k0);
                lemma_split_empty();
                assert(seq![k0] + split_dots(q) =~= seq![k0]);
            } else {
                lemma_split_join(k0, q);
                assert(combine(k0, q) == k0 + seq!['.'] + q);
            }
            assert(a[j].path[0] == k0[0]);
        }
        // Round trip for files of the first child.
        assert forall|j: int| 0 <= j < a.len() implies lookup_path(
            TreeV::Branch(es),
            split_dots(a[j].path),
        ) == Some(TreeV::Leaf(a[j].data)) by {
            let sp = seq![k0] + split_dots(fc[j].path);
            assert(sp[0] == k0);
            assert(lookup_entries(es, k0) == Some(c0));
            assert(sp.drop_first() =~= split_dots(fc[j].path));
            assert(lookup_path(c0, split_dots(fc[j].path)) == Some(TreeV::Leaf(fc[j].data)));
        }
        // Files of the remaining children look up past the first entry.
        assert forall|j: int| 0 <= j < b.len() implies lookup_path(
            TreeV::Branch(es),
            split_dots(b[j].path),
        ) == Some(TreeV::Leaf(b[j].data)) && split_dots(b[j].path)[0] != k0 by {
            let sp = split_dots(b[j].path);
            let i = choose|i: int| 0 <= i < df.len() && sp[0] == df[i].0;
            assert(es[i + 1].0 == df[i].0);
            assert(sp[0] != k0);
            assert(lookup_entries(es, sp[0]) == lookup_entries(df, sp[0]));
            assert(lookup_path(TreeV::Branch(df), sp) == Some(TreeV::Leaf(b[j].data)));
        }
        // Transfer all clauses to the concatenation.
        assert forall|j: int| 0 <= j < f.len() implies (#[trigger] f[j]).path.len() > 0
            && split_dots(f[j].path).len() > 0 && !is_hidden_spec(f[j].path) && lookup_path(
            TreeV::Branch(es),
            split_dots(f[j].path),
        ) == Some(TreeV::Leaf(f[j].data)) && (exists|i: int|
            0 <= i < es.len() && split_dots(f[j].path)[0] == es[i].0) by {
            if j < a.len() {
                assert(f[j] == a[j]);
                assert(split_dots(f[j].path)[0] == es[0].0);
            } else {
                assert(f[j] == b[j - a.len()]);
                let jb = j - a.len();
                let i = choose|i: int| 0 <= i < df.len() && split_dots(b[jb].path)[0] == df[i].0;
                assert(split_dots(f[j].path)[0] == es[i + 1].0);
            }
        }
        // Distinctness of split paths.
        assert forall|j1: int, j2: int| 0 <= j1 < j2 < f.len() implies split_dots(
            (#[trigger] f[j1]).path,
        ) != split_dots((#[trigger] f[j2]).path) by {
            if j2 < a.len() {
                assert(f[j1] == a[j1] && f[j2] == a[j2]);
                assert(split_dots(fc[j1].path) != split_dots(fc[j2].path));
                let s1 = seq![k0] + split_dots(fc[j1].path);
                let s2 = seq![k0] + split_dots(fc[j2].path);
                if s1 == s2 {
                    assert(s1.drop_first() =~= split_dots(fc[j1].path));
                    assert(s2.drop_first() =~= split_dots(fc[j2].path));
                }
            } else if j1 >= a.len() {
                assert(f[j1] == b[j1 - a.len()] && f[j2] == b[j2 - a.len()]);
            } else {
                assert(f[j1] == a[j1] && f[j2] == b[j2 - a.len()]);
                assert(split_dots(f[j1].path)[0] == k0);
                assert(split_dots(f[j2].path)[0] != k0);
            }
        }
        assert(leaf_count_entries(es) == leaf_count(c0) + leaf_count_entries(df));
    }
}

/// The capability every branch-derived value exposes: enumerate all
/// descendant files.
pub trait Directory {
    /// The tree this value stands for.
    spec fn dir_tree(&self) -> TreeV;

    /// All files reachable from this value, recursively. Paths use `'.'` as
    /// the separator, exactly as the same chain reads as field accesses.
    fn files(&self) -> (r: Vec<File>)
        ensures
            files_view(r@) == flatten_spec(self.dir_tree(), Seq::empty()),
    ;
}

impl Directory for Tree {
    open spec fn dir_tree(&self) -> TreeV {
        tree_view(*self)
    }

    fn files(&self) -> (r: Vec<File>) {
        let r = get_files(self, "");
        proof {
            reveal_strlit("");
            assert(""@ =~= Seq::<char>::empty());
        }
        r
    }
}

} // verus!
