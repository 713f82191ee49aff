//! The dotted-name normalizer.
//!
//! Within a branch, a leaf child whose name contains `'.'` stands for an
//! implicit nested structure: the name is split on `'.'`, empty segments are
//! dropped, and the segments are merged into the sibling map as a chain of
//! branches ending in the leaf. Real subdirectory names are never re-split.
//! Where the merge descends through an entry that is a leaf, that leaf is
//! silently replaced by a fresh branch and its content is discarded: the
//! later-processed name wins.

use vstd::prelude::*;

use crate::content::FileData;
use crate::content::FileDataV;
use crate::tree::entries_view;
use crate::tree::find_entry_index;
use crate::tree::insert_entry;
use crate::tree::branch_insert;
use crate::tree::lemma_entries_view;
use crate::tree::lemma_insert_absent;
use crate::tree::lemma_insert_at;
use crate::tree::lemma_insert_entry_props;
use crate::tree::lemma_insert_wf;
use crate::tree::lemma_lookup_member;
use crate::tree::entries_wf;
use crate::tree::tree_wf;
use crate::tree::lemma_lookup_absent;
use crate::tree::lemma_lookup_at;
use crate::tree::lookup_entries;
use crate::tree::tree_view;
use crate::tree::views_of;
use crate::tree::Tree;
use crate::tree::TreeV;

verus! {

/// Length of the longest prefix of `s` that holds no `'.'`.
pub open spec fn dot_index(s: Seq<char>) -> int
    decreases s.len(),
{
    if s.len() == 0 {
        0
    } else if s[0] == '.' {
        0
    } else {
        1 + dot_index(s.drop_first())
    }
}

/// `dot_index` points at the first dot, or at the end where there is none.
pub proof fn lemma_dot_index(s: Seq<char>)
    ensures
        0 <= dot_index(s) <= s.len(),
        dot_index(s) < s.len() ==> s[dot_index(s)] == '.',
        forall|j: int| 0 <= j < dot_index(s) ==> s[j] != '.',
    decreases s.len(),
{
    if s.len() > 0 && s[0] != '.' {
        lemma_dot_index(s.drop_first());
        assert forall|j: int| 0 <= j < dot_index(s) implies s[j] != '.' by {
            if j > 0 {
                assert(s.drop_first()[j - 1] != '.');
                assert(s[j] == s.drop_first()[j - 1]);
            }
        }
    }
}

/// The first dot position is the only position that is a dot with no dot
/// before it; with no dot at all it is the length.
pub proof fn lemma_dot_index_at(s: Seq<char>, i: int)
    requires
        0 <= i <= s.len(),
        i < s.len() ==> s[i] == '.',
        forall|j: int| 0 <= j < i ==> s[j] != '.',
    ensures
        dot_index(s) == i,
{
    lemma_dot_index(s);
    let d = dot_index(s);
    if d < i {
        assert(s[d] != '.');
    }
    if d > i {
        assert(s[i] != '.');
    }
}

/// Split a name on `'.'`, dropping empty segments.
pub open spec fn split_dots(s: Seq<char>) -> Seq<Seq<char>>
    decreases s.len(),
{
    let i = dot_index(s);
    if i < 0 || i > s.len() {
        Seq::empty()
    } else if i == s.len() {
        if s.len() == 0 {
            Seq::empty()
        } else {
            seq![s]
        }
    } else {
        let rest = split_dots(s.skip(i + 1));
        if i == 0 {
            rest
        } else {
            seq![s.subrange(0, i)] + rest
        }
    }
}

/// Every segment of a split is non-empty and holds no dot.
pub proof fn lemma_split_dots_segments(s: Seq<char>)
    ensures
        forall|j: int| 0 <= j < split_dots(s).len() ==> (#[trigger] split_dots(s)[j]).len() > 0,
        forall|j: int, c: int|
            0 <= j < split_dots(s).len() && 0 <= c < split_dots(s)[j].len() ==> (
            #[trigger] split_dots(s)[j][c]) != '.',
    decreases s.len(),
{
    lemma_dot_index(s);
    let i = dot_index(s);
    if i == s.len() {
    } else {
        lemma_split_dots_segments(s.skip(i + 1));
        let rest = split_dots(s.skip(i + 1));
        if i > 0 {
            let r = seq![s.subrange(0, i)] + rest;
            assert forall|j: int| 0 <= j < r.len() implies (#[trigger] r[j]).len() > 0 by {
                if j > 0 {
                    assert(r[j] == rest[j - 1]);
                }
            }
            assert forall|j: int, c: int|
                0 <= j < r.len() && 0 <= c < r[j].len() implies (#[trigger] r[j][c]) != '.' by {
                if j > 0 {
                    assert(r[j] == rest[j - 1]);
                }
            }
        }
    }
}

/// A non-empty name with no dot splits to itself alone.
pub proof fn lemma_split_single(k: Seq<char>)
    requires
        k.len() > 0,
        forall|j: int| 0 <= j < k.len() ==> k[j] != '.',
    ensures
        split_dots(k) == seq![k],
{
    lemma_dot_index_at(k, k.len() as int);
}

/// Splitting `k . q` where `k` is a dot-free non-empty segment peels `k` off.
pub proof fn lemma_split_join(k: Seq<char>, q: Seq<char>)
    requires
        k.len() > 0,
        forall|j: int| 0 <= j < k.len() ==> k[j] != '.',
    ensures
        split_dots(k + seq!['.'] + q) == seq![k] + split_dots(q),
{
    let s = k + seq!['.'] + q;
    assert forall|j: int| 0 <= j < k.len() implies s[j] != '.' by {
        assert(s[j] == k[j]);
    }
    assert(s[k.len() as int] == '.');
    lemma_dot_index_at(s, k.len() as int);
    assert(s.subrange(0, k.len() as int) =~= k);
    assert(s.skip(k.len() as int + 1) =~= q);
}

/// The first dot of a name, as a character index, or the length where the
/// name has none.
pub fn find_dot(s: &str) -> (i: usize)
    ensures
        i as int == dot_index(s@),
        i <= s@.len(),
{
    proof {
        lemma_dot_index(s@);
    }
    let n = s.unicode_len();
    let mut i: usize = 0;
    while i < n
        invariant
            n == s@.len(),
            i <= n,
            forall|j: int| 0 <= j < i ==> s@[j] != '.',
        decreases n - i,
    {
        if s.get_char(i) == '.' {
            proof {
                lemma_dot_index_at(s@, i as int);
            }
            return i;
        }
        i = i + 1;
    }
    proof {
        lemma_dot_index_at(s@, n as int);
    }
    n
}

/// Split a file name on `'.'` into its non-empty segments.
///
/// A name made of dots alone (or empty) yields no segments.
pub fn split_name(name: &str) -> (parts: Vec<String>)
    ensures
        views_of(parts@) == split_dots(name@),
        forall|j: int| 0 <= j < parts@.len() ==> (#[trigger] parts@[j])@.len() > 0,
    decreases name@.len(),
{
    let n = name.unicode_len();
    let i = find_dot(name);
    if i == n {
        let mut v: Vec<String> = Vec::new();
        if n > 0 {
            v.push(name.to_owned());
        }
        proof {
            assert(views_of(v@) =~= split_dots(name@));
        }
        v
    } else {
        let rest = name.substring_char(i + 1, n);
        let mut tail = split_name(rest);
        let ghost tail0 = tail@;
        proof {
            assert(rest@ == name@.skip(i as int + 1));
        }
        if i > 0 {
            let head = name.substring_char(0, i);
            tail.insert(0, head.to_owned());
            proof {
                assert(views_of(tail@) =~= seq![name@.subrange(0, i as int)] + views_of(tail0));
            }
        }
        proof {
            assert(views_of(tail@) =~= split_dots(name@));
        }
        tail
    }
}

/// What merging a segment chain into a sibling map yields: all but the last
/// segment become branches descended into (a fresh empty branch where the
/// entry is absent or is a leaf — the leaf's content is discarded), and the
/// last segment becomes a leaf with the content.
pub open spec fn merge_spec(
    es: Seq<(Seq<char>, TreeV)>,
    parts: Seq<Seq<char>>,
    d: FileDataV,
) -> Seq<(Seq<char>, TreeV)>
    decreases parts.len(),
{
    if parts.len() == 0 {
        es
    } else if parts.len() == 1 {
        insert_entry(es, parts[0], TreeV::Leaf(d))
    } else {
        let sub = match lookup_entries(es, parts[0]) {
            Some(TreeV::Branch(inner)) => inner,
            _ => Seq::empty(),
        };
        insert_entry(es, parts[0], TreeV::Branch(merge_spec(sub, parts.drop_first(), d)))
    }
}

/// Merge the tail of `parts`, starting at `from`, into `map`.
fn merge_from(map: &mut Vec<(String, Tree)>, parts: &[String], from: usize, file: FileData)
    requires
        from < parts@.len(),
    ensures
        entries_view(final(map)@) == merge_spec(
            entries_view(old(map)@),
            views_of(parts@).skip(from as int),
            file@,
        ),
    decreases parts@.len() - from,
{
    let ghost ps = views_of(parts@).skip(from as int);
    let ghost ev0 = entries_view(map@);
    let ghost k = parts@[from as int]@;
    proof {
        lemma_entries_view(map@);
        assert(ps[0] == k);
    }
    if parts.len() - from == 1 {
        branch_insert(map, parts[from].clone(), Tree::Leaf(file));
        return ;
    }
    match find_entry_index(map, &parts[from]) {
        Some(idx) => {
            let ghost m0 = map@;
            proof {
                assert forall|j: int| 0 <= j < idx implies (#[trigger] ev0[j]).0 != k by {
                    assert(ev0[j] == (m0[j].0@, tree_view(m0[j].1)));
                }
                assert(ev0[idx as int] == (m0[idx as int].0@, tree_view(m0[idx as int].1)));
                lemma_lookup_at(ev0, k, idx as int);
            }
            let entry = map.remove(idx);
            let k0 = entry.0;
            let ghost subv: Seq<(Seq<char>, TreeV)> = match lookup_entries(ev0, k) {
                Some(TreeV::Branch(inner)) => inner,
                _ => Seq::empty(),
            };
            let mut sub: Vec<(String, Tree)> = match entry.1 {
                Tree::Branch(inner) => inner,
                Tree::Leaf(_) => Vec::new(),
            };
            proof {
                assert(entries_view(sub@) =~= subv);
            }
            merge_from(&mut sub, parts, from + 1, file);
            proof {
                assert(views_of(parts@).skip(from as int + 1) =~= ps.drop_first());
            }
            map.insert(idx, (k0, Tree::Branch(sub)));
            proof {
                let merged = TreeV::Branch(merge_spec(subv, ps.drop_first(), file@));
                lemma_insert_at(ev0, k, merged, idx as int);
                assert(map@ =~= m0.update(idx as int, (k0, Tree::Branch(sub))));
                lemma_entries_view(map@);
                assert(entries_view(map@) =~= ev0.update(idx as int, (k, merged)));
            }
        },
        None => {
            let ghost m0 = map@;
            proof {
                assert forall|j: int| 0 <= j < ev0.len() implies (#[trigger] ev0[j]).0 != k by {
                    assert(ev0[j] == (m0[j].0@, tree_view(m0[j].1)));
                }
                lemma_lookup_absent(ev0, k);
            }
            let mut sub: Vec<(String, Tree)> = Vec::new();
            proof {
                assert(entries_view(sub@) =~= Seq::<(Seq<char>, TreeV)>::empty());
            }
            merge_from(&mut sub, parts, from + 1, file);
            proof {
                assert(views_of(parts@).skip(from as int + 1) =~= ps.drop_first());
            }
            map.push((parts[from].clone(), Tree::Branch(sub)));
            proof {
                let merged = TreeV::Branch(
                    merge_spec(Seq::empty(), ps.drop_first(), file@),
                );
                lemma_insert_absent(ev0, k, merged);
                lemma_entries_view(map@);
                assert(entries_view(map@) =~= ev0.push((k, merged)));
            }
        },
    }
}

/// Merge one dotted name's segment chain and content into a sibling map.
///
/// With no segments the map is unchanged. Intermediate segments become
/// branches; an existing leaf in the way is overwritten by a fresh branch
/// and its content is lost; the last segment gets a leaf with `file`.
pub fn merge_into_map(map: &mut Vec<(String, Tree)>, parts: &[String], file: FileData)
    ensures
        entries_view(final(map)@) == merge_spec(
            entries_view(old(map)@),
            views_of(parts@),
            file@,
        ),
{
    if parts.len() == 0 {
        return ;
    }
    merge_from(map, parts, 0, file);
    proof {
        assert(views_of(parts@).skip(0) =~= views_of(parts@));
    }
}

/// The merge's conflict policy, stated generally. The last segment's leaf
/// replaces any existing entry of that name. An intermediate segment whose
/// entry is absent or is a leaf gets a fresh branch built from the
/// remaining segments alone: whatever content stood there before does not
/// survive.
pub proof fn lemma_merge_conflict(
    es: Seq<(Seq<char>, TreeV)>,
    parts: Seq<Seq<char>>,
    d: FileDataV,
)
    requires
        parts.len() > 0,
    ensures
        parts.len() == 1 ==> lookup_entries(merge_spec(es, parts, d), parts[0]) == Some(
            TreeV::Leaf(d),
        ),
        parts.len() > 1 && !(lookup_entries(es, parts[0]) is Some && lookup_entries(
            es,
            parts[0],
        )->Some_0 is Branch) ==> lookup_entries(merge_spec(es, parts, d), parts[0]) == Some(
            TreeV::Branch(merge_spec(Seq::empty(), parts.drop_first(), d)),
        ),
{
    if parts.len() == 1 {
        lemma_insert_entry_props(es, parts[0], TreeV::Leaf(d));
    } else {
        let sub = match lookup_entries(es, parts[0]) {
            Some(TreeV::Branch(inner)) => inner,
            _ => Seq::<(Seq<char>, TreeV)>::empty(),
        };
        lemma_insert_entry_props(
            es,
            parts[0],
            TreeV::Branch(merge_spec(sub, parts.drop_first(), d)),
        );
    }
}

/// Merging a chain of non-empty segments keeps a child list well-formed.
pub proof fn lemma_merge_wf(es: Seq<(Seq<char>, TreeV)>, parts: Seq<Seq<char>>, d: FileDataV)
    requires
        entries_wf(es),
        forall|i: int| 0 <= i < parts.len() ==> (#[trigger] parts[i]).len() > 0,
    ensures
        entries_wf(merge_spec(es, parts, d)),
    decreases parts.len(),
{
    if parts.len() == 0 {
    } else if parts.len() == 1 {
        lemma_insert_wf(es, parts[0], TreeV::Leaf(d));
    } else {
        let sub = match lookup_entries(es, parts[0]) {
            Some(TreeV::Branch(inner)) => inner,
            _ => Seq::<(Seq<char>, TreeV)>::empty(),
        };
        lemma_lookup_member(es, parts[0]);
        let looked = lookup_entries(es, parts[0]);
        if looked is Some && looked->Some_0 is Branch {
            let v = looked->Some_0;
            let i = choose|i: int| 0 <= i < es.len() && #[trigger] es[i] == (parts[0], v);
            assert(tree_wf(es[i].1));
            assert(entries_wf(v->Branch_0));
        }
        assert(entries_wf(sub));
        assert(forall|i: int|
            0 <= i < parts.drop_first().len() ==> (#[trigger] parts.drop_first()[i]).len() > 0);
        lemma_merge_wf(sub, parts.drop_first(), d);
        lemma_insert_wf(es, parts[0], TreeV::Branch(merge_spec(sub, parts.drop_first(), d)));
    }
}

/// Normalization keeps a tree well-formed: names stay non-empty and
/// unique within each branch.
pub proof fn lemma_normalize_wf(t: TreeV)
    requires
        tree_wf(t),
    ensures
        tree_wf(normalize_spec(t)),
    decreases t, 0int,
{
    match t {
        TreeV::Leaf(_) => {
        },
        TreeV::Branch(es) => {
            assert(entries_wf(Seq::<(Seq<char>, TreeV)>::empty()));
            lemma_normalize_entries_wf(es, 0, Seq::empty());
        },
    }
}

/// [`lemma_normalize_wf`], over the normalization fold.
proof fn lemma_normalize_entries_wf(
    es: Seq<(Seq<char>, TreeV)>,
    i: int,
    acc: Seq<(Seq<char>, TreeV)>,
)
    requires
        forall|j: int| 0 <= j < es.len() ==> (#[trigger] es[j]).0.len() > 0,
        forall|j: int| 0 <= j < es.len() ==> tree_wf((#[trigger] es[j]).1),
        entries_wf(acc),
    ensures
        entries_wf(normalize_entries(es, i, acc)),
    decreases es, es.len() - i,
{
    if 0 <= i < es.len() {
        let acc2 = match es[i].1 {
            TreeV::Leaf(d) => {
                let parts = split_dots(es[i].0);
                if parts.len() == 0 {
                    insert_entry(acc, es[i].0, TreeV::Leaf(d))
                } else {
                    merge_spec(acc, parts, d)
                }
            },
            TreeV::Branch(_) => insert_entry(acc, es[i].0, normalize_spec(es[i].1)),
        };
        match es[i].1 {
            TreeV::Leaf(d) => {
                let parts = split_dots(es[i].0);
                if parts.len() == 0 {
                    lemma_insert_wf(acc, es[i].0, TreeV::Leaf(d));
                } else {
                    lemma_split_dots_segments(es[i].0);
                    lemma_merge_wf(acc, parts, d);
                }
            },
            TreeV::Branch(_) => {
                lemma_normalize_wf(es[i].1);
                lemma_insert_wf(acc, es[i].0, normalize_spec(es[i].1));
            },
        }
        lemma_normalize_entries_wf(es, i + 1, acc2);
    }
}

/// What normalization yields: each branch's leaf children are re-split on
/// `'.'` and merged; branch children are normalized and kept under their
/// original names; children are processed in list order.
pub open spec fn normalize_spec(t: TreeV) -> TreeV
    decreases t, 0int,
{
    match t {
        TreeV::Leaf(d) => TreeV::Leaf(d),
        TreeV::Branch(es) => TreeV::Branch(normalize_entries(es, 0, Seq::empty())),
    }
}

/// Fold normalization over the children of one branch, from `i` on, into the
/// accumulator `acc`.
pub open spec fn normalize_entries(
    es: Seq<(Seq<char>, TreeV)>,
    i: int,
    acc: Seq<(Seq<char>, TreeV)>,
) -> Seq<(Seq<char>, TreeV)>
    decreases es, es.len() - i,
{
    if i < 0 || i >= es.len() {
        acc
    } else {
        let acc2 = match es[i].1 {
            TreeV::Leaf(d) => {
                let parts = split_dots(es[i].0);
                if parts.len() == 0 {
                    insert_entry(acc, es[i].0, TreeV::Leaf(d))
                } else {
                    merge_spec(acc, parts, d)
                }
            },
            TreeV::Branch(_) => insert_entry(acc, es[i].0, normalize_spec(es[i].1)),
        };
        normalize_entries(es, i + 1, acc2)
    }
}

/// Normalize a tree: rewrite each branch's dotted leaf names into nested
/// structure, merged with the real subdirectories already present.
pub fn process_tree(tree: Tree) -> (r: Tree)
    ensures
        r@ == normalize_spec(tree@),
{
    normalize_tree(&tree)
}

/// Recursive worker behind [`process_tree`].
fn normalize_tree(t: &Tree) -> (r: Tree)
    ensures
        r@ == normalize_spec(t@),
    decreases *t,
{
    match t {
        Tree::Leaf(d) => Tree::Leaf(d.duplicate()),
        Tree::Branch(map) => {
            let ghost es0 = map@;
            let mut new_map: Vec<(String, Tree)> = Vec::new();
            let mut i: usize = 0;
            proof {
                assert(entries_view(new_map@) =~= Seq::<(Seq<char>, TreeV)>::empty());
            }
            while i < map.len()
                invariant
                    *t == Tree::Branch(*map),
                    es0 == map@,
                    0 <= i <= es0.len(),
                    normalize_entries(entries_view(es0), 0, Seq::empty()) == normalize_entries(
                        entries_view(es0),
                        i as int,
                        entries_view(new_map@),
                    ),
                decreases es0.len() - i,
            {
                let ghost ev = entries_view(es0);
                let ghost accv = entries_view(new_map@);
                proof {
                    lemma_entries_view(es0);
                    assert(ev[i as int] == (es0[i as int].0@, tree_view(es0[i as int].1)));
                }
                let k = map[i].0.clone();
                let child: &Tree = &map[i].1;
                match child {
                    Tree::Leaf(d) => {
                        let parts = split_name(k.as_str());
                        if parts.len() == 0 {
                            branch_insert(&mut new_map, k, Tree::Leaf(d.duplicate()));
                        } else {
                            merge_into_map(&mut new_map, parts.as_slice(), d.duplicate());
                        }
                    },
                    Tree::Branch(_) => {
                        proof {
                            assert(decreases_to!(*t => (*t)->Branch_0));
                            assert((*t)->Branch_0 == *map);
                            assert(decreases_to!(*map => map@));
                            assert(decreases_to!(map@ => map@[i as int]));
                            assert(decreases_to!(map@[i as int] => map@[i as int].1));
                            assert(decreases_to!(*t => *child));
                        }
                        let nv = normalize_tree(child);
                        branch_insert(&mut new_map, k, nv);
                    },
                }
                proof {
                    assert(normalize_entries(ev, i as int, accv) == normalize_entries(
                        ev,
                        i as int + 1,
                        entries_view(new_map@),
                    ));
                }
                i = i + 1;
            }
            proof {
                assert(i == es0.len());
                lemma_entries_view(es0);
                assert(normalize_entries(entries_view(es0), i as int, entries_view(new_map@))
                    == entries_view(new_map@));
            }
            Tree::Branch(new_map)
        },
    }
}

} // verus!
