//! Schema synthesis: one record type per branch of the normalized tree.
//!
//! The root branch gets the caller-supplied name. A nested branch reached
//! through field `k` under a parent named `p` is named `p` followed by the
//! PascalCase form of `k`, concatenated without a separator. Every field
//! name and type name must be a valid identifier, else synthesis fails
//! with the offending name.

use vstd::prelude::*;

use crate::content::FileData;
use crate::content::FileDataV;
use crate::tree::entries_view;
use crate::tree::lemma_entries_view;
use crate::tree::tree_view;
use crate::tree::Tree;
use crate::tree::TreeV;

verus! {

/// PascalCase form of a name, as heck computes it.
pub uninterp spec fn pascal_of(s: Seq<char>) -> Seq<char>;

/// snake_case form of a name, as heck computes it.
pub uninterp spec fn snake_of(s: Seq<char>) -> Seq<char>;

/// Relies on `heck::ToPascalCase::to_pascal_case`: the result depends on
/// the input characters alone.
#[verifier::external_body]
pub(crate) fn to_pascal_case(s: &str) -> (r: String)
    ensures
        r@ == pascal_of(s@),
{
    heck::ToPascalCase::to_pascal_case(s)
}

/// Relies on `heck::ToSnekCase::to_snek_case`: the result depends on the
/// input characters alone.
#[verifier::external_body]
pub(crate) fn to_snake_case(s: &str) -> (r: String)
    ensures
        r@ == snake_of(s@),
{
    heck::ToSnekCase::to_snek_case(s)
}

/// A character that may begin an identifier.
pub open spec fn ident_start_char(c: char) -> bool {
    ('a' as u32 <= c as u32 && c as u32 <= 'z' as u32) || ('A' as u32 <= c as u32 && c as u32
        <= 'Z' as u32) || c == '_'
}

/// A character that may continue an identifier.
pub open spec fn ident_char(c: char) -> bool {
    ident_start_char(c) || ('0' as u32 <= c as u32 && c as u32 <= '9' as u32)
}

/// A name usable as an identifier in the target representation.
pub open spec fn is_valid_ident(s: Seq<char>) -> bool {
    &&& s.len() > 0
    &&& ident_start_char(s[0])
    &&& forall|i: int| 0 <= i < s.len() ==> ident_char(#[trigger] s[i])
}

/// Whether `s` is usable as an identifier.
pub fn check_ident(s: &str) -> (r: bool)
    ensures
        r == is_valid_ident(s@),
{
    let n = s.unicode_len();
    if n == 0 {
        return false;
    }
    let c0 = s.get_char(0);
    if !((c0 as u32 >= 'a' as u32 && c0 as u32 <= 'z' as u32) || (c0 as u32 >= 'A' as u32 && c0
        as u32 <= 'Z' as u32) || c0 == '_') {
        return false;
    }
    let mut i: usize = 1;
    while i < n
        invariant
            n == s@.len(),
            1 <= i <= n,
            forall|j: int| 0 <= j < i ==> ident_char(#[trigger] s@[j]),
        decreases n - i,
    {
        let c = s.get_char(i);
        if !((c as u32 >= 'a' as u32 && c as u32 <= 'z' as u32) || (c as u32 >= 'A' as u32 && c
            as u32 <= 'Z' as u32) || (c as u32 >= '0' as u32 && c as u32 <= '9' as u32) || c
            == '_') {
            return false;
        }
        i = i + 1;
    }
    true
}

/// How generation fails.
#[derive(Debug, Clone, PartialEq)]
pub enum GenError {
    /// The root path did not exist at generation time.
    PathNotFound,
    /// A derived field or type name is not usable as an identifier.
    InvalidIdentifier(String),
}

/// The type of one synthesized field: a nested record type, or one of the
/// two content kinds.
#[derive(Debug, Clone, PartialEq)]
pub enum FieldType {
    Named(String),
    TextKind,
    BlobKind,
}

/// Mathematical value of a [`FieldType`].
#[verifier::ext_equal]
pub enum FieldTypeV {
    Named(Seq<char>),
    TextKind,
    BlobKind,
}

impl View for FieldType {
    type V = FieldTypeV;

    open spec fn view(&self) -> FieldTypeV {
        match self {
            FieldType::Named(s) => FieldTypeV::Named(s@),
            FieldType::TextKind => FieldTypeV::TextKind,
            FieldType::BlobKind => FieldTypeV::BlobKind,
        }
    }
}

/// One synthesized record type: its name and its ordered field list.
#[derive(Debug, Clone, PartialEq)]
pub struct SchemaEntry {
    pub tname: String,
    pub fields: Vec<(String, FieldType)>,
}

/// Mathematical value of a [`SchemaEntry`].
#[verifier::ext_equal]
pub struct SchemaEntryV {
    pub tname: Seq<char>,
    pub fields: Seq<(Seq<char>, FieldTypeV)>,
}

/// The mathematical values of a field list.
pub open spec fn fields_views(fs: Seq<(String, FieldType)>) -> Seq<(Seq<char>, FieldTypeV)> {
    fs.map_values(|p: (String, FieldType)| (p.0@, p.1@))
}

impl View for SchemaEntry {
    type V = SchemaEntryV;

    open spec fn view(&self) -> SchemaEntryV {
        SchemaEntryV { tname: self.tname@, fields: fields_views(self.fields@) }
    }
}

/// The mathematical values of a schema.
pub open spec fn schema_views(ss: Seq<SchemaEntry>) -> Seq<SchemaEntryV> {
    ss.map_values(|e: SchemaEntry| e@)
}

/// The synthesized type of the child `v` reached through field `k` under a
/// parent type named `parent`.
pub open spec fn field_type_of(parent: Seq<char>, k: Seq<char>, v: TreeV) -> FieldTypeV {
    match v {
        TreeV::Branch(_) => FieldTypeV::Named(parent + pascal_of(k)),
        TreeV::Leaf(FileDataV::Text(_)) => FieldTypeV::TextKind,
        TreeV::Leaf(FileDataV::Blob(_)) => FieldTypeV::BlobKind,
    }
}

/// The field list of a branch whose type is named `parent`: one field per
/// child, named by its key, in list order.
pub open spec fn fields_of(es: Seq<(Seq<char>, TreeV)>, parent: Seq<char>) -> Seq<
    (Seq<char>, FieldTypeV),
> {
    es.map_values(|p: (Seq<char>, TreeV)| (p.0, field_type_of(parent, p.0, p.1)))
}

/// The schema synthesized from `t` under the type name `tname`: the
/// node's own record first (a leaf yields none), then each child's schema,
/// depth-first in list order.
pub open spec fn schema_spec(t: TreeV, tname: Seq<char>) -> Seq<SchemaEntryV>
    decreases t,
{
    match t {
        TreeV::Leaf(_) => Seq::empty(),
        TreeV::Branch(es) => seq![
            SchemaEntryV { tname, fields: fields_of(es, tname) },
        ] + schema_children(es, tname),
    }
}

/// The schemas of the children of a branch named `parent`, concatenated in
/// list order.
pub open spec fn schema_children(es: Seq<(Seq<char>, TreeV)>, parent: Seq<char>) -> Seq<
    SchemaEntryV,
>
    decreases es,
{
    if es.len() == 0 {
        Seq::empty()
    } else {
        schema_spec(es[0].1, parent + pascal_of(es[0].0)) + schema_children(
            es.drop_first(),
            parent,
        )
    }
}

/// Every name that synthesis derives from `t` under `tname` is a valid
/// identifier: the type name itself (where `t` is a branch), every field
/// key, and so on recursively.
pub open spec fn names_ok(t: TreeV, tname: Seq<char>) -> bool
    decreases t,
{
    match t {
        TreeV::Leaf(_) => true,
        TreeV::Branch(es) => is_valid_ident(tname) && names_ok_entries(es, tname),
    }
}

/// [`names_ok`] over the children of a branch named `tname`.
pub open spec fn names_ok_entries(es: Seq<(Seq<char>, TreeV)>, tname: Seq<char>) -> bool
    decreases es,
{
    if es.len() == 0 {
        true
    } else {
        &&& is_valid_ident(es[0].0)
        &&& names_ok(es[0].1, tname + pascal_of(es[0].0))
        &&& names_ok_entries(es.drop_first(), tname)
    }
}

/// What [`names_ok_entries`] says of one child.
proof fn lemma_names_ok_unfold(es: Seq<(Seq<char>, TreeV)>, tname: Seq<char>, i: int)
    requires
        names_ok_entries(es, tname),
        0 <= i < es.len(),
    ensures
        is_valid_ident(es[i].0),
        names_ok(es[i].1, tname + pascal_of(es[i].0)),
    decreases i,
{
    if i > 0 {
        assert(es.drop_first()[i - 1] == es[i]);
        lemma_names_ok_unfold(es.drop_first(), tname, i - 1);
    }
}

/// [`names_ok_entries`] from per-child facts.
proof fn lemma_names_ok_build(es: Seq<(Seq<char>, TreeV)>, tname: Seq<char>)
    requires
        forall|j: int| 0 <= j < es.len() ==> is_valid_ident((#[trigger] es[j]).0),
        forall|j: int|
            0 <= j < es.len() ==> names_ok((#[trigger] es[j]).1, tname + pascal_of(es[j].0)),
    ensures
        names_ok_entries(es, tname),
    decreases es,
{
    if es.len() > 0 {
        assert(forall|j: int|
            0 <= j < es.drop_first().len() ==> (#[trigger] es.drop_first()[j]) == es[j + 1]);
        lemma_names_ok_build(es.drop_first(), tname);
    }
}

/// The synthesized type name of the child under key `key` of a parent type
/// named `parent`.
pub(crate) fn nested_tname(parent: &String, key: &String) -> (r: String)
    ensures
        r@ == parent@ + pascal_of(key@),
{
    let p = to_pascal_case(key.as_str());
    parent.clone().concat(p.as_str())
}

/// Synthesize the record schema of `t` under the root type name
/// `tname`.
///
/// Fails with the offending name exactly when some derived type or field
/// name is not a valid identifier; otherwise returns the full schema.
pub fn synthesize_schema(t: &Tree, tname: String) -> (r: Result<Vec<SchemaEntry>, GenError>)
    ensures
        match r {
            Ok(sch) => schema_views(sch@) == schema_spec(t@, tname@) && names_ok(
                t@,
                tname@,
            ),
            Err(e) => !names_ok(t@, tname@) && (e matches GenError::InvalidIdentifier(n)
                && !is_valid_ident(n@)),
        },
    decreases *t,
{
    match t {
        Tree::Leaf(_) => {
            let out: Vec<SchemaEntry> = Vec::new();
            proof {
                assert(schema_views(out@) =~= schema_spec(t@, tname@));
            }
            Ok(out)
        },
        Tree::Branch(es) => {
            let ghost ev = entries_view(es@);
            if !check_ident(tname.as_str()) {
                return Err(GenError::InvalidIdentifier(tname));
            }
            let mut fields: Vec<(String, FieldType)> = Vec::new();
            let mut i: usize = 0;
            while i < es.len()
                invariant
                    *t == Tree::Branch(*es),
                    ev == entries_view(es@),
                    0 <= i <= es@.len(),
                    fields@.len() == i,
                    forall|j: int| 0 <= j < i ==> is_valid_ident((#[trigger] ev[j]).0),
                    forall|j: int|
                        0 <= j < i ==> (#[trigger] fields@[j]).0@ == ev[j].0 && fields@[j].1@
                            == field_type_of(tname@, ev[j].0, ev[j].1),
                decreases es@.len() - i,
            {
                proof {
                    lemma_entries_view(es@);
                    assert(ev[i as int] == (es@[i as int].0@, tree_view(es@[i as int].1)));
                }
                if !check_ident(es[i].0.as_str()) {
                    proof {
                        assert(t@ == TreeV::Branch(ev));
                        assert(!is_valid_ident(ev[i as int].0));
                        if names_ok(t@, tname@) {
                            assert(names_ok_entries(ev, tname@));
                            lemma_names_ok_unfold(ev, tname@, i as int);
                        }
                        assert(!names_ok(t@, tname@));
                    }
                    return Err(GenError::InvalidIdentifier(es[i].0.clone()));
                }
                let ft: FieldType = match &es[i].1 {
                    Tree::Branch(_) => FieldType::Named(
                        nested_tname(&tname, &es[i].0),
                    ),
                    Tree::Leaf(FileData::Text(_)) => FieldType::TextKind,
                    Tree::Leaf(FileData::Blob(_)) => FieldType::BlobKind,
                };
                fields.push((es[i].0.clone(), ft));
                i = i + 1;
            }
            proof {
                lemma_entries_view(es@);
                assert(fields_views(fields@) =~= fields_of(ev, tname@));
            }
            let mut out: Vec<SchemaEntry> = Vec::new();
            out.push(SchemaEntry { tname: tname.clone(), fields });
            proof {
                assert(schema_views(out@) =~= seq![
                    SchemaEntryV { tname: tname@, fields: fields_of(ev, tname@) },
                ]);
                assert(ev.skip(0) =~= ev);
            }
            let mut i: usize = 0;
            while i < es.len()
                invariant
                    *t == Tree::Branch(*es),
                    ev == entries_view(es@),
                    0 <= i <= es@.len(),
                    is_valid_ident(tname@),
                    forall|j: int| 0 <= j < ev.len() ==> is_valid_ident((#[trigger] ev[j]).0),
                    forall|j: int|
                        0 <= j < i ==> names_ok((#[trigger] ev[j]).1, tname@ + pascal_of(
                            ev[j].0,
                        )),
                    schema_views(out@) + schema_children(ev.skip(i as int), tname@)
                        == schema_views(out@.take(1)) + schema_children(ev, tname@),
                    out@.len() >= 1,
                    schema_views(out@.take(1)) == seq![
                        SchemaEntryV { tname: tname@, fields: fields_of(ev, tname@) },
                    ],
                decreases es@.len() - i,
            {
                let ghost rest = ev.skip(i as int);
                proof {
                    lemma_entries_view(es@);
                    assert(ev[i as int] == (es@[i as int].0@, tree_view(es@[i as int].1)));
                    assert(rest[0] == ev[i as int]);
                    assert(rest.drop_first() =~= ev.skip(i as int + 1));
                }
                match &es[i].1 {
                    Tree::Branch(_) => {
                        let child_name = nested_tname(&tname, &es[i].0);
                        let child: &Tree = &es[i].1;
                        proof {
                            assert(decreases_to!(*t => (*t)->Branch_0));
                            assert((*t)->Branch_0 == *es);
                            assert(decreases_to!(*es => es@));
                            assert(decreases_to!(es@ => es@[i as int]));
                            assert(decreases_to!(es@[i as int] => es@[i as int].1));
                            assert(decreases_to!(*t => *child));
                        }
                        let sub = synthesize_schema(child, child_name);
                        match sub {
                            Ok(mut s) => {
                                let ghost out0 = out@;
                                let ghost s0 = s@;
                                proof {
                                    assert(child@ == ev[i as int].1);
                                    assert(child_name@ == tname@ + pascal_of(ev[i as int].0));
                                    assert(names_ok(ev[i as int].1, tname@ + pascal_of(
                                        ev[i as int].0,
                                    )));
                                }
                                out.append(&mut s);
                                proof {
                                    assert(schema_views(out@) =~= schema_views(out0)
                                        + schema_views(s0));
                                    assert(schema_children(rest, tname@) == schema_spec(
                                        rest[0].1,
                                        tname@ + pascal_of(rest[0].0),
                                    ) + schema_children(rest.drop_first(), tname@));
                                    assert(schema_views(out@) + schema_children(
                                        ev.skip(i as int + 1),
                                        tname@,
                                    ) =~= schema_views(out0) + schema_children(
                                        rest,
                                        tname@,
                                    ));
                                    assert(out@.take(1) =~= out0.take(1));
                                }
                            },
                            Err(e) => {
                                proof {
                                    assert(t@ == TreeV::Branch(ev));
                                    assert(child@ == ev[i as int].1);
                                    assert(child_name@ == tname@ + pascal_of(ev[i as int].0));
                                    assert(!names_ok(ev[i as int].1, tname@ + pascal_of(
                                        ev[i as int].0,
                                    )));
                                    if names_ok(t@, tname@) {
                                        assert(names_ok_entries(ev, tname@));
                                        lemma_names_ok_unfold(ev, tname@, i as int);
                                    }
                                    assert(!names_ok(t@, tname@));
                                }
                                return Err(e);
                            },
                        }
                    },
                    Tree::Leaf(_) => {
                        proof {
                            assert(names_ok(ev[i as int].1, tname@ + pascal_of(
                                ev[i as int].0,
                            )));
                            assert(schema_children(rest, tname@) == schema_spec(
                                rest[0].1,
                                tname@ + pascal_of(rest[0].0),
                            ) + schema_children(rest.drop_first(), tname@));
                            assert(schema_spec(rest[0].1, tname@ + pascal_of(rest[0].0))
                                =~= Seq::<SchemaEntryV>::empty());
                            assert(schema_views(out@) + schema_children(
                                ev.skip(i as int + 1),
                                tname@,
                            ) =~= schema_views(out@) + schema_children(rest, tname@));
                        }
                    },
                }
                i = i + 1;
            }
            proof {
                lemma_entries_view(es@);
                assert(ev.skip(i as int) =~= Seq::<(Seq<char>, TreeV)>::empty());
                assert(schema_views(out@) + schema_children(
                    Seq::<(Seq<char>, TreeV)>::empty(),
                    tname@,
                ) =~= schema_views(out@));
                assert(schema_views(out@) =~= schema_spec(t@, tname@));
                lemma_names_ok_build(ev, tname@);
                assert(t@ == TreeV::Branch(ev));
                assert(names_ok(t@, tname@));
            }
            Ok(out)
        },
    }
}

} // verus!
