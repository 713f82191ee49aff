//! The whole generation pipeline on an already scanned tree: normalize,
//! synthesize the schema, build the instance, and derive the root type and
//! accessor names from the caller-supplied name.

use vstd::prelude::*;

use crate::content::FileV;
use crate::flatten::flatten_spec;
use crate::instance::build_instance;
use crate::instance::instance_spec;
use crate::instance::Instance;
use crate::normalize::normalize_spec;
use crate::normalize::process_tree;
use crate::schema::check_ident;
use crate::schema::is_valid_ident;
use crate::schema::names_ok;
use crate::schema::pascal_of;
use crate::schema::schema_spec;
use crate::schema::schema_views;
use crate::schema::snake_of;
use crate::schema::synthesize_schema;
use crate::schema::to_pascal_case;
use crate::schema::to_snake_case;
use crate::schema::GenError;
use crate::schema::SchemaEntry;
use crate::tree::Tree;
use crate::tree::TreeV;

verus! {

/// Everything one generation run produces.
#[derive(Debug)]
pub struct Generated {
    /// The root record type's name: the PascalCase form of the request name.
    pub root_type: String,
    /// The accessor operation's name: the snake_case form of the request name.
    pub accessor: String,
    /// The normalized tree the schema and instance were derived from.
    pub tree: Tree,
    /// One record type per branch, root first, depth-first in child order.
    pub schema: Vec<SchemaEntry>,
    /// The populated root instance.
    pub instance: Instance,
}

/// Run generation on a scanned tree under the request name `name`.
///
/// Fails with the offending name exactly when a derived type, field or
/// accessor name is not a valid identifier.
pub fn generate(tree: Tree, name: &str) -> (r: Result<Generated, GenError>)
    ensures
        match r {
            Ok(g) => {
                &&& g.root_type@ == pascal_of(name@)
                &&& g.accessor@ == snake_of(name@)
                &&& g.tree@ == normalize_spec(tree@)
                &&& schema_views(g.schema@) == schema_spec(
                    normalize_spec(tree@),
                    pascal_of(name@),
                )
                &&& g.instance@ == instance_spec(normalize_spec(tree@), pascal_of(name@))
                &&& is_valid_ident(pascal_of(name@))
                &&& is_valid_ident(snake_of(name@))
                &&& names_ok(normalize_spec(tree@), pascal_of(name@))
            },
            Err(e) => {
                &&& (e matches GenError::InvalidIdentifier(n) && !is_valid_ident(n@))
                &&& !(is_valid_ident(pascal_of(name@)) && is_valid_ident(snake_of(name@))
                    && names_ok(normalize_spec(tree@), pascal_of(name@)))
            },
        },
{
    let root_type = to_pascal_case(name);
    if !check_ident(root_type.as_str()) {
        return Err(GenError::InvalidIdentifier(root_type));
    }
    let accessor = to_snake_case(name);
    if !check_ident(accessor.as_str()) {
        return Err(GenError::InvalidIdentifier(accessor));
    }
    let norm = process_tree(tree);
    let schema = match synthesize_schema(&norm, root_type.clone()) {
        Ok(s) => s,
        Err(e) => {
            return Err(e);
        },
    };
    let instance = build_instance(&norm, root_type.clone());
    Ok(Generated { root_type, accessor, tree: norm, schema, instance })
}

/// Generation is deterministic: equal snapshots yield the same normalized
/// tree, the same schema, the same instance and the same file list.
pub proof fn lemma_generation_deterministic(t1: TreeV, t2: TreeV, name: Seq<char>)
    requires
        t1 == t2,
    ensures
        normalize_spec(t1) == normalize_spec(t2),
        schema_spec(normalize_spec(t1), name) == schema_spec(normalize_spec(t2), name),
        instance_spec(normalize_spec(t1), name) == instance_spec(normalize_spec(t2), name),
        flatten_spec(normalize_spec(t1), Seq::empty()) == flatten_spec(
            normalize_spec(t2),
            Seq::empty(),
        ),
{
}

} // verus!
