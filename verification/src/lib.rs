//! Embeds a snapshot of a directory as a strongly typed, in-memory nested
//! structure. The crate models a scanned directory as a recursive
//! [`tree::Tree`], rewrites dot-separated file names into nested structure,
//! derives a record schema and a populated instance from the result, and
//! exposes a uniform "flatten to file list" capability on every branch.
//! The filesystem reads themselves happen outside: a scanner hands each
//! entry's name and bytes to [`tree::add_file_entry`] and
//! [`tree::add_dir_entry`], which classify, filter hidden names and build
//! the tree.

pub mod content;
pub mod flatten;
pub mod generate;
pub mod instance;
pub mod normalize;
pub mod schema;
pub mod tree;

pub use content::Data;
pub use content::File;
pub use content::FileData;
pub use flatten::Directory;
