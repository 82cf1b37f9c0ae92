//! A codec between nested values and flat documents of `path.to.field=value`
//! lines.
//!
//! Encoding builds a tree of labelled nodes from a [`Value`] and writes one
//! line per leaf, in order. Decoding reads the lines back and, guided by a
//! [`Shape`], regroups runs of lines that share a path prefix into nested
//! scopes.
use vstd::prelude::*;

pub mod text;
pub mod value;
pub mod error;
pub mod ser;
pub mod de;
pub mod schema;
pub mod laws;

pub use de::{get_prefix, Commons, Deserializer, LineAccess};
pub use error::{DeserializeError, SerializeError};
pub use schema::{decode, decode_entries, decode_scope, from_text, variant};
pub use ser::{flatten, render_line, render_lines, to_lines, to_string, write_tree, Serializer, TreeNode};
pub use value::{Line, Shape, Value};

verus! {

} // verus!
