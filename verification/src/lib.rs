//! gron, the greppable line-per-value form of JSON: writing JSON values as gron, and
//! reading gron back into JSON values.
use vstd::prelude::*;

pub mod assign;
pub mod chars;
pub mod error;
pub mod gron;
pub mod json;
pub mod laws;
pub mod lookup;
pub mod path;
pub mod roundtrip;
pub mod scan;
pub mod text;
pub mod ungron;

pub use error::{GronError, LineError};
pub use gron::json_to_gron;
pub use json::JsonValue;
pub use path::{parse_path, PathParser, PathSegment};
pub use scan::{split_assignment, strip_trailing_semicolon};
pub use ungron::gron_to_json;

verus! {

} // verus!
