//! Semantic analysis for protocol-buffer schema files: the intermediate
//! representation that makes implicit constructs explicit, the name map with
//! its scope search, and the checker that emits file descriptors together
//! with diagnostics.
use vstd::prelude::*;

pub mod ast;
pub mod case;
pub mod check;
pub mod comments;
pub mod file;
pub mod ir;
pub mod names;
pub mod text;
pub mod types;

verus! {

/// The largest number a message field may carry.
pub const MAX_MESSAGE_FIELD_NUMBER: i32 = 536870911;

/// The largest source file, in bytes, that a file record accepts.
pub const MAX_FILE_LEN: u64 = 2147483647;

} // verus!
