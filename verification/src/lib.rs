//! Independent game-script and CWT syntax, without game semantics or file I/O.
use vstd::prelude::*;

pub mod cwt;
pub mod script;
mod source;
pub mod text;

pub use source::{ErrorKind, Span, SyntaxError, ErrorView};

verus! {

/// Maximum number of nested container or conditional-region bodies.
pub const MAX_NESTING_DEPTH: usize = 1000;

} // verus!
