//! The position model: every lexeme and every diagnostic carries a `PosInfo`
//! describing a span of source characters.

use vstd::prelude::*;

verus! {

/// A span of source characters: zero-based `line` and `column` of its first
/// character, and its width in characters.
#[derive(Clone, Copy, Debug, PartialEq, Eq, Structural)]
pub struct PosInfo {
    pub line: u64,
    pub column: u64,
    pub length: u64,
}

impl Default for PosInfo {
    /// The origin span: line 0, column 0, width 0.
    fn default() -> (r: Self)
        ensures
            r == (PosInfo { line: 0, column: 0, length: 0 }),
    {
        PosInfo { line: 0, column: 0, length: 0 }
    }
}

} // verus!
