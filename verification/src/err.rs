use vstd::prelude::*;

verus! {

/// The fatal conditions either codec direction can meet. Every failure is
/// reported to the caller; nothing is recovered locally.
#[derive(Clone, Copy, Debug, PartialEq, Eq, Structural)]
pub enum Error {
    /// A character that no JSON grammar production allows at that point.
    UnexpectedToken,
    /// A byte that no MessagePack tag or string payload allows at that point.
    UnexpectedByte,
    /// The input ends before the value under construction is complete.
    UnterminatedContainer,
    /// A numeric literal matches none of the supported interpretations, or a
    /// string/container is too long for the largest header class.
    NoApplicableEncoding,
    /// A bin, ext or fixext tag, which this codec deliberately leaves out.
    UnsupportedFormatTag,
    /// A backslash escape that the JSON string grammar does not define.
    InvalidEscape,
}

} // verus!
