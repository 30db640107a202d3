use vstd::prelude::*;

verus! {

/// Why an operation of the codec was refused.
#[derive(Clone, Copy, Debug, PartialEq, Eq, Structural)]
pub enum CodecError {
    /// The distribution does not describe a table of the requested size.
    InvalidDistribution,
    /// The encoder met a byte that the distribution does not list.
    UnknownSymbol,
    /// The encoder was given no input.
    EmptyInput,
    /// The decoder would have to read past the start of the bit sequence.
    TruncatedStream,
    /// The decoder reached a state from which it cannot go on.
    CorruptStream,
}

impl CodecError {
    /// A short description of the error.
    pub fn message(&self) -> (text: String)
        ensures
            text@ == error_text(*self)@,
    {
        match self {
            CodecError::InvalidDistribution => String::from_str("invalid distribution"),
            CodecError::UnknownSymbol => String::from_str("unknown symbol"),
            CodecError::EmptyInput => String::from_str("empty input"),
            CodecError::TruncatedStream => String::from_str("truncated stream"),
            CodecError::CorruptStream => String::from_str("corrupt stream"),
        }
    }
}

/// The text that [`CodecError::message`] returns for each error.
pub open spec fn error_text(e: CodecError) -> &'static str {
    match e {
        CodecError::InvalidDistribution => "invalid distribution",
        CodecError::UnknownSymbol => "unknown symbol",
        CodecError::EmptyInput => "empty input",
        CodecError::TruncatedStream => "truncated stream",
        CodecError::CorruptStream => "corrupt stream",
    }
}

} // verus!
