//! Error types for assembly parsing, instruction decoding, and execution.

use vstd::prelude::*;

verus! {

/// An error raised by the line parser; fatal to assembly.
#[derive(Clone, PartialEq, Eq, Debug)]
pub enum ParseError {
    /// A destination character other than `A`, `D` or `M`.
    UnknownDestination(char),
    /// A computation mnemonic outside the fixed table.
    UnknownComputation(String),
    /// A jump mnemonic outside the fixed table.
    UnknownJump(String),
    /// An `@n` constant above 32767. The payload is the constant's value,
    /// saturated to 32 bits when the digits name something larger still.
    ConstantOutOfRange(u32),
    /// A line whose shape fits no instruction form.
    MalformedLine,
}

/// The mathematical value of a [`ParseError`]: payload strings as `Seq<char>`.
pub ghost enum ParseErrorView {
    UnknownDestination(char),
    UnknownComputation(Seq<char>),
    UnknownJump(Seq<char>),
    ConstantOutOfRange(u32),
    MalformedLine,
}

impl View for ParseError {
    type V = ParseErrorView;

    open spec fn view(&self) -> ParseErrorView {
        match self {
            ParseError::UnknownDestination(c) => ParseErrorView::UnknownDestination(*c),
            ParseError::UnknownComputation(s) => ParseErrorView::UnknownComputation(s@),
            ParseError::UnknownJump(s) => ParseErrorView::UnknownJump(s@),
            ParseError::ConstantOutOfRange(n) => ParseErrorView::ConstantOutOfRange(*n),
            ParseError::MalformedLine => ParseErrorView::MalformedLine,
        }
    }
}

/// A parse error together with the 1-based source line it came from.
#[derive(Clone, PartialEq, Eq, Debug)]
pub struct CompileError {
    pub line: usize,
    pub error: ParseError,
}

/// An error raised by the instruction decoder; fatal to execution.
/// The payload carries the offending word's bit pattern.
#[derive(Clone, Copy, PartialEq, Eq, Structural, Debug)]
pub enum DecodeError {
    UnknownOp(u16),
}

/// Any failure of assembling then running a program.
#[derive(Clone, PartialEq, Eq, Debug)]
pub enum HackError {
    Compile(CompileError),
    Decode(DecodeError),
}

} // verus!
