use vstd::prelude::*;

verus! {

/// The failures the scanner and the parser can report.
///
/// `EmptySource` is the scanner's only failure: source text of zero
/// length is rejected before lexing begins.  The two structural parse
/// failures carry the zero-based source offset of the offending bracket:
/// `UnmatchedLoopOpen` names a loop-open whose body reaches end of input
/// without a matching close, `UnmatchedLoopClose` a loop-close met while
/// no loop is open.  Illegal characters are never an error: the scanner
/// records them and the parser drops them.
#[derive(Clone, Copy, Debug, PartialEq, Eq, Structural)]
pub enum ErrorKind {
    EmptySource,
    UnmatchedLoopOpen(usize),
    UnmatchedLoopClose(usize),
}

} // verus!
