use vstd::prelude::*;

verus! {

/// An error raised while the virtual machine executes an instruction
/// buffer.  It carries a message and the instruction pointer at which
/// execution failed.
#[derive(Debug)]
pub struct RuntimeError {
    pub msg: String,
    pub ip: usize,
}

/// An error raised while parsing or generating code, carrying the
/// offset into the source text at which the problem was found.
#[derive(Debug)]
pub struct SyntaxError {
    pub msg: String,
    pub offset: usize,
}

/// An error raised while scanning source text into tokens.
#[derive(Debug)]
pub struct TokenizerError {
    pub msg: String,
    pub offset: usize,
}

} // verus!
