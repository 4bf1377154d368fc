//! An interpreter for a minimal tape-based esoteric language: eight
//! single-character commands operate on an unbounded byte tape through a
//! movable cursor, and bracketed loops are the only control flow. The parser
//! turns a byte sequence into an instruction tree, validating that loop
//! delimiters balance; the executor walks the tree against an input and an
//! output byte stream under an explicit loop budget, since programs of this
//! language need not terminate.

use vstd::prelude::*;

pub mod parser;
pub mod program;
pub mod semantics;

use crate::parser::error_message;
use crate::parser::parse;
use crate::parser::spec_parse;
use crate::semantics::init_state;
use crate::semantics::run_cmds;

verus! {

/// Parses the source and, on success, runs it against the given input bytes
/// under the given loop budget. `Err` is a structural parse failure;
/// `Ok(None)` means the budget ran out; `Ok(Some(out))` carries the bytes the
/// program wrote.
pub fn run(code: Vec<u8>, input: &[u8], fuel: u64) -> (r: Result<Option<Vec<u8>>, BFError>)
    ensures
        (match spec_parse(code@) {
            Ok(cs) => (match run_cmds(cs, init_state(input@), fuel as nat) {
                Some(st) => r matches Ok(o) && o matches Some(out) && out@ == st.output,
                None => r matches Ok(o) && o is None,
            }),
            Err(k) => r matches Err(e) && e@ == error_message(k),
        }),
{
    let program = parse(code)?;

    Ok(program.run(input, fuel))
}

/// A structural parse failure, carrying a human-readable message. The two
/// possible messages are pinned down by `parser::error_message`.
#[derive(Debug, Clone)]
pub struct BFError {
    pub(crate) message: String,
}

impl View for BFError {
    type V = Seq<char>;

    closed spec fn view(&self) -> Seq<char> {
        self.message@
    }
}

impl BFError {
    /// The message describing the failure.
    pub fn description(&self) -> (s: &str)
        ensures
            s@ == self@,
    {
        self.message.as_str()
    }
}

} // verus!
