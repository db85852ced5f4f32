//! Accepting the one line of input that a run remembers.

use crate::text::{trim_newlines_spec, trim_trailing_newlines};
use crate::RunError;
use vstd::prelude::*;

verus! {

/// Accept the line that was read from standard input.
///
/// A stream that closed without yielding a single byte is rejected; any
/// other read is accepted, with its trailing newlines stripped. The stripped
/// line may well be empty: a bare newline submits the empty item.
pub fn accept_input(buf: &Vec<u8>) -> (r: Result<Vec<u8>, RunError>)
    ensures
        match r {
            Ok(v) => buf@.len() > 0 && v@ == trim_newlines_spec(buf@),
            Err(e) => buf@.len() == 0 && e == RunError::EmptyInput,
        },
{
    if buf.len() == 0 {
        Err(RunError::EmptyInput)
    } else {
        Ok(trim_trailing_newlines(buf))
    }
}

} // verus!
