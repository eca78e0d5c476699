//! The text side of turning source into sound.
//!
//! The source that a user types is the body of a function of the time `t`.
//! An expression evaluator, which lives with the caller, compiles the script
//! made here and tries the function out once; what comes of that is taken in
//! here again: a function that works is queued, and one that does not leaves
//! the sound that is playing alone.

use crate::sound::{SoundControl, SoundControlView, SoundFn};
use vstd::prelude::*;
use vstd::string::StringExecFns;

verus! {

/// What stands before the function library in a script.
pub const SCRIPT_OPEN: &'static str = "\n        ";

/// What stands between the function library and the user's source: the head
/// of the function of `t`.
pub const SCRIPT_MAIN: &'static str = "\n        \n            fn main (t) {\n                ";

/// What closes the function of `t`.
pub const SCRIPT_CLOSE: &'static str = "\n            }\n        ";

/// What the message of a failed trial run starts with.
pub const NOT_A_NUMBER: &'static str = "source code does not evalulate to a number!\n";

/// What is shown after a compilation that worked.
pub const COMPILED: &'static str = "Compilation succesful!";

/// Why source text did not become a sound function, in words for the user.
#[derive(Clone, Debug, PartialEq, Eq)]
pub struct CompileError {
    pub message: String,
}

/// The script for a source text: the function library, then the source as
/// the body of `main`.
pub open spec fn script_text(functions: Seq<char>, source: Seq<char>) -> Seq<char> {
    SCRIPT_OPEN@ + functions + SCRIPT_MAIN@ + source + SCRIPT_CLOSE@
}

/// Wraps the user's source as the body of the function `main` of `t`, behind
/// the library of functions written in the script language itself.
pub fn script(functions: &str, source: &str) -> (text: String)
    ensures
        text@ == script_text(functions@, source@),
{
    let mut text = String::from_str(SCRIPT_OPEN);
    text.append(functions);
    text.append(SCRIPT_MAIN);
    text.append(source);
    text.append(SCRIPT_CLOSE);
    text
}

/// The error for a function that compiled and then failed its trial run;
/// `fault` is what the evaluator said.
pub fn probe_failure(fault: &str) -> (error: CompileError)
    ensures
        error.message@ == NOT_A_NUMBER@ + fault@,
{
    let mut message = String::from_str(NOT_A_NUMBER);
    message.append(fault);
    CompileError { message }
}

/// Takes in what came of a compilation and gives the text to show for it.
///
/// A new function is queued, to become live with the next frame. A failed
/// compilation changes nothing: what plays goes on playing.
pub fn submit(control: &mut SoundControl, compiled: Result<SoundFn, CompileError>) -> (status:
    String)
    ensures
        match compiled {
            Ok(new_fn) => final(control)@ == (SoundControlView {
                pending: old(control)@.pending.push(new_fn),
                ..old(control)@
            }) && status@ == COMPILED@,
            Err(error) => final(control)@ == old(control)@ && status@ == error.message@,
        },
{
    match compiled {
        Ok(new_fn) => {
            control.push_soundfn(new_fn);
            String::from_str(COMPILED)
        },
        Err(error) => error.message,
    }
}

} // verus!
