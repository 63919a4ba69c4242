#![allow(unused_imports)]

pub mod context;
pub mod program;
pub mod tape;

use vstd::prelude::*;

verus! {

/// Rule applied when the virtual pointer would leave the tape: pin it at the
/// nearest boundary (`Block`), keep the out-of-range value but access the
/// boundary cell (`Overflow`), wrap it modulo the tape length (`Loop`), or end
/// the run with an error (`Exit`).
#[derive(Clone, Copy, PartialEq, Eq, Structural)]
pub enum Overflow {
    Block,
    Overflow,
    Loop,
    Exit,
}

/// Relies on `String::push`: appends exactly one character to the string.
#[verifier::external_body]
pub(crate) fn push_char(s: &mut String, c: char)
    ensures
        final(s)@ == old(s)@.push(c),
{
    s.push(c);
}

} // verus!
