//! What an engine's process is kept from doing.
use vstd::prelude::*;

use crate::sandbox::{
    filter_program, filter_verdict, forbidden_calls, law_filter_kills_blocked_calls,
};

verus! {

/// An engine is killed for making a process or a thread, by clone, clone3, fork, vfork or
/// execve, for tracing one, for opening a file in any of three ways, and for making or
/// connecting a socket. Every other call is let through.
pub proof fn law_engines_are_killed_for_these_calls(nr: u32)
    ensures
        filter_verdict(filter_program(forbidden_calls()), nr) == Some(
            if nr == 56 || nr == 435 || nr == 57 || nr == 58 || nr == 59 || nr == 101 || nr == 2
                || nr == 257 || nr == 437 || nr == 41 || nr == 42 {
                0u32
            } else {
                0x7fff_0000u32
            },
        ),
{
    let calls = forbidden_calls();
    law_filter_kills_blocked_calls(calls, nr);
    assert(calls[0] == 56 && calls[1] == 435 && calls[2] == 57 && calls[3] == 58 && calls[4] == 59
        && calls[5] == 101 && calls[6] == 2 && calls[7] == 257 && calls[8] == 437 && calls[9] == 41
        && calls[10] == 42);
}

} // verus!
