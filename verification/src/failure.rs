//! How failed games are sorted by the note that the arbiter left.
use vstd::prelude::*;

use crate::text::{chars, contains, has_text};

verus! {

pub const FAILURE_NAMES: [&'static str; 6] = [
    "crash",
    "hang",
    "illegal move",
    "budget overrun",
    "no move returned",
    "other",
];

/// The bucket of a note: the first whose words occur in it.
pub open spec fn bucket(note: Seq<char>) -> int {
    if contains(note, "crashed with signal"@) || contains(note, "exited with status"@) {
        0
    } else if contains(note, "hung"@) {
        1
    } else if contains(note, "illegal move"@) {
        2
    } else if contains(note, "budget overrun"@) {
        3
    } else if contains(note, "returned move 0"@) {
        4
    } else {
        5
    }
}

/// The bucket of a note, as an index into the names.
pub fn failure_kind(note: &str) -> (k: usize)
    ensures
        k == bucket(note@),
        k < 6,
{
    let s = chars(note);
    if has_text(&s, "crashed with signal") || has_text(&s, "exited with status") {
        0
    } else if has_text(&s, "hung") {
        1
    } else if has_text(&s, "illegal move") {
        2
    } else if has_text(&s, "budget overrun") {
        3
    } else if has_text(&s, "returned move 0") {
        4
    } else {
        5
    }
}

} // verus!
