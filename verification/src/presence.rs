//! The presence status derived from the state: a short page label and
//! the book title, handed to whatever broadcasts the status.

use vstd::prelude::*;
use crate::digits::int_str;
use crate::digits::push_i32_dec;
use crate::state::AppState;

verus! {

/// The primary status line for a state at page `page`: "p." followed by
/// the page number.
pub open spec fn spec_presence_state(page: int) -> Seq<char> {
    seq!['p', '.'] + int_str(page)
}

/// The status payload for a state: the page label as the primary line
/// and the book title as the secondary line.
pub fn presence_payload(state: &AppState) -> (r: (String, String))
    ensures
        r.0@ == spec_presence_state(state.page as int),
        r.1@ == state.book_name@,
{
    let mut line = String::new();
    crate::text::push_char(&mut line, 'p');
    crate::text::push_char(&mut line, '.');
    push_i32_dec(&mut line, state.page);
    proof {
        assert(line@ =~= spec_presence_state(state.page as int));
    }
    (line, state.book_name.clone())
}

} // verus!
