//! The events the UI shell can deliver, the pure reducer that applies
//! them, and the two small input translations (key presses and the
//! page text field) that produce events.

use vstd::prelude::*;
use crate::digits::parse_i32;
use crate::digits::parse_i32_exec;
use crate::state::AppState;

verus! {

/// An event delivered to the reducer.
pub enum Message {
    /// Turn one page forward.
    IncrementPage,
    /// Turn one page back.
    DecrementPage,
    /// Jump straight to the given page.
    SetPage(i32),
    /// Replace the book title with the given text.
    EditTitle(String),
    /// No change; produced when text input fails to parse.
    NoOp,
}

/// The page number after `event` is applied to a state at page `page`.
/// Stepping past either end of the signed range wraps around, since the
/// field holds a fixed-width integer and no clamping is wanted.
pub open spec fn spec_page_after(page: int, event: Message) -> int {
    match event {
        Message::IncrementPage => if page == i32::MAX { i32::MIN as int } else { page + 1 },
        Message::DecrementPage => if page == i32::MIN { i32::MAX as int } else { page - 1 },
        Message::SetPage(n) => n as int,
        Message::EditTitle(_) => page,
        Message::NoOp => page,
    }
}

/// The book title after `event` is applied to a state titled `title`.
pub open spec fn spec_title_after(title: Seq<char>, event: Message) -> Seq<char> {
    match event {
        Message::EditTitle(s) => s@,
        _ => title,
    }
}

/// The pure reducer: the next state from the current state and one
/// event. Every event is accepted; no bounds are imposed on the page.
pub fn reducer(state: &AppState, event: Message) -> (r: AppState)
    ensures
        r.page as int == spec_page_after(state.page as int, event),
        r.book_name@ == spec_title_after(state.book_name@, event),
{
    match event {
        Message::IncrementPage => AppState {
            book_name: state.book_name.clone(),
            page: state.page.wrapping_add(1),
        },
        Message::DecrementPage => AppState {
            book_name: state.book_name.clone(),
            page: state.page.wrapping_sub(1),
        },
        Message::SetPage(n) => AppState { book_name: state.book_name.clone(), page: n },
        Message::EditTitle(s) => AppState { book_name: s, page: state.page },
        Message::NoOp => AppState { book_name: state.book_name.clone(), page: state.page },
    }
}

/// Turning a page forward adds one to the page and keeps the title,
/// whenever the next page is representable.
pub proof fn lemma_increment_page(st: AppState)
    requires
        st.page < i32::MAX,
    ensures
        spec_page_after(st.page as int, Message::IncrementPage) == st.page + 1,
        spec_title_after(st.book_name@, Message::IncrementPage) == st.book_name@,
{
}

/// Turning a page back subtracts one from the page and keeps the title,
/// whenever the previous page is representable.
pub proof fn lemma_decrement_page(st: AppState)
    requires
        st.page > i32::MIN,
    ensures
        spec_page_after(st.page as int, Message::DecrementPage) == st.page - 1,
        spec_title_after(st.book_name@, Message::DecrementPage) == st.book_name@,
{
}

/// Editing the title replaces it with the typed text and keeps the
/// page, for every state and every string.
pub proof fn lemma_edit_title(st: AppState, s: String)
    ensures
        spec_title_after(st.book_name@, Message::EditTitle(s)) == s@,
        spec_page_after(st.page as int, Message::EditTitle(s)) == st.page as int,
{
}

/// Whether a transition on `event` must be followed by the two side
/// effects, saving the record and republishing the presence status. A
/// no-op, produced by text input that fails to parse, triggers
/// neither.
pub fn has_side_effects(event: &Message) -> (r: bool)
    ensures
        r == !(event is NoOp),
{
    match event {
        Message::NoOp => false,
        _ => true,
    }
}

/// A key press on the window, reduced to what the tracker reads of it.
pub enum Key {
    Left,
    Right,
    Space,
    Enter,
    Other,
}

/// The event bound to a key press: left turns a page back, right,
/// space and enter turn one forward, anything else does nothing.
pub fn handle_key(key: Key) -> (r: Option<Message>)
    ensures
        match key {
            Key::Left => r == Some(Message::DecrementPage),
            Key::Right => r == Some(Message::IncrementPage),
            Key::Space => r == Some(Message::IncrementPage),
            Key::Enter => r == Some(Message::IncrementPage),
            Key::Other => r is None,
        },
{
    match key {
        Key::Left => Some(Message::DecrementPage),
        Key::Right => Some(Message::IncrementPage),
        Key::Space => Some(Message::IncrementPage),
        Key::Enter => Some(Message::IncrementPage),
        Key::Other => None,
    }
}

/// The event produced by the page text field: an empty field resets the
/// page to zero, a signed decimal number in range jumps to that page,
/// and anything else is a no-op.
pub open spec fn spec_parse_page_input(s: Seq<char>) -> Message {
    if s.len() == 0 {
        Message::SetPage(0)
    } else {
        match parse_i32(s, 0) {
            Some((v, j)) => if j == s.len() {
                Message::SetPage(v as i32)
            } else {
                Message::NoOp
            },
            None => Message::NoOp,
        }
    }
}

/// Parses the page text field into an event.
pub fn parse_page_input(s: &str) -> (r: Message)
    ensures
        r == spec_parse_page_input(s@),
{
    let n = s.unicode_len();
    if n == 0 {
        Message::SetPage(0)
    } else {
        match parse_i32_exec(s, 0, n) {
            Some((v, j)) => if j == n {
                Message::SetPage(v)
            } else {
                Message::NoOp
            },
            None => Message::NoOp,
        }
    }
}

} // verus!
