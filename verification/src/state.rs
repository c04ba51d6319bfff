//! The application state: the single in-memory record that the whole
//! program revolves around.

use vstd::prelude::*;

verus! {

/// The in-memory record: a book title (free text, may be empty) and the
/// current page number (signed, deliberately unclamped).
pub struct AppState {
    pub book_name: String,
    pub page: i32,
}

impl Default for AppState {
    /// The state used when no saved record is available: an empty title,
    /// opened at page one.
    fn default() -> (r: Self)
        ensures
            r.book_name@ == Seq::<char>::empty(),
            r.page == 1,
    {
        AppState { book_name: String::new(), page: 1 }
    }
}

/// The state a run starts from: the loaded record where one was
/// recovered, the default record otherwise.
pub fn initial_state(loaded: Option<AppState>) -> (r: AppState)
    ensures
        match loaded {
            Some(st) => r == st,
            None => r.book_name@ == Seq::<char>::empty() && r.page == 1,
        },
{
    match loaded {
        Some(st) => st,
        None => AppState::default(),
    }
}

} // verus!
