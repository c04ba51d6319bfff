//! A small reading tracker: a book title and a current page number,
//! changed through a pure event reducer, persisted as a JSON record,
//! and mirrored into a short presence status.

pub mod codec;
pub mod digits;
pub mod events;
pub mod presence;
pub mod state;
pub mod text;
