use booktrack::events::{handle_key, has_side_effects, parse_page_input, reducer, Key, Message};
use booktrack::state::{initial_state, AppState};

fn state(title: &str, page: i32) -> AppState {
    AppState { book_name: String::from(title), page }
}

#[test]
fn increment_adds_one_and_keeps_title() {
    let s = state("Dune", 5);
    let r = reducer(&s, Message::IncrementPage);
    assert_eq!(r.page, 6);
    assert_eq!(r.book_name, "Dune");
}

#[test]
fn decrement_subtracts_one_and_keeps_title() {
    let s = state("Dune", 5);
    let r = reducer(&s, Message::DecrementPage);
    assert_eq!(r.page, 4);
    assert_eq!(r.book_name, "Dune");
}

#[test]
fn decrement_can_go_negative() {
    let s = state("", 0);
    let r = reducer(&s, Message::DecrementPage);
    assert_eq!(r.page, -1);
}

#[test]
fn page_turns_wrap_at_the_ends_of_the_range() {
    let top = reducer(&state("x", i32::MAX), Message::IncrementPage);
    assert_eq!(top.page, i32::MIN);
    let bottom = reducer(&state("x", i32::MIN), Message::DecrementPage);
    assert_eq!(bottom.page, i32::MAX);
}

#[test]
fn set_page_overwrites() {
    let s = state("Dune", 5);
    let r = reducer(&s, Message::SetPage(123));
    assert_eq!(r.page, 123);
    assert_eq!(r.book_name, "Dune");
}

#[test]
fn edit_title_overwrites_and_keeps_page() {
    let s = state("Dune", 5);
    let r = reducer(&s, Message::EditTitle(String::from("Emma")));
    assert_eq!(r.book_name, "Emma");
    assert_eq!(r.page, 5);
}

#[test]
fn noop_changes_nothing() {
    let s = state("Dune", 5);
    let r = reducer(&s, Message::NoOp);
    assert_eq!(r.book_name, "Dune");
    assert_eq!(r.page, 5);
}

#[test]
fn only_a_noop_skips_the_side_effects() {
    assert!(has_side_effects(&Message::IncrementPage));
    assert!(has_side_effects(&Message::DecrementPage));
    assert!(has_side_effects(&Message::SetPage(0)));
    assert!(has_side_effects(&Message::EditTitle(String::new())));
    assert!(!has_side_effects(&Message::NoOp));
}

#[test]
fn default_state_is_empty_title_page_one() {
    let s = AppState::default();
    assert_eq!(s.book_name, "");
    assert_eq!(s.page, 1);
}

#[test]
fn initial_state_prefers_loaded_record() {
    let s = initial_state(Some(state("Emma", 9)));
    assert_eq!(s.book_name, "Emma");
    assert_eq!(s.page, 9);
    let d = initial_state(None);
    assert_eq!(d.book_name, "");
    assert_eq!(d.page, 1);
}

#[test]
fn keys_map_to_page_turns() {
    assert!(matches!(handle_key(Key::Left), Some(Message::DecrementPage)));
    assert!(matches!(handle_key(Key::Right), Some(Message::IncrementPage)));
    assert!(matches!(handle_key(Key::Space), Some(Message::IncrementPage)));
    assert!(matches!(handle_key(Key::Enter), Some(Message::IncrementPage)));
    assert!(matches!(handle_key(Key::Other), None));
}

#[test]
fn empty_page_input_resets_to_zero() {
    assert!(matches!(parse_page_input(""), Message::SetPage(0)));
}

#[test]
fn numeric_page_input_jumps_to_that_page() {
    assert!(matches!(parse_page_input("12"), Message::SetPage(12)));
    assert!(matches!(parse_page_input("-3"), Message::SetPage(-3)));
    assert!(matches!(parse_page_input("0"), Message::SetPage(0)));
}

#[test]
fn non_numeric_page_input_is_a_noop() {
    assert!(matches!(parse_page_input("abc"), Message::NoOp));
    assert!(matches!(parse_page_input("12x"), Message::NoOp));
    assert!(matches!(parse_page_input(" 12"), Message::NoOp));
    assert!(matches!(parse_page_input("-"), Message::NoOp));
    assert!(matches!(parse_page_input("2147483648"), Message::NoOp));
}

#[test]
fn page_input_accepts_extreme_pages() {
    assert!(matches!(parse_page_input("2147483647"), Message::SetPage(2147483647)));
    assert!(matches!(parse_page_input("-2147483648"), Message::SetPage(-2147483648)));
}
