use booktrack::codec::{decode_settings, encode_settings, load_from_content};
use booktrack::events::{reducer, Message};
use booktrack::presence::presence_payload;
use booktrack::state::{initial_state, AppState};

fn state(title: &str, page: i32) -> AppState {
    AppState { book_name: String::from(title), page }
}

#[test]
fn encode_writes_the_canonical_record() {
    let s = state("War & Peace", 870);
    assert_eq!(encode_settings(&s).as_str(), "{\"book_name\":\"War & Peace\",\"page\":870}");
}

#[test]
fn encode_escapes_quotes_and_backslashes() {
    let s = state("a\"b\\c", 1);
    assert_eq!(encode_settings(&s).as_str(), "{\"book_name\":\"a\\\"b\\\\c\",\"page\":1}");
}

#[test]
fn encode_negative_page() {
    let s = state("x", -42);
    assert_eq!(encode_settings(&s).as_str(), "{\"book_name\":\"x\",\"page\":-42}");
}

#[test]
fn encode_escapes_every_control_character() {
    let s = state("\u{0008}\u{000C}\n\r\t", 1);
    assert_eq!(encode_settings(&s).as_str(), "{\"book_name\":\"\\b\\f\\n\\r\\t\",\"page\":1}");
    let t = state("\u{0000}a\u{0001}\u{001f}", 2);
    assert_eq!(
        encode_settings(&t).as_str(),
        "{\"book_name\":\"\\u0000a\\u0001\\u001f\",\"page\":2}"
    );
}

#[test]
fn save_then_load_round_trip() {
    let cases = [
        state("", 1),
        state("Dune", 5),
        state("a\"b\\c\nd\te\rf", -7),
        state("本を読む", 2147483647),
        state("x", -2147483648),
        state("p.1", 0),
        state("\u{0000}\u{0001}\u{0008}\u{000C}\u{001f}", 3),
    ];
    for s in cases {
        let text = encode_settings(&s);
        let back = decode_settings(text.as_str()).expect("the written record must read back");
        assert_eq!(back.book_name, s.book_name);
        assert_eq!(back.page, s.page);
    }
}

#[test]
fn decode_accepts_whitespace_and_either_member_order() {
    let a = decode_settings(" { \"book_name\" : \"b\" , \"page\" : 7 } ").unwrap();
    assert_eq!(a.book_name, "b");
    assert_eq!(a.page, 7);
    let b = decode_settings("{\"page\":3,\"book_name\":\"t\"}").unwrap();
    assert_eq!(b.book_name, "t");
    assert_eq!(b.page, 3);
}

#[test]
fn decode_accepts_standard_escapes() {
    let a = decode_settings("{\"book_name\":\"a\\nb\\t\\\"c\\\\d\\/e\",\"page\":1}").unwrap();
    assert_eq!(a.book_name, "a\nb\t\"c\\d/e");
    let b = decode_settings("{\"book_name\":\"\\b\\f\",\"page\":1}").unwrap();
    assert_eq!(b.book_name, "\u{0008}\u{000C}");
}

#[test]
fn decode_accepts_unicode_escapes() {
    let a = decode_settings("{\"book_name\":\"\\u0041\",\"page\":1}").unwrap();
    assert_eq!(a.book_name, "A");
    let b = decode_settings("{\"book_name\":\"\\u00e9\\u00E9\",\"page\":1}").unwrap();
    assert_eq!(b.book_name, "éé");
    let c = decode_settings("{\"book_name\":\"\\u4E16\\u754c\",\"page\":1}").unwrap();
    assert_eq!(c.book_name, "世界");
    let d = decode_settings("{\"book_name\":\"\\u0000\\u001f\",\"page\":1}").unwrap();
    assert_eq!(d.book_name, "\u{0000}\u{001f}");
}

#[test]
fn decode_accepts_minus_zero() {
    let a = decode_settings("{\"book_name\":\"x\",\"page\":-0}").unwrap();
    assert_eq!(a.page, 0);
}

#[test]
fn decode_rejects_corrupt_text() {
    let corrupt = [
        "",
        "not json",
        "{",
        "{}",
        "[1,2]",
        "{\"book_name\":\"x\"}",
        "{\"page\":1}",
        "{\"book_name\":4,\"page\":1}",
        "{\"book_name\":\"x\",\"page\":\"y\"}",
        "{\"book_name\":\"x\",\"page\":1",
        "{\"book_name\":\"x\",\"page\":1} trailing",
        "{\"book_name\":\"x\",\"page\":2147483648}",
        "{\"book_name\":\"x\",\"page\":-2147483649}",
        "{\"book_name\":\"x\",\"page\":1,\"extra\":2}",
        "{\"title\":\"x\",\"page\":1}",
        "{\"book_name\":\"x\",\"page\":}",
        "{\"book_name\":\"a\u{0008}b\",\"page\":1}",
        "{\"book_name\":\"a\u{0000}b\",\"page\":1}",
        "{\"book_name\":\"x\",\"page\":01}",
        "{\"book_name\":\"x\",\"page\":-01}",
        "{\"book_name\":\"x\",\"page\":007}",
        "{\"book_name\":\"\\uD800\",\"page\":1}",
        "{\"book_name\":\"\\uD83D\\uDE00\",\"page\":1}",
        "{\"book_name\":\"\\u00G1\",\"page\":1}",
        "{\"book_name\":\"\\u00\",\"page\":1}",
        "{\"book_name\":\"\\q\",\"page\":1}",
    ];
    for text in corrupt {
        assert!(decode_settings(text).is_none(), "accepted: {}", text);
    }
}

#[test]
fn missing_file_loads_as_no_record() {
    assert!(load_from_content(None).is_none());
}

#[test]
fn corrupt_content_loads_as_no_record() {
    assert!(load_from_content(Some("garbage")).is_none());
}

#[test]
fn presence_payload_derives_page_label_and_title() {
    let s = state("Dune", 12);
    let (line, details) = presence_payload(&s);
    assert_eq!(line.as_str(), "p.12");
    assert_eq!(details.as_str(), "Dune");
    let n = state("", -3);
    let (line2, _) = presence_payload(&n);
    assert_eq!(line2.as_str(), "p.-3");
}

#[test]
fn fresh_start_then_three_page_turns_survives_a_restart() {
    let loaded = load_from_content(None);
    let mut s = initial_state(loaded);
    assert_eq!(s.book_name, "");
    assert_eq!(s.page, 1);
    for _ in 0..3 {
        s = reducer(&s, Message::IncrementPage);
    }
    assert_eq!(s.book_name, "");
    assert_eq!(s.page, 4);
    let saved = encode_settings(&s);
    let reloaded = initial_state(load_from_content(Some(saved.as_str())));
    assert_eq!(reloaded.book_name, "");
    assert_eq!(reloaded.page, 4);
}
