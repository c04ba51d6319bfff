//! The settings codec: the JSON record `{"book_name": <string>,
//! "page": <integer>}` that persists the state between runs.
//!
//! The encoder writes one canonical record, escaping quotes,
//! backslashes and every control character, so the file is always
//! valid JSON. The decoder reads a record with JSON whitespace between
//! tokens, the two members in either order, the usual two-character
//! escapes, and `\uXXXX` escapes of non-surrogate code points; raw
//! control characters, numerals with a leading zero and surrogate
//! escapes (paired or lone) are refused, like anything else that is
//! not such a record, and read as "no record".

use vstd::prelude::*;
use crate::digits::int_str;
use crate::digits::parse_i32;
use crate::digits::parse_i32_exec;
use crate::digits::push_i32_dec;
use crate::state::AppState;
use crate::text::push_char;

verus! {

/// Whether `c` is JSON whitespace.
pub open spec fn is_ws(c: char) -> bool {
    c == ' ' || c == '\n' || c == '\r' || c == '\t'
}

/// The hexadecimal digit character of a value in 0..=15, lower case,
/// '0' for anything else.
pub open spec fn hex_char(d: int) -> char {
    if d == 0 { '0' }
    else if d == 1 { '1' }
    else if d == 2 { '2' }
    else if d == 3 { '3' }
    else if d == 4 { '4' }
    else if d == 5 { '5' }
    else if d == 6 { '6' }
    else if d == 7 { '7' }
    else if d == 8 { '8' }
    else if d == 9 { '9' }
    else if d == 10 { 'a' }
    else if d == 11 { 'b' }
    else if d == 12 { 'c' }
    else if d == 13 { 'd' }
    else if d == 14 { 'e' }
    else if d == 15 { 'f' }
    else { '0' }
}

/// Whether `c` is a hexadecimal digit, in either case.
pub open spec fn is_hex(c: char) -> bool {
    crate::digits::is_digit(c) || (97 <= c as u32 && c as u32 <= 102) || (65 <= c as u32 && c
        as u32 <= 70)
}

/// The numeric value of a hexadecimal digit, 0 for anything else.
pub open spec fn hex_val(c: char) -> int {
    if crate::digits::is_digit(c) {
        crate::digits::digit_val(c)
    } else if 97 <= c as u32 && c as u32 <= 102 {
        c as u32 - 87
    } else if 65 <= c as u32 && c as u32 <= 70 {
        c as u32 - 55
    } else {
        0
    }
}

/// The escape of one character inside a JSON string literal: the named
/// two-character escapes where JSON has them, a `\u00XX` escape for
/// the remaining control characters, the character itself otherwise.
pub open spec fn esc_char(c: char) -> Seq<char> {
    if c == '"' {
        seq!['\\', '"']
    } else if c == '\\' {
        seq!['\\', '\\']
    } else if c == '\n' {
        seq!['\\', 'n']
    } else if c == '\r' {
        seq!['\\', 'r']
    } else if c == '\t' {
        seq!['\\', 't']
    } else if c == '\u{0008}' {
        seq!['\\', 'b']
    } else if c == '\u{000C}' {
        seq!['\\', 'f']
    } else if (c as u32) < 32 {
        seq!['\\', 'u', '0', '0', hex_char(((c as u32) as int) / 16), hex_char(
            ((c as u32) as int) % 16,
        )]
    } else {
        seq![c]
    }
}

/// The body of the JSON string literal that holds `s`.
pub open spec fn esc(s: Seq<char>) -> Seq<char>
    decreases s.len(),
{
    if s.len() == 0 {
        Seq::empty()
    } else {
        esc_char(s[0]) + esc(s.drop_first())
    }
}

/// The name of the title member.
pub open spec fn key_book() -> Seq<char> {
    seq!['b', 'o', 'o', 'k', '_', 'n', 'a', 'm', 'e']
}

/// The name of the page member.
pub open spec fn key_page() -> Seq<char> {
    seq!['p', 'a', 'g', 'e']
}

/// The text up to and including the opening quote of the title value.
pub open spec fn enc_prefix() -> Seq<char> {
    seq!['{', '"'] + key_book() + seq!['"', ':', '"']
}

/// The text between the title value and the page value.
pub open spec fn enc_mid() -> Seq<char> {
    seq!['"', ',', '"'] + key_page() + seq!['"', ':']
}

/// The record written for a state: one canonical JSON object.
pub open spec fn spec_encode(title: Seq<char>, page: int) -> Seq<char> {
    enc_prefix() + esc(title) + enc_mid() + int_str(page) + seq!['}']
}

/// The index of the first non-whitespace character at or after `i`.
pub open spec fn skip_ws(s: Seq<char>, i: int) -> int
    decreases s.len() - i,
{
    if 0 <= i < s.len() && is_ws(s[i]) {
        skip_ws(s, i + 1)
    } else {
        i
    }
}

/// The character named by a two-character escape, if the second
/// character is one of the accepted codes.
pub open spec fn unesc_char(c: char) -> Option<char> {
    if c == '"' {
        Some('"')
    } else if c == '\\' {
        Some('\\')
    } else if c == '/' {
        Some('/')
    } else if c == 'n' {
        Some('\n')
    } else if c == 'r' {
        Some('\r')
    } else if c == 't' {
        Some('\t')
    } else if c == 'b' {
        Some('\u{0008}')
    } else if c == 'f' {
        Some('\u{000C}')
    } else {
        None
    }
}

/// The parse of a string literal body starting at `i` (just past the
/// opening quote): the unescaped text and the index just past the
/// closing quote. Raw control characters and surrogate `\u` escapes
/// are refused, as JSON asks.
pub open spec fn parse_str_body(s: Seq<char>, i: int) -> Option<(Seq<char>, int)>
    decreases s.len() - i,
{
    if i < 0 || i >= s.len() {
        None
    } else if s[i] == '"' {
        Some((Seq::empty(), i + 1))
    } else if s[i] == '\\' {
        if i + 1 >= s.len() {
            None
        } else if s[i + 1] == 'u' {
            if i + 5 < s.len() && is_hex(s[i + 2]) && is_hex(s[i + 3]) && is_hex(s[i + 4])
                && is_hex(s[i + 5]) {
                let v = hex_val(s[i + 2]) * 4096 + hex_val(s[i + 3]) * 256 + hex_val(s[i + 4]) * 16
                    + hex_val(s[i + 5]);
                if 0xD800 <= v && v < 0xE000 {
                    None
                } else {
                    match parse_str_body(s, i + 6) {
                        Some(p) => Some((seq![(v as u32) as char] + p.0, p.1)),
                        None => None,
                    }
                }
            } else {
                None
            }
        } else {
            match unesc_char(s[i + 1]) {
                Some(c) => match parse_str_body(s, i + 2) {
                    Some(p) => Some((seq![c] + p.0, p.1)),
                    None => None,
                },
                None => None,
            }
        }
    } else if (s[i] as u32) < 32 {
        None
    } else {
        match parse_str_body(s, i + 1) {
            Some(p) => Some((seq![s[i]] + p.0, p.1)),
            None => None,
        }
    }
}

/// The parse of a member name at `i`: the quoted key, the colon, and
/// the whitespace around it; the key and the index of the value.
pub open spec fn parse_key(s: Seq<char>, i: int) -> Option<(Seq<char>, int)> {
    if 0 <= i < s.len() && s[i] == '"' {
        match parse_str_body(s, i + 1) {
            Some(p) => {
                let j = skip_ws(s, p.1);
                if j < s.len() && s[j] == ':' {
                    Some((p.0, skip_ws(s, j + 1)))
                } else {
                    None
                }
            },
            None => None,
        }
    } else {
        None
    }
}

/// The parse of a quoted string value at `i`.
pub open spec fn parse_string_value(s: Seq<char>, i: int) -> Option<(Seq<char>, int)> {
    if 0 <= i < s.len() && s[i] == '"' {
        parse_str_body(s, i + 1)
    } else {
        None
    }
}

/// The parse of a JSON integer at `i`: as `parse_i32`, but refusing a
/// digit run with a leading zero, which JSON's number grammar forbids.
pub open spec fn parse_json_int(s: Seq<char>, i: int) -> Option<(int, int)> {
    let i1 = if 0 <= i < s.len() && s[i] == '-' {
        i + 1
    } else {
        i
    };
    match parse_i32(s, i) {
        Some(p) => if p.1 > i1 + 1 && s[i1] == '0' {
            None
        } else {
            Some(p)
        },
        None => None,
    }
}

/// Whether only the closing brace, amid whitespace, stands at `i`.
pub open spec fn at_end_after_close(s: Seq<char>, i: int) -> bool {
    let j = skip_ws(s, i);
    j < s.len() && s[j] == '}' && skip_ws(s, j + 1) == s.len()
}

/// The parse of a whole settings record: the title and the page, where
/// the text holds a JSON object with exactly the two expected members,
/// in either order; nothing otherwise.
pub open spec fn spec_decode(s: Seq<char>) -> Option<(Seq<char>, int)> {
    let i0 = skip_ws(s, 0);
    if !(i0 < s.len() && s[i0] == '{') {
        None
    } else {
        match parse_key(s, skip_ws(s, i0 + 1)) {
            Some(k1) => {
                if k1.0 == key_book() {
                    match parse_string_value(s, k1.1) {
                        Some(tv) => {
                            let i2 = skip_ws(s, tv.1);
                            if !(i2 < s.len() && s[i2] == ',') {
                                None
                            } else {
                                match parse_key(s, skip_ws(s, i2 + 1)) {
                                    Some(k2) => {
                                        if k2.0 == key_page() {
                                            match parse_json_int(s, k2.1) {
                                                Some(pv) => if at_end_after_close(s, pv.1) {
                                                    Some((tv.0, pv.0))
                                                } else {
                                                    None
                                                },
                                                None => None,
                                            }
                                        } else {
                                            None
                                        }
                                    },
                                    None => None,
                                }
                            }
                        },
                        None => None,
                    }
                } else if k1.0 == key_page() {
                    match parse_json_int(s, k1.1) {
                        Some(pv) => {
                            let i2 = skip_ws(s, pv.1);
                            if !(i2 < s.len() && s[i2] == ',') {
                                None
                            } else {
                                match parse_key(s, skip_ws(s, i2 + 1)) {
                                    Some(k2) => {
                                        if k2.0 == key_book() {
                                            match parse_string_value(s, k2.1) {
                                                Some(tv) => if at_end_after_close(s, tv.1) {
                                                    Some((tv.0, pv.0))
                                                } else {
                                                    None
                                                },
                                                None => None,
                                            }
                                        } else {
                                            None
                                        }
                                    },
                                    None => None,
                                }
                            }
                        },
                        None => None,
                    }
                } else {
                    None
                }
            },
            None => None,
        }
    }
}

/// The hexadecimal digit character of `d`, for `d < 16`.
fn hex_char_exec(d: u8) -> (c: char)
    requires
        d < 16,
    ensures
        c == hex_char(d as int),
{
    match d {
        0 => '0',
        1 => '1',
        2 => '2',
        3 => '3',
        4 => '4',
        5 => '5',
        6 => '6',
        7 => '7',
        8 => '8',
        9 => '9',
        10 => 'a',
        11 => 'b',
        12 => 'c',
        13 => 'd',
        14 => 'e',
        _ => 'f',
    }
}

/// Whether `c` is a hexadecimal digit, in either case.
fn is_hex_exec(c: char) -> (r: bool)
    ensures
        r == is_hex(c),
{
    let u: u32 = c as u32;
    (48 <= u && u <= 57) || (97 <= u && u <= 102) || (65 <= u && u <= 70)
}

/// The numeric value of a hexadecimal digit.
fn hex_val_exec(c: char) -> (v: u32)
    requires
        is_hex(c),
    ensures
        v as int == hex_val(c),
        v < 16,
{
    let u: u32 = c as u32;
    if 48 <= u && u <= 57 {
        u - 48
    } else if 97 <= u && u <= 102 {
        u - 87
    } else {
        u - 55
    }
}

/// Appends the string-literal body of `s[i..n]` to `out`, escaping as
/// `esc` describes.
fn push_escaped(out: &mut String, s: &str, i: usize, n: usize)
    requires
        n == s@.len(),
        i <= n,
    ensures
        final(out)@ == old(out)@ + esc(s@.subrange(i as int, n as int)),
    decreases n - i,
{
    if i == n {
        proof {
            assert(s@.subrange(i as int, n as int).len() == 0);
            assert(old(out)@ + esc(s@.subrange(i as int, n as int)) =~= old(out)@);
        }
        return ;
    }
    let c = s.get_char(i);
    if c == '"' {
        push_char(out, '\\');
        push_char(out, '"');
    } else if c == '\\' {
        push_char(out, '\\');
        push_char(out, '\\');
    } else if c == '\n' {
        push_char(out, '\\');
        push_char(out, 'n');
    } else if c == '\r' {
        push_char(out, '\\');
        push_char(out, 'r');
    } else if c == '\t' {
        push_char(out, '\\');
        push_char(out, 't');
    } else if c == '\u{0008}' {
        push_char(out, '\\');
        push_char(out, 'b');
    } else if c == '\u{000C}' {
        push_char(out, '\\');
        push_char(out, 'f');
    } else {
        let code: u32 = c as u32;
        if code < 32 {
            push_char(out, '\\');
            push_char(out, 'u');
            push_char(out, '0');
            push_char(out, '0');
            push_char(out, hex_char_exec((code / 16) as u8));
            push_char(out, hex_char_exec((code % 16) as u8));
        } else {
            push_char(out, c);
        }
    }
    proof {
        assert(out@ =~= old(out)@ + esc_char(s@[i as int]));
    }
    let ghost mid = out@;
    push_escaped(out, s, i + 1, n);
    proof {
        let t = s@.subrange(i as int, n as int);
        assert(t[0] == s@[i as int]);
        assert(t.drop_first() =~= s@.subrange(i as int + 1, n as int));
        assert(out@ == mid + esc(s@.subrange(i as int + 1, n as int)));
        assert(out@ =~= old(out)@ + esc(t));
    }
}

/// Serializes a state into the settings record.
pub fn encode_settings(state: &AppState) -> (r: String)
    ensures
        r@ == spec_encode(state.book_name@, state.page as int),
{
    let mut out = String::new();
    out.append("{\"book_name\":\"");
    proof {
        reveal_strlit("{\"book_name\":\"");
        assert(out@ =~= enc_prefix());
    }
    let title = state.book_name.as_str();
    let n = title.unicode_len();
    let ghost before_title = out@;
    push_escaped(&mut out, title, 0, n);
    proof {
        assert(state.book_name@.subrange(0, n as int) =~= state.book_name@);
        assert(out@ == before_title + esc(state.book_name@));
    }
    out.append("\",\"page\":");
    proof {
        reveal_strlit("\",\"page\":");
        assert(out@ =~= enc_prefix() + esc(state.book_name@) + enc_mid());
    }
    let ghost before_page = out@;
    push_i32_dec(&mut out, state.page);
    out.append("}");
    proof {
        reveal_strlit("}");
        assert(out@ =~= spec_encode(state.book_name@, state.page as int));
    }
    out
}

/// Whether `c` is JSON whitespace.
fn is_ws_exec(c: char) -> (r: bool)
    ensures
        r == is_ws(c),
{
    c == ' ' || c == '\n' || c == '\r' || c == '\t'
}

/// Advances past whitespace, as `skip_ws` reads it.
fn skip_ws_exec(s: &str, i: usize, n: usize) -> (r: usize)
    requires
        n == s@.len(),
        i <= n,
    ensures
        r as int == skip_ws(s@, i as int),
        i <= r <= n,
{
    let mut idx: usize = i;
    while idx < n && is_ws_exec(s.get_char(idx))
        invariant
            i <= idx <= n,
            n == s@.len(),
            skip_ws(s@, i as int) == skip_ws(s@, idx as int),
        decreases n - idx,
    {
        idx = idx + 1;
    }
    idx
}

/// The character named by a two-character escape.
fn unesc_char_exec(c: char) -> (r: Option<char>)
    ensures
        r == unesc_char(c),
{
    if c == '"' {
        Some('"')
    } else if c == '\\' {
        Some('\\')
    } else if c == '/' {
        Some('/')
    } else if c == 'n' {
        Some('\n')
    } else if c == 'r' {
        Some('\r')
    } else if c == 't' {
        Some('\t')
    } else if c == 'b' {
        Some('\u{0008}')
    } else if c == 'f' {
        Some('\u{000C}')
    } else {
        None
    }
}

/// Reads a string literal body, as `parse_str_body` reads it.
fn parse_str_body_exec(s: &str, i: usize, n: usize) -> (r: Option<(String, usize)>)
    requires
        n == s@.len(),
        i <= n,
    ensures
        match r {
            Some(p) => parse_str_body(s@, i as int) == Some((p.0@, p.1 as int)) && i < p.1 <= n,
            None => parse_str_body(s@, i as int) is None,
        },
    decreases n - i,
{
    if i >= n {
        return None;
    }
    let c = s.get_char(i);
    if c == '"' {
        Some((String::new(), i + 1))
    } else if c == '\\' {
        if i + 1 >= n {
            None
        } else if s.get_char(i + 1) == 'u' {
            if n - i > 5 {
                let h0 = s.get_char(i + 2);
                let h1 = s.get_char(i + 3);
                let h2 = s.get_char(i + 4);
                let h3 = s.get_char(i + 5);
                if is_hex_exec(h0) && is_hex_exec(h1) && is_hex_exec(h2) && is_hex_exec(h3) {
                    let v: u32 = hex_val_exec(h0) * 4096 + hex_val_exec(h1) * 256 + hex_val_exec(
                        h2,
                    ) * 16 + hex_val_exec(h3);
                    if 0xD800 <= v && v < 0xE000 {
                        None
                    } else {
                        match parse_str_body_exec(s, i + 6, n) {
                            Some(p) => {
                                let c2 = crate::text::char_from_code(v);
                                let mut head = String::new();
                                push_char(&mut head, c2);
                                let whole = head.concat(p.0.as_str());
                                proof {
                                    vstd::utf8::char_u32_cast(c2, v);
                                    assert(whole@ =~= seq![c2] + p.0@);
                                }
                                Some((whole, p.1))
                            },
                            None => None,
                        }
                    }
                } else {
                    None
                }
            } else {
                None
            }
        } else {
            let e = s.get_char(i + 1);
            match unesc_char_exec(e) {
                Some(c2) => match parse_str_body_exec(s, i + 2, n) {
                    Some(p) => {
                        let mut head = String::new();
                        push_char(&mut head, c2);
                        let whole = head.concat(p.0.as_str());
                        proof {
                            assert(whole@ =~= seq![c2] + p.0@);
                        }
                        Some((whole, p.1))
                    },
                    None => None,
                },
                None => None,
            }
        }
    } else if (c as u32) < 32 {
        None
    } else {
        match parse_str_body_exec(s, i + 1, n) {
            Some(p) => {
                let mut head = String::new();
                push_char(&mut head, c);
                let whole = head.concat(p.0.as_str());
                proof {
                    assert(whole@ =~= seq![c] + p.0@);
                }
                Some((whole, p.1))
            },
            None => None,
        }
    }
}

/// Parses a JSON integer, as `parse_json_int` reads it.
fn parse_json_int_exec(s: &str, i: usize, n: usize) -> (r: Option<(i32, usize)>)
    requires
        n == s@.len(),
        i <= n,
    ensures
        match r {
            Some(p) => parse_json_int(s@, i as int) == Some((p.0 as int, p.1 as int)) && i <= p.1
                <= n,
            None => parse_json_int(s@, i as int) is None,
        },
{
    match parse_i32_exec(s, i, n) {
        Some((v, j)) => {
            let i1: usize = if i < n && s.get_char(i) == '-' {
                i + 1
            } else {
                i
            };
            proof {
                crate::digits::lemma_digits_end(s@, i1 as int);
            }
            if j > i1 + 1 && s.get_char(i1) == '0' {
                None
            } else {
                Some((v, j))
            }
        },
        None => None,
    }
}

/// Reads a member name and its colon, as `parse_key` reads it.
fn parse_key_exec(s: &str, i: usize, n: usize) -> (r: Option<(String, usize)>)
    requires
        n == s@.len(),
        i <= n,
    ensures
        match r {
            Some(p) => parse_key(s@, i as int) == Some((p.0@, p.1 as int)) && p.1 <= n,
            None => parse_key(s@, i as int) is None,
        },
{
    if i < n && s.get_char(i) == '"' {
        match parse_str_body_exec(s, i + 1, n) {
            Some(p) => {
                let j = skip_ws_exec(s, p.1, n);
                if j < n && s.get_char(j) == ':' {
                    let after = skip_ws_exec(s, j + 1, n);
                    Some((p.0, after))
                } else {
                    None
                }
            },
            None => None,
        }
    } else {
        None
    }
}

/// Reads a quoted string value, as `parse_string_value` reads it.
fn parse_string_value_exec(s: &str, i: usize, n: usize) -> (r: Option<(String, usize)>)
    requires
        n == s@.len(),
        i <= n,
    ensures
        match r {
            Some(p) => parse_string_value(s@, i as int) == Some((p.0@, p.1 as int)) && p.1 <= n,
            None => parse_string_value(s@, i as int) is None,
        },
{
    if i < n && s.get_char(i) == '"' {
        parse_str_body_exec(s, i + 1, n)
    } else {
        None
    }
}

/// Checks that only the closing brace, amid whitespace, remains.
fn close_exec(s: &str, i: usize, n: usize) -> (r: bool)
    requires
        n == s@.len(),
        i <= n,
    ensures
        r == at_end_after_close(s@, i as int),
{
    let j = skip_ws_exec(s, i, n);
    if j < n && s.get_char(j) == '}' {
        let k = skip_ws_exec(s, j + 1, n);
        k == n
    } else {
        false
    }
}

/// Deserializes a settings record, as `spec_decode` reads it. Text that
/// does not hold a record of the expected shape yields nothing, never
/// an error.
pub fn decode_settings(s: &str) -> (r: Option<AppState>)
    ensures
        (r is Some) == (spec_decode(s@) is Some),
        r matches Some(st) ==> (spec_decode(s@) matches Some(tp) && st.book_name@ == tp.0
            && st.page as int == tp.1),
{
    let n = s.unicode_len();
    let i0 = skip_ws_exec(s, 0, n);
    if !(i0 < n) {
        return None;
    }
    if s.get_char(i0) != '{' {
        return None;
    }
    let i1 = skip_ws_exec(s, i0 + 1, n);
    let k1 = match parse_key_exec(s, i1, n) {
        Some(k) => k,
        None => {
            return None;
        },
    };
    let kb = String::from_str("book_name");
    let kp = String::from_str("page");
    proof {
        reveal_strlit("book_name");
        reveal_strlit("page");
        assert(kb@ =~= key_book());
        assert(kp@ =~= key_page());
    }
    if k1.0 == kb {
        let tv = match parse_string_value_exec(s, k1.1, n) {
            Some(t) => t,
            None => {
                return None;
            },
        };
        let i2 = skip_ws_exec(s, tv.1, n);
        if !(i2 < n) {
            return None;
        }
        if s.get_char(i2) != ',' {
            return None;
        }
        let i3 = skip_ws_exec(s, i2 + 1, n);
        let k2 = match parse_key_exec(s, i3, n) {
            Some(k) => k,
            None => {
                return None;
            },
        };
        if k2.0 == kp {
            let pv = match parse_json_int_exec(s, k2.1, n) {
                Some(p) => p,
                None => {
                    return None;
                },
            };
            if close_exec(s, pv.1, n) {
                Some(AppState { book_name: tv.0, page: pv.0 })
            } else {
                None
            }
        } else {
            None
        }
    } else if k1.0 == kp {
        let pv = match parse_json_int_exec(s, k1.1, n) {
            Some(p) => p,
            None => {
                return None;
            },
        };
        let i2 = skip_ws_exec(s, pv.1, n);
        if !(i2 < n) {
            return None;
        }
        if s.get_char(i2) != ',' {
            return None;
        }
        let i3 = skip_ws_exec(s, i2 + 1, n);
        let k2 = match parse_key_exec(s, i3, n) {
            Some(k) => k,
            None => {
                return None;
            },
        };
        if k2.0 == kb {
            let tv = match parse_string_value_exec(s, k2.1, n) {
                Some(t) => t,
                None => {
                    return None;
                },
            };
            if close_exec(s, tv.1, n) {
                Some(AppState { book_name: tv.0, page: pv.0 })
            } else {
                None
            }
        } else {
            None
        }
    } else {
        None
    }
}

/// Escaping text that needs no escapes leaves it as it stands.
proof fn lemma_esc_raw(t: Seq<char>)
    requires
        forall|k: int| 0 <= k < t.len() ==> #[trigger] esc_char(t[k]) == seq![t[k]],
    ensures
        esc(t) == t,
    decreases t.len(),
{
    if t.len() == 0 {
        assert(esc(t) =~= t);
    } else {
        assert(esc_char(t[0]) == seq![t[0]]);
        assert(forall|k: int| 0 <= k < t.drop_first().len()
            ==> #[trigger] esc_char(t.drop_first()[k]) == seq![t.drop_first()[k]]);
        lemma_esc_raw(t.drop_first());
        assert(esc(t) =~= t);
    }
}

/// A string literal that holds the escape of `t` and then a closing
/// quote parses back to `t`, ending just past that quote.
proof fn lemma_parse_esc(s: Seq<char>, i: int, t: Seq<char>)
    requires
        0 <= i,
        i + esc(t).len() + 1 <= s.len(),
        s.subrange(i, i + esc(t).len() + 1) == esc(t).push('"'),
    ensures
        parse_str_body(s, i) == Some((t, i + esc(t).len() + 1)),
    decreases t.len(),
{
    let ll = esc(t).len() as int;
    assert(forall|m: int| 0 <= m < ll + 1
        ==> s[i + m] == #[trigger] (esc(t).push('"'))[m]) by {
        assert(forall|m: int| 0 <= m < ll + 1
            ==> #[trigger] s.subrange(i, i + ll + 1)[m] == s[i + m]);
    }
    if t.len() == 0 {
        assert(esc(t).len() == 0);
        assert(s[i + 0] == (esc(t).push('"'))[0]);
        assert((esc(t).push('"'))[0] == '"');
        assert(s[i] == '"');
    } else {
        let c = t[0];
        let tp = t.drop_first();
        let ec = esc_char(c);
        assert(esc(t) == ec + esc(tp));
        let k = ec.len() as int;
        let lp = esc(tp).len() as int;
        assert(ll == k + lp);
        assert(esc(t).push('"') =~= ec + esc(tp).push('"'));
        assert(s[i + 0] == (esc(t).push('"'))[0]);
        assert((esc(t).push('"'))[0] == (ec + esc(tp).push('"'))[0]);
        assert((ec + esc(tp).push('"'))[0] == ec[0]);
        assert(s[i] == ec[0]);
        assert forall|m: int| 0 <= m < lp + 1 implies s.subrange(
            i + k,
            i + k + lp + 1,
        )[m] == (esc(tp).push('"'))[m] by {
            assert(s.subrange(i + k, i + k + lp + 1)[m] == s[i + k + m]);
            assert(s[i + (k + m)] == (esc(t).push('"'))[k + m]);
            assert((ec + esc(tp).push('"'))[k + m] == (esc(tp).push('"'))[m]);
        }
        assert(s.subrange(i + k, i + k + lp + 1) =~= esc(tp).push('"'));
        lemma_parse_esc(s, i + k, tp);
        if k == 1 {
            assert(ec == seq![c]);
            assert(ec[0] == c);
            assert(c != '"' && c != '\\');
            assert((c as u32) >= 32);
            assert(s[i] == c);
            assert(parse_str_body(s, i) == Some((seq![s[i]] + tp, i + 1 + lp + 1)));
            assert(seq![c] + tp =~= t);
        } else if k == 2 {
            assert(ec.len() == 2);
            assert(ec[0] == '\\');
            assert(ec[1] != 'u');
            assert(unesc_char(ec[1]) == Some(c));
            assert(s[i] == '\\');
            assert(s[i + 1] == (esc(t).push('"'))[1]);
            assert((esc(t).push('"'))[1] == (ec + esc(tp).push('"'))[1]);
            assert((ec + esc(tp).push('"'))[1] == ec[1]);
            assert(s[i + 1] == ec[1]);
            assert(parse_str_body(s, i) == Some((seq![c] + tp, i + 2 + lp + 1)));
            assert(seq![c] + tp =~= t);
        } else {
            // the \u00XX escape of a control character
            assert(ec.len() == 6);
            let code = (c as u32) as int;
            assert(code < 32);
            assert(ec[0] == '\\');
            assert(ec[1] == 'u');
            assert(ec[2] == '0');
            assert(ec[3] == '0');
            assert(ec[4] == hex_char(code / 16));
            assert(ec[5] == hex_char(code % 16));
            assert(s[i] == '\\');
            assert(s[i + 1] == (esc(t).push('"'))[1]);
            assert((esc(t).push('"'))[1] == (ec + esc(tp).push('"'))[1]);
            assert((ec + esc(tp).push('"'))[1] == ec[1]);
            assert(s[i + 2] == (esc(t).push('"'))[2]);
            assert((esc(t).push('"'))[2] == (ec + esc(tp).push('"'))[2]);
            assert((ec + esc(tp).push('"'))[2] == ec[2]);
            assert(s[i + 3] == (esc(t).push('"'))[3]);
            assert((esc(t).push('"'))[3] == (ec + esc(tp).push('"'))[3]);
            assert((ec + esc(tp).push('"'))[3] == ec[3]);
            assert(s[i + 4] == (esc(t).push('"'))[4]);
            assert((esc(t).push('"'))[4] == (ec + esc(tp).push('"'))[4]);
            assert((ec + esc(tp).push('"'))[4] == ec[4]);
            assert(s[i + 5] == (esc(t).push('"'))[5]);
            assert((esc(t).push('"'))[5] == (ec + esc(tp).push('"'))[5]);
            assert((ec + esc(tp).push('"'))[5] == ec[5]);
            assert(is_hex('0') && hex_val('0') == 0);
            assert(0 <= code / 16 < 2);
            assert(0 <= code % 16 < 16);
            assert(is_hex(hex_char(code / 16)));
            assert(hex_val(hex_char(code / 16)) == code / 16);
            assert(is_hex(hex_char(code % 16)));
            assert(hex_val(hex_char(code % 16)) == code % 16);
            let v = hex_val(s[i + 2]) * 4096 + hex_val(s[i + 3]) * 256 + hex_val(s[i + 4]) * 16
                + hex_val(s[i + 5]);
            assert(v == (code / 16) * 16 + code % 16);
            assert(v == code);
            assert(!(0xD800 <= v && v < 0xE000));
            vstd::utf8::char_u32_cast(c, c as u32);
            assert((v as u32) as char == c);
            assert(parse_str_body(s, i) == Some((seq![c] + tp, i + 6 + lp + 1)));
            assert(seq![c] + tp =~= t);
        }
    }
}

/// A numeral standing at `i`, followed by a non-digit, parses back to
/// its value, ending just past its digits.
proof fn lemma_parse_int_str(s: Seq<char>, i: int, p: int)
    requires
        0 <= i,
        i32::MIN as int <= p <= i32::MAX as int,
        i + int_str(p).len() < s.len(),
        s.subrange(i, i + int_str(p).len()) == int_str(p),
        !crate::digits::is_digit(s[i + int_str(p).len()]),
    ensures
        parse_json_int(s, i) == Some((p, i + int_str(p).len())),
{
    let num = int_str(p);
    let ll = num.len() as int;
    assert(forall|m: int| 0 <= m < ll ==> s[i + m] == #[trigger] num[m]) by {
        assert(forall|m: int| 0 <= m < ll ==> #[trigger] s.subrange(i, i + ll)[m] == s[i + m]);
    }
    if p >= 0 {
        crate::digits::lemma_dec_digits_val(p);
        assert(num == crate::digits::dec_digits(p));
        assert(s[i + 0] == num[0]);
        assert(crate::digits::is_digit(num[0]));
        assert(crate::digits::is_digit(s[i]));
        assert(s[i] != '-');
        assert forall|kk: int| i <= kk < i + ll implies crate::digits::is_digit(s[kk]) by {
            assert(s[i + (kk - i)] == num[kk - i]);
            assert(crate::digits::is_digit(num[kk - i]));
        }
        crate::digits::lemma_digits_end_of(s, i, i + ll);
        assert(s.subrange(i, i + ll) == num);
        assert(crate::digits::digits_val(s.subrange(i, i + ll)) == p);
        assert(parse_i32(s, i) == Some((p, i + ll)));
        if ll > 1 {
            if p < 10 {
                assert(crate::digits::dec_digits(p).len() == 1);
            }
            crate::digits::lemma_dec_digits_no_leading_zero(p);
            assert(s[i] != '0');
        }
        assert(parse_json_int(s, i) == Some((p, i + ll)));
    } else {
        crate::digits::lemma_dec_digits_val(-p);
        let dd = crate::digits::dec_digits(-p);
        assert(num == seq!['-'] + dd);
        assert(s[i + 0] == num[0]);
        assert((seq!['-'] + dd)[0] == '-');
        assert(s[i] == '-');
        assert forall|m: int| 0 <= m < ll - 1 implies #[trigger] s.subrange(i + 1, i + ll)[m]
            == dd[m] by {
            assert(s.subrange(i + 1, i + ll)[m] == s[i + 1 + m]);
            assert(s[i + (m + 1)] == num[m + 1]);
            assert((seq!['-'] + dd)[m + 1] == dd[m]);
        }
        assert(s.subrange(i + 1, i + ll) =~= dd);
        assert forall|kk: int| i + 1 <= kk < i + ll implies crate::digits::is_digit(s[kk]) by {
            assert(s.subrange(i + 1, i + ll)[kk - i - 1] == s[kk]);
            assert(crate::digits::is_digit(dd[kk - i - 1]));
        }
        crate::digits::lemma_digits_end_of(s, i + 1, i + ll);
        assert(crate::digits::digits_val(s.subrange(i + 1, i + ll)) == -p);
        assert(ll >= 2);
        assert(parse_i32(s, i) == Some((p, i + ll)));
        crate::digits::lemma_dec_digits_no_leading_zero(-p);
        assert(s.subrange(i + 1, i + ll)[0] == s[i + 1]);
        assert(s[i + 1] != '0');
        assert(parse_json_int(s, i) == Some((p, i + ll)));
    }
}

/// Save-then-load round trip: the record written for any state reads
/// back as exactly that state's title and page.
pub proof fn lemma_encode_decode(title: Seq<char>, page: int)
    requires
        i32::MIN as int <= page <= i32::MAX as int,
    ensures
        spec_decode(spec_encode(title, page)) == Some((title, page)),
{
    let s = spec_encode(title, page);
    let pre = enc_prefix();
    let e = esc(title);
    let mid = enc_mid();
    let num = int_str(page);
    let le = e.len() as int;
    let ln = num.len() as int;
    assert(pre.len() == 14);
    assert(mid.len() == 9);
    assert(s.len() == 24 + le + ln);
    assert(forall|m: int| 0 <= m < 14 ==> s[m] == #[trigger] pre[m]);
    assert(forall|m: int| 0 <= m < le ==> s[14 + m] == #[trigger] e[m]);
    assert(forall|m: int| 0 <= m < 9 ==> s[14 + le + m] == #[trigger] mid[m]);
    assert(forall|m: int| 0 <= m < ln ==> s[23 + le + m] == #[trigger] num[m]);
    assert(s[23 + le + ln] == '}');

    // the opening brace
    assert(s[0] == '{' && !is_ws('{'));
    assert(skip_ws(s, 0) == 0);
    assert(s[1] == '"' && !is_ws('"'));
    assert(skip_ws(s, 1) == 1);

    // the first key: "book_name":
    assert forall|k: int| 0 <= k < key_book().len() implies #[trigger] esc_char(key_book()[k])
        == seq![key_book()[k]] by {
    }
    lemma_esc_raw(key_book());
    assert forall|m: int| 0 <= m < 10 implies s.subrange(2, 12)[m] == (key_book().push('"'))[m] by {
        assert(s.subrange(2, 12)[m] == s[2 + m]);
        assert(s[2 + m] == pre[2 + m]);
    }
    assert(s.subrange(2, 12) =~= key_book().push('"'));
    lemma_parse_esc(s, 2, key_book());
    assert(parse_str_body(s, 2) == Some((key_book(), 12int)));
    assert(s[12] == ':' && !is_ws(':'));
    assert(skip_ws(s, 12) == 12);
    assert(s[13] == '"');
    assert(skip_ws(s, 13) == 13);
    assert(parse_key(s, 1) == Some((key_book(), 13int)));
    assert(key_book() != key_page());

    // the title value
    assert forall|m: int| 0 <= m < le + 1 implies s.subrange(14, 14 + le + 1)[m] == (e.push(
        '"',
    ))[m] by {
        assert(s.subrange(14, 14 + le + 1)[m] == s[14 + m]);
        if m < le {
        } else {
            assert(s[14 + le] == mid[0]);
        }
    }
    assert(s.subrange(14, 14 + le + 1) =~= e.push('"'));
    lemma_parse_esc(s, 14, title);
    assert(parse_str_body(s, 14) == Some((title, 15 + le)));
    assert(parse_string_value(s, 13) == Some((title, 15 + le)));

    // the comma and the second key: "page":
    assert(s[15 + le] == ',' && !is_ws(','));
    assert(skip_ws(s, 15 + le) == 15 + le);
    assert(s[16 + le] == '"');
    assert(skip_ws(s, 16 + le) == 16 + le);
    assert forall|k: int| 0 <= k < key_page().len() implies #[trigger] esc_char(key_page()[k])
        == seq![key_page()[k]] by {
    }
    lemma_esc_raw(key_page());
    assert forall|m: int| 0 <= m < 5 implies s.subrange(17 + le, 22 + le)[m] == (key_page().push(
        '"',
    ))[m] by {
        assert(s.subrange(17 + le, 22 + le)[m] == s[17 + le + m]);
        assert(s[14 + le + (3 + m)] == mid[3 + m]);
    }
    assert(s.subrange(17 + le, 22 + le) =~= key_page().push('"'));
    lemma_parse_esc(s, 17 + le, key_page());
    assert(parse_str_body(s, 17 + le) == Some((key_page(), 22 + le)));
    assert(s[22 + le] == ':');
    assert(skip_ws(s, 22 + le) == 22 + le);
    assert(ln >= 1) by {
        if page >= 0 {
            crate::digits::lemma_dec_digits_val(page);
        } else {
            crate::digits::lemma_dec_digits_val(-page);
        }
    }
    assert(s[23 + le] == num[0]);
    assert(!is_ws(num[0])) by {
        if page >= 0 {
            crate::digits::lemma_dec_digits_val(page);
            assert(crate::digits::is_digit(num[0]));
        } else {
            assert(num[0] == '-');
        }
    }
    assert(skip_ws(s, 23 + le) == 23 + le);
    assert(parse_key(s, 16 + le) == Some((key_page(), 23 + le)));

    // the page value
    assert forall|m: int| 0 <= m < ln implies s.subrange(23 + le, 23 + le + ln)[m] == num[m] by {
        assert(s.subrange(23 + le, 23 + le + ln)[m] == s[23 + le + m]);
    }
    assert(s.subrange(23 + le, 23 + le + ln) =~= num);
    assert(!crate::digits::is_digit('}'));
    lemma_parse_int_str(s, 23 + le, page);
    assert(parse_json_int(s, 23 + le) == Some((page, 23 + le + ln)));

    // the closing brace, and nothing after it
    assert(!is_ws('}'));
    assert(skip_ws(s, 23 + le + ln) == 23 + le + ln);
    assert(skip_ws(s, 24 + le + ln) == 24 + le + ln);
    assert(at_end_after_close(s, 23 + le + ln));
}

/// The compute half of loading: a missing file is no record, and file
/// text is read through the decoder.
pub fn load_from_content(content: Option<&str>) -> (r: Option<AppState>)
    ensures
        match content {
            None => r is None,
            Some(s) => (r is Some) == (spec_decode(s@) is Some) && (r matches Some(st)
                ==> (spec_decode(s@) matches Some(tp) && st.book_name@ == tp.0 && st.page as int
                == tp.1)),
        },
{
    match content {
        None => None,
        Some(s) => decode_settings(s),
    }
}

} // verus!
