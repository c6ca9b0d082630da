//! The wire format: one squeak as a JSON text frame.
//!
//! A squeak travels as `{"id":"...","content":"...","author":{"name":"..."}}`,
//! with the identifier in its canonical base32 spelling and the two
//! text fields JSON-escaped: quote and backslash by a backslash pair,
//! the five control characters with short names by those, every other
//! control character as `\u00` and two lowercase hex digits.  The
//! decoder accepts exactly what the encoder writes — field order,
//! escape choices and all — and the two are proved inverse, so a
//! frame read back yields the squeak that was sent.

use crate::ident::decode_ulid;
use crate::ident::encode_ulid;
use crate::ident::ulid_chars;
use crate::ident::ulid_val;
use crate::ident::valid_ulid_chars;
use crate::ident::lemma_ulid_round_trip;
use crate::ident::crock_val;
use crate::squeak::Squeak;
use crate::squeak::SqueakView;
use crate::squeak::User;
use crate::text::chars_of;
use crate::text::string_from_chars;
use vstd::prelude::*;

verus! {

/// The lowercase hex digit with value `d`.
pub open spec fn hex_char(d: int) -> char {
    if d == 0 {
        '0'
    } else if d == 1 {
        '1'
    } else if d == 2 {
        '2'
    } else if d == 3 {
        '3'
    } else if d == 4 {
        '4'
    } else if d == 5 {
        '5'
    } else if d == 6 {
        '6'
    } else if d == 7 {
        '7'
    } else if d == 8 {
        '8'
    } else if d == 9 {
        '9'
    } else if d == 10 {
        'a'
    } else if d == 11 {
        'b'
    } else if d == 12 {
        'c'
    } else if d == 13 {
        'd'
    } else if d == 14 {
        'e'
    } else if d == 15 {
        'f'
    } else {
        '?'
    }
}

/// The value of a lowercase hex digit, or a negative number for any
/// other character.
pub open spec fn hex_val(c: char) -> int {
    if c == '0' {
        0
    } else if c == '1' {
        1
    } else if c == '2' {
        2
    } else if c == '3' {
        3
    } else if c == '4' {
        4
    } else if c == '5' {
        5
    } else if c == '6' {
        6
    } else if c == '7' {
        7
    } else if c == '8' {
        8
    } else if c == '9' {
        9
    } else if c == 'a' {
        10
    } else if c == 'b' {
        11
    } else if c == 'c' {
        12
    } else if c == 'd' {
        13
    } else if c == 'e' {
        14
    } else if c == 'f' {
        15
    } else {
        -1
    }
}

/// The control character with code `n`.
pub open spec fn ctrl_char(n: int) -> char {
    if n == 0 {
        '\u{0}'
    } else if n == 1 {
        '\u{1}'
    } else if n == 2 {
        '\u{2}'
    } else if n == 3 {
        '\u{3}'
    } else if n == 4 {
        '\u{4}'
    } else if n == 5 {
        '\u{5}'
    } else if n == 6 {
        '\u{6}'
    } else if n == 7 {
        '\u{7}'
    } else if n == 8 {
        '\u{8}'
    } else if n == 9 {
        '\u{9}'
    } else if n == 10 {
        '\u{a}'
    } else if n == 11 {
        '\u{b}'
    } else if n == 12 {
        '\u{c}'
    } else if n == 13 {
        '\u{d}'
    } else if n == 14 {
        '\u{e}'
    } else if n == 15 {
        '\u{f}'
    } else if n == 16 {
        '\u{10}'
    } else if n == 17 {
        '\u{11}'
    } else if n == 18 {
        '\u{12}'
    } else if n == 19 {
        '\u{13}'
    } else if n == 20 {
        '\u{14}'
    } else if n == 21 {
        '\u{15}'
    } else if n == 22 {
        '\u{16}'
    } else if n == 23 {
        '\u{17}'
    } else if n == 24 {
        '\u{18}'
    } else if n == 25 {
        '\u{19}'
    } else if n == 26 {
        '\u{1a}'
    } else if n == 27 {
        '\u{1b}'
    } else if n == 28 {
        '\u{1c}'
    } else if n == 29 {
        '\u{1d}'
    } else if n == 30 {
        '\u{1e}'
    } else if n == 31 {
        '\u{1f}'
    } else {
        '?'
    }
}

/// How one character is written inside a JSON string.
pub open spec fn escape_char(c: char) -> Seq<char> {
    if c == '"' {
        seq!['\\', '"']
    } else if c == '\\' {
        seq!['\\', '\\']
    } else if c as u32 == 8 {
        seq!['\\', 'b']
    } else if c as u32 == 9 {
        seq!['\\', 't']
    } else if c as u32 == 10 {
        seq!['\\', 'n']
    } else if c as u32 == 12 {
        seq!['\\', 'f']
    } else if c as u32 == 13 {
        seq!['\\', 'r']
    } else if (c as u32) < 32 {
        seq!['\\', 'u', '0', '0', hex_char((c as u32 / 16) as int), hex_char((c as u32 % 16) as int)]
    } else {
        seq![c]
    }
}

/// How a text is written inside a JSON string.
pub open spec fn escape(s: Seq<char>) -> Seq<char>
    decreases s.len(),
{
    if s.len() == 0 {
        Seq::empty()
    } else {
        escape_char(s[0]) + escape(s.skip(1))
    }
}

/// The frame's pieces between the fields.
pub open spec fn lit_id() -> Seq<char> {
    seq!['{', '"', 'i', 'd', '"', ':', '"']
}

/// The piece between the identifier and the content field.
pub open spec fn lit_content() -> Seq<char> {
    seq![',', '"', 'c', 'o', 'n', 't', 'e', 'n', 't', '"', ':', '"']
}

/// The piece between the content and the author's name field.
pub open spec fn lit_author() -> Seq<char> {
    seq![',', '"', 'a', 'u', 't', 'h', 'o', 'r', '"', ':', '{', '"', 'n', 'a', 'm', 'e', '"', ':', '"']
}

/// What follows the author's name: the two closing braces.
pub open spec fn lit_end() -> Seq<char> {
    seq!['}', '}']
}

/// The whole frame for one squeak.
pub open spec fn wire_of(v: SqueakView) -> Seq<char> {
    lit_id() + ulid_chars(v.id) + seq!['"'] + lit_content() + escape(v.content) + seq!['"']
        + lit_author() + escape(v.author_name) + seq!['"'] + lit_end()
}

/// The rest of the input after a required literal piece, if the piece
/// is there.
pub open spec fn strip(s: Seq<char>, p: Seq<char>) -> Option<Seq<char>> {
    if s.len() >= p.len() && s.take(p.len() as int) == p {
        Some(s.skip(p.len() as int))
    } else {
        None
    }
}

/// Whether the character closes a backslash escape of one character.
pub open spec fn is_simple_escape(e: char) -> bool {
    e == '"' || e == '\\' || e == 'b' || e == 't' || e == 'n' || e == 'f' || e == 'r'
}

/// The character a simple escape stands for.
pub open spec fn unescape_char(e: char) -> char {
    if e == '"' {
        '"'
    } else if e == '\\' {
        '\\'
    } else if e == 'b' {
        ctrl_char(8)
    } else if e == 't' {
        ctrl_char(9)
    } else if e == 'n' {
        ctrl_char(10)
    } else if e == 'f' {
        ctrl_char(12)
    } else {
        ctrl_char(13)
    }
}

/// Reads a JSON string body up to and including its closing quote:
/// the text it spells, and what follows the quote.  A raw control
/// character, a lone backslash, an unknown escape or a missing quote
/// reads as nothing.
pub open spec fn parse_string_body(s: Seq<char>) -> Option<(Seq<char>, Seq<char>)>
    decreases s.len(),
{
    if s.len() == 0 {
        None
    } else if s[0] == '"' {
        Some((Seq::empty(), s.skip(1)))
    } else if s[0] == '\\' {
        if s.len() >= 2 && is_simple_escape(s[1]) {
            match parse_string_body(s.skip(2)) {
                Some(p) => Some((seq![unescape_char(s[1])] + p.0, p.1)),
                None => None,
            }
        } else if s.len() >= 6 && s[1] == 'u' && s[2] == '0' && s[3] == '0' && hex_val(s[4]) >= 0
            && hex_val(s[5]) >= 0 && 16 * hex_val(s[4]) + hex_val(s[5]) < 32 && !(16 * hex_val(s[4])
            + hex_val(s[5]) == 8 || 16 * hex_val(s[4]) + hex_val(s[5]) == 9 || 16 * hex_val(s[4])
            + hex_val(s[5]) == 10 || 16 * hex_val(s[4]) + hex_val(s[5]) == 12 || 16 * hex_val(s[4])
            + hex_val(s[5]) == 13) {
            match parse_string_body(s.skip(6)) {
                Some(p) => Some((seq![ctrl_char(16 * hex_val(s[4]) + hex_val(s[5]))] + p.0, p.1)),
                None => None,
            }
        } else {
            None
        }
    } else if (s[0] as u32) >= 32 {
        match parse_string_body(s.skip(1)) {
            Some(p) => Some((seq![s[0]] + p.0, p.1)),
            None => None,
        }
    } else {
        None
    }
}

/// Reads a whole frame: the squeak it spells, or nothing for any
/// input the encoder would not write.
pub open spec fn parse_wire(s: Seq<char>) -> Option<SqueakView> {
    match strip(s, lit_id()) {
        Some(r1) => match parse_string_body(r1) {
            Some(p1) => if valid_ulid_chars(p1.0) {
                match strip(p1.1, lit_content()) {
                    Some(r2) => match parse_string_body(r2) {
                        Some(p2) => match strip(p2.1, lit_author()) {
                            Some(r3) => match parse_string_body(r3) {
                                Some(p3) => if p3.1 == lit_end() {
                                    Some(
                                        SqueakView {
                                            id: ulid_val(p1.0) as u128,
                                            content: p2.0,
                                            author_name: p3.0,
                                        },
                                    )
                                } else {
                                    None
                                },
                                None => None,
                            },
                            None => None,
                        },
                        None => None,
                    },
                    None => None,
                }
            } else {
                None
            },
            None => None,
        },
        None => None,
    }
}

/// A control character is recovered from its code.
proof fn lemma_ctrl_char_inverse(c: char)
    requires
        (c as u32) < 32,
    ensures
        ctrl_char((c as u32) as int) == c,
{
    let u = c as u32;
    if u == 0 {
        vstd::utf8::char_u32_cast(c, 0);
        vstd::utf8::char_u32_cast('\u{0}', 0);
    }
    if u == 1 {
        vstd::utf8::char_u32_cast(c, 1);
        vstd::utf8::char_u32_cast('\u{1}', 1);
    }
    if u == 2 {
        vstd::utf8::char_u32_cast(c, 2);
        vstd::utf8::char_u32_cast('\u{2}', 2);
    }
    if u == 3 {
        vstd::utf8::char_u32_cast(c, 3);
        vstd::utf8::char_u32_cast('\u{3}', 3);
    }
    if u == 4 {
        vstd::utf8::char_u32_cast(c, 4);
        vstd::utf8::char_u32_cast('\u{4}', 4);
    }
    if u == 5 {
        vstd::utf8::char_u32_cast(c, 5);
        vstd::utf8::char_u32_cast('\u{5}', 5);
    }
    if u == 6 {
        vstd::utf8::char_u32_cast(c, 6);
        vstd::utf8::char_u32_cast('\u{6}', 6);
    }
    if u == 7 {
        vstd::utf8::char_u32_cast(c, 7);
        vstd::utf8::char_u32_cast('\u{7}', 7);
    }
    if u == 8 {
        vstd::utf8::char_u32_cast(c, 8);
        vstd::utf8::char_u32_cast('\u{8}', 8);
    }
    if u == 9 {
        vstd::utf8::char_u32_cast(c, 9);
        vstd::utf8::char_u32_cast('\u{9}', 9);
    }
    if u == 10 {
        vstd::utf8::char_u32_cast(c, 10);
        vstd::utf8::char_u32_cast('\u{a}', 10);
    }
    if u == 11 {
        vstd::utf8::char_u32_cast(c, 11);
        vstd::utf8::char_u32_cast('\u{b}', 11);
    }
    if u == 12 {
        vstd::utf8::char_u32_cast(c, 12);
        vstd::utf8::char_u32_cast('\u{c}', 12);
    }
    if u == 13 {
        vstd::utf8::char_u32_cast(c, 13);
        vstd::utf8::char_u32_cast('\u{d}', 13);
    }
    if u == 14 {
        vstd::utf8::char_u32_cast(c, 14);
        vstd::utf8::char_u32_cast('\u{e}', 14);
    }
    if u == 15 {
        vstd::utf8::char_u32_cast(c, 15);
        vstd::utf8::char_u32_cast('\u{f}', 15);
    }
    if u == 16 {
        vstd::utf8::char_u32_cast(c, 16);
        vstd::utf8::char_u32_cast('\u{10}', 16);
    }
    if u == 17 {
        vstd::utf8::char_u32_cast(c, 17);
        vstd::utf8::char_u32_cast('\u{11}', 17);
    }
    if u == 18 {
        vstd::utf8::char_u32_cast(c, 18);
        vstd::utf8::char_u32_cast('\u{12}', 18);
    }
    if u == 19 {
        vstd::utf8::char_u32_cast(c, 19);
        vstd::utf8::char_u32_cast('\u{13}', 19);
    }
    if u == 20 {
        vstd::utf8::char_u32_cast(c, 20);
        vstd::utf8::char_u32_cast('\u{14}', 20);
    }
    if u == 21 {
        vstd::utf8::char_u32_cast(c, 21);
        vstd::utf8::char_u32_cast('\u{15}', 21);
    }
    if u == 22 {
        vstd::utf8::char_u32_cast(c, 22);
        vstd::utf8::char_u32_cast('\u{16}', 22);
    }
    if u == 23 {
        vstd::utf8::char_u32_cast(c, 23);
        vstd::utf8::char_u32_cast('\u{17}', 23);
    }
    if u == 24 {
        vstd::utf8::char_u32_cast(c, 24);
        vstd::utf8::char_u32_cast('\u{18}', 24);
    }
    if u == 25 {
        vstd::utf8::char_u32_cast(c, 25);
        vstd::utf8::char_u32_cast('\u{19}', 25);
    }
    if u == 26 {
        vstd::utf8::char_u32_cast(c, 26);
        vstd::utf8::char_u32_cast('\u{1a}', 26);
    }
    if u == 27 {
        vstd::utf8::char_u32_cast(c, 27);
        vstd::utf8::char_u32_cast('\u{1b}', 27);
    }
    if u == 28 {
        vstd::utf8::char_u32_cast(c, 28);
        vstd::utf8::char_u32_cast('\u{1c}', 28);
    }
    if u == 29 {
        vstd::utf8::char_u32_cast(c, 29);
        vstd::utf8::char_u32_cast('\u{1d}', 29);
    }
    if u == 30 {
        vstd::utf8::char_u32_cast(c, 30);
        vstd::utf8::char_u32_cast('\u{1e}', 30);
    }
    if u == 31 {
        vstd::utf8::char_u32_cast(c, 31);
        vstd::utf8::char_u32_cast('\u{1f}', 31);
    }
}

/// Escaping one text after another escapes each in place.
pub proof fn lemma_escape_concat(a: Seq<char>, b: Seq<char>)
    ensures
        escape(a + b) == escape(a) + escape(b),
    decreases a.len(),
{
    if a.len() == 0 {
        assert(a + b =~= b);
        assert(escape(a) + escape(b) =~= escape(b));
    } else {
        assert((a + b)[0] == a[0]);
        assert((a + b).skip(1) =~= a.skip(1) + b);
        lemma_escape_concat(a.skip(1), b);
        assert(escape(a + b) =~= escape(a) + escape(b));
    }
}

/// A text without quotes, backslashes or control characters is its
/// own escape.
pub proof fn lemma_escape_plain(t: Seq<char>)
    requires
        forall|i: int|
            0 <= i < t.len() ==> ((#[trigger] t[i]) as u32 >= 32 && t[i] != '"' && t[i] != '\\'),
    ensures
        escape(t) == t,
    decreases t.len(),
{
    if t.len() > 0 {
        assert(forall|i: int|
            0 <= i < t.skip(1).len() ==> ((#[trigger] t.skip(1)[i]) as u32 >= 32 && t.skip(1)[i]
                != '"' && t.skip(1)[i] != '\\'));
        lemma_escape_plain(t.skip(1));
        assert(escape_char(t[0]) == seq![t[0]]);
        assert(escape(t) =~= t);
    }
}

/// Every base32 digit is a plain character.
pub proof fn lemma_crock_plain(s: Seq<char>)
    requires
        forall|i: int| 0 <= i < s.len() ==> crock_val(#[trigger] s[i]) >= 0,
    ensures
        forall|i: int|
            0 <= i < s.len() ==> ((#[trigger] s[i]) as u32 >= 32 && s[i] != '"' && s[i] != '\\'),
{
    assert forall|i: int|
        0 <= i < s.len() implies ((#[trigger] s[i]) as u32 >= 32 && s[i] != '"' && s[i]
        != '\\') by {
        assert(crock_val(s[i]) >= 0);
    }
}

/// Reading back what the escape wrote yields the original text, with
/// the closing quote consumed and the rest untouched.
pub proof fn lemma_body_round_trip(t: Seq<char>, rest: Seq<char>)
    ensures
        parse_string_body(escape(t) + seq!['"'] + rest) == Some((t, rest)),
    decreases t.len(),
{
    let s = escape(t) + seq!['"'] + rest;
    if t.len() == 0 {
        assert(s[0] == '"');
        assert(s.skip(1) =~= rest);
    } else {
        let c = t[0];
        let e = escape_char(c);
        lemma_body_round_trip(t.skip(1), rest);
        let s2 = escape(t.skip(1)) + seq!['"'] + rest;
        assert(escape(t) == e + escape(t.skip(1)));
        assert(s =~= e + s2);
        assert(forall|i: int| 0 <= i < e.len() ==> #[trigger] s[i] == e[i]);
        assert(s.skip(e.len() as int) =~= s2);
        if c == '"' {
            assert(s[0] == '\\' && s[1] == '"');
            assert(s.skip(2) =~= s2);
            assert(seq![unescape_char('"')] + t.skip(1) =~= t);
        } else if c == '\\' {
            assert(s[0] == '\\' && s[1] == '\\');
            assert(s.skip(2) =~= s2);
            assert(seq![unescape_char('\\')] + t.skip(1) =~= t);
        } else if c as u32 == 8 || c as u32 == 9 || c as u32 == 10 || c as u32 == 12 || c as u32
            == 13 {
            assert(s[0] == '\\' && is_simple_escape(s[1]));
            assert(s.skip(2) =~= s2);
            lemma_ctrl_char_inverse(c);
            assert(unescape_char(s[1]) == c);
            assert(seq![c] + t.skip(1) =~= t);
        } else if (c as u32) < 32 {
            let n = c as u32 as int;
            assert(s[0] == '\\' && s[1] == 'u' && s[2] == '0' && s[3] == '0');
            assert(s[4] == hex_char(n / 16) && s[5] == hex_char(n % 16));
            assert(hex_val(hex_char(n / 16)) == n / 16);
            assert(hex_val(hex_char((n % 16) as int)) == n % 16);
            assert(16 * (n / 16) + n % 16 == n) by {
                vstd::arithmetic::div_mod::lemma_fundamental_div_mod(n, 16);
            }
            assert(!is_simple_escape(s[1]));
            assert(s.skip(6) =~= s2);
            lemma_ctrl_char_inverse(c);
            assert(ctrl_char(n) == c);
            assert(seq![c] + t.skip(1) =~= t);
        } else {
            assert(s[0] == c);
            assert(s[0] != '"' && s[0] != '\\' && (s[0] as u32) >= 32);
            assert(s.skip(1) =~= s2);
            assert(seq![c] + t.skip(1) =~= t);
        }
    }
}

/// A frame reads back as the squeak that was written: the encoder and
/// decoder are inverse.
#[verifier::rlimit(60)]
pub proof fn lemma_wire_round_trip(v: SqueakView)
    ensures
        parse_wire(wire_of(v)) == Some(v),
{
    let s = wire_of(v);
    let idc = ulid_chars(v.id);
    lemma_ulid_round_trip(v.id);
    lemma_crock_plain(idc);
    lemma_escape_plain(idc);
    let tail1 = idc + seq!['"'] + lit_content() + escape(v.content) + seq!['"'] + lit_author()
        + escape(v.author_name) + seq!['"'] + lit_end();
    assert(s =~= lit_id() + tail1);
    assert(s.take(lit_id().len() as int) =~= lit_id());
    assert(strip(s, lit_id()) == Some(s.skip(lit_id().len() as int)));
    assert(s.skip(lit_id().len() as int) =~= tail1);
    let rest1 = lit_content() + escape(v.content) + seq!['"'] + lit_author() + escape(
        v.author_name,
    ) + seq!['"'] + lit_end();
    assert(tail1 =~= escape(idc) + seq!['"'] + rest1);
    lemma_body_round_trip(idc, rest1);
    let tail2 = escape(v.content) + seq!['"'] + lit_author() + escape(v.author_name) + seq!['"']
        + lit_end();
    assert(rest1 =~= lit_content() + tail2);
    assert(rest1.take(lit_content().len() as int) =~= lit_content());
    assert(strip(rest1, lit_content()) == Some(rest1.skip(lit_content().len() as int)));
    assert(rest1.skip(lit_content().len() as int) =~= tail2);
    let rest2 = lit_author() + escape(v.author_name) + seq!['"'] + lit_end();
    assert(tail2 =~= escape(v.content) + seq!['"'] + rest2);
    lemma_body_round_trip(v.content, rest2);
    let tail3 = escape(v.author_name) + seq!['"'] + lit_end();
    assert(rest2 =~= lit_author() + tail3);
    assert(rest2.take(lit_author().len() as int) =~= lit_author());
    assert(strip(rest2, lit_author()) == Some(rest2.skip(lit_author().len() as int)));
    assert(rest2.skip(lit_author().len() as int) =~= tail3);
    lemma_body_round_trip(v.author_name, lit_end());
    assert(parse_wire(s) == Some(
        SqueakView { id: ulid_val(idc) as u128, content: v.content, author_name: v.author_name },
    ));
}


/// The value of a lowercase hex digit, if the character is one.
fn hex_digit(c: char) -> (r: Option<u8>)
    ensures
        hex_val(c) >= 0 ==> r == Some(hex_val(c) as u8),
        hex_val(c) < 0 ==> r is None,
{
    match c {
        '0' => Some(0),
        '1' => Some(1),
        '2' => Some(2),
        '3' => Some(3),
        '4' => Some(4),
        '5' => Some(5),
        '6' => Some(6),
        '7' => Some(7),
        '8' => Some(8),
        '9' => Some(9),
        'a' => Some(10),
        'b' => Some(11),
        'c' => Some(12),
        'd' => Some(13),
        'e' => Some(14),
        'f' => Some(15),
        _ => None,
    }
}

/// The control character with the given code.
fn ctrl_char_of(n: u8) -> (r: char)
    requires
        n < 32,
    ensures
        r == ctrl_char(n as int),
{
    match n {
        0 => '\u{0}',
        1 => '\u{1}',
        2 => '\u{2}',
        3 => '\u{3}',
        4 => '\u{4}',
        5 => '\u{5}',
        6 => '\u{6}',
        7 => '\u{7}',
        8 => '\u{8}',
        9 => '\u{9}',
        10 => '\u{a}',
        11 => '\u{b}',
        12 => '\u{c}',
        13 => '\u{d}',
        14 => '\u{e}',
        15 => '\u{f}',
        16 => '\u{10}',
        17 => '\u{11}',
        18 => '\u{12}',
        19 => '\u{13}',
        20 => '\u{14}',
        21 => '\u{15}',
        22 => '\u{16}',
        23 => '\u{17}',
        24 => '\u{18}',
        25 => '\u{19}',
        26 => '\u{1a}',
        27 => '\u{1b}',
        28 => '\u{1c}',
        29 => '\u{1d}',
        30 => '\u{1e}',
        31 => '\u{1f}',
        _ => '?',
    }
}

/// The character a simple escape stands for.
fn unescape_char_of(e: char) -> (r: char)
    requires
        is_simple_escape(e),
    ensures
        r == unescape_char(e),
{
    match e {
        '"' => '"',
        '\\' => '\\',
        'b' => '\u{8}',
        't' => '\u{9}',
        'n' => '\u{a}',
        'f' => '\u{c}',
        _ => '\u{d}',
    }
}

/// The piece `{"id":"` as characters.
fn lit_id_chars() -> (r: Vec<char>)
    ensures
        r@ == lit_id(),
{
    let mut r: Vec<char> = Vec::new();
    r.push('{');
    r.push('"');
    r.push('i');
    r.push('d');
    r.push('"');
    r.push(':');
    r.push('"');
    proof {
        assert(r@ =~= lit_id());
    }
    r
}

/// The piece `,"content":"` as characters.
fn lit_content_chars() -> (r: Vec<char>)
    ensures
        r@ == lit_content(),
{
    let mut r: Vec<char> = Vec::new();
    r.push(',');
    r.push('"');
    r.push('c');
    r.push('o');
    r.push('n');
    r.push('t');
    r.push('e');
    r.push('n');
    r.push('t');
    r.push('"');
    r.push(':');
    r.push('"');
    proof {
        assert(r@ =~= lit_content());
    }
    r
}

/// The piece `,"author":{"name":"` as characters.
fn lit_author_chars() -> (r: Vec<char>)
    ensures
        r@ == lit_author(),
{
    let mut r: Vec<char> = Vec::new();
    r.push(',');
    r.push('"');
    r.push('a');
    r.push('u');
    r.push('t');
    r.push('h');
    r.push('o');
    r.push('r');
    r.push('"');
    r.push(':');
    r.push('{');
    r.push('"');
    r.push('n');
    r.push('a');
    r.push('m');
    r.push('e');
    r.push('"');
    r.push(':');
    r.push('"');
    proof {
        assert(r@ =~= lit_author());
    }
    r
}

/// The lowercase hex digit with the given value.
fn hex_char_of(d: u8) -> (r: char)
    requires
        d < 16,
    ensures
        r == hex_char(d as int),
{
    match d {
        0 => '0',
        1 => '1',
        2 => '2',
        3 => '3',
        4 => '4',
        5 => '5',
        6 => '6',
        7 => '7',
        8 => '8',
        9 => '9',
        10 => 'a',
        11 => 'b',
        12 => 'c',
        13 => 'd',
        14 => 'e',
        15 => 'f',
        _ => '?',
    }
}

/// A parse result continued after an already-read prefix.
pub open spec fn body_cont(prefix: Seq<char>, r: Option<(Seq<char>, Seq<char>)>) -> Option<
    (Seq<char>, Seq<char>),
> {
    match r {
        Some(p) => Some((prefix + p.0, p.1)),
        None => None,
    }
}

/// Continuing twice is continuing with the pieces joined.
proof fn lemma_cont_compose(a: Seq<char>, b: Seq<char>, r: Option<(Seq<char>, Seq<char>)>)
    ensures
        body_cont(a, body_cont(b, r)) == body_cont(a + b, r),
{
    match r {
        Some(p) => {
            assert((a + b) + p.0 =~= a + (b + p.0));
        },
        None => {},
    }
}

/// Appends the escaped text to the output.
fn escape_into(out: &mut Vec<char>, t: &Vec<char>)
    ensures
        final(out)@ == old(out)@ + escape(t@),
{
    let ghost base = old(out)@;
    let mut i: usize = 0;
    while i < t.len()
        invariant
            0 <= i <= t@.len(),
            out@ == base + escape(t@.take(i as int)),
        decreases t@.len() - i,
    {
        let c = t[i];
        let cu = c as u32;
        if c == '"' {
            out.push('\\');
            out.push('"');
        } else if c == '\\' {
            out.push('\\');
            out.push('\\');
        } else if cu == 8 {
            out.push('\\');
            out.push('b');
        } else if cu == 9 {
            out.push('\\');
            out.push('t');
        } else if cu == 10 {
            out.push('\\');
            out.push('n');
        } else if cu == 12 {
            out.push('\\');
            out.push('f');
        } else if cu == 13 {
            out.push('\\');
            out.push('r');
        } else if cu < 32 {
            out.push('\\');
            out.push('u');
            out.push('0');
            out.push('0');
            out.push(hex_char_of((cu / 16) as u8));
            out.push(hex_char_of((cu % 16) as u8));
        } else {
            out.push(c);
        }
        proof {
            lemma_escape_concat(t@.take(i as int), seq![t@[i as int]]);
            assert(t@.take(i + 1) =~= t@.take(i as int) + seq![t@[i as int]]);
            assert(seq![t@[i as int]].skip(1) =~= Seq::<char>::empty());
            assert(escape(Seq::<char>::empty()) =~= Seq::<char>::empty());
            assert(escape(seq![t@[i as int]]) =~= escape_char(t@[i as int]));
            assert(out@ =~= base + escape(t@.take(i + 1)));
        }
        i = i + 1;
    }
    proof {
        assert(t@.take(t@.len() as int) =~= t@);
    }
}

/// Writes one squeak as its wire frame.
pub fn encode_squeak(sq: &Squeak) -> (r: String)
    ensures
        r@ == wire_of(sq@),
{
    let mut out: Vec<char> = Vec::new();
    let mut piece = lit_id_chars();
    out.append(&mut piece);
    let mut idc = encode_ulid(sq.id);
    out.append(&mut idc);
    out.push('"');
    let mut piece2 = lit_content_chars();
    out.append(&mut piece2);
    let contentv = chars_of(sq.content.as_str());
    escape_into(&mut out, &contentv);
    out.push('"');
    let mut piece3 = lit_author_chars();
    out.append(&mut piece3);
    let namev = chars_of(sq.author.name.as_str());
    escape_into(&mut out, &namev);
    out.push('"');
    out.push('}');
    out.push('}');
    proof {
        assert(out@ =~= wire_of(sq@));
    }
    string_from_chars(&out)
}

/// Reads a JSON string body starting at `pos`: the text it spells and
/// the position just past its closing quote.
fn parse_body_exec(v: &Vec<char>, pos: usize) -> (r: Option<(Vec<char>, usize)>)
    requires
        pos <= v@.len(),
    ensures
        r matches Some(p) ==> (p.1 <= v@.len() && parse_string_body(v@.skip(pos as int)) == Some(
            (p.0@, v@.skip(p.1 as int)),
        )),
        r is None ==> parse_string_body(v@.skip(pos as int)) is None,
{
    let mut t: Vec<char> = Vec::new();
    let mut cur: usize = pos;
    loop
        invariant
            pos <= cur <= v@.len(),
            parse_string_body(v@.skip(pos as int)) == body_cont(
                t@,
                parse_string_body(v@.skip(cur as int)),
            ),
        decreases v@.len() - cur,
    {
        let ghost s = v@.skip(cur as int);
        if cur == v.len() {
            return None;
        }
        proof {
            assert(s[0] == v@[cur as int]);
        }
        let c = v[cur];
        let cu = c as u32;
        if c == '"' {
            proof {
                assert(s.skip(1) =~= v@.skip(cur + 1));
                assert(t@ + Seq::<char>::empty() =~= t@);
            }
            return Some((t, cur + 1));
        } else if c == '\\' {
            if cur + 1 == v.len() {
                proof {
                    assert(s.len() == 1);
                }
                return None;
            }
            proof {
                assert(s[1] == v@[cur + 1]);
            }
            let e = v[cur + 1];
            if e == '"' || e == '\\' || e == 'b' || e == 't' || e == 'n' || e == 'f' || e == 'r' {
                let u = unescape_char_of(e);
                let ghost t0 = t@;
                t.push(u);
                proof {
                    assert(s.skip(2) =~= v@.skip(cur + 2));
                    assert(parse_string_body(s) == body_cont(
                        seq![unescape_char(s[1])],
                        parse_string_body(v@.skip(cur + 2)),
                    ));
                    lemma_cont_compose(t0, seq![u], parse_string_body(v@.skip(cur + 2)));
                    assert(t0 + seq![u] =~= t@);
                }
                cur = cur + 2;
            } else if e == 'u' {
                if v.len() - cur < 6 {
                    proof {
                        assert(s.len() < 6);
                    }
                    return None;
                }
                proof {
                    assert(s[2] == v@[cur + 2] && s[3] == v@[cur + 3] && s[4] == v@[cur + 4] && s[5]
                        == v@[cur + 5]);
                }
                if v[cur + 2] != '0' || v[cur + 3] != '0' {
                    return None;
                }
                let h1 = match hex_digit(v[cur + 4]) {
                    Some(h) => h,
                    None => {
                        return None;
                    },
                };
                let h2 = match hex_digit(v[cur + 5]) {
                    Some(h) => h,
                    None => {
                        return None;
                    },
                };
                let n = 16 * h1 + h2;
                if n >= 32 || n == 8 || n == 9 || n == 10 || n == 12 || n == 13 {
                    return None;
                }
                let u = ctrl_char_of(n);
                let ghost t0 = t@;
                t.push(u);
                proof {
                    assert(s.skip(6) =~= v@.skip(cur + 6));
                    assert(parse_string_body(s) == body_cont(
                        seq![ctrl_char(16 * hex_val(s[4]) + hex_val(s[5]))],
                        parse_string_body(v@.skip(cur + 6)),
                    ));
                    lemma_cont_compose(t0, seq![u], parse_string_body(v@.skip(cur + 6)));
                    assert(t0 + seq![u] =~= t@);
                }
                cur = cur + 6;
            } else {
                return None;
            }
        } else if cu >= 32 {
            let ghost t0 = t@;
            t.push(c);
            proof {
                assert(s.skip(1) =~= v@.skip(cur + 1));
                assert(parse_string_body(s) == body_cont(
                    seq![s[0]],
                    parse_string_body(v@.skip(cur + 1)),
                ));
                lemma_cont_compose(t0, seq![c], parse_string_body(v@.skip(cur + 1)));
                assert(t0 + seq![c] =~= t@);
            }
            cur = cur + 1;
        } else {
            return None;
        }
    }
}

/// Advances past a required literal piece, if it is next.
fn take_lit(v: &Vec<char>, pos: usize, lit: &Vec<char>) -> (r: Option<usize>)
    requires
        pos <= v@.len(),
    ensures
        r matches Some(p2) ==> (pos <= p2 <= v@.len() && strip(v@.skip(pos as int), lit@) == Some(
            v@.skip(p2 as int),
        )),
        r is None ==> strip(v@.skip(pos as int), lit@) is None,
{
    if v.len() - pos < lit.len() {
        return None;
    }
    let mut i: usize = 0;
    while i < lit.len()
        invariant
            0 <= i <= lit@.len(),
            pos + lit@.len() <= v@.len(),
            v@.len() <= usize::MAX,
            forall|j: int| 0 <= j < i ==> v@[pos + j] == lit@[j],
        decreases lit@.len() - i,
    {
        if v[pos + i] != lit[i] {
            proof {
                assert(v@.skip(pos as int).take(lit@.len() as int)[i as int] != lit@[i as int]);
            }
            return None;
        }
        i = i + 1;
    }
    proof {
        assert(v@.skip(pos as int).take(lit@.len() as int) =~= lit@);
        assert(v@.skip(pos as int).skip(lit@.len() as int) =~= v@.skip(pos + lit@.len()));
    }
    Some(pos + lit.len())
}

/// Reads a wire frame back into a squeak; anything the encoder would
/// not have written reads as nothing.
pub fn decode_squeak(s: &str) -> (r: Option<Squeak>)
    ensures
        parse_wire(s@) matches Some(v) ==> (r matches Some(sq) && sq@ == v),
        parse_wire(s@) is None ==> r is None,
{
    let v = chars_of(s);
    proof {
        assert(v@.skip(0) =~= v@);
    }
    let l1 = lit_id_chars();
    let pos1 = match take_lit(&v, 0, &l1) {
        Some(p) => p,
        None => {
            return None;
        },
    };
    let (idv, pos2) = match parse_body_exec(&v, pos1) {
        Some(p) => p,
        None => {
            return None;
        },
    };
    let id = match decode_ulid(&idv) {
        Some(x) => x,
        None => {
            return None;
        },
    };
    let l2 = lit_content_chars();
    let pos3 = match take_lit(&v, pos2, &l2) {
        Some(p) => p,
        None => {
            return None;
        },
    };
    let (contentv, pos4) = match parse_body_exec(&v, pos3) {
        Some(p) => p,
        None => {
            return None;
        },
    };
    let l3 = lit_author_chars();
    let pos5 = match take_lit(&v, pos4, &l3) {
        Some(p) => p,
        None => {
            return None;
        },
    };
    let (namev, pos6) = match parse_body_exec(&v, pos5) {
        Some(p) => p,
        None => {
            return None;
        },
    };
    let tail_ok = v.len() - pos6 == 2 && v[pos6] == '}' && v[pos6 + 1] == '}';
    proof {
        if tail_ok {
            assert(v@.skip(pos6 as int) =~= lit_end());
        } else {
            assert(v@.skip(pos6 as int) != lit_end()) by {
                if v@.skip(pos6 as int) == lit_end() {
                    assert(v@.skip(pos6 as int).len() == 2);
                    assert(v@.skip(pos6 as int)[0] == '}' && v@.skip(pos6 as int)[1] == '}');
                }
            }
        }
    }
    if !tail_ok {
        return None;
    }
    let content = string_from_chars(&contentv);
    let name = string_from_chars(&namev);
    Some(Squeak { id, content, author: User { name } })
}

} // verus!
