//! Reading the files themselves: what counts as text, and what counts as an occurrence.

use crate::bytes::{lossy_text, utf8_lossy};
use crate::columnar_storage::literals::{occurs, occurs_at};
use crate::overlay::lookup::text_views;
use crate::text::{chars_of, decimal, push_decimal, text_of};
use vstd::prelude::*;
use vstd::string::*;
use vstd::utf8::*;

verus! {

// ───────────────────────────── alphabets ─────────────────────────────

/// Whether a character is an ASCII letter.
pub open spec fn ascii_letter(c: char) -> bool {
    'a' <= c <= 'z' || 'A' <= c <= 'Z'
}

/// Whether a character is an ASCII letter, an ASCII digit or an underscore.
pub open spec fn core_char(c: char) -> bool {
    ascii_letter(c) || '0' <= c <= '9' || c == '_'
}

/// Whether a text is written in ASCII letters, ASCII digits and underscores only.
pub open spec fn core_text(s: Seq<char>) -> bool {
    forall|i: int| 0 <= i < s.len() ==> core_char(#[trigger] s[i])
}

fn is_core_char(c: char) -> (r: bool)
    ensures
        r == core_char(c),
{
    ('a' <= c && c <= 'z') || ('A' <= c && c <= 'Z') || ('0' <= c && c <= '9') || c == '_'
}

/// Whether a name is written in the identifier alphabet.
///
/// Such a name is matched as a whole token; any other is also matched as part of one.
pub fn is_core_alphabet(text: &str) -> (r: bool)
    ensures
        r == core_text(text@),
{
    let s = chars_of(text);
    let mut i: usize = 0;
    while i < s.len()
        invariant
            s@ == text@,
            i <= s@.len(),
            forall|k: int| 0 <= k < i ==> core_char(#[trigger] s@[k]),
        decreases s.len() - i,
    {
        if !is_core_char(s[i]) {
            assert(!core_char(s@[i as int]));
            return false;
        }
        i += 1;
    }
    true
}

/// Whether a run can be a stored token: two characters or more, and no digit first.
pub open spec fn storable(run: Seq<char>) -> bool {
    run.len() >= 2 && (ascii_letter(run[0]) || run[0] == '_')
}

/// A run, where it can be a stored token.
pub open spec fn storable_run(run: Seq<char>) -> Seq<Seq<char>> {
    if storable(run) {
        seq![run]
    } else {
        seq![]
    }
}

/// The storable runs of `s[i..]`, the first of which continues from `start`.
pub open spec fn pieces_from(s: Seq<char>, start: int, i: int) -> Seq<Seq<char>>
    decreases s.len() - i,
{
    if i >= s.len() {
        storable_run(s.subrange(start, s.len() as int))
    } else if !core_char(s[i]) {
        storable_run(s.subrange(start, i)) + pieces_from(s, i + 1, i + 1)
    } else {
        pieces_from(s, start, i + 1)
    }
}

/// The identifier runs inside a name that a recorder could have stored.
pub fn needle_pieces(needle: &str) -> (pieces: Vec<String>)
    ensures
        text_views(pieces@) == pieces_from(needle@, 0, 0),
{
    let s = chars_of(needle);
    let n: usize = s.len();
    let mut pieces: Vec<String> = Vec::new();
    let mut start: usize = 0;
    let mut i: usize = 0;
    assert(text_views(pieces@) + pieces_from(s@, 0, 0) =~= pieces_from(needle@, 0, 0));
    while i < n
        invariant
            n == s@.len(),
            s@ == needle@,
            start <= i <= n,
            text_views(pieces@) + pieces_from(s@, start as int, i as int) == pieces_from(
                needle@,
                0,
                0,
            ),
        decreases n - i,
    {
        if !is_core_char(s[i]) {
            let ghost was = pieces@;
            let ghost rest = pieces_from(s@, i + 1, i + 1);
            let ghost run = s@.subrange(start as int, i as int);
            if i - start >= 2 && !('0' <= s[start] && s[start] <= '9') && is_core_char(s[start]) {
                assert(run[0] == s@[start as int]);
                let piece = text_of(&s, start, i);
                pieces.push(piece);
                assert(text_views(pieces@) =~= text_views(was).push(run));
                assert(text_views(pieces@) + rest =~= text_views(was) + (seq![run] + rest));
            } else {
                assert(!storable(run)) by {
                    if run.len() >= 2 {
                        assert(run[0] == s@[start as int]);
                    }
                }
                assert(text_views(was) + (Seq::<Seq<char>>::empty() + rest) =~= text_views(was)
                    + rest);
            }
            start = i + 1;
        }
        i += 1;
    }
    let ghost was = pieces@;
    let ghost run = s@.subrange(start as int, n as int);
    if n - start >= 2 && !('0' <= s[start] && s[start] <= '9') && is_core_char(s[start]) {
        assert(run[0] == s@[start as int]);
        let piece = text_of(&s, start, n);
        pieces.push(piece);
        assert(text_views(pieces@) =~= text_views(was).push(run));
        assert(text_views(was).push(run) =~= text_views(was) + seq![run]);
    } else {
        assert(!storable(run)) by {
            if run.len() >= 2 {
                assert(run[0] == s@[start as int]);
            }
        }
        assert(text_views(was) + Seq::<Seq<char>>::empty() =~= text_views(was));
    }
    pieces
}

// ───────────────────────────── occurrences ─────────────────────────────

/// Whether a character is a letter or a numeral in any script.
pub uninterp spec fn alphanumeric(c: char) -> bool;

/// `char::is_alphanumeric` says whether a character is a letter or a numeral in any script; of
/// the ASCII characters, the letters and the digits are.
#[verifier::external_body]
fn is_alphanumeric(c: char) -> (r: bool)
    ensures
        r == alphanumeric(c),
        (c as u32) < 128 ==> r == (ascii_letter(c) || '0' <= c <= '9'),
{
    c.is_alphanumeric()
}

/// Whether a character continues a token.
pub open spec fn word_char(c: char) -> bool {
    alphanumeric(c) || c == '_'
}

/// Whether the stretch `at..at + len` of a line has no token character on either side.
pub open spec fn stands_alone(line: Seq<char>, at: int, len: int) -> bool {
    &&& at > 0 ==> !word_char(line[at - 1])
    &&& at + len < line.len() ==> !word_char(line[at + len])
}

/// Whether one of the occurrences of a needle from `i` on stands alone. Occurrences are counted
/// from the left and do not overlap.
pub open spec fn token_from(line: Seq<char>, needle: Seq<char>, i: int) -> bool
    decreases line.len() + 1 - i,
{
    if i < 0 || i + needle.len() > line.len() {
        false
    } else if occurs_at(line, needle, i) {
        stands_alone(line, i, needle.len() as int) || (if needle.len() == 0 {
            token_from(line, needle, i + 1)
        } else {
            token_from(line, needle, i + needle.len())
        })
    } else {
        token_from(line, needle, i + 1)
    }
}

/// Whether a line holds a needle: as a whole token, or anywhere.
pub open spec fn line_holds(line: Seq<char>, needle: Seq<char>, whole_token: bool) -> bool {
    if whole_token {
        token_from(line, needle, 0)
    } else {
        occurs(line, needle)
    }
}

/// Whether a needle stands in a line at `at`.
fn stands_at(line: &Vec<char>, needle: &Vec<char>, at: usize) -> (r: bool)
    requires
        at + needle@.len() <= line@.len(),
    ensures
        r == occurs_at(line@, needle@, at as int),
{
    let n: usize = line.len();
    let mut k: usize = 0;
    while k < needle.len()
        invariant
            n == line@.len(),
            at + needle@.len() <= line@.len(),
            k <= needle@.len(),
            forall|j: int| 0 <= j < k ==> line@[at + j] == needle@[j],
        decreases needle.len() - k,
    {
        if line[at + k] != needle[k] {
            assert(line@.subrange(at as int, at + needle@.len())[k as int] != needle@[k as int]);
            return false;
        }
        k += 1;
    }
    assert(line@.subrange(at as int, at + needle@.len()) =~= needle@);
    true
}

/// Whether a text occurs in another.
pub fn contains_run(line: &Vec<char>, needle: &Vec<char>) -> (r: bool)
    ensures
        r == occurs(line@, needle@),
{
    let n: usize = line.len();
    let m: usize = needle.len();
    if m > n {
        return false;
    }
    let last: usize = n - m;
    let mut i: usize = 0;
    loop
        invariant
            n == line@.len(),
            m == needle@.len(),
            m <= n,
            last == n - m,
            i <= last,
            forall|k: int| 0 <= k < i ==> !#[trigger] occurs_at(line@, needle@, k),
        decreases last - i,
    {
        if stands_at(line, needle, i) {
            assert(occurs_at(line@, needle@, i as int));
            return true;
        }
        if i == last {
            return false;
        }
        i += 1;
    }
}

/// Whether a line holds a needle.
///
/// A name in the identifier alphabet is a token and has to stand alone; a letter in any script
/// continues a token. Any other name is matched as it is written.
pub fn holds(line: &str, needle: &str, whole_token: bool) -> (r: bool)
    ensures
        r == line_holds(line@, needle@, whole_token),
{
    let l = chars_of(line);
    let w = chars_of(needle);
    if !whole_token {
        return contains_run(&l, &w);
    }
    let n: usize = l.len();
    let m: usize = w.len();
    let mut i: usize = 0;
    while i <= n && m <= n - i
        invariant
            n == l@.len(),
            m == w@.len(),
            l@ == line@,
            w@ == needle@,
            whole_token,
            i <= n + 1,
            token_from(l@, w@, 0) == token_from(l@, w@, i as int),
        decreases n + 1 - i,
    {
        if stands_at(&l, &w, i) {
            let before = i > 0 && (is_alphanumeric(l[i - 1]) || l[i - 1] == '_');
            let after = m < n - i && (is_alphanumeric(l[i + m]) || l[i + m] == '_');
            if !before && !after {
                return true;
            }
            if m == 0 {
                if i == n {
                    assert(!token_from(l@, w@, n + 1));
                    return false;
                }
                i += 1;
            } else {
                i += m;
            }
        } else {
            assert(i < n) by {
                if i == n {
                    assert(l@.subrange(i as int, i + w@.len()) =~= w@);
                }
            }
            i += 1;
        }
    }
    false
}

/// For a name in the identifier alphabet, whose every character continues a token, a token is
/// held exactly where some occurrence stands alone.
pub proof fn lemma_token_is_any_occurrence(line: Seq<char>, needle: Seq<char>, i: int)
    requires
        0 <= i,
        needle.len() > 0,
        forall|k: int| 0 <= k < needle.len() ==> word_char(#[trigger] needle[k]),
    ensures
        token_from(line, needle, i) <==> exists|at: int|
            i <= at && #[trigger] occurs_at(line, needle, at) && stands_alone(
                line,
                at,
                needle.len() as int,
            ),
    decreases line.len() - i,
{
    let n = needle.len() as int;
    if i + n <= line.len() {
        if occurs_at(line, needle, i) {
            lemma_token_is_any_occurrence(line, needle, i + n);
            assert forall|at: int|
                i < at < i + n && #[trigger] occurs_at(line, needle, at) implies !stands_alone(
                line,
                at,
                n,
            ) by {
                assert(line.subrange(i, i + n)[at - 1 - i] == needle[at - 1 - i]);
                assert(word_char(needle[at - 1 - i]));
            }
            if token_from(line, needle, i) {
                if stands_alone(line, i, n) {
                    assert(occurs_at(line, needle, i));
                } else {
                    let at = choose|at: int|
                        i + n <= at && #[trigger] occurs_at(line, needle, at) && stands_alone(
                            line,
                            at,
                            n,
                        );
                    assert(i <= at);
                }
            }
            if exists|at: int|
                i <= at && #[trigger] occurs_at(line, needle, at) && stands_alone(line, at, n) {
                let at = choose|at: int|
                    i <= at && #[trigger] occurs_at(line, needle, at) && stands_alone(line, at, n);
                if at > i {
                    assert(at >= i + n);
                }
            }
        } else {
            lemma_token_is_any_occurrence(line, needle, i + 1);
            if token_from(line, needle, i) {
                let at = choose|at: int|
                    i + 1 <= at && #[trigger] occurs_at(line, needle, at) && stands_alone(
                        line,
                        at,
                        n,
                    );
                assert(i <= at);
            }
            if exists|at: int|
                i <= at && #[trigger] occurs_at(line, needle, at) && stands_alone(line, at, n) {
                let at = choose|at: int|
                    i <= at && #[trigger] occurs_at(line, needle, at) && stands_alone(line, at, n);
                assert(at != i);
            }
        }
    }
}

// ───────────────────────────── text ─────────────────────────────

/// `char::from_u32` gives the character of a code point, where it is one.
pub assume_specification[ char::from_u32 ](i: u32) -> (r: Option<char>)
    ensures
        r == (if is_scalar(i) {
            Some(i as char)
        } else {
            None
        }),
;

/// The character that stands for what could not be decoded.
pub open spec fn replacement() -> char {
    '\u{FFFD}'
}

/// Whether a UTF-16 unit opens a pair.
pub open spec fn high_surrogate(u: u16) -> bool {
    0xd800 <= u <= 0xdbff
}

/// Whether a UTF-16 unit closes a pair.
pub open spec fn low_surrogate(u: u16) -> bool {
    0xdc00 <= u <= 0xdfff
}

/// The code point of a pair of UTF-16 units.
pub open spec fn pair_value(hi: u16, lo: u16) -> u32 {
    (0x1_0000 + (hi - 0xd800) * 0x400 + (lo - 0xdc00)) as u32
}

/// The characters that UTF-16 units encode, from unit `i` on; a unit that belongs to no pair
/// becomes the replacement character.
pub open spec fn utf16_from(units: Seq<u16>, i: int) -> Seq<char>
    decreases units.len() - i,
{
    if i < 0 || i >= units.len() {
        seq![]
    } else if high_surrogate(units[i]) {
        if i + 1 < units.len() && low_surrogate(units[i + 1]) {
            seq![pair_value(units[i], units[i + 1]) as char] + utf16_from(units, i + 2)
        } else {
            seq![replacement()] + utf16_from(units, i + 1)
        }
    } else if low_surrogate(units[i]) {
        seq![replacement()] + utf16_from(units, i + 1)
    } else {
        seq![units[i] as u32 as char] + utf16_from(units, i + 1)
    }
}

/// The UTF-16 units of bytes, low byte first or high byte first.
pub open spec fn units_of(bytes: Seq<u8>, little: bool) -> Seq<u16> {
    Seq::new(
        bytes.len() / 2,
        |i: int|
            if little {
                (bytes[2 * i] as int + bytes[2 * i + 1] as int * 0x100) as u16
            } else {
                (bytes[2 * i] as int * 0x100 + bytes[2 * i + 1] as int) as u16
            },
    )
}

/// The text that UTF-16 bytes encode; an odd byte at the end becomes the replacement character.
pub open spec fn utf16_text(bytes: Seq<u8>, little: bool) -> Seq<char> {
    let body = utf16_from(units_of(bytes, little), 0);
    if bytes.len() % 2 == 0 {
        body
    } else {
        body.push(replacement())
    }
}

fn scalar_char(v: u32) -> (c: char)
    requires
        is_scalar(v),
    ensures
        c == v as char,
{
    match char::from_u32(v) {
        Some(c) => c,
        None => '\u{FFFD}',
    }
}

/// Decodes UTF-16 of one byte order.
pub fn decode_utf16(bytes: &[u8], little: bool) -> (s: String)
    ensures
        s@ == utf16_text(bytes@, little),
{
    let len: usize = bytes.len();
    let n: usize = len / 2;
    let mut units: Vec<u16> = Vec::new();
    let mut k: usize = 0;
    while k < n
        invariant
            len == bytes@.len(),
            n == len / 2,
            k <= n,
            units@.len() == k,
            forall|j: int| 0 <= j < k ==> #[trigger] units@[j] == units_of(bytes@, little)[j],
        decreases n - k,
    {
        let a: u16 = bytes[2 * k] as u16;
        let b: u16 = bytes[2 * k + 1] as u16;
        units.push(
            if little {
                a + b * 0x100
            } else {
                a * 0x100 + b
            },
        );
        k += 1;
    }
    assert(units@ =~= units_of(bytes@, little));
    let mut s = String::new();
    let mut i: usize = 0;
    assert(s@ + utf16_from(units@, 0) =~= utf16_from(units@, 0));
    while i < n
        invariant
            n == units@.len(),
            i <= n,
            s@ + utf16_from(units@, i as int) == utf16_from(units@, 0),
        decreases n - i,
    {
        let u: u16 = units[i];
        let ghost was = s@;
        if 0xd800 <= u && u <= 0xdbff {
            if i < n - 1 && 0xdc00 <= units[i + 1] && units[i + 1] <= 0xdfff {
                let v: u32 = 0x1_0000 + (u as u32 - 0xd800) * 0x400 + (units[i + 1] as u32
                    - 0xdc00);
                let c = scalar_char(v);
                s.push(c);
                assert(s@ + utf16_from(units@, i + 2) =~= was + (seq![c] + utf16_from(
                    units@,
                    i + 2,
                )));
                i += 2;
            } else {
                s.push('\u{FFFD}');
                assert(s@ + utf16_from(units@, i + 1) =~= was + (seq![replacement()] + utf16_from(
                    units@,
                    i + 1,
                )));
                i += 1;
            }
        } else if 0xdc00 <= u && u <= 0xdfff {
            s.push('\u{FFFD}');
            assert(s@ + utf16_from(units@, i + 1) =~= was + (seq![replacement()] + utf16_from(
                units@,
                i + 1,
            )));
            i += 1;
        } else {
            let c = scalar_char(u as u32);
            s.push(c);
            assert(s@ + utf16_from(units@, i + 1) =~= was + (seq![c] + utf16_from(units@, i + 1)));
            i += 1;
        }
    }
    assert(s@ + Seq::<char>::empty() =~= s@);
    if bytes.len() % 2 != 0 {
        s.push('\u{FFFD}');
    }
    s
}

/// Whether one of the first 8000 bytes is nought.
pub open spec fn looks_binary(bytes: Seq<u8>) -> bool {
    exists|i: int| 0 <= i < bytes.len() && i < 8000 && #[trigger] bytes[i] == 0
}

/// Whether bytes start with two given ones.
pub open spec fn opens_with(bytes: Seq<u8>, a: u8, b: u8) -> bool {
    bytes.len() >= 2 && bytes[0] == a && bytes[1] == b
}

/// Whether bytes start with the mark of UTF-32, of either byte order.
pub open spec fn opens_utf32(bytes: Seq<u8>) -> bool {
    &&& bytes.len() >= 4
    &&& (opens_with(bytes, 0xff, 0xfe) && bytes[2] == 0 && bytes[3] == 0) || (opens_with(
        bytes,
        0,
        0,
    ) && bytes[2] == 0xfe && bytes[3] == 0xff)
}

/// Whether bytes start with the mark of UTF-8.
pub open spec fn opens_utf8(bytes: Seq<u8>) -> bool {
    bytes.len() >= 3 && opens_with(bytes, 0xef, 0xbb) && bytes[2] == 0xbf
}

/// The text of a file's bytes; nothing where they are not text.
///
/// A byte-order mark is believed first. UTF-32 is not read. Without a mark a nought near the
/// start means binary, and everything else is read leniently.
pub open spec fn text_of_file(bytes: Seq<u8>) -> Option<Seq<char>> {
    if opens_utf32(bytes) {
        None
    } else if opens_with(bytes, 0xff, 0xfe) {
        Some(utf16_text(bytes.skip(2), true))
    } else if opens_with(bytes, 0xfe, 0xff) {
        Some(utf16_text(bytes.skip(2), false))
    } else if opens_utf8(bytes) {
        Some(utf8_lossy(bytes.skip(3)))
    } else if looks_binary(bytes) {
        None
    } else {
        Some(utf8_lossy(bytes))
    }
}

/// Decodes a file for searching; nothing where its bytes are not text.
pub fn decode_text(bytes: &[u8]) -> (r: Option<String>)
    ensures
        crate::segment::opt_string(r) == text_of_file(bytes@),
{
    let n: usize = bytes.len();
    if n >= 4 && ((bytes[0] == 0xff && bytes[1] == 0xfe && bytes[2] == 0 && bytes[3] == 0) || (
    bytes[0] == 0 && bytes[1] == 0 && bytes[2] == 0xfe && bytes[3] == 0xff)) {
        return None;
    }
    if n >= 2 && bytes[0] == 0xff && bytes[1] == 0xfe {
        let rest = vstd::slice::slice_subrange(bytes, 2, n);
        assert(rest@ =~= bytes@.skip(2));
        return Some(decode_utf16(rest, true));
    }
    if n >= 2 && bytes[0] == 0xfe && bytes[1] == 0xff {
        let rest = vstd::slice::slice_subrange(bytes, 2, n);
        assert(rest@ =~= bytes@.skip(2));
        return Some(decode_utf16(rest, false));
    }
    if n >= 3 && bytes[0] == 0xef && bytes[1] == 0xbb && bytes[2] == 0xbf {
        let rest = vstd::slice::slice_subrange(bytes, 3, n);
        assert(rest@ =~= bytes@.skip(3));
        return Some(lossy_text(rest));
    }
    let mut i: usize = 0;
    while i < n && i < 8000
        invariant
            n == bytes@.len(),
            i <= n,
            i <= 8000,
            !opens_utf32(bytes@),
            !opens_with(bytes@, 0xff, 0xfe),
            !opens_with(bytes@, 0xfe, 0xff),
            !opens_utf8(bytes@),
            forall|k: int| 0 <= k < i ==> #[trigger] bytes@[k] != 0,
        decreases n - i,
    {
        if bytes[i] == 0 {
            assert(bytes@[i as int] == 0);
            return None;
        }
        i += 1;
    }
    Some(lossy_text(bytes))
}

// ───────────────────────────── lines ─────────────────────────────

/// A line without the carriage return it ends in.
pub open spec fn without_return(line: Seq<char>) -> Seq<char> {
    if line.len() > 0 && line.last() == '\r' {
        line.drop_last()
    } else {
        line
    }
}

/// The lines of `s[i..]`, the first of which continues from `start`. What follows the last
/// newline is a line where it is not empty.
pub open spec fn lines_from(s: Seq<char>, start: int, i: int) -> Seq<Seq<char>>
    decreases s.len() - i,
{
    if i >= s.len() {
        if start < s.len() {
            seq![s.subrange(start, s.len() as int)]
        } else {
            seq![]
        }
    } else if s[i] == '\n' {
        seq![without_return(s.subrange(start, i))] + lines_from(s, i + 1, i + 1)
    } else {
        lines_from(s, start, i + 1)
    }
}

/// The lines of a text.
pub fn lines_of(text: &str) -> (lines: Vec<String>)
    ensures
        text_views(lines@) == lines_from(text@, 0, 0),
{
    let s = chars_of(text);
    let n: usize = s.len();
    let mut lines: Vec<String> = Vec::new();
    let mut start: usize = 0;
    let mut i: usize = 0;
    assert(text_views(lines@) + lines_from(s@, 0, 0) =~= lines_from(text@, 0, 0));
    while i < n
        invariant
            n == s@.len(),
            s@ == text@,
            start <= i <= n,
            text_views(lines@) + lines_from(s@, start as int, i as int) == lines_from(
                text@,
                0,
                0,
            ),
        decreases n - i,
    {
        if s[i] == '\n' {
            let ghost was = lines@;
            let ghost rest = lines_from(s@, i + 1, i + 1);
            let ghost whole = s@.subrange(start as int, i as int);
            let end: usize = if i > start && s[i - 1] == '\r' {
                i - 1
            } else {
                i
            };
            let line = text_of(&s, start, end);
            assert(line@ =~= without_return(whole)) by {
                if i > start {
                    assert(whole.last() == s@[i - 1]);
                }
            }
            lines.push(line);
            assert(text_views(lines@) =~= text_views(was).push(line@));
            assert(text_views(lines@) + rest =~= text_views(was) + (seq![line@] + rest));
            start = i + 1;
        }
        i += 1;
    }
    let ghost was = lines@;
    if start < n {
        let line = text_of(&s, start, n);
        lines.push(line);
        assert(text_views(lines@) =~= text_views(was).push(line@));
        assert(text_views(was).push(line@) =~= text_views(was) + seq![line@]);
    } else {
        assert(text_views(was) + Seq::<Seq<char>>::empty() =~= text_views(was));
    }
    lines
}

/// What is said where files could not be read.
pub open spec fn hint_text(unread: nat, needle: Seq<char>) -> Option<Seq<char>> {
    if unread == 0 {
        None
    } else {
        Some(
            decimal(unread) + " candidate file(s) for '"@ + needle
                + "' could not be read, so any site they hold is missing from this answer"@,
        )
    }
}

/// What is said where files could not be read: whatever sites they hold are missing.
pub fn unread_hint(unread: usize, needle: &str) -> (r: Option<String>)
    ensures
        crate::segment::opt_string(r) == hint_text(unread as nat, needle@),
{
    if unread == 0 {
        return None;
    }
    let mut s = String::new();
    push_decimal(&mut s, unread as u64);
    s.append(" candidate file(s) for '");
    s.append(needle);
    s.append("' could not be read, so any site they hold is missing from this answer");
    assert(s@ =~= hint_text(unread as nat, needle@)->0);
    Some(s)
}

} // verus!
