//! What reading a file promises: how its bytes become text.

use crate::columnar_storage::scan::{
    core_char, core_text, pieces_from, storable_run, text_of_file, units_of, utf16_from,
};
use crate::bytes::utf8_lossy;
use crate::columnar_storage::literals::occurs_at;
use crate::columnar_storage::scan::{
    alphanumeric, lemma_token_is_any_occurrence, line_holds, stands_alone, word_char,
};
use vstd::prelude::*;
use vstd::utf8::*;

verus! {

/// A byte order mark is no text: a file of UTF-8 reads the same with it. A file that opens with no mark
/// and holds no zero byte near its start is read as UTF-8; one that holds one is no text.
pub proof fn lemma_utf8_files_are_read(bytes: Seq<u8>)
    ensures
        text_of_file(seq![0xefu8, 0xbb, 0xbf] + bytes) == Some(utf8_lossy(bytes)),
        bytes.len() > 0 && bytes[0] != 0xff && bytes[0] != 0xfe && bytes[0] != 0xef && (forall|
            i: int,
        |
            0 <= i < bytes.len() ==> bytes[i] != 0) ==> text_of_file(bytes) == Some(
            utf8_lossy(bytes),
        ),
        bytes.len() > 0 && 0 < bytes[0] < 0x80 && (exists|i: int|
            0 <= i < bytes.len() && i < 8000 && bytes[i] == 0) ==> text_of_file(bytes) is None,
{
    let marked = seq![0xefu8, 0xbb, 0xbf] + bytes;
    assert(marked.skip(3) =~= bytes);
    assert(marked[0] == 0xef && marked[1] == 0xbb && marked[2] == 0xbf);
}

/// The bytes of ASCII text in UTF-16, low byte first or high byte first.
pub open spec fn wide(text: Seq<char>, little: bool) -> Seq<u8> {
    Seq::new(
        2 * text.len(),
        |i: int|
            if (i % 2 == 0) == little {
                text[i / 2] as u8
            } else {
                0
            },
    )
}

proof fn lemma_wide_units(text: Seq<char>, little: bool, i: int)
    requires
        is_ascii_chars(text),
        0 <= i < text.len(),
    ensures
        units_of(wide(text, little), little).len() == text.len(),
        units_of(wide(text, little), little)[i] == text[i] as u16,
        units_of(wide(text, little), little)[i] < 128,
{
    let b = wide(text, little);
    let c = text[i];
    assert('\0' <= c <= '\u{7f}');
    assert(b.len() == 2 * text.len());
    assert((2 * i) % 2 == 0 && (2 * i) / 2 == i && (2 * i + 1) % 2 == 1 && (2 * i + 1) / 2 == i);
    assert(b[2 * i] == (if little {
        c as u8
    } else {
        0
    }));
    assert(b[2 * i + 1] == (if little {
        0
    } else {
        c as u8
    }));
}

proof fn lemma_wide_from(text: Seq<char>, little: bool, i: int)
    requires
        is_ascii_chars(text),
        0 <= i <= text.len(),
        text.len() > 0,
    ensures
        utf16_from(units_of(wide(text, little), little), i) == text.skip(i),
    decreases text.len() - i,
{
    let units = units_of(wide(text, little), little);
    lemma_wide_units(text, little, 0);
    if i < text.len() {
        lemma_wide_units(text, little, i);
        lemma_wide_from(text, little, i + 1);
        let c = text[i];
        assert('\0' <= c <= '\u{7f}');
        char_u32_cast(c, c as u32);
        assert(units[i] as u32 == c as u32);
        assert(units[i] as u32 as char == c);
        assert(text.skip(i) =~= seq![c] + text.skip(i + 1));
    } else {
        assert(text.skip(i) =~= seq![]);
    }
}

/// A file of UTF-16 reads as its text, whichever byte of a character comes first.
pub proof fn lemma_utf16_files_are_read(text: Seq<char>)
    requires
        is_ascii_chars(text),
        text.len() > 0,
        text[0] != '\0',
    ensures
        text_of_file(seq![0xffu8, 0xfe] + wide(text, true)) == Some(text),
        text_of_file(seq![0xfeu8, 0xff] + wide(text, false)) == Some(text),
{
    let (a, b) = (wide(text, true), wide(text, false));
    let (x, y) = (seq![0xffu8, 0xfe] + a, seq![0xfeu8, 0xff] + b);
    assert(x.skip(2) =~= a);
    assert(y.skip(2) =~= b);
    lemma_wide_from(text, true, 0);
    lemma_wide_from(text, false, 0);
    assert(text.skip(0) =~= text);
    let c = text[0];
    assert('\0' <= c <= '\u{7f}');
    assert(x[2] == a[0]);
    assert(a[0] == c as u8);
    assert(c as u8 != 0) by {
        char_u32_cast(c, c as u32);
        assert(c as u32 != 0);
    }
    assert(a.len() % 2 == 0 && b.len() % 2 == 0);
    assert(y[0] == 0xfe);
}

// ───────────────────────────── pieces ─────────────────────────────

/// A needle is looked up by the tokens in it: what stands between two characters that no token holds
/// is a token of it, where a token can begin so and has at least two characters.
pub proof fn lemma_a_needle_is_taken_apart(head: Seq<char>, c: char, rest: Seq<char>)
    requires
        core_text(head),
        !core_char(c),
    ensures
        pieces_from(head + seq![c] + rest, 0, 0) == storable_run(head) + pieces_from(rest, 0, 0),
        pieces_from(head, 0, 0) == storable_run(head),
        storable_run(head) == (if head.len() >= 2 && (('a' <= head[0] && head[0] <= 'z') || ('A'
            <= head[0] && head[0] <= 'Z') || head[0] == '_') {
            seq![head]
        } else {
            seq![]
        }),
{
    lemma_first_piece(head, c, rest, 0);
    lemma_only_piece(head, 0);
}

proof fn lemma_first_piece(head: Seq<char>, c: char, rest: Seq<char>, i: int)
    requires
        core_text(head),
        !core_char(c),
        0 <= i <= head.len(),
    ensures
        pieces_from(head + seq![c] + rest, 0, i) == storable_run(head) + pieces_from(rest, 0, 0),
    decreases head.len() - i,
{
    let s = head + seq![c] + rest;
    if i < head.len() {
        assert(s[i] == head[i]);
        lemma_first_piece(head, c, rest, i + 1);
    } else {
        assert(s[i] == c);
        assert(s.subrange(0, i) =~= head);
        assert(s.skip(i + 1) =~= rest);
        lemma_shifted_pieces(s, i + 1, rest, 0, 0);
    }
}

proof fn lemma_shifted_pieces(s: Seq<char>, n: int, rest: Seq<char>, start: int, i: int)
    requires
        0 <= n <= s.len(),
        s.skip(n) == rest,
        0 <= start <= i <= rest.len(),
    ensures
        pieces_from(s, n + start, n + i) == pieces_from(rest, start, i),
    decreases rest.len() - i,
{
    assert(rest.len() == s.len() - n);
    if i < rest.len() {
        assert(s[n + i] == rest[i]);
        if !core_char(rest[i]) {
            assert(s.subrange(n + start, n + i) =~= rest.subrange(start, i));
            lemma_shifted_pieces(s, n, rest, i + 1, i + 1);
        } else {
            lemma_shifted_pieces(s, n, rest, start, i + 1);
        }
    } else {
        assert(s.subrange(n + start, s.len() as int) =~= rest.subrange(start, rest.len() as int));
    }
}

proof fn lemma_only_piece(head: Seq<char>, i: int)
    requires
        core_text(head),
        0 <= i <= head.len(),
    ensures
        pieces_from(head, 0, i) == storable_run(head),
    decreases head.len() - i,
{
    if i < head.len() {
        assert(core_char(head[i]));
        lemma_only_piece(head, i + 1);
    } else {
        assert(head.subrange(0, head.len() as int) =~= head);
    }
}

/// A token is made of letters, digits and underscores of ASCII, and of nothing else.
pub proof fn lemma_tokens_are_made_of_word_characters(s: Seq<char>)
    ensures
        core_text(s) <==> forall|i: int|
            0 <= i < s.len() ==> ('a' <= #[trigger] s[i] && s[i] <= 'z') || ('A' <= s[i] && s[i]
                <= 'Z') || ('0' <= s[i] && s[i] <= '9') || s[i] == '_',
{
    if forall|i: int|
        0 <= i < s.len() ==> ('a' <= #[trigger] s[i] && s[i] <= 'z') || ('A' <= s[i] && s[i] <= 'Z')
            || ('0' <= s[i] && s[i] <= '9') || s[i] == '_' {
        assert forall|i: int| 0 <= i < s.len() implies core_char(#[trigger] s[i]) by {}
    }
    if core_text(s) {
        assert forall|i: int| 0 <= i < s.len() implies ('a' <= #[trigger] s[i] && s[i] <= 'z') || ('A'
            <= s[i] && s[i] <= 'Z') || ('0' <= s[i] && s[i] <= '9') || s[i] == '_' by {
            assert(core_char(s[i]));
        }
    }
}

// ───────────────────────────── tokens in lines ─────────────────────────────

/// Whether a character may stand beside a token: anything but a letter, a digit or an underscore.
pub open spec fn parts_tokens(c: char) -> bool {
    !alphanumeric(c) && c != '_'
}

/// A line holds a token where it stands in it on its own: with nothing beside it, or something that parts
/// tokens. A line holds any other needle wherever it stands in it.
pub proof fn lemma_a_line_holds_what_stands_in_it(
    line: Seq<char>,
    before: Seq<char>,
    needle: Seq<char>,
    after: Seq<char>,
)
    requires
        needle.len() > 0,
        line == before + needle + after,
    ensures
        line_holds(line, needle, false),
        (forall|k: int| 0 <= k < needle.len() ==> !parts_tokens(#[trigger] needle[k])) && (
        before.len() == 0 || parts_tokens(before.last())) && (after.len() == 0 || parts_tokens(
            after[0],
        )) ==> line_holds(line, needle, true),
{
    let at = before.len() as int;
    assert(line.subrange(at, at + needle.len()) =~= needle);
    assert(occurs_at(line, needle, at));
    if (forall|k: int| 0 <= k < needle.len() ==> !parts_tokens(#[trigger] needle[k])) && (
    before.len() == 0 || parts_tokens(before.last())) && (after.len() == 0 || parts_tokens(
        after[0],
    )) {
        assert forall|k: int| 0 <= k < needle.len() implies word_char(#[trigger] needle[k]) by {
            assert(!parts_tokens(needle[k]));
        }
        lemma_token_is_any_occurrence(line, needle, 0);
        if at > 0 {
            assert(line[at - 1] == before.last());
        }
        if at + needle.len() < line.len() {
            assert(line[at + needle.len()] == after[0]);
        }
        assert(stands_alone(line, at, needle.len() as int));
    }
}

/// What a line holds stands in it: between two parts of it, and a token on its own.
pub proof fn lemma_what_a_line_holds_stands_in_it(line: Seq<char>, needle: Seq<char>, whole: bool)
    requires
        needle.len() > 0,
        whole ==> forall|k: int| 0 <= k < needle.len() ==> !parts_tokens(#[trigger] needle[k]),
        line_holds(line, needle, whole),
    ensures
        exists|before: Seq<char>, after: Seq<char>|
            line == #[trigger] (before + needle + after) && (whole ==> (before.len() == 0
                || parts_tokens(before.last())) && (after.len() == 0 || parts_tokens(after[0]))),
{
    let n = needle.len() as int;
    let at = if whole {
        assert forall|k: int| 0 <= k < needle.len() implies word_char(#[trigger] needle[k]) by {
            assert(!parts_tokens(needle[k]));
        }
        lemma_token_is_any_occurrence(line, needle, 0);
        choose|at: int| 0 <= at && #[trigger] occurs_at(line, needle, at) && stands_alone(line, at, n)
    } else {
        choose|at: int| #[trigger] occurs_at(line, needle, at)
    };
    let (before, after) = (line.take(at), line.skip(at + n));
    assert(line =~= before + needle + after) by {
        assert forall|k: int| at <= k < at + n implies line[k] == needle[k - at] by {
            assert(line.subrange(at, at + n)[k - at] == line[k]);
        }
    }
    if whole {
        if before.len() > 0 {
            assert(before.last() == line[at - 1]);
        }
        if after.len() > 0 {
            assert(after[0] == line[at + n]);
        }
    }
}

} // verus!
