//! What can be read off a pattern or a name before any row is tested.

use crate::filter::{like_accepts, like_at};
use crate::overlay::lookup::text_views;
use crate::text::{chars_of, text_of};
use vstd::prelude::*;
use vstd::string::*;
use vstd::utf8::*;

verus! {

// ───────────────────────────── short prefixes ─────────────────────────────

/// The characters that a character becomes in lower case.
pub uninterp spec fn lowercase(c: char) -> Seq<char>;

/// `char::to_lowercase` gives the characters of the lower-case form: for an ASCII letter the
/// small letter, for any other ASCII character the character itself.
#[verifier::external_body]
fn lowercase_chars(c: char) -> (v: Vec<char>)
    ensures
        v@ == lowercase(c),
        'A' <= c <= 'Z' ==> v@ == seq![((c as u8) + 32) as u8 as char],
        (c as u32) < 128 && !('A' <= c <= 'Z') ==> v@ == seq![c],
{
    c.to_lowercase().collect()
}

/// Whether a character is a wildcard of `LIKE`.
pub open spec fn like_wildcard(c: char) -> bool {
    c == '%' || c == '_'
}

/// How many characters of a `LIKE` pattern precede its first wildcard, from `i` on.
pub open spec fn literal_lead(p: Seq<char>, i: int) -> nat
    decreases p.len() - i,
{
    if i < 0 || i >= p.len() || like_wildcard(p[i]) {
        0
    } else {
        1 + literal_lead(p, i + 1)
    }
}

/// The prefix that a `LIKE` pattern demands, in lower case, where it is one or two characters
/// long. Longer ones are left to the trigrams, and there is nothing to prune by none.
pub open spec fn short_prefix(p: Seq<char>) -> Option<Seq<u8>> {
    let n = literal_lead(p, 0);
    if n == 1 {
        Some(encode_utf8(lowercase(p[0])))
    } else if n == 2 {
        Some(encode_utf8(lowercase(p[0]) + lowercase(p[1])))
    } else {
        None
    }
}

/// The prefix that a `LIKE` pattern demands, where it is one or two characters long.
pub fn pattern_as_prefix(pattern: &str) -> (r: Option<Vec<u8>>)
    ensures
        (match r {
            Some(v) => short_prefix(pattern@) == Some(v@),
            None => short_prefix(pattern@) is None,
        }),
{
    let p = chars_of(pattern);
    if p.len() == 0 || p[0] == '%' || p[0] == '_' {
        return None;
    }
    let first = lowercase_chars(p[0]);
    if p.len() == 1 || p[1] == '%' || p[1] == '_' {
        proof {
            assert(literal_lead(p@, 1) == 0);
        }
        let s = text_of(&first, 0, first.len());
        assert(s@ =~= lowercase(p@[0]));
        return Some(s.as_str().as_bytes_vec());
    }
    if p.len() > 2 && p[2] != '%' && p[2] != '_' {
        assert(literal_lead(p@, 2) >= 1);
        assert(literal_lead(p@, 1) >= 2);
        return None;
    }
    assert(literal_lead(p@, 2) == 0);
    assert(literal_lead(p@, 1) == 1);
    let second = lowercase_chars(p[1]);
    let mut s = text_of(&first, 0, first.len());
    let t = text_of(&second, 0, second.len());
    s.append(t.as_str());
    assert(s@ =~= lowercase(p@[0]) + lowercase(p@[1]));
    Some(s.as_str().as_bytes_vec())
}

// ───────────────────────────── literal runs ─────────────────────────────

/// Which characters of a pattern are not literal.
#[derive(Clone, Copy, Debug, PartialEq, Eq, Structural)]
pub enum PatternKind {
    /// Those of `LIKE`.
    Like,
    /// Those of a regular expression.
    Regex,
}

/// Whether a character of a pattern is not literal.
pub open spec fn is_meta(kind: PatternKind, c: char) -> bool {
    match kind {
        PatternKind::Like => like_wildcard(c),
        PatternKind::Regex => c == '\\' || c == '.' || c == '+' || c == '*' || c == '?' || c == '('
            || c == ')' || c == '[' || c == ']' || c == '{' || c == '}' || c == '|' || c == '^' || c
            == '$',
    }
}

fn meta_char(kind: PatternKind, c: char) -> (r: bool)
    ensures
        r == is_meta(kind, c),
{
    match kind {
        PatternKind::Like => c == '%' || c == '_',
        PatternKind::Regex => c == '\\' || c == '.' || c == '+' || c == '*' || c == '?' || c == '('
            || c == ')' || c == '[' || c == ']' || c == '{' || c == '}' || c == '|' || c == '^' || c
            == '$',
    }
}

/// A run, unless it is empty.
pub open spec fn some_run(run: Seq<char>) -> Seq<Seq<char>> {
    if run.len() == 0 {
        seq![]
    } else {
        seq![run]
    }
}

/// The literal runs of `p[i..]`, the first of which continues from `start`.
pub open spec fn runs_from(kind: PatternKind, p: Seq<char>, start: int, i: int) -> Seq<Seq<char>>
    decreases p.len() - i,
{
    if i >= p.len() {
        some_run(p.subrange(start, p.len() as int))
    } else if is_meta(kind, p[i]) {
        some_run(p.subrange(start, i)) + runs_from(kind, p, i + 1, i + 1)
    } else {
        runs_from(kind, p, start, i + 1)
    }
}

/// The literal runs of a pattern: the stretches without a character that is not literal.
pub open spec fn literal_runs(kind: PatternKind, p: Seq<char>) -> Seq<Seq<char>> {
    runs_from(kind, p, 0, 0)
}

/// The literal runs of a pattern.
pub fn pattern_literals(kind: PatternKind, pattern: &str) -> (runs: Vec<String>)
    ensures
        text_views(runs@) == literal_runs(kind, pattern@),
{
    let p = chars_of(pattern);
    let n: usize = p.len();
    let mut runs: Vec<String> = Vec::new();
    let mut start: usize = 0;
    let mut i: usize = 0;
    assert(text_views(runs@) =~= seq![]);
    assert(text_views(runs@) + runs_from(kind, p@, 0, 0) =~= literal_runs(kind, pattern@));
    while i < n
        invariant
            n == p@.len(),
            p@ == pattern@,
            start <= i <= n,
            text_views(runs@) + runs_from(kind, p@, start as int, i as int) == literal_runs(
                kind,
                pattern@,
            ),
        decreases n - i,
    {
        if meta_char(kind, p[i]) {
            let ghost was = runs@;
            let ghost rest = runs_from(kind, p@, i + 1, i + 1);
            if start < i {
                let run = text_of(&p, start, i);
                runs.push(run);
                assert(text_views(runs@) =~= text_views(was).push(run@));
                assert(text_views(runs@) + rest =~= text_views(was) + (seq![run@] + rest));
            } else {
                assert(p@.subrange(start as int, i as int).len() == 0);
                assert(text_views(was) + (Seq::<Seq<char>>::empty() + rest) =~= text_views(was)
                    + rest);
            }
            start = i + 1;
        }
        i += 1;
    }
    let ghost was = runs@;
    if start < n {
        let run = text_of(&p, start, n);
        runs.push(run);
        assert(text_views(runs@) =~= text_views(was).push(run@));
        assert(text_views(was).push(run@) =~= text_views(was) + seq![run@]);
    } else {
        assert(p@.subrange(start as int, n as int).len() == 0);
        assert(text_views(was) + Seq::<Seq<char>>::empty() =~= text_views(was));
    }
    runs
}

/// Whether a text occurs in another.
pub open spec fn occurs(text: Seq<char>, run: Seq<char>) -> bool {
    exists|at: int| #[trigger] occurs_at(text, run, at)
}

/// Whether a text occurs in another at `at`.
pub open spec fn occurs_at(text: Seq<char>, run: Seq<char>, at: int) -> bool {
    0 <= at && at + run.len() <= text.len() && text.subrange(at, at + run.len()) == run
}

/// A stretch of a `LIKE` pattern without wildcards is matched letter for letter.
proof fn lemma_like_literal(t: Seq<char>, j: int, p: Seq<char>, i: int, n: int)
    requires
        like_at(t, j, p, i),
        0 <= i <= n <= p.len(),
        0 <= j <= t.len(),
        forall|k: int| i <= k < n ==> !like_wildcard(#[trigger] p[k]),
    ensures
        j + (n - i) <= t.len(),
        t.subrange(j, j + (n - i)) == p.subrange(i, n),
        like_at(t, j + (n - i), p, n),
    decreases n - i,
{
    if i < n {
        assert(!like_wildcard(p[i]));
        lemma_like_literal(t, j + 1, p, i + 1, n);
        assert(t.subrange(j, j + (n - i)) =~= seq![t[j]] + t.subrange(
            j + 1,
            (j + 1) + (n - (i + 1)),
        ));
        assert(p.subrange(i, n) =~= seq![p[i]] + p.subrange(i + 1, n));
    } else {
        assert(t.subrange(j, j) =~= p.subrange(i, n));
    }
}

proof fn lemma_like_runs(t: Seq<char>, j: int, p: Seq<char>, start: int, i: int)
    requires
        like_at(t, j, p, start),
        0 <= start <= i <= p.len(),
        0 <= j <= t.len(),
        forall|k: int| start <= k < i ==> !like_wildcard(#[trigger] p[k]),
    ensures
        forall|a: int|
            0 <= a < runs_from(PatternKind::Like, p, start, i).len() ==> occurs(
                t,
                #[trigger] runs_from(PatternKind::Like, p, start, i)[a],
            ),
    decreases p.len() - i, t.len() - j,
{
    let runs = runs_from(PatternKind::Like, p, start, i);
    if i >= p.len() {
        lemma_like_literal(t, j, p, start, i);
        let run = p.subrange(start, p.len() as int);
        assert(occurs_at(t, run, j));
        assert forall|a: int| 0 <= a < runs.len() implies occurs(t, #[trigger] runs[a]) by {
            assert(runs[a] == run);
        }
    } else if like_wildcard(p[i]) {
        lemma_like_literal(t, j, p, start, i);
        assert(occurs_at(t, p.subrange(start, i), j));
        let here = j + (i - start);
        lemma_like_past_wildcard(t, here, p, i);
        let there = choose|there: int|
            0 <= there <= t.len() && #[trigger] like_at(t, there, p, i + 1);
        lemma_like_runs(t, there, p, i + 1, i + 1);
        let rest = runs_from(PatternKind::Like, p, i + 1, i + 1);
        let head = some_run(p.subrange(start, i));
        assert forall|a: int| 0 <= a < runs.len() implies occurs(t, #[trigger] runs[a]) by {
            if a >= head.len() {
                assert(runs[a] == rest[a - head.len()]);
                assert(occurs(t, rest[a - head.len()]));
            } else {
                assert(runs[a] == p.subrange(start, i));
            }
        }
    } else {
        lemma_like_runs(t, j, p, start, i + 1);
        assert(runs == runs_from(PatternKind::Like, p, start, i + 1));
    }
}

/// What follows a wildcard matches somewhere.
proof fn lemma_like_past_wildcard(t: Seq<char>, j: int, p: Seq<char>, i: int)
    requires
        like_at(t, j, p, i),
        0 <= i < p.len(),
        0 <= j <= t.len(),
        like_wildcard(p[i]),
    ensures
        exists|there: int| 0 <= there <= t.len() && #[trigger] like_at(t, there, p, i + 1),
    decreases t.len() - j,
{
    if p[i] == '%' && !like_at(t, j, p, i + 1) {
        lemma_like_past_wildcard(t, j + 1, p, i);
    } else if p[i] == '%' {
        assert(like_at(t, j, p, i + 1));
    } else {
        assert(like_at(t, j + 1, p, i + 1));
    }
}

/// Every literal run of a `LIKE` pattern occurs in every text that the pattern matches.
pub proof fn lemma_like_literals_occur(text: Seq<char>, pattern: Seq<char>, a: int)
    requires
        like_accepts(text, pattern),
        0 <= a < literal_runs(PatternKind::Like, pattern).len(),
    ensures
        occurs(text, literal_runs(PatternKind::Like, pattern)[a]),
{
    lemma_like_runs(text, 0, pattern, 0, 0);
}

// ───────────────────────────── qualified names ─────────────────────────────

/// One past the last `::` of `s[..n]` that ends at or before `n`; nought where there is none.
pub open spec fn past_colons(s: Seq<char>, n: int) -> int
    decreases n,
{
    if n < 2 {
        0
    } else if s[n - 1] == ':' && s[n - 2] == ':' {
        n
    } else {
        past_colons(s, n - 1)
    }
}

/// One past the last `.` of `s[..n]`; nought where there is none.
pub open spec fn past_dot(s: Seq<char>, n: int) -> int
    decreases n,
{
    if n <= 0 {
        0
    } else if s[n - 1] == '.' {
        n
    } else {
        past_dot(s, n - 1)
    }
}

/// The member and the owner of a qualified name: `Owner::member`, else `Owner.member`. A name
/// with an empty side is not qualified.
pub open spec fn qualified(s: Seq<char>) -> (Seq<char>, Option<Seq<char>>) {
    let c = past_colons(s, s.len() as int);
    let d = past_dot(s, s.len() as int);
    if c > 2 && c < s.len() {
        (s.skip(c), Some(s.take(c - 2)))
    } else if d > 1 && d < s.len() {
        (s.skip(d), Some(s.take(d - 1)))
    } else {
        (s, None)
    }
}

/// Splits a qualified name into the member and its owner.
pub fn split_qualified_name(name: &str) -> (r: (String, Option<String>))
    ensures
        (r.0@, crate::segment::opt_string(r.1)) == qualified(name@),
{
    let s = chars_of(name);
    let n: usize = s.len();
    let mut c: usize = n;
    while c >= 2 && !(s[c - 1] == ':' && s[c - 2] == ':')
        invariant
            n == s@.len(),
            c <= n,
            past_colons(s@, n as int) == past_colons(s@, c as int),
        decreases c,
    {
        c -= 1;
    }
    if c > 2 && c < n {
        let member = text_of(&s, c, n);
        let owner = text_of(&s, 0, c - 2);
        assert(member@ =~= s@.skip(c as int));
        assert(owner@ =~= s@.take(c - 2));
        return (member, Some(owner));
    }
    let mut d: usize = n;
    while d > 0 && s[d - 1] != '.'
        invariant
            n == s@.len(),
            d <= n,
            past_dot(s@, n as int) == past_dot(s@, d as int),
        decreases d,
    {
        d -= 1;
    }
    if d > 1 && d < n {
        let member = text_of(&s, d, n);
        let owner = text_of(&s, 0, d - 1);
        assert(member@ =~= s@.skip(d as int));
        assert(owner@ =~= s@.take(d - 1));
        return (member, Some(owner));
    }
    (name.to_owned(), None)
}

} // verus!
