//! Paths by their parts: the root, the directory itself, the directory above, and names.
//!
//! Repeated separators, a separator at the end and a `.` behind another part are ways of writing
//! the same path. A part is written as its text: `/`, `.`, `..` or the name.

use crate::overlay::lookup::text_views;
use crate::segment::lists_text;
use crate::text::{chars_of, same_text, text_of};
use vstd::prelude::*;
use vstd::string::*;
use vstd::utf8::*;

verus! {

/// The part that a piece between two separators is, where it is one. `first` tells whether the piece
/// opens a path that does not start at the root.
pub open spec fn part_of(piece: Seq<char>, first: bool) -> Seq<Seq<char>> {
    if piece.len() == 0 || (piece == seq!['.'] && !first) {
        seq![]
    } else {
        seq![piece]
    }
}

/// The parts of `p` from a piece that begins at `start` and is read up to `i`.
pub open spec fn parts_from(p: Seq<char>, start: int, i: int) -> Seq<Seq<char>>
    decreases p.len() - i,
{
    if i >= p.len() {
        part_of(p.subrange(start, p.len() as int), start == 0)
    } else if p[i] == '/' {
        part_of(p.subrange(start, i), start == 0) + parts_from(p, i + 1, i + 1)
    } else {
        parts_from(p, start, i + 1)
    }
}

/// The parts of a path.
pub open spec fn path_parts(p: Seq<char>) -> Seq<Seq<char>> {
    if p.len() > 0 && p[0] == '/' {
        seq![seq!['/']] + parts_from(p, 1, 1)
    } else {
        parts_from(p, 0, 0)
    }
}

/// The path that the first `n` parts make, written plainly.
pub open spec fn parts_text(parts: Seq<Seq<char>>, n: int) -> Seq<char>
    decreases n,
{
    if n <= 0 {
        seq![]
    } else if n == 1 || parts[n - 2] == seq!['/'] {
        parts_text(parts, n - 1) + parts[n - 1]
    } else {
        parts_text(parts, n - 1) + seq!['/'] + parts[n - 1]
    }
}

fn is_dot(c: &Vec<char>, from: usize, to: usize) -> (r: bool)
    requires
        from <= to <= c@.len(),
    ensures
        r == (c@.subrange(from as int, to as int) == seq!['.']),
{
    let ghost piece = c@.subrange(from as int, to as int);
    if to - from == 1 && c[from] == '.' {
        assert(piece =~= seq!['.']);
        true
    } else {
        proof {
            assert(seq!['.'].len() == 1 && seq!['.'][0] == '.');
            if piece == seq!['.'] {
                assert(piece[0] == c@[from as int]);
            }
        }
        false
    }
}

fn push_piece(out: &mut Vec<String>, c: &Vec<char>, from: usize, to: usize)
    requires
        from <= to <= c@.len(),
    ensures
        text_views(final(out)@) == text_views(old(out)@) + part_of(
            c@.subrange(from as int, to as int),
            from == 0,
        ),
{
    let ghost was = out@;
    let ghost piece = c@.subrange(from as int, to as int);
    if from == to || (is_dot(c, from, to) && from != 0) {
        assert(text_views(was) + Seq::<Seq<char>>::empty() =~= text_views(was));
        return;
    }
    let s = text_of(c.as_slice(), from, to);
    out.push(s);
    assert(text_views(out@) =~= text_views(was) + seq![piece]);
}

/// The parts of a path.
pub fn parts_of(path: &str) -> (parts: Vec<String>)
    ensures
        text_views(parts@) == path_parts(path@),
{
    let c = chars_of(path);
    let ghost p = path@;
    let mut parts: Vec<String> = Vec::new();
    let mut start: usize = 0;
    if c.len() > 0 && c[0] == '/' {
        let mut s = String::new();
        s.push('/');
        assert(s@ =~= seq!['/']);
        parts.push(s);
        start = 1;
        assert(text_views(parts@) =~= seq![seq!['/']]);
    } else {
        assert(text_views(parts@) =~= seq![]);
    }
    let mut i: usize = start;
    proof {
        let rest = parts_from(p, start as int, start as int);
        assert(Seq::<Seq<char>>::empty() + rest =~= rest);
    }
    while i < c.len()
        invariant
            c@ == p,
            start <= i <= c@.len(),
            text_views(parts@) + parts_from(p, start as int, i as int) == path_parts(p),
        decreases c.len() - i,
    {
        if c[i] == '/' {
            let ghost was = text_views(parts@);
            push_piece(&mut parts, &c, start, i);
            proof {
                let piece = part_of(p.subrange(start as int, i as int), start == 0);
                let rest = parts_from(p, i + 1, i + 1);
                assert(was + (piece + rest) =~= (was + piece) + rest);
            }
            start = i + 1;
        }
        i += 1;
    }
    push_piece(&mut parts, &c, start, c.len());
    parts
}

proof fn lemma_parts_text_of(a: Seq<Seq<char>>, b: Seq<Seq<char>>, n: int)
    requires
        n <= a.len(),
        n <= b.len(),
        forall|i: int| 0 <= i < n ==> a[i] == b[i],
    ensures
        parts_text(a, n) == parts_text(b, n),
    decreases n,
{
    if n > 0 {
        lemma_parts_text_of(a, b, n - 1);
    }
}

/// What the first parts make does not depend on those behind them.
pub(crate) proof fn lemma_parts_text_prefix(parts: Seq<Seq<char>>, n: int)
    requires
        0 <= n <= parts.len(),
    ensures
        parts_text(parts.subrange(0, n), n) == parts_text(parts, n),
{
    lemma_parts_text_of(parts.subrange(0, n), parts, n);
}

/// Whether parts begin with those of another path.
pub open spec fn parts_start(parts: Seq<Seq<char>>, head: Seq<Seq<char>>) -> bool {
    head.len() <= parts.len() && parts.take(head.len() as int) == head
}

/// The path that parts make, written plainly.
pub fn write_parts(parts: &Vec<String>, from: usize, to: usize) -> (s: String)
    requires
        from <= to <= parts@.len(),
    ensures
        s@ == parts_text(
            text_views(parts@).subrange(from as int, to as int),
            to - from,
        ),
{
    let ghost list = text_views(parts@).subrange(from as int, to as int);
    let mut s = String::new();
    assert(s@ =~= seq![]);
    let mut root = true;
    let mut i: usize = from;
    while i < to
        invariant
            from <= i <= to <= parts@.len(),
            list == text_views(parts@).subrange(from as int, to as int),
            s@ == parts_text(list, i - from),
            root == (i == from || list[i - from - 1] == seq!['/']),
        decreases to - i,
    {
        let ghost n = i - from;
        assert(list[n] == parts@[i as int]@);
        if !root {
            s.push('/');
        }
        s.append(parts[i].as_str());
        proof {
            if root {
                if n == 0 {
                    assert(s@ =~= parts_text(list, n) + list[n]);
                }
                assert(s@ =~= parts_text(list, n + 1));
            } else {
                assert(s@ =~= parts_text(list, n) + seq!['/'] + list[n]);
            }
        }
        root = is_root(parts[i].as_str());
        i += 1;
    }
    s
}

pub(crate) fn is_root(part: &str) -> (r: bool)
    ensures
        r == (part@ == seq!['/']),
{
    let c = chars_of(part);
    if c.len() == 1 && c[0] == '/' {
        assert(part@ =~= seq!['/']);
        true
    } else {
        assert(seq!['/'].len() == 1 && seq!['/'][0] == '/');
        false
    }
}

// ───────────────────────────── one path, several spellings ─────────────────────────────

/// Whether two texts write the same path.
pub open spec fn same_path(a: Seq<char>, b: Seq<char>) -> bool {
    path_parts(a) == path_parts(b)
}

/// A path written plainly: its parts with one separator between them.
pub open spec fn plainly(p: Seq<char>) -> Seq<char> {
    parts_text(path_parts(p), path_parts(p).len() as int)
}

/// The parts of a text that stands behind a separator.
pub open spec fn parts_behind(p: Seq<char>) -> Seq<Seq<char>> {
    parts_from(seq!['/'] + p, 1, 1)
}

/// Whether a list can be the parts of a path: the root stands first only, the directory itself too,
/// and every other part is a name without a separator.
pub open spec fn are_parts(parts: Seq<Seq<char>>) -> bool {
    forall|i: int| 0 <= i < parts.len() ==> is_part(#[trigger] parts[i], i == 0)
}

/// Whether a text is a part, of the kinds that may open a path or of those that follow.
pub open spec fn is_part(part: Seq<char>, first: bool) -> bool {
    &&& part.len() > 0
    &&& first && part == seq!['/'] || !part.contains('/')
    &&& first || part != seq!['.']
}

spec fn opened_parts(parts: Seq<Seq<char>>, first: bool) -> bool {
    forall|k: int| 0 <= k < parts.len() ==> is_part(#[trigger] parts[k], first && k == 0)
}

proof fn lemma_from_are_parts(p: Seq<char>, start: int, i: int)
    requires
        0 <= start <= i <= p.len(),
        forall|k: int| start <= k < i ==> p[k] != '/',
    ensures
        opened_parts(parts_from(p, start, i), start == 0),
    decreases p.len() - i,
{
    if i >= p.len() {
        let piece = p.subrange(start, p.len() as int);
        assert(!piece.contains('/'));
        let parts = part_of(piece, start == 0);
        assert(parts_from(p, start, i) == parts);
        assert forall|k: int| 0 <= k < parts.len() implies is_part(
            #[trigger] parts[k],
            start == 0 && k == 0,
        ) by {
            assert(parts[k] == piece && k == 0);
        }
    } else if p[i] == '/' {
        lemma_from_are_parts(p, i + 1, i + 1);
        let piece = p.subrange(start, i);
        assert(!piece.contains('/'));
        let head = part_of(piece, start == 0);
        let rest = parts_from(p, i + 1, i + 1);
        let parts = head + rest;
        assert(parts_from(p, start, i) == parts);
        assert forall|k: int| 0 <= k < parts.len() implies is_part(
            #[trigger] parts[k],
            start == 0 && k == 0,
        ) by {
            if k >= head.len() {
                assert(parts[k] == rest[k - head.len()]);
                assert(is_part(rest[k - head.len()], false));
                if start == 0 && k == 0 {
                    assert(rest[k].len() > 0);
                }
            } else {
                assert(parts[k] == piece && k == 0);
            }
        }
    } else {
        lemma_from_are_parts(p, start, i + 1);
        assert(parts_from(p, start, i) == parts_from(p, start, i + 1));
    }
}

/// The parts of a path are parts.
pub proof fn lemma_are_parts(p: Seq<char>)
    ensures
        are_parts(path_parts(p)),
{
    if p.len() > 0 && p[0] == '/' {
        lemma_from_are_parts(p, 1, 1);
        let rest = parts_from(p, 1, 1);
        assert forall|k: int| 0 <= k < path_parts(p).len() implies is_part(
            #[trigger] path_parts(p)[k],
            k == 0,
        ) by {
            if k > 0 {
                assert(is_part(rest[k - 1], false));
            }
        }
    } else {
        lemma_from_are_parts(p, 0, 0);
    }
}

/// Behind a separator only what follows decides.
proof fn lemma_shifted(x: Seq<char>, s: int, y: Seq<char>, t: int, k: int)
    requires
        0 < s <= s + k <= x.len(),
        0 < t,
        x.skip(s) == y.skip(t),
        t <= y.len(),
    ensures
        parts_from(x, s, s + k) == parts_from(y, t, t + k),
    decreases x.len() - s - k,
{
    assert(x.skip(s).len() == x.len() - s);
    assert(y.skip(t).len() == y.len() - t);
    assert forall|j: int| s <= j < x.len() implies #[trigger] x[j] == y[t + j - s] by {
        assert(x.skip(s)[j - s] == x[j]);
        assert(y.skip(t)[j - s] == y[t + j - s]);
    }
    if s + k >= x.len() {
        assert(x.subrange(s, x.len() as int) =~= y.subrange(t, y.len() as int));
    } else if x[s + k] == '/' {
        assert(x[s + k] == y[t + k]);
        assert(x.subrange(s, s + k) =~= y.subrange(t, t + k));
        assert(x.skip(s + k + 1) =~= y.skip(t + k + 1));
        lemma_shifted(x, s + k + 1, y, t + k + 1, 0);
    } else {
        assert(x[s + k] == y[t + k]);
        lemma_shifted(x, s, y, t, k + 1);
    }
}

proof fn lemma_from_joined(a: Seq<char>, b: Seq<char>, start: int, i: int)
    requires
        0 <= start <= i <= a.len(),
    ensures
        parts_from(a + seq!['/'] + b, start, i) == parts_from(a, start, i) + parts_behind(b),
    decreases a.len() - i,
{
    let x = a + seq!['/'] + b;
    if i >= a.len() {
        assert(x[i] == '/');
        assert(x.subrange(start, i) =~= a.subrange(start, a.len() as int));
        assert(x.skip(i + 1) =~= (seq!['/'] + b).skip(1));
        lemma_shifted(x, i + 1, seq!['/'] + b, 1, 0);
    } else if a[i] == '/' {
        lemma_from_joined(a, b, i + 1, i + 1);
        assert(x[i] == '/');
        assert(x.subrange(start, i) =~= a.subrange(start, i));
        let piece = part_of(a.subrange(start, i), start == 0);
        assert(piece + (parts_from(a, i + 1, i + 1) + parts_behind(b)) =~= (piece + parts_from(
            a,
            i + 1,
            i + 1,
        )) + parts_behind(b));
    } else {
        assert(x[i] == a[i]);
        lemma_from_joined(a, b, start, i + 1);
    }
}

/// The parts of two texts with a separator between them.
pub proof fn lemma_joined_parts(a: Seq<char>, b: Seq<char>)
    requires
        a.len() > 0,
    ensures
        path_parts(a + seq!['/'] + b) == path_parts(a) + parts_behind(b),
{
    let x = a + seq!['/'] + b;
    assert(x[0] == a[0]);
    if a[0] == '/' {
        lemma_from_joined(a, b, 1, 1);
        assert(seq![seq!['/']] + (parts_from(a, 1, 1) + parts_behind(b)) =~= (seq![seq!['/']]
            + parts_from(a, 1, 1)) + parts_behind(b));
    } else {
        lemma_from_joined(a, b, 0, 0);
    }
}

proof fn lemma_behind_from(b: Seq<char>, i: int)
    requires
        0 <= i <= b.len(),
        forall|k: int| 0 <= k < i ==> b[k] != '/',
        b.len() > 0 ==> b[0] != '/',
    ensures
        ({
            let here = parts_from(b, 0, i);
            let there = parts_from(seq!['/'] + b, 1, i + 1);
            if here.len() > 0 && here[0] == seq!['.'] {
                there == here.skip(1)
            } else {
                there == here
            }
        }),
    decreases b.len() - i,
{
    let y = seq!['/'] + b;
    if i >= b.len() {
        assert(y.subrange(1, y.len() as int) =~= b.subrange(0, b.len() as int));
        if b.subrange(0, b.len() as int) == seq!['.'] {
            assert(parts_from(b, 0, i).skip(1) =~= seq![]);
        }
    } else if b[i] == '/' {
        assert(y[i + 1] == '/');
        let piece = b.subrange(0, i);
        assert(y.subrange(1, i + 1) =~= piece);
        assert(y.skip(i + 2) =~= b.skip(i + 1));
        lemma_shifted(y, i + 2, b, i + 1, 0);
        assert(piece.len() == i);
        let rest = parts_from(b, i + 1, i + 1);
        if piece == seq!['.'] {
            assert((seq![piece] + rest).skip(1) =~= rest);
            assert(Seq::<Seq<char>>::empty() + rest =~= rest);
        } else {
            assert(part_of(piece, true) == seq![piece]);
        }
    } else {
        assert(y[i + 1] == b[i]);
        lemma_behind_from(b, i + 1);
    }
}

/// A relative path has the same parts behind a separator, but for the directory itself in front.
pub proof fn lemma_behind(b: Seq<char>)
    requires
        b.len() > 0 ==> b[0] != '/',
    ensures
        path_parts(b).len() > 0 && path_parts(b)[0] == seq!['.'] ==> parts_behind(b) == path_parts(
            b,
        ).skip(1),
        !(path_parts(b).len() > 0 && path_parts(b)[0] == seq!['.']) ==> parts_behind(b)
            == path_parts(b),
{
    lemma_behind_from(b, 0);
}

/// A relative path does not open with the root.
pub proof fn lemma_first_part(p: Seq<char>)
    requires
        p.len() > 0 ==> p[0] != '/',
    ensures
        path_parts(p).len() > 0 ==> path_parts(p)[0] != seq!['/'],
{
    lemma_from_without_root(p, 0, 0);
}

proof fn lemma_from_without_root(p: Seq<char>, start: int, i: int)
    requires
        0 <= start <= i <= p.len(),
        forall|k: int| start <= k < i ==> p[k] != '/',
    ensures
        parts_from(p, start, i).len() > 0 ==> parts_from(p, start, i)[0] != seq!['/'],
    decreases p.len() - i,
{
    if i >= p.len() {
        let piece = p.subrange(start, p.len() as int);
        if piece == seq!['/'] {
            assert(piece[0] == '/');
        }
    } else if p[i] == '/' {
        lemma_from_without_root(p, i + 1, i + 1);
        let piece = p.subrange(start, i);
        if piece == seq!['/'] {
            assert(piece[0] == '/');
        }
    } else {
        lemma_from_without_root(p, start, i + 1);
    }
}

proof fn lemma_one_piece(b: Seq<char>, start: int, i: int)
    requires
        0 <= start <= i <= b.len(),
        forall|k: int| start <= k < b.len() ==> b[k] != '/',
    ensures
        parts_from(b, start, i) == part_of(b.subrange(start, b.len() as int), start == 0),
    decreases b.len() - i,
{
    if i < b.len() {
        lemma_one_piece(b, start, i + 1);
    }
}

proof fn lemma_written(parts: Seq<Seq<char>>, n: int)
    requires
        are_parts(parts),
        0 <= n <= parts.len(),
    ensures
        path_parts(parts_text(parts, n)) == parts.take(n),
        n > 0 ==> parts_text(parts, n).len() > 0,
        n > 1 || (n == 1 && parts[0] != seq!['/']) ==> parts_text(parts, n).last() != '/',
    decreases n,
{
    let text = parts_text(parts, n);
    if n <= 0 {
        assert(text.subrange(0, 0) =~= seq![]);
        assert(parts.take(0) =~= seq![]);
    } else {
        lemma_written(parts, n - 1);
        let part = parts[n - 1];
        assert(is_part(part, n - 1 == 0));
        assert(parts.take(n) =~= parts.take(n - 1).push(part));
        let before = parts_text(parts, n - 1);
        assert(text.last() == part.last());
        if n == 1 {
            assert(text =~= part);
            if part == seq!['/'] {
                assert(text.subrange(1, 1) =~= seq![]);
                assert(parts_from(text, 1, 1) =~= seq![]);
                assert(parts.take(1) =~= seq![seq!['/']]);
                assert(path_parts(text) =~= parts.take(1));
            } else {
                assert forall|k: int| 0 <= k < text.len() implies text[k] != '/' by {
                    assert(part.contains(part[k]));
                }
                lemma_one_piece(text, 0, 0);
                assert(text.subrange(0, text.len() as int) =~= part);
                assert(parts.take(1) =~= seq![part]);
            }
        } else {
            assert forall|k: int| 0 <= k < part.len() implies part[k] != '/' by {
                assert(part.contains(part[k]));
            }
            let y = seq!['/'] + part;
            lemma_one_piece(y, 1, 1);
            assert(y.subrange(1, y.len() as int) =~= part);
            assert(parts_behind(part) == seq![part]);
            if parts[n - 2] == seq!['/'] {
                assert(n == 2) by {
                    assert(is_part(parts[n - 2], n - 2 == 0));
                    assert(parts[n - 2][0] == '/');
                    assert(parts[n - 2].contains('/'));
                }
                assert(parts_text(parts, 0) =~= seq![]);
                assert(before =~= seq!['/']);
                assert(text =~= y);
                assert(path_parts(text) =~= seq![seq!['/'], part]);
                assert(parts.take(2) =~= seq![seq!['/'], part]);
            } else {
                lemma_joined_parts(before, part);
                assert(parts.take(n - 1) + seq![part] =~= parts.take(n));
            }
        }
    }
}

/// What the first parts of a path make has those parts.
pub proof fn lemma_first_parts(p: Seq<char>, n: int)
    requires
        0 <= n <= path_parts(p).len(),
    ensures
        path_parts(parts_text(path_parts(p), n)) == path_parts(p).take(n),
{
    lemma_are_parts(p);
    lemma_written(path_parts(p), n);
}

/// What the last parts of a path make has those parts.
pub proof fn lemma_last_parts(p: Seq<char>, n: int)
    requires
        0 <= n <= path_parts(p).len(),
    ensures
        path_parts(parts_text(path_parts(p).skip(n), path_parts(p).len() - n)) == path_parts(p).skip(
            n,
        ),
{
    lemma_are_parts(p);
    let rest = path_parts(p).skip(n);
    assert forall|k: int| 0 <= k < rest.len() implies is_part(#[trigger] rest[k], k == 0) by {
        assert(rest[k] == path_parts(p)[n + k]);
    }
    lemma_written(rest, rest.len() as int);
    assert(rest.take(rest.len() as int) =~= rest);
}

/// A path written plainly is the same path.
pub proof fn lemma_plainly(p: Seq<char>)
    ensures
        same_path(plainly(p), p),
{
    let parts = path_parts(p);
    lemma_are_parts(p);
    lemma_written(parts, parts.len() as int);
    assert(parts.take(parts.len() as int) =~= parts);
}

/// Two texts write the same path exactly where written plainly they are one text.
pub proof fn lemma_same_path(a: Seq<char>, b: Seq<char>)
    ensures
        same_path(a, b) == (plainly(a) == plainly(b)),
{
    lemma_plainly(a);
    lemma_plainly(b);
}

/// Writes a path plainly.
pub fn plain_path(path: &str) -> (s: String)
    ensures
        s@ == plainly(path@),
{
    let parts = parts_of(path);
    assert(text_views(parts@).subrange(0, parts@.len() as int) =~= path_parts(path@));
    write_parts(&parts, 0, parts.len())
}

/// Whether two texts write the same path.
pub fn is_same_path(a: &str, b: &str) -> (r: bool)
    ensures
        r == same_path(a@, b@),
{
    proof {
        lemma_same_path(a@, b@);
    }
    same_text(a, b) || same_text(plain_path(a).as_str(), plain_path(b).as_str())
}

/// Whether a list holds a path, in any spelling.
pub open spec fn lists_path(v: Seq<String>, path: Seq<char>) -> bool {
    exists|k: int| 0 <= k < v.len() && same_path((#[trigger] v[k])@, path)
}

/// A text of a list is a path of the list.
pub proof fn lemma_lists_text_path(v: Seq<String>, path: Seq<char>)
    requires
        lists_text(v, path),
    ensures
        lists_path(v, path),
{
    let k = choose|k: int| 0 <= k < v.len() && (#[trigger] v[k])@ == path;
    assert(same_path(v[k]@, path));
}

/// One more text adds its path to a list.
pub proof fn lemma_lists_path_push(v: Seq<String>, t: String, path: Seq<char>)
    ensures
        lists_path(v.push(t), path) == (lists_path(v, path) || same_path(path, t@)),
{
    let w = v.push(t);
    if lists_path(w, path) {
        let k = choose|k: int| 0 <= k < w.len() && same_path((#[trigger] w[k])@, path);
        if k < v.len() {
            assert(same_path(v[k]@, path));
        }
    }
    if lists_path(v, path) {
        let k = choose|k: int| 0 <= k < v.len() && same_path((#[trigger] v[k])@, path);
        assert(same_path(w[k]@, path));
    }
    if same_path(path, t@) {
        assert(same_path(w[v.len() as int]@, path));
    }
}

/// Whether a list holds a path, in any spelling.
pub fn contains_path(v: &Vec<String>, path: &str) -> (r: bool)
    ensures
        r == lists_path(v@, path@),
{
    let mut i: usize = 0;
    while i < v.len()
        invariant
            i <= v@.len(),
            forall|k: int| 0 <= k < i ==> !same_path((#[trigger] v@[k])@, path@),
        decreases v.len() - i,
    {
        if is_same_path(v[i].as_str(), path) {
            return true;
        }
        i += 1;
    }
    false
}

// ───────────────────────────── ranks ─────────────────────────────

/// How the kinds of parts rank: the root, the directory itself, the one above, names.
pub open spec fn part_kind(part: Seq<char>) -> int {
    if part == seq!['/'] {
        1
    } else if part == seq!['.'] {
        2
    } else if part == seq!['.', '.'] {
        3
    } else {
        4
    }
}

/// The ranks by which a part is ordered: its kind and, of a name, its characters up to an end that
/// comes before any.
pub open spec fn part_ranks(part: Seq<char>) -> Seq<int> {
    if part_kind(part) < 4 {
        seq![part_kind(part)]
    } else {
        seq![4int] + part.map_values(|c: char| c as u32 as int + 5) + seq![0int]
    }
}

/// The ranks of the first `n` parts.
pub open spec fn parts_ranks(parts: Seq<Seq<char>>, n: int) -> Seq<int>
    decreases n,
{
    if n <= 0 {
        seq![]
    } else {
        parts_ranks(parts, n - 1) + part_ranks(parts[n - 1])
    }
}

/// The ranks by which paths are ordered: those of their parts.
pub open spec fn path_ranks(p: Seq<char>) -> Seq<int> {
    parts_ranks(path_parts(p), path_parts(p).len() as int)
}

proof fn lemma_part_ranks(part: Seq<char>)
    ensures
        part_ranks(part).len() > 0,
        part_kind(part) < 4 ==> part_ranks(part).len() == 1 && part_ranks(part)[0] == part_kind(
            part,
        ),
        part_kind(part) == 4 ==> {
            let ranks = part_ranks(part);
            &&& ranks.len() == part.len() + 2
            &&& ranks[0] == 4
            &&& ranks.last() == 0
            &&& forall|k: int|
                0 < k < ranks.len() - 1 ==> #[trigger] ranks[k] == part[k - 1] as u32 as int + 5
        },
{
}

proof fn lemma_ranks_name(a: Seq<Seq<char>>, n: int, b: Seq<Seq<char>>, m: int)
    requires
        0 < n <= a.len(),
        0 < m <= b.len(),
        part_kind(a[n - 1]) == 4,
        part_kind(b[m - 1]) == 4,
        parts_ranks(a, n) == parts_ranks(b, m),
    ensures
        a[n - 1].len() <= b[m - 1].len(),
{
    let (x, y) = (a[n - 1], b[m - 1]);
    lemma_part_ranks(x);
    lemma_part_ranks(y);
    let all = parts_ranks(a, n);
    if x.len() > y.len() {
        let at = all.len() - y.len() - 2;
        assert(all[at] == part_ranks(y)[0]);
        let k = part_ranks(x).len() - y.len() - 2;
        assert(all[at] == part_ranks(x)[k]);
    }
}

proof fn lemma_ranks_parts(a: Seq<Seq<char>>, n: int, b: Seq<Seq<char>>, m: int)
    requires
        0 <= n <= a.len(),
        0 <= m <= b.len(),
        parts_ranks(a, n) == parts_ranks(b, m),
    ensures
        n == m,
        a.take(n) == b.take(m),
    decreases n,
{
    if n > 0 {
        lemma_part_ranks(a[n - 1]);
    }
    if m > 0 {
        lemma_part_ranks(b[m - 1]);
    }
    if n == 0 || m == 0 {
        if n > 0 {
            assert(parts_ranks(a, n).len() > 0);
        }
        if m > 0 {
            assert(parts_ranks(b, m).len() > 0);
        }
        assert(a.take(n) =~= b.take(m));
    } else {
        let (x, y) = (a[n - 1], b[m - 1]);
        let (rx, ry) = (part_ranks(x), part_ranks(y));
        let (ha, hb) = (parts_ranks(a, n - 1), parts_ranks(b, m - 1));
        let all = parts_ranks(a, n);
        assert(all.last() == rx.last());
        assert(all.last() == ry.last());
        assert(part_kind(x) == part_kind(y));
        if part_kind(x) == 4 {
            lemma_ranks_name(a, n, b, m);
            lemma_ranks_name(b, m, a, n);
        }
        assert(rx.len() == ry.len());
        assert(ha =~= hb) by {
            assert forall|k: int| 0 <= k < ha.len() implies ha[k] == hb[k] by {
                assert((ha + rx)[k] == (hb + ry)[k]);
            }
        }
        if part_kind(x) == 4 {
            assert forall|k: int| 0 <= k < x.len() implies x[k] == y[k] by {
                assert((ha + rx)[ha.len() + k + 1] == (hb + ry)[ha.len() + k + 1]);
                assert(rx[k + 1] == ry[k + 1]);
                let (c, d) = (x[k], y[k]);
                char_u32_cast(c, c as u32);
                char_u32_cast(d, d as u32);
                assert(c as u32 == d as u32);
            }
        }
        assert(x =~= y);
        lemma_ranks_parts(a, n - 1, b, m - 1);
        assert(a.take(n) =~= a.take(n - 1).push(x));
        assert(b.take(m) =~= b.take(m - 1).push(y));
    }
}

/// The ranks tell which texts write the same path.
pub proof fn lemma_same_ranks(a: Seq<char>, b: Seq<char>)
    ensures
        (path_ranks(a) == path_ranks(b)) == same_path(a, b),
{
    let (x, y) = (path_parts(a), path_parts(b));
    if path_ranks(a) == path_ranks(b) {
        lemma_ranks_parts(x, x.len() as int, y, y.len() as int);
        assert(x.take(x.len() as int) =~= x);
        assert(y.take(y.len() as int) =~= y);
    }
}

/// Machine integers as integers.
pub open spec fn as_ints(v: Seq<u32>) -> Seq<int> {
    v.map_values(|x: u32| x as int)
}

fn kind_of(c: &Vec<char>) -> (k: u32)
    ensures
        k == part_kind(c@),
{
    assert(seq!['/'].len() == 1 && seq!['/'][0] == '/');
    assert(seq!['.'].len() == 1 && seq!['.'][0] == '.');
    assert(seq!['.', '.'].len() == 2 && seq!['.', '.'][0] == '.' && seq!['.', '.'][1] == '.');
    if c.len() == 1 && c[0] == '/' {
        assert(c@ =~= seq!['/']);
        1
    } else if c.len() == 1 && c[0] == '.' {
        assert(c@ =~= seq!['.']);
        2
    } else if c.len() == 2 && c[0] == '.' && c[1] == '.' {
        assert(c@ =~= seq!['.', '.']);
        3
    } else {
        4
    }
}

fn push_ranks(out: &mut Vec<u32>, part: &str)
    ensures
        as_ints(final(out)@) == as_ints(old(out)@) + part_ranks(part@),
{
    let c = chars_of(part);
    let k: u32 = kind_of(&c);
    let ghost start = as_ints(out@);
    let ghost was = out@;
    out.push(k);
    assert(as_ints(out@) =~= start + seq![k as int]);
    if k < 4 {
        return;
    }
    let ghost name = part@.map_values(|x: char| x as u32 as int + 5);
    let mut i: usize = 0;
    assert(start + seq![4int] + name.take(0) =~= start + seq![4int]);
    while i < c.len()
        invariant
            c@ == part@,
            name == part@.map_values(|x: char| x as u32 as int + 5),
            i <= c@.len(),
            as_ints(out@) == start + seq![4int] + name.take(i as int),
        decreases c.len() - i,
    {
        let ghost before = out@;
        let ch: char = c[i];
        proof {
            char_is_scalar(ch);
        }
        let x: u32 = ch as u32 + 5;
        out.push(x);
        proof {
            assert(as_ints(out@) =~= as_ints(before).push(x as int));
            assert(name.take(i + 1) =~= name.take(i as int).push(x as int));
            assert(start + seq![4int] + name.take(i + 1) =~= (start + seq![4int] + name.take(
                i as int,
            )).push(x as int));
        }
        i += 1;
    }
    let ghost before = out@;
    out.push(0);
    proof {
        assert(name.take(c@.len() as int) =~= name);
        assert(as_ints(out@) =~= as_ints(before).push(0));
        assert(as_ints(out@) =~= start + (seq![4int] + name + seq![0int]));
    }
}

/// The ranks by which a path is ordered.
pub fn ranks_of(path: &str) -> (v: Vec<u32>)
    ensures
        as_ints(v@) == path_ranks(path@),
{
    let parts = parts_of(path);
    let ghost list = path_parts(path@);
    let mut v: Vec<u32> = Vec::new();
    assert(as_ints(v@) =~= seq![]);
    let mut i: usize = 0;
    while i < parts.len()
        invariant
            text_views(parts@) == list,
            i <= parts@.len(),
            as_ints(v@) == parts_ranks(list, i as int),
        decreases parts.len() - i,
    {
        assert(list[i as int] == parts@[i as int]@);
        push_ranks(&mut v, parts[i].as_str());
        i += 1;
    }
    v
}

} // verus!
