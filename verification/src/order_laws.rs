//! How texts and paths are ordered.

use crate::order::{byte_ranks, bytes_before, path_before, ranks_before, text_before};
use crate::path_parts::{part_ranks, parts_ranks, path_parts, path_ranks};
use vstd::prelude::*;
use vstd::string::*;
use vstd::utf8::*;

verus! {

proof fn lemma_after_a_head(head: Seq<int>, a: Seq<int>, b: Seq<int>)
    ensures
        ranks_before(head + a, head + b) == ranks_before(a, b),
    decreases head.len(),
{
    if head.len() == 0 {
        assert(head + a =~= a);
        assert(head + b =~= b);
    } else {
        let rest = head.drop_first();
        assert((head + a).drop_first() =~= rest + a);
        assert((head + b).drop_first() =~= rest + b);
        lemma_after_a_head(rest, a, b);
    }
}

proof fn lemma_first_difference(head: Seq<int>, a: Seq<int>, b: Seq<int>)
    requires
        b.len() > 0,
        a.len() == 0 || a[0] < b[0],
    ensures
        ranks_before(head + a, head + b),
        !ranks_before(head + b, head + a),
{
    lemma_after_a_head(head, a, b);
    lemma_after_a_head(head, b, a);
}

proof fn lemma_byte_ranks(a: Seq<u8>, b: Seq<u8>)
    ensures
        byte_ranks(a + b) == byte_ranks(a) + byte_ranks(b),
{
    assert(byte_ranks(a + b) =~= byte_ranks(a) + byte_ranks(b));
}

/// Bytes are ordered by the first of them that differs, and what is cut short comes first.
pub proof fn lemma_bytes_are_ordered_by_their_first_difference(
    head: Seq<u8>,
    a: Seq<u8>,
    b: Seq<u8>,
)
    requires
        b.len() > 0,
        a.len() == 0 || a[0] < b[0],
    ensures
        bytes_before(head + a, head + b),
        !bytes_before(head + b, head + a),
{
    lemma_byte_ranks(head, a);
    lemma_byte_ranks(head, b);
    lemma_first_difference(byte_ranks(head), byte_ranks(a), byte_ranks(b));
}

proof fn lemma_encode_concat(a: Seq<char>, b: Seq<char>)
    ensures
        encode_utf8(a + b) == encode_utf8(a) + encode_utf8(b),
    decreases a.len(),
{
    if a.len() == 0 {
        assert(a + b =~= b);
        assert(encode_utf8(a) + encode_utf8(b) =~= encode_utf8(b));
    } else {
        lemma_encode_concat(a.drop_first(), b);
        assert((a + b).drop_first() =~= a.drop_first() + b);
        assert(encode_utf8(a + b) =~= encode_utf8(a) + encode_utf8(b));
    }
}

proof fn lemma_encode_some(a: Seq<char>)
    requires
        a.len() > 0,
    ensures
        encode_utf8(a).len() > 0,
{
    assert(encode_scalar(a[0] as u32).len() > 0);
}

/// A text comes before every longer one that it opens.
pub proof fn lemma_a_text_comes_before_what_it_opens(a: Seq<char>, more: Seq<char>)
    requires
        more.len() > 0,
    ensures
        text_before(a, a + more),
        !text_before(a + more, a),
{
    lemma_encode_concat(a, more);
    lemma_encode_some(more);
    let none = Seq::<u8>::empty();
    assert(encode_utf8(a) + none =~= encode_utf8(a));
    lemma_bytes_are_ordered_by_their_first_difference(encode_utf8(a), none, encode_utf8(more));
}

/// Texts are ordered by the first character that differs: where both are ASCII characters, by their
/// codes.
pub proof fn lemma_texts_are_ordered_by_their_first_difference(
    head: Seq<char>,
    c: char,
    a: Seq<char>,
    d: char,
    b: Seq<char>,
)
    requires
        c < d,
        d <= '\u{7f}',
    ensures
        text_before(head + seq![c] + a, head + seq![d] + b),
        !text_before(head + seq![d] + b, head + seq![c] + a),
{
    let (x, y) = (seq![c] + a, seq![d] + b);
    assert(head + seq![c] + a =~= head + x);
    assert(head + seq![d] + b =~= head + y);
    lemma_encode_concat(head, x);
    lemma_encode_concat(head, y);
    lemma_encode_concat(seq![c], a);
    lemma_encode_concat(seq![d], b);
    let (p, q) = (seq![c], seq![d]);
    assert(is_ascii_chars(p) && is_ascii_chars(q));
    is_ascii_chars_encode_utf8(p);
    is_ascii_chars_encode_utf8(q);
    assert(p[0] as u8 == encode_utf8(p)[0]);
    assert(q[0] as u8 == encode_utf8(q)[0]);
    assert(encode_utf8(x)[0] == c as u8);
    assert(encode_utf8(y)[0] == d as u8);
    lemma_bytes_are_ordered_by_their_first_difference(
        encode_utf8(head),
        encode_utf8(x),
        encode_utf8(y),
    );
}

// ───────────────────────────── paths ─────────────────────────────

proof fn lemma_parts_ranks_concat(a: Seq<Seq<char>>, b: Seq<Seq<char>>, n: int)
    requires
        0 <= n <= b.len(),
    ensures
        parts_ranks(a + b, a.len() + n) == parts_ranks(a, a.len() as int) + parts_ranks(b, n),
    decreases n,
{
    if n == 0 {
        lemma_parts_ranks_same(a + b, a, a.len() as int);
        assert(parts_ranks(a, a.len() as int) + parts_ranks(b, 0) =~= parts_ranks(
            a,
            a.len() as int,
        ));
    } else {
        lemma_parts_ranks_concat(a, b, n - 1);
        assert((a + b)[a.len() + n - 1] == b[n - 1]);
        assert(parts_ranks(a, a.len() as int) + (parts_ranks(b, n - 1) + part_ranks(b[n - 1]))
            =~= (parts_ranks(a, a.len() as int) + parts_ranks(b, n - 1)) + part_ranks(b[n - 1]));
    }
}

proof fn lemma_parts_ranks_same(a: Seq<Seq<char>>, b: Seq<Seq<char>>, n: int)
    requires
        n <= a.len(),
        n <= b.len(),
        forall|k: int| 0 <= k < n ==> a[k] == b[k],
    ensures
        parts_ranks(a, n) == parts_ranks(b, n),
    decreases n,
{
    if n > 0 {
        lemma_parts_ranks_same(a, b, n - 1);
    }
}

proof fn lemma_ranks_of_first(parts: Seq<Seq<char>>)
    requires
        parts.len() > 0,
    ensures
        ({
            let ranks = parts_ranks(parts, parts.len() as int);
            part_ranks(parts[0]).is_prefix_of(ranks) && ranks.len() > 0
        }),
{
    let rest = parts.drop_first();
    let one = seq![parts[0]];
    assert(parts =~= one + rest);
    lemma_parts_ranks_concat(one, rest, rest.len() as int);
    assert(parts_ranks(one, 0) =~= seq![]);
    assert(parts_ranks(one, 1) =~= part_ranks(parts[0]));
    assert(part_ranks(parts[0]).len() > 0);
    let ranks = parts_ranks(parts, parts.len() as int);
    assert(ranks == part_ranks(parts[0]) + parts_ranks(rest, rest.len() as int));
    assert(ranks.subrange(0, part_ranks(parts[0]).len() as int) =~= part_ranks(parts[0]));
}

/// A directory comes before all that is below it.
pub proof fn lemma_a_directory_comes_before_what_is_below(dir: Seq<char>, path: Seq<char>)
    requires
        path_parts(dir).len() < path_parts(path).len(),
        path_parts(path).take(path_parts(dir).len() as int) == path_parts(dir),
    ensures
        path_before(dir, path),
        !path_before(path, dir),
{
    let (a, b) = (path_parts(dir), path_parts(path));
    let rest = b.skip(a.len() as int);
    assert(b =~= a + rest);
    lemma_parts_ranks_concat(a, rest, rest.len() as int);
    lemma_ranks_of_first(rest);
    let none = Seq::<int>::empty();
    assert(path_ranks(dir) + none =~= path_ranks(dir));
    lemma_first_difference(path_ranks(dir), none, parts_ranks(rest, rest.len() as int));
}

/// Whether a part is the name of a file or a directory.
pub open spec fn is_name(part: Seq<char>) -> bool {
    part != seq!['/'] && part != seq!['.'] && part != seq!['.', '.']
}

/// Paths are ordered part by part: the first part that differs decides, by the first character of the
/// two names that differs, and a name comes before every longer one that it opens. What stands behind
/// those parts does not count.
pub proof fn lemma_paths_are_ordered_part_by_part(
    one: Seq<char>,
    two: Seq<char>,
    common: Seq<Seq<char>>,
    head: Seq<char>,
    a: Seq<char>,
    b: Seq<char>,
)
    requires
        common.len() < path_parts(one).len(),
        common.len() < path_parts(two).len(),
        path_parts(one).take(common.len() as int) == common,
        path_parts(two).take(common.len() as int) == common,
        path_parts(one)[common.len() as int] == head + a,
        path_parts(two)[common.len() as int] == head + b,
        is_name(head + a),
        is_name(head + b),
        b.len() > 0,
        a.len() == 0 || a[0] < b[0],
    ensures
        path_before(one, two),
        !path_before(two, one),
{
    let (p, q) = (path_parts(one), path_parts(two));
    let n = common.len() as int;
    let (x, y) = (p.skip(n), q.skip(n));
    assert(p =~= common + x);
    assert(q =~= common + y);
    lemma_parts_ranks_concat(common, x, x.len() as int);
    lemma_parts_ranks_concat(common, y, y.len() as int);
    lemma_ranks_of_first(x);
    lemma_ranks_of_first(y);
    let (u, v) = (parts_ranks(x, x.len() as int), parts_ranks(y, y.len() as int));
    let (ru, rv) = (part_ranks(head + a), part_ranks(head + b));
    assert(x[0] == head + a && y[0] == head + b);
    let up = head.map_values(|c: char| c as u32 as int + 5);
    let mid = seq![4int] + up;
    let (ua, vb) = (u.skip(mid.len() as int), v.skip(mid.len() as int));
    assert(ru.len() == head.len() + a.len() + 2 && rv.len() == head.len() + b.len() + 2);
    assert forall|k: int| 0 <= k < ru.len() implies u[k] == ru[k] by {
        assert(u.subrange(0, ru.len() as int)[k] == u[k]);
    }
    assert forall|k: int| 0 <= k < rv.len() implies v[k] == rv[k] by {
        assert(v.subrange(0, rv.len() as int)[k] == v[k]);
    }
    assert(u =~= mid + ua) by {
        assert forall|k: int| 0 <= k < mid.len() implies u[k] == mid[k] by {
            assert(u[k] == ru[k]);
            if k > 0 {
                assert((head + a)[k - 1] == head[k - 1]);
            }
        }
    }
    assert(v =~= mid + vb) by {
        assert forall|k: int| 0 <= k < mid.len() implies v[k] == mid[k] by {
            assert(v[k] == rv[k]);
            if k > 0 {
                assert((head + b)[k - 1] == head[k - 1]);
            }
        }
    }
    let at = mid.len() as int;
    assert(u[at] == ru[at] && v[at] == rv[at]);
    assert((head + b)[at - 1] == b[0]);
    assert(rv[at] == b[0] as u32 as int + 5);
    if a.len() == 0 {
        assert(ru[at] == 0);
    } else {
        assert((head + a)[at - 1] == a[0]);
        assert(ru[at] == a[0] as u32 as int + 5);
        let (l, r) = (a[0], b[0]);
        char_is_scalar(l);
        char_is_scalar(r);
        char_u32_cast(l, l as u32);
        char_u32_cast(r, r as u32);
        assert((l as u32) < (r as u32));
    }
    assert(ua[0] == u[at] && vb[0] == v[at]);
    let c = parts_ranks(common, n);
    assert(path_ranks(one) =~= (c + mid) + ua);
    assert(path_ranks(two) =~= (c + mid) + vb);
    lemma_first_difference(c + mid, ua, vb);
}

} // verus!
