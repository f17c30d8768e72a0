//! From node handles to source locations and back.

use crate::columnar_storage::ColumnarStorage;
use crate::node_id::{block_id_text, block_node_id, make_node_id, path_node_id};
use crate::overlay::format::SegmentMeta;
use crate::segment::{opt_string, SegmentReader};
use crate::text::{parse_usize, same_text, unsigned_of};
use crate::path_parts::{is_same_path, same_path};
use vstd::prelude::*;
use vstd::string::*;

verus! {

// ───────────────────────────── end lines ─────────────────────────────

/// Whether offsets stand in strictly ascending order.
pub open spec fn offsets_ascend(newlines: Seq<usize>) -> bool {
    forall|i: int, j: int| 0 <= i < j < newlines.len() ==> newlines[i] < newlines[j]
}

/// How many of the first `n` offsets lie below `end`.
pub open spec fn count_below(newlines: Seq<usize>, end: int, n: int) -> nat
    decreases n,
{
    if n <= 0 {
        0
    } else {
        count_below(newlines, end, n - 1) + if newlines[n - 1] < end {
            1nat
        } else {
            0nat
        }
    }
}

/// An end offset without the newlines just before it.
pub open spec fn trimmed_end(newlines: Seq<usize>, end: nat) -> nat
    decreases end,
{
    if end > 0 && newlines.contains((end - 1) as usize) {
        trimmed_end(newlines, (end - 1) as nat)
    } else {
        end
    }
}

/// The 1-based line of the last content byte before `byte_end`.
pub open spec fn end_line_at(newlines: Seq<usize>, byte_end: nat) -> nat {
    count_below(newlines, trimmed_end(newlines, byte_end) as int, newlines.len() as int) + 1
}

proof fn lemma_count_below(newlines: Seq<usize>, end: int, p: int, n: int)
    requires
        0 <= p <= n <= newlines.len(),
        forall|i: int| 0 <= i < p ==> newlines[i] < end,
        forall|i: int| p <= i < n ==> newlines[i] >= end,
    ensures
        count_below(newlines, end, n) == p,
    decreases n,
{
    if n > 0 {
        if p < n {
            lemma_count_below(newlines, end, p, n - 1);
        } else {
            lemma_count_below(newlines, end, p - 1, n - 1);
        }
    }
}

/// How many offsets lie below `end`, by halving.
fn offsets_below(newlines: &[usize], end: usize) -> (p: usize)
    requires
        offsets_ascend(newlines@),
    ensures
        p == count_below(newlines@, end as int, newlines@.len() as int),
        p <= newlines@.len(),
        forall|i: int| 0 <= i < p ==> newlines@[i] < end,
        forall|i: int| p <= i < newlines@.len() ==> newlines@[i] >= end,
{
    let mut lo: usize = 0;
    let mut hi: usize = newlines.len();
    while lo < hi
        invariant
            offsets_ascend(newlines@),
            lo <= hi <= newlines@.len(),
            forall|i: int| 0 <= i < lo ==> newlines@[i] < end,
            forall|i: int| hi <= i < newlines@.len() ==> newlines@[i] >= end,
        decreases hi - lo,
    {
        let mid: usize = lo + (hi - lo) / 2;
        if newlines[mid] < end {
            lo = mid + 1;
        } else {
            hi = mid;
        }
    }
    proof {
        lemma_count_below(newlines@, end as int, lo as int, newlines@.len() as int);
    }
    lo
}

/// The 1-based line of a node's last content byte, from the offsets of the file's newlines and
/// the offset one past the node's last byte.
///
/// Newlines that end the node are trimmed first: a parser often folds them into the node, which
/// would push its end one line too far.
pub fn content_end_line(newlines: &[usize], byte_end: usize) -> (line: usize)
    requires
        offsets_ascend(newlines@),
    ensures
        line == end_line_at(newlines@, byte_end as nat),
{
    let mut end: usize = byte_end;
    while end > 0
        invariant
            offsets_ascend(newlines@),
            trimmed_end(newlines@, byte_end as nat) == trimmed_end(newlines@, end as nat),
        ensures
            trimmed_end(newlines@, byte_end as nat) == end,
            trimmed_end(newlines@, end as nat) == end,
        decreases end,
    {
        let p: usize = offsets_below(newlines, end - 1);
        if p < newlines.len() && newlines[p] == end - 1 {
            assert(newlines@[p as int] == (end - 1) as usize);
            end -= 1;
        } else {
            assert(!newlines@.contains((end - 1) as usize)) by {
                if newlines@.contains((end - 1) as usize) {
                    let k = choose|k: int|
                        0 <= k < newlines@.len() && newlines@[k] == (end - 1) as usize;
                    if k > p {
                        assert(newlines@[p as int] < newlines@[k]);
                    }
                }
            }
            break;
        }
    }
    let before: usize = offsets_below(newlines, end);
    proof {
        if before > 0 {
            lemma_offsets_spread(newlines@, before - 1);
            assert(newlines@[before - 1] < end);
            assert(newlines@[before - 1] != end - 1) by {
                if newlines@[before - 1] == (end - 1) as usize {
                    assert(newlines@.contains((end - 1) as usize));
                    assert(trimmed_end(newlines@, end as nat) < end) by {
                        lemma_trimmed_below(newlines@, (end - 1) as nat);
                    }
                }
            }
        }
    }
    before + 1
}

proof fn lemma_trimmed_below(newlines: Seq<usize>, end: nat)
    ensures
        trimmed_end(newlines, end) <= end,
    decreases end,
{
    if end > 0 && newlines.contains((end - 1) as usize) {
        lemma_trimmed_below(newlines, (end - 1) as nat);
    }
}

/// Ascending offsets lie at least as far as their places.
proof fn lemma_offsets_spread(newlines: Seq<usize>, k: int)
    requires
        offsets_ascend(newlines),
        0 <= k < newlines.len(),
    ensures
        newlines[k] >= k,
    decreases k,
{
    if k > 0 {
        lemma_offsets_spread(newlines, k - 1);
        assert(newlines[k - 1] < newlines[k]);
    }
}

/// How many newlines the first `n` bytes hold.
pub open spec fn newlines_before(bytes: Seq<u8>, n: int) -> nat
    decreases n,
{
    if n <= 0 {
        0
    } else {
        newlines_before(bytes, n - 1) + if bytes[n - 1] == 0x0a {
            1nat
        } else {
            0nat
        }
    }
}

/// An end offset without the newlines just before it.
pub open spec fn trimmed_in(bytes: Seq<u8>, end: int) -> int
    decreases end,
{
    if end > 0 && bytes[end - 1] == 0x0a {
        trimmed_in(bytes, end - 1)
    } else {
        end
    }
}

/// The smaller of two offsets.
pub open spec fn at_most(a: int, b: int) -> int {
    if a < b {
        a
    } else {
        b
    }
}

/// The 1-based line of the last content byte before `byte_end`, or before the end of the file.
pub open spec fn end_line_in(bytes: Seq<u8>, byte_end: nat) -> nat {
    newlines_before(bytes, trimmed_in(bytes, at_most(byte_end as int, bytes.len() as int))) + 1
}

/// The 1-based line of a node's last content byte, from the bytes of the file.
pub fn content_end_line_in_bytes(bytes: &[u8], byte_end: usize) -> (line: usize)
    ensures
        line == end_line_in(bytes@, byte_end as nat),
{
    let mut end: usize = if byte_end < bytes.len() {
        byte_end
    } else {
        bytes.len()
    };
    let ghost start = end;
    while end > 0 && bytes[end - 1] == 0x0a
        invariant
            end <= bytes@.len(),
            trimmed_in(bytes@, start as int) == trimmed_in(bytes@, end as int),
        decreases end,
    {
        end -= 1;
    }
    let mut count: usize = 0;
    let mut i: usize = 0;
    while i < end
        invariant
            i <= end <= bytes@.len(),
            count == newlines_before(bytes@, i as int),
            count <= i,
        decreases end - i,
    {
        if bytes[i] == 0x0a {
            count += 1;
        }
        i += 1;
    }
    assert(count < end || end == 0) by {
        if end > 0 {
            lemma_newlines_fit(bytes@, end - 1);
            assert(newlines_before(bytes@, end as int) == newlines_before(bytes@, end - 1));
        }
    }
    count + 1
}

proof fn lemma_newlines_fit(bytes: Seq<u8>, n: int)
    requires
        0 <= n,
    ensures
        newlines_before(bytes, n) <= n,
    decreases n,
{
    if n > 0 {
        lemma_newlines_fit(bytes, n - 1);
    }
}

/// Whether `newlines` are the offsets of the newlines among the first `n` bytes.
pub open spec fn are_newlines(newlines: Seq<usize>, bytes: Seq<u8>, n: int) -> bool {
    &&& offsets_ascend(newlines)
    &&& forall|k: int|
        0 <= k < newlines.len() ==> (#[trigger] newlines[k]) < n && bytes[newlines[k] as int]
            == 0x0a
    &&& forall|i: int| 0 <= i < n && #[trigger] bytes[i] == 0x0a ==> newlines.contains(i as usize)
    &&& newlines.len() == newlines_before(bytes, n)
}

/// The offsets of the newlines among the first `n` bytes, ascending.
pub open spec fn newline_seq(bytes: Seq<u8>, n: int) -> Seq<usize>
    decreases n,
{
    if n <= 0 {
        seq![]
    } else if bytes[n - 1] == 0x0a {
        newline_seq(bytes, n - 1).push((n - 1) as usize)
    } else {
        newline_seq(bytes, n - 1)
    }
}

/// The offsets of the newlines of a file, ascending.
pub fn newline_offsets(bytes: &[u8]) -> (v: Vec<usize>)
    ensures
        are_newlines(v@, bytes@, bytes@.len() as int),
        v@ == newline_seq(bytes@, bytes@.len() as int),
        v@.len() <= bytes@.len(),
{
    let mut v: Vec<usize> = Vec::new();
    let mut i: usize = 0;
    while i < bytes.len()
        invariant
            i <= bytes@.len(),
            are_newlines(v@, bytes@, i as int),
            v@ == newline_seq(bytes@, i as int),
            v@.len() <= i,
        decreases bytes.len() - i,
    {
        let ghost was = v@;
        if bytes[i] == 0x0a {
            v.push(i);
            assert(v@[was.len() as int] == i);
        }
        assert forall|k: int| 0 <= k < i + 1 && #[trigger] bytes@[k] == 0x0a implies v@.contains(
            k as usize,
        ) by {
            if k < i {
                assert(was.contains(k as usize));
                let m = choose|m: int| 0 <= m < was.len() && was[m] == k as usize;
                assert(v@[m] == k as usize);
            }
        }
        i += 1;
    }
    v
}

proof fn lemma_trims_agree(newlines: Seq<usize>, bytes: Seq<u8>, end: int)
    requires
        are_newlines(newlines, bytes, bytes.len() as int),
        0 <= end <= bytes.len(),
        bytes.len() <= usize::MAX,
    ensures
        trimmed_end(newlines, end as nat) == trimmed_in(bytes, end),
        0 <= trimmed_in(bytes, end) <= end,
    decreases end,
{
    if end > 0 {
        if newlines.contains((end - 1) as usize) {
            let k = choose|k: int| 0 <= k < newlines.len() && newlines[k] == (end - 1) as usize;
            assert(bytes[newlines[k] as int] == 0x0a);
        }
        if bytes[end - 1] == 0x0a {
            assert(newlines.contains((end - 1) as usize));
            lemma_trims_agree(newlines, bytes, end - 1);
        }
    }
}

proof fn lemma_counts_agree(newlines: Seq<usize>, bytes: Seq<u8>, end: int)
    requires
        are_newlines(newlines, bytes, bytes.len() as int),
        0 <= end <= bytes.len(),
        bytes.len() <= usize::MAX,
    ensures
        count_below(newlines, end, newlines.len() as int) == newlines_before(bytes, end),
    decreases end,
{
    if end == 0 {
        lemma_count_below(newlines, 0, 0, newlines.len() as int);
    } else {
        lemma_counts_agree(newlines, bytes, end - 1);
        lemma_count_step(newlines, end - 1, newlines.len() as int);
        assert(newlines.take(newlines.len() as int) =~= newlines);
        if bytes[end - 1] == 0x0a {
            assert(newlines.contains((end - 1) as usize));
        } else if newlines.contains((end - 1) as usize) {
            let k = choose|k: int| 0 <= k < newlines.len() && newlines[k] == (end - 1) as usize;
            assert(bytes[newlines[k] as int] == 0x0a);
        }
    }
}

proof fn lemma_count_step(newlines: Seq<usize>, end: int, n: int)
    requires
        offsets_ascend(newlines),
        0 <= n <= newlines.len(),
        0 <= end <= usize::MAX,
    ensures
        count_below(newlines, end + 1, n) == count_below(newlines, end, n) + if newlines.take(
            n,
        ).contains(end as usize) {
            1nat
        } else {
            0nat
        },
    decreases n,
{
    if n > 0 {
        lemma_count_step(newlines, end, n - 1);
        let (a, b) = (newlines.take(n), newlines.take(n - 1));
        assert(a =~= b.push(newlines[n - 1]));
        if b.contains(end as usize) {
            let k = choose|k: int| 0 <= k < b.len() && b[k] == end as usize;
            assert(a[k] == end as usize);
            assert(newlines[k] < newlines[n - 1]);
        }
        if newlines[n - 1] == end as usize {
            assert(a[n - 1] == end as usize);
        }
        if a.contains(end as usize) {
            let k = choose|k: int| 0 <= k < a.len() && a[k] == end as usize;
            if k < n - 1 {
                assert(b[k] == end as usize);
            }
        }
    } else {
        assert(newlines.take(0) =~= Seq::<usize>::empty());
    }
}

/// Whether `last` is the last byte before `end` that is no newline.
pub open spec fn is_last_content(bytes: Seq<u8>, end: int, last: int) -> bool {
    &&& 0 <= last < end
    &&& bytes[last] != 0x0a
    &&& forall|j: int| last < j < end ==> #[trigger] bytes[j] == 0x0a
}

proof fn lemma_trims_to_content(bytes: Seq<u8>, end: int, last: int)
    requires
        last < end,
        forall|j: int| last < j < end ==> #[trigger] bytes[j] == 0x0a,
        last >= -1,
        last >= 0 ==> bytes[last] != 0x0a,
    ensures
        trimmed_in(bytes, end) == last + 1,
    decreases end,
{
    if end > last + 1 {
        lemma_trims_to_content(bytes, end - 1, last);
    }
}

/// The two ways of finding a node's end line agree, for every node that ends inside the file, and the
/// line is that of the node's last byte that is no newline: one more than the newlines before it. A
/// node of newlines alone, or of nothing, ends on the first line.
pub proof fn lemma_end_lines_agree(newlines: Seq<usize>, bytes: Seq<u8>, byte_end: nat)
    requires
        are_newlines(newlines, bytes, bytes.len() as int),
        byte_end <= bytes.len() <= usize::MAX,
    ensures
        end_line_at(newlines, byte_end) == end_line_in(bytes, byte_end),
        forall|last: int| #[trigger]
            is_last_content(bytes, byte_end as int, last) ==> end_line_in(bytes, byte_end) == 1
                + newlines_before(bytes, last),
        (forall|j: int| 0 <= j < byte_end ==> #[trigger] bytes[j] == 0x0a) ==> end_line_in(
            bytes,
            byte_end,
        ) == 1,
{
    lemma_trims_agree(newlines, bytes, byte_end as int);
    lemma_counts_agree(newlines, bytes, trimmed_in(bytes, byte_end as int));
    assert forall|last: int| #[trigger]
        is_last_content(bytes, byte_end as int, last) implies end_line_in(bytes, byte_end) == 1
        + newlines_before(bytes, last) by {
        lemma_trims_to_content(bytes, byte_end as int, last);
        assert(newlines_before(bytes, last + 1) == newlines_before(bytes, last));
    }
    if forall|j: int| 0 <= j < byte_end ==> #[trigger] bytes[j] == 0x0a {
        if byte_end > 0 {
            lemma_trims_to_content(bytes, byte_end as int, -1);
        }
    }
}

// ───────────────────────────── innermost nodes ─────────────────────────────

/// The last content line of row `r`.
pub open spec fn row_end_line(seg: SegmentReader, r: int, newlines: Seq<usize>) -> nat {
    let row = seg.rows@[r];
    if row.byte_end == 0 {
        row.line as nat
    } else {
        end_line_at(newlines, row.byte_end as nat)
    }
}

/// Whether row `r` is a node that covers a line.
pub open spec fn covers_line(seg: SegmentReader, r: int, newlines: Seq<usize>, line: int) -> bool {
    &&& seg.rows@[r].ordinal is Some
    &&& seg.rows@[r].line != 0
    &&& seg.rows@[r].line <= line <= row_end_line(seg, r, newlines)
}

/// How many lines row `r` runs past its first.
pub open spec fn row_span_lines(seg: SegmentReader, r: int, newlines: Seq<usize>) -> int {
    row_end_line(seg, r, newlines) - seg.rows@[r].line
}

/// Whether `r` is, among the first `n` rows, the innermost node that covers a line: no other
/// that covers it is shorter, and none as short comes after it.
pub open spec fn is_innermost(seg: SegmentReader, newlines: Seq<usize>, line: int, n: int, r: int) -> bool {
    &&& 0 <= r < n
    &&& covers_line(seg, r, newlines, line)
    &&& forall|q: int|
        0 <= q < n && #[trigger] covers_line(seg, q, newlines, line) ==> row_span_lines(
            seg,
            r,
            newlines,
        ) < row_span_lines(seg, q, newlines) || (row_span_lines(seg, r, newlines) == row_span_lines(
            seg,
            q,
            newlines,
        ) && q <= r)
}

/// Whether `best` is the innermost of the first `n` rows for a line, or nothing where none
/// covers it.
pub open spec fn best_for_line(
    seg: SegmentReader,
    newlines: Seq<usize>,
    line: int,
    n: int,
    best: Option<u32>,
) -> bool {
    match best {
        Some(r) => is_innermost(seg, newlines, line, n, r as int),
        None => forall|q: int| 0 <= q < n ==> !#[trigger] covers_line(seg, q, newlines, line),
    }
}

fn no_rows(n: usize) -> (v: Vec<Option<u32>>)
    ensures
        v@.len() == n,
        forall|i: int| 0 <= i < n ==> (#[trigger] v@[i]) is None,
{
    let mut v: Vec<Option<u32>> = Vec::new();
    let mut i: usize = 0;
    while i < n
        invariant
            i <= n,
            v@.len() == i,
            forall|k: int| 0 <= k < i ==> (#[trigger] v@[k]) is None,
        decreases n - i,
    {
        v.push(None);
        i += 1;
    }
    v
}

/// The last content line of row `r`.
fn end_line_of_row(seg: &SegmentReader, r: u32, newlines: &Vec<usize>) -> (line: usize)
    requires
        r < seg.rows@.len(),
        offsets_ascend(newlines@),
    ensures
        line == row_end_line(*seg, r as int, newlines@),
{
    let row = &seg.rows[r as usize];
    if row.byte_end == 0 {
        row.line as usize
    } else {
        content_end_line(newlines.as_slice(), row.byte_end as usize)
    }
}

/// The innermost node of each line of `start..=end`, as a row of the segment.
fn innermost_rows(seg: &SegmentReader, newlines: &Vec<usize>, start: usize, end: usize) -> (best: Vec<
    Option<u32>,
>)
    requires
        seg.wf(),
        offsets_ascend(newlines@),
        0 < start <= end,
    ensures
        best@.len() == end - start + 1,
        forall|i: int|
            0 <= i < best@.len() ==> best_for_line(
                *seg,
                newlines@,
                start + i,
                seg.rows@.len() as int,
                #[trigger] best@[i],
            ),
{
    let lines: usize = end - start + 1;
    let mut best = no_rows(lines);
    let n: u32 = seg.row_count();
    let mut r: u32 = 0;
    while r < n
        invariant
            seg.wf(),
            n == seg.rows@.len(),
            r <= n,
            offsets_ascend(newlines@),
            0 < start <= end,
            lines == end - start + 1,
            best@.len() == lines,
            forall|i: int|
                0 <= i < lines ==> best_for_line(
                    *seg,
                    newlines@,
                    start + i,
                    r as int,
                    #[trigger] best@[i],
                ),
        decreases n - r,
    {
        let row = &seg.rows[r as usize];
        let first: usize = row.line as usize;
        let last: usize = end_line_of_row(seg, r, newlines);
        let node = row.ordinal.is_some() && first != 0 && first <= last;
        let lo: usize = if first > start {
            first
        } else {
            start
        };
        let hi: usize = if last < end {
            last
        } else {
            end
        };
        let ghost was = best@;
        if node && lo <= hi {
            let mut line: usize = lo;
            let mut go = true;
            while go
                invariant
                    seg.wf(),
                    n == seg.rows@.len(),
                    r < n,
                    offsets_ascend(newlines@),
                    0 < start <= end,
                    lines == end - start + 1,
                    best@.len() == lines,
                    was.len() == lines,
                    first == seg.rows@[r as int].line,
                    last == row_end_line(*seg, r as int, newlines@),
                    seg.rows@[r as int].ordinal is Some,
                    first != 0,
                    first <= last,
                    start <= lo <= hi <= end,
                    first <= lo,
                    hi <= last,
                    lo <= line <= hi,
                    forall|i: int|
                        0 <= i < lines ==> best_for_line(
                            *seg,
                            newlines@,
                            start + i,
                            r as int,
                            #[trigger] was[i],
                        ),
                    forall|i: int|
                        lo <= start + i < line || (!go && start + i == line) ==> best_for_line(
                            *seg,
                            newlines@,
                            start + i,
                            r + 1,
                            #[trigger] best@[i],
                        ),
                    forall|i: int|
                        0 <= i < lines && !(lo <= start + i < line || (!go && start + i == line))
                            ==> #[trigger] best@[i] == was[i],
                    !go ==> line == hi,
                decreases (hi - line) + if go { 1int } else { 0int },
            {
                let idx: usize = line - start;
                assert(best_for_line(*seg, newlines@, start + idx, r as int, was[idx as int]));
                assert(covers_line(*seg, r as int, newlines@, line as int));
                let take = match best[idx] {
                    Some(q) => {
                        let held: usize = end_line_of_row(seg, q, newlines);
                        assert(covers_line(*seg, q as int, newlines@, line as int));
                        last - first <= held - seg.rows[q as usize].line as usize
                    },
                    None => true,
                };
                if take {
                    best.set(idx, Some(r));
                }
                assert(best_for_line(*seg, newlines@, line as int, r + 1, best@[idx as int]));
                if line < hi {
                    line += 1;
                } else {
                    go = false;
                }
            }
        }
        proof {
            assert forall|i: int| 0 <= i < lines implies best_for_line(
                *seg,
                newlines@,
                start + i,
                r + 1,
                #[trigger] best@[i],
            ) by {
                if !(node && lo <= start + i <= hi) {
                    assert(best@[i] == was[i]);
                    assert(best_for_line(*seg, newlines@, start + i, r as int, was[i]));
                    assert(!covers_line(*seg, r as int, newlines@, start + i));
                }
            }
        }
        r += 1;
    }
    best
}

/// How a node is surfaced: under its own handle at its first line or, where it is a member of a
/// block, under the handle of the block at the block's first line.
pub open spec fn surfaced(seg: SegmentReader, r: int, id: Seq<char>) -> (Seq<char>, int) {
    let line = seg.rows@[r].line as int;
    match (seg.extra("block_ord"@, r), seg.extra("block_off"@, r)) {
        (Some(ord), Some(off)) => {
            let n: int = match unsigned_of(off, usize::MAX as nat) {
                Some(v) => v as int,
                None => 1,
            };
            let back = if n > 0 {
                n - 1
            } else {
                0
            };
            (
                block_id_text(id, ord),
                if line > back {
                    line - back
                } else {
                    0
                },
            )
        },
        _ => (id, line),
    }
}

fn surface(seg: &SegmentReader, r: u32, id: String) -> (s: (String, usize))
    requires
        r < seg.rows@.len(),
    ensures
        (s.0@, s.1 as int) == surfaced(*seg, r as int, id@),
{
    let line: usize = seg.rows[r as usize].line as usize;
    match (seg.extra_field_str("block_ord", r), seg.extra_field_str("block_off", r)) {
        (Some(ord), Some(off)) => {
            let n: usize = match parse_usize(off) {
                Some(v) => v,
                None => 1,
            };
            let back: usize = n.saturating_sub(1);
            (block_node_id(id.as_str(), ord), line.saturating_sub(back))
        },
        _ => (id, line),
    }
}

/// Which handles the nodes of a file carry.
#[derive(Clone, Copy)]
pub enum Handles<'a> {
    /// Those of a file by its path.
    OfPath(&'a str),
    /// Those of a segment of the overlay.
    OfSegment(&'a SegmentMeta),
}

/// Which handles the nodes of a file carry, by the text of the path.
pub enum HandleSource {
    OfPath(Seq<char>),
    OfSegment(SegmentMeta),
}

impl HandleSource {
    /// The handle of node `ordinal`.
    pub open spec fn text(&self, ordinal: nat) -> Seq<char> {
        match *self {
            HandleSource::OfPath(path) => path_node_id(path, ordinal),
            HandleSource::OfSegment(meta) => meta.handle(ordinal),
        }
    }
}

impl<'a> Handles<'a> {
    /// Which handles these are.
    pub open spec fn source(&self) -> HandleSource {
        match *self {
            Handles::OfPath(path) => HandleSource::OfPath(path@),
            Handles::OfSegment(meta) => HandleSource::OfSegment(*meta),
        }
    }

    /// The handle of node `ordinal`.
    pub fn id(&self, ordinal: u32) -> (s: String)
        ensures
            s@ == self.source().text(ordinal as nat),
    {
        match self {
            Handles::OfPath(path) => make_node_id(path, ordinal),
            Handles::OfSegment(meta) => meta.node_id(ordinal),
        }
    }
}

/// Whether `out` names the innermost node of each line from `start` on.
pub open spec fn names_innermost(
    out: Seq<Option<(String, usize)>>,
    seg: SegmentReader,
    handles: HandleSource,
    newlines: Seq<usize>,
    start: int,
) -> bool {
    forall|i: int|
        0 <= i < out.len() ==> names_line(#[trigger] out[i], seg, handles, newlines, start + i)
}

/// Whether `out` names the innermost node of a line, or nothing where no node covers it.
pub open spec fn names_line(
    out: Option<(String, usize)>,
    seg: SegmentReader,
    handles: HandleSource,
    newlines: Seq<usize>,
    line: int,
) -> bool {
    match out {
        Some(s) => exists|r: int| #[trigger]
            is_innermost(seg, newlines, line, seg.rows@.len() as int, r) && (s.0@, s.1 as int)
                == surfaced(seg, r, handles.text(seg.rows@[r].ordinal->0 as nat)),
        None => forall|q: int|
            0 <= q < seg.rows@.len() ==> !#[trigger] covers_line(seg, q, newlines, line),
    }
}

/// Names the innermost node of each line of `start..=end`.
fn fold_segment(
    seg: &SegmentReader,
    handles: Handles<'_>,
    newlines: &Vec<usize>,
    start: usize,
    end: usize,
) -> (out: Vec<Option<(String, usize)>>)
    requires
        seg.wf(),
        offsets_ascend(newlines@),
        0 < start <= end,
    ensures
        out@.len() == end - start + 1,
        names_innermost(out@, *seg, handles.source(), newlines@, start as int),
{
    let best = innermost_rows(seg, newlines, start, end);
    let mut out: Vec<Option<(String, usize)>> = Vec::new();
    let mut i: usize = 0;
    while i < best.len()
        invariant
            seg.wf(),
            best@.len() == end - start + 1,
            i <= best@.len(),
            out@.len() == i,
            forall|k: int|
                0 <= k < best@.len() ==> best_for_line(
                    *seg,
                    newlines@,
                    start + k,
                    seg.rows@.len() as int,
                    #[trigger] best@[k],
                ),
            forall|k: int|
                0 <= k < i ==> names_line(
                    #[trigger] out@[k],
                    *seg,
                    handles.source(),
                    newlines@,
                    start + k,
                ),
        decreases best.len() - i,
    {
        assert(best_for_line(
            *seg,
            newlines@,
            start + i,
            seg.rows@.len() as int,
            best@[i as int],
        ));
        let named = match best[i] {
            Some(r) => match seg.rows[r as usize].ordinal {
                Some(ordinal) => {
                    assert(is_innermost(
                        *seg,
                        newlines@,
                        start + i,
                        seg.rows@.len() as int,
                        r as int,
                    ));
                    Some(surface(seg, r, handles.id(ordinal)))
                },
                None => None,
            },
            None => None,
        };
        out.push(named);
        i += 1;
    }
    out
}

// ───────────────────────────── the session's nodes ─────────────────────────────

impl ColumnarStorage {
    /// Where the first segment of `path` stands, from `i` on; the number of segments where there
    /// is none.
    pub open spec fn seg_position(&self, path: Seq<char>, i: int) -> int
        decreases self.index().segments@.len() - i,
    {
        if i < 0 || i >= self.index().segments@.len() {
            self.index().segments@.len() as int
        } else if same_path(self.index().segments@[i].source_path@, path) {
            i
        } else {
            self.seg_position(path, i + 1)
        }
    }

    /// Finds the first segment of a path.
    pub fn find_segment(&self, path: &str) -> (r: Option<usize>)
        ensures
            (match r {
                Some(i) => i < self.index().segments@.len() && i == self.seg_position(path@, 0)
                    && same_path(self.index().segments@[i as int].source_path@, path@),
                None => self.seg_position(path@, 0) == self.index().segments@.len(),
            }),
    {
        let metas = &self.shared.overlay.segments;
        let mut i: usize = 0;
        while i < metas.len()
            invariant
                metas@ == self.index().segments@,
                i <= metas@.len(),
                self.seg_position(path@, 0) == self.seg_position(path@, i as int),
            decreases metas.len() - i,
        {
            if is_same_path(metas[i].source_path.as_str(), path) {
                return Some(i);
            }
            i += 1;
        }
        None
    }

    /// Where the first segment stands, from `i` on, whose path is spelled `path`; the number of
    /// segments where there is none.
    pub open spec fn seg_spelled(&self, path: Seq<char>, i: int) -> int
        decreases self.index().segments@.len() - i,
    {
        if i < 0 || i >= self.index().segments@.len() {
            self.index().segments@.len() as int
        } else if self.index().segments@[i].source_path@ == path {
            i
        } else {
            self.seg_spelled(path, i + 1)
        }
    }

    /// Finds the first segment whose path is spelled so.
    pub fn find_spelled_segment(&self, path: &str) -> (r: Option<usize>)
        ensures
            (match r {
                Some(i) => i < self.index().segments@.len() && i == self.seg_spelled(path@, 0)
                    && self.index().segments@[i as int].source_path@ == path@,
                None => self.seg_spelled(path@, 0) == self.index().segments@.len(),
            }),
    {
        let metas = &self.shared.overlay.segments;
        let mut i: usize = 0;
        while i < metas.len()
            invariant
                metas@ == self.index().segments@,
                i <= metas@.len(),
                self.seg_spelled(path@, 0) == self.seg_spelled(path@, i as int),
            decreases metas.len() - i,
        {
            if same_text(metas[i].source_path.as_str(), path) {
                return Some(i);
            }
            i += 1;
        }
        None
    }

    /// The content id that the overlay holds of a path.
    pub open spec fn stored_hex(&self, path: Seq<char>) -> Option<Seq<char>> {
        let at = self.seg_position(path, 0);
        if at < self.index().segments@.len() {
            Some(self.index().segments@[at].hex_content_id@)
        } else {
            None
        }
    }

    /// The content id that the overlay holds of a path.
    pub fn path_to_hex_content_id(&self, path: &str) -> (r: Option<String>)
        ensures
            opt_string(r) == self.stored_hex(path@),
    {
        match self.find_segment(path) {
            Some(i) => Some(self.shared.overlay.segments[i].hex_content_id.clone()),
            None => None,
        }
    }

    /// Whether the session holds a segment of a path.
    pub open spec fn dirty_holds(&self, path: Seq<char>) -> bool {
        self.dirty.position_of(path, 0) < self.dirty.added@.len()
    }

    /// Whether what is indexed of a path is what the file holds now.
    ///
    /// A segment of the session was built from the file as it is. A path the overlay does not
    /// hold has no stale rows, and a file that cannot be read is left to whoever reads it next.
    pub open spec fn fresh(&self, path: Seq<char>, live: Option<Seq<u8>>) -> bool {
        ||| self.dirty_holds(path)
        ||| self.stored_hex(path) is None
        ||| live is None
        ||| crate::digest::git_blob_hex(live->0) == self.stored_hex(path)->0
    }

    /// Whether what is indexed of a path is what the file holds now.
    pub fn is_path_fresh(&self, path: &str, live: Option<&Vec<u8>>) -> (r: bool)
        ensures
            r == self.fresh(
                path@,
                (match live {
                    Some(bytes) => Some(bytes@),
                    None => None,
                }),
            ),
    {
        if self.dirty.find_path(path).is_some() {
            return true;
        }
        match self.path_to_hex_content_id(path) {
            None => true,
            Some(stored) => match live {
                None => true,
                Some(bytes) => {
                    let now = crate::digest::git_blob_id(bytes.as_slice());
                    same_text(now.as_str(), stored.as_str())
                },
            },
        }
    }

    /// Whether `out` names the innermost node of each line of `start..=end` of a file, from the
    /// bytes that the file holds.
    ///
    /// The session's segment of the file answers where there is one. The overlay's answers only
    /// while it is fresh: stale offsets must not make up handles. Nothing is named otherwise.
    pub open spec fn lines_named(
        &self,
        path: Seq<char>,
        live: Option<Seq<u8>>,
        start: int,
        end: int,
        out: Seq<Option<(String, usize)>>,
    ) -> bool {
        if start == 0 || end < start || live is None {
            out.len() == 0
        } else {
            let newlines = newline_seq(live->0, live->0.len() as int);
            let at = self.dirty.spelled_at(path, 0);
            let seg = self.seg_spelled(path, 0);
            if at < self.dirty.added@.len() {
                &&& out.len() == end - start + 1
                &&& names_innermost(
                    out,
                    *self.dirty.added@[at].reader,
                    HandleSource::OfPath(path),
                    newlines,
                    start,
                )
            } else if seg >= self.index().segments@.len() || !self.fresh(path, live) {
                out.len() == 0
            } else {
                &&& out.len() == end - start + 1
                &&& names_innermost(
                    out,
                    self.seg(seg),
                    HandleSource::OfSegment(self.index().segments@[seg]),
                    newlines,
                    start,
                )
            }
        }
    }

    /// The innermost node of each line of `start..=end` of a file.
    pub fn innermost_nodes_for_lines(
        &self,
        rel_path: &str,
        file: Option<&Vec<u8>>,
        start: usize,
        end: usize,
    ) -> (out: Vec<Option<(String, usize)>>)
        requires
            self.wf(),
        ensures
            self.lines_named(
                rel_path@,
                (match file {
                    Some(bytes) => Some(bytes@),
                    None => None,
                }),
                start as int,
                end as int,
                out@,
            ),
    {
        if start == 0 || end < start {
            return Vec::new();
        }
        let bytes = match file {
            Some(bytes) => bytes,
            None => {
                return Vec::new();
            },
        };
        let newlines = newline_offsets(bytes.as_slice());
        match self.dirty.find_spelled(rel_path) {
            Some(at) => {
                let ds = &self.dirty.added[at];
                assert(ds.reader.wf());
                return fold_segment(
                    &*ds.reader,
                    Handles::OfPath(rel_path),
                    &newlines,
                    start,
                    end,
                );
            },
            None => {},
        }
        let seg_idx: usize = match self.find_spelled_segment(rel_path) {
            Some(i) => i,
            None => {
                return Vec::new();
            },
        };
        if !self.is_path_fresh(rel_path, file) {
            return Vec::new();
        }
        assert(self.shared.segments@[seg_idx as int].wf());
        fold_segment(
            &*self.shared.segments[seg_idx],
            Handles::OfSegment(&self.shared.overlay.segments[seg_idx]),
            &newlines,
            start,
            end,
        )
    }
}

// ───────────────────────────── nodes by handle ─────────────────────────────

/// A node found by its handle, but for the line it ends on.
pub struct NodeSite {
    pub node_id: String,
    pub fql_kind: String,
    pub name: String,
    /// The node's file, relative to the worktree root.
    pub rel_path: String,
    pub line: usize,
    /// One past the node's last byte; nought where it is not known.
    pub byte_end: usize,
    pub rev: u64,
    pub parent_node_id: Option<String>,
    pub first_child_node_id: Option<String>,
    pub next_sibling_node_id: Option<String>,
    pub prev_sibling_node_id: Option<String>,
}

/// A node found by its handle.
pub struct FindNodeResult {
    pub node_id: String,
    pub fql_kind: String,
    pub name: String,
    /// The node's file, under the worktree root.
    pub path: String,
    pub line: usize,
    pub end_line: usize,
    pub rev: u64,
    pub parent_node_id: Option<String>,
    pub first_child_node_id: Option<String>,
    pub next_sibling_node_id: Option<String>,
    pub prev_sibling_node_id: Option<String>,
}

/// The handle of a neighbour, where there is one.
pub open spec fn neighbour(handles: HandleSource, ordinal: u32) -> Option<Seq<char>> {
    if ordinal == crate::segment::NO_ORDINAL {
        None
    } else {
        Some(handles.text(ordinal as nat))
    }
}

fn neighbour_id(handles: Handles<'_>, ordinal: u32) -> (r: Option<String>)
    ensures
        opt_string(r) == neighbour(handles.source(), ordinal),
{
    if ordinal == crate::segment::NO_ORDINAL {
        None
    } else {
        Some(handles.id(ordinal))
    }
}

/// Whether `site` describes the node of handle `id`: what it is and where it stands from row
/// `row` of `data`, its neighbours from row `nav_row` of `nav`.
pub open spec fn is_site(
    site: NodeSite,
    id: Seq<char>,
    path: Seq<char>,
    data: SegmentReader,
    row: int,
    nav: SegmentReader,
    nav_row: int,
    handles: HandleSource,
) -> bool {
    &&& site.node_id@ == id
    &&& site.rel_path@ == path
    &&& site.fql_kind@ == data.rows@[row].fql_kind@
    &&& site.name@ == data.rows@[row].name@
    &&& site.line == data.rows@[row].line as usize
    &&& site.byte_end == data.rows@[row].byte_end as usize
    &&& site.rev == data.rows@[row].rev
    &&& opt_string(site.parent_node_id) == neighbour(handles, nav.rows@[nav_row].parent_ordinal)
    &&& opt_string(site.first_child_node_id) == neighbour(
        handles,
        nav.rows@[nav_row].first_child_ordinal,
    )
    &&& opt_string(site.next_sibling_node_id) == neighbour(
        handles,
        nav.rows@[nav_row].next_sibling_ordinal,
    )
    &&& opt_string(site.prev_sibling_node_id) == neighbour(
        handles,
        nav.rows@[nav_row].prev_sibling_ordinal,
    )
}

fn make_site(
    id: &str,
    path: &str,
    data: &SegmentReader,
    row: u32,
    nav: &SegmentReader,
    nav_row: u32,
    handles: Handles<'_>,
) -> (site: NodeSite)
    requires
        row < data.rows@.len(),
        nav_row < nav.rows@.len(),
    ensures
        is_site(
            site,
            id@,
            path@,
            *data,
            row as int,
            *nav,
            nav_row as int,
            handles.source(),
        ),
{
    let d = &data.rows[row as usize];
    let n = &nav.rows[nav_row as usize];
    NodeSite {
        node_id: id.to_owned(),
        fql_kind: d.fql_kind.clone(),
        name: d.name.clone(),
        rel_path: path.to_owned(),
        line: d.line as usize,
        byte_end: d.byte_end as usize,
        rev: d.rev,
        parent_node_id: neighbour_id(handles, n.parent_ordinal),
        first_child_node_id: neighbour_id(handles, n.first_child_ordinal),
        next_sibling_node_id: neighbour_id(handles, n.next_sibling_ordinal),
        prev_sibling_node_id: neighbour_id(handles, n.prev_sibling_ordinal),
    }
}

/// A path under a root.
pub open spec fn joined(root: Seq<char>, rel: Seq<char>) -> Seq<char> {
    if rel.len() > 0 && rel[0] == '/' {
        rel
    } else if root.len() == 0 || root.last() == '/' {
        root + rel
    } else {
        root + seq!['/'] + rel
    }
}

/// A path under a root; an absolute path stays as it is.
pub fn join_path(root: &str, rel: &str) -> (s: String)
    ensures
        s@ == joined(root@, rel@),
{
    let r = crate::text::chars_of(root);
    let t = crate::text::chars_of(rel);
    if t.len() > 0 && t[0] == '/' {
        return rel.to_owned();
    }
    let mut s = root.to_owned();
    if !(r.len() == 0 || r[r.len() - 1] == '/') {
        s.push('/');
    }
    s.append(rel);
    assert(s@ =~= joined(root@, rel@));
    s
}

impl NodeSite {
    /// The line the node ends on, from the bytes of its file.
    pub open spec fn last_line(&self, file: Seq<u8>) -> nat {
        if self.byte_end == 0 {
            self.line as nat
        } else {
            end_line_in(file, self.byte_end as nat)
        }
    }

    /// Completes a found node with the bytes of its file; none where it cannot be read.
    pub fn finish(self, root: &str, file: &Vec<u8>) -> (r: FindNodeResult)
        ensures
            r.node_id == self.node_id,
            r.fql_kind == self.fql_kind,
            r.name == self.name,
            r.path@ == joined(root@, self.rel_path@),
            r.line == self.line,
            r.end_line == self.last_line(file@),
            r.rev == self.rev,
            r.parent_node_id == self.parent_node_id,
            r.first_child_node_id == self.first_child_node_id,
            r.next_sibling_node_id == self.next_sibling_node_id,
            r.prev_sibling_node_id == self.prev_sibling_node_id,
    {
        let end_line: usize = if self.byte_end == 0 {
            self.line
        } else {
            content_end_line_in_bytes(file.as_slice(), self.byte_end)
        };
        let path = join_path(root, self.rel_path.as_str());
        FindNodeResult {
            node_id: self.node_id,
            fql_kind: self.fql_kind,
            name: self.name,
            path,
            line: self.line,
            end_line,
            rev: self.rev,
            parent_node_id: self.parent_node_id,
            first_child_node_id: self.first_child_node_id,
            next_sibling_node_id: self.next_sibling_node_id,
            prev_sibling_node_id: self.prev_sibling_node_id,
        }
    }
}

/// The first row, from `i` on, that carries a node number; the number of rows where none does.
pub open spec fn row_of_ordinal(seg: SegmentReader, ordinal: u32, i: int) -> int
    decreases seg.rows@.len() - i,
{
    if i < 0 || i >= seg.rows@.len() {
        seg.rows@.len() as int
    } else if seg.rows@[i].ordinal == Some(ordinal) {
        i
    } else {
        row_of_ordinal(seg, ordinal, i + 1)
    }
}

pub fn find_ordinal(seg: &SegmentReader, ordinal: u32) -> (r: Option<u32>)
    requires
        seg.wf(),
    ensures
        (match r {
            Some(i) => i < seg.rows@.len() && i == row_of_ordinal(*seg, ordinal, 0),
            None => row_of_ordinal(*seg, ordinal, 0) == seg.rows@.len(),
        }),
{
    let n: u32 = seg.row_count();
    let mut i: u32 = 0;
    while i < n
        invariant
            n == seg.rows@.len(),
            i <= n,
            row_of_ordinal(*seg, ordinal, 0) == row_of_ordinal(*seg, ordinal, i as int),
        decreases n - i,
    {
        match seg.rows[i as usize].ordinal {
            Some(o) => {
                if o == ordinal {
                    return Some(i);
                }
            },
            None => {},
        }
        i += 1;
    }
    None
}

/// How far apart two lines are.
pub open spec fn line_gap(a: u32, b: u32) -> int {
    if a < b {
        b - a
    } else {
        a - b
    }
}

/// Whether row `r` carries a name and a kind.
pub open spec fn is_named(seg: SegmentReader, name: Seq<char>, kind: Seq<char>, r: int) -> bool {
    &&& 0 <= r < seg.rows@.len()
    &&& seg.rows@[r].name@ == name
    &&& seg.rows@[r].fql_kind@ == kind
}

/// Whether row `r` is, of the rows with a name and a kind, the one closest to a line, the first
/// of those as close.
pub open spec fn is_closest(seg: SegmentReader, name: Seq<char>, kind: Seq<char>, line: u32, r: int) -> bool {
    &&& is_named(seg, name, kind, r)
    &&& forall|q: int| #[trigger]
        is_named(seg, name, kind, q) ==> line_gap(seg.rows@[r].line, line) < line_gap(
            seg.rows@[q].line,
            line,
        ) || (line_gap(seg.rows@[r].line, line) == line_gap(seg.rows@[q].line, line) && r <= q)
}

/// Finds the row with a name and a kind that is closest to a line.
fn find_closest(seg: &SegmentReader, name: &str, kind: &str, line: u32) -> (r: Option<u32>)
    requires
        seg.wf(),
    ensures
        (match r {
            Some(i) => is_closest(*seg, name@, kind@, line, i as int),
            None => forall|q: int| !#[trigger] is_named(*seg, name@, kind@, q),
        }),
{
    let n: u32 = seg.row_count();
    let mut best: Option<u32> = None;
    let mut i: u32 = 0;
    while i < n
        invariant
            seg.wf(),
            n == seg.rows@.len(),
            i <= n,
            (match best {
                Some(b) => b < i && is_named(*seg, name@, kind@, b as int) && forall|q: int|
                    q < i && #[trigger] is_named(*seg, name@, kind@, q) ==> line_gap(
                        seg.rows@[b as int].line,
                        line,
                    ) < line_gap(seg.rows@[q].line, line) || (line_gap(
                        seg.rows@[b as int].line,
                        line,
                    ) == line_gap(seg.rows@[q].line, line) && b <= q),
                None => forall|q: int| q < i ==> !#[trigger] is_named(*seg, name@, kind@, q),
            }),
        decreases n - i,
    {
        let row = &seg.rows[i as usize];
        if same_text(row.name.as_str(), name) && same_text(row.fql_kind.as_str(), kind) {
            assert(is_named(*seg, name@, kind@, i as int));
            let gap: u32 = if row.line < line {
                line - row.line
            } else {
                row.line - line
            };
            let better = match best {
                Some(b) => {
                    let held: u32 = seg.rows[b as usize].line;
                    let held_gap: u32 = if held < line {
                        line - held
                    } else {
                        held - line
                    };
                    gap < held_gap
                },
                None => true,
            };
            if better {
                best = Some(i);
            }
        }
        i += 1;
    }
    best
}

impl ColumnarStorage {
    /// The first of the session's segments, from `i` on, whose file and a node number make up a
    /// handle; their count where none does.
    pub open spec fn dirty_owner(&self, id: Seq<char>, ordinal: u32, i: int) -> int
        decreases self.dirty.added@.len() - i,
    {
        if i < 0 || i >= self.dirty.added@.len() {
            self.dirty.added@.len() as int
        } else if path_node_id(self.dirty.added@[i].source_path@, ordinal as nat) == id {
            i
        } else {
            self.dirty_owner(id, ordinal, i + 1)
        }
    }

    /// Whether `r` is the node of a handle among the session's segments, or nothing where none
    /// of them owns it or the owner has no such node.
    pub open spec fn found_in_dirty(&self, id: Seq<char>, ordinal: u32, r: Option<NodeSite>) -> bool {
        let at = self.dirty_owner(id, ordinal, 0);
        if at >= self.dirty.added@.len() {
            r is None
        } else {
            let ds = self.dirty.added@[at];
            let row = row_of_ordinal(*ds.reader, ordinal, 0);
            if row >= ds.reader.rows@.len() {
                r is None
            } else {
                r is Some && is_site(
                    r->0,
                    id,
                    ds.source_path@,
                    *ds.reader,
                    row,
                    *ds.reader,
                    row,
                    HandleSource::OfPath(ds.source_path@),
                )
            }
        }
    }

    /// Resolves a handle among the session's segments only.
    pub fn find_node_in_dirty(&self, node_id: &str, ordinal: u32) -> (r: Option<NodeSite>)
        requires
            self.wf(),
        ensures
            self.found_in_dirty(node_id@, ordinal, r),
    {
        let mut i: usize = 0;
        while i < self.dirty.added.len()
            invariant
                self.wf(),
                i <= self.dirty.added@.len(),
                self.dirty_owner(node_id@, ordinal, 0) == self.dirty_owner(
                    node_id@,
                    ordinal,
                    i as int,
                ),
            decreases self.dirty.added.len() - i,
        {
            let ds = &self.dirty.added[i];
            let id = make_node_id(ds.source_path.as_str(), ordinal);
            if same_text(id.as_str(), node_id) {
                assert(ds.reader.wf());
                return match find_ordinal(&*ds.reader, ordinal) {
                    Some(row) => Some(
                        make_site(
                            node_id,
                            ds.source_path.as_str(),
                            &*ds.reader,
                            row,
                            &*ds.reader,
                            row,
                            Handles::OfPath(ds.source_path.as_str()),
                        ),
                    ),
                    None => None,
                };
            }
            i += 1;
        }
        None
    }

    /// Whether `r` is the node at row `row` of segment `seg`, as it stands in the session.
    ///
    /// Where the session changed the file, what the node is and where it stands come from the
    /// row of the session's segment that has its name and kind and is closest to where it stood.
    /// With no such row the node is looked up by number in the session's segments. The neighbours
    /// come from the overlay's segment.
    pub open spec fn found_committed(
        &self,
        id: Seq<char>,
        ordinal: u32,
        seg: int,
        row: int,
        r: Option<NodeSite>,
    ) -> bool {
        let meta = self.index().segments@[seg];
        let was = self.seg(seg).rows@[row];
        let at = self.dirty.position_of(meta.source_path@, 0);
        if at >= self.dirty.added@.len() {
            r is Some && is_site(
                r->0,
                id,
                meta.source_path@,
                self.seg(seg),
                row,
                self.seg(seg),
                row,
                HandleSource::OfSegment(meta),
            )
        } else {
            let live = *self.dirty.added@[at].reader;
            if exists|q: int| is_named(live, was.name@, was.fql_kind@, q) {
                r is Some && exists|q: int| #[trigger]
                    is_closest(live, was.name@, was.fql_kind@, was.line, q) && is_site(
                        r->0,
                        id,
                        meta.source_path@,
                        live,
                        q,
                        self.seg(seg),
                        row,
                        HandleSource::OfSegment(meta),
                    )
            } else {
                self.found_in_dirty(id, ordinal, r)
            }
        }
    }

    /// The node at row `local_row` of segment `seg_idx`, as it stands in the session.
    pub fn build_committed_node_result(
        &self,
        node_id: &str,
        ordinal: u32,
        seg_idx: usize,
        local_row: u32,
    ) -> (r: Option<NodeSite>)
        requires
            self.wf(),
            seg_idx < self.seg_count(),
            local_row < self.seg(seg_idx as int).rows@.len(),
        ensures
            self.found_committed(node_id@, ordinal, seg_idx as int, local_row as int, r),
    {
        let seg = &*self.shared.segments[seg_idx];
        let meta = &self.shared.overlay.segments[seg_idx];
        let row = &seg.rows[local_row as usize];
        match self.dirty.find_path(meta.source_path.as_str()) {
            None => Some(
                make_site(
                    node_id,
                    meta.source_path.as_str(),
                    seg,
                    local_row,
                    seg,
                    local_row,
                    Handles::OfSegment(meta),
                ),
            ),
            Some(at) => {
                let live = &*self.dirty.added[at].reader;
                assert(self.dirty.added@[at as int].reader.wf());
                match find_closest(live, row.name.as_str(), row.fql_kind.as_str(), row.line) {
                    Some(q) => {
                        assert(is_named(*live, row.name@, row.fql_kind@, q as int));
                        let site = make_site(
                            node_id,
                            meta.source_path.as_str(),
                            live,
                            q,
                            seg,
                            local_row,
                            Handles::OfSegment(meta),
                        );
                        assert(is_closest(*live, row.name@, row.fql_kind@, row.line, q as int));
                        Some(site)
                    },
                    None => self.find_node_in_dirty(node_id, ordinal),
                }
            },
        }
    }
}

} // verus!
