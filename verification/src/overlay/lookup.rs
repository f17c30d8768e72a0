//! Lookups in an open overlay: rows, kinds, names, trigrams and path ranges.

use crate::bytes::{
    keys_ascend, le32, lemma_found_at_lower_bound, lower_bound, slice_of, u32_at, KeyTable,
};
use crate::node_id::{decode_hex_prefix, hex_bytes};
use crate::order::{
    bytes_before, bytes_less, lemma_bytes_total, lemma_bytes_transitive, ranks_before,
};
use crate::overlay::format::{RowPtr, SegmentMeta};
use crate::overlay::parse::segment_start;
use crate::overlay::{file_blob, Overlay, SegmentsByDigest};
use crate::rows::rows_of;
use crate::sort::sorts_before;
use crate::text::same_bytes;
use core::ops::Range;
use roaring::RoaringBitmap;
use vstd::prelude::*;
use vstd::string::*;
use vstd::utf8::*;

verus! {

/// The rows of an optional bitmap.
pub open spec fn opt_rows(b: Option<RoaringBitmap>) -> Option<Set<u32>> {
    match b {
        Some(bitmap) => Some(rows_of(bitmap)),
        None => None,
    }
}

/// `data[from..from + len]`, where that is inside `data`.
pub fn ranged<'a>(data: &'a [u8], from: u64, len: u32) -> (r: Option<&'a [u8]>)
    requires
        from + len <= u64::MAX,
    ensures
        (match r {
            Some(s) => slice_of(data@, from as int, from + len) == Some(s@),
            None => slice_of(data@, from as int, from + len) is None,
        }),
{
    let end: u64 = from + len as u64;
    let have: usize = data.len();
    if end > have as u64 {
        return None;
    }
    Some(vstd::slice::slice_subrange(data, from as usize, end as usize))
}

// ───────────────────────────── rows and segments ─────────────────────────────

impl Overlay {
    /// Where global row `id` lives.
    pub open spec fn row_at(&self, id: u32) -> Option<RowPtr> {
        if id < self.row_count {
            let table = self.row_table.of(self.file@);
            Some(
                RowPtr {
                    segment_idx: le32(table, id * 8),
                    local_row_idx: le32(table, id * 8 + 4),
                },
            )
        } else {
            None
        }
    }

    /// Resolves a global row to its segment and local row.
    pub fn resolve_global(&self, id: u32) -> (r: Option<RowPtr>)
        requires
            self.wf(),
        ensures
            r == self.row_at(id),
    {
        if id >= self.row_count {
            return None;
        }
        let table = self.row_table.read(self.file.as_slice());
        assert((id + 1) * 8 <= table@.len());
        let n: usize = table.len();
        let at: usize = id as usize * 8;
        Some(RowPtr { segment_idx: u32_at(table, at), local_row_idx: u32_at(table, at + 4) })
    }

    /// Whether two segments were built from one source path.
    pub fn has_duplicate_paths(&self) -> (r: bool)
        requires
            self.wf(),
        ensures
            r == crate::overlay::paths_repeat(self.segments@),
    {
        self.has_duplicate_paths
    }

    /// The segment table.
    pub fn segments(&self) -> (r: &Vec<SegmentMeta>)
        ensures
            r@ == self.segments@,
    {
        &self.segments
    }

    /// The files that have no segment, with their sizes.
    pub fn file_entries(&self) -> (r: &Vec<(String, u32)>)
        ensures
            r@ == self.file_entries@,
    {
        &self.file_entries
    }

    /// Total number of rows.
    pub fn row_count(&self) -> (n: u32)
        ensures
            n == self.row_count,
    {
        self.row_count
    }

    /// The stored file size of segment `idx`; nought past the last segment.
    pub open spec fn size_of_file(&self, idx: int) -> u32 {
        if 0 <= idx < self.segments@.len() {
            le32(self.index_files.of(self.file@), idx * 4)
        } else {
            0
        }
    }

    /// The stored file size of segment `idx`; nought past the last segment.
    pub fn file_size(&self, idx: usize) -> (r: u32)
        requires
            self.wf(),
        ensures
            r == self.size_of_file(idx as int),
    {
        if idx >= self.segments.len() {
            return 0;
        }
        let sizes = self.index_files.read(self.file.as_slice());
        proof {
            self.lemma_one_size_per_segment();
        }
        assert((idx + 1) * 4 <= sizes@.len());
        let n: usize = sizes.len();
        u32_at(sizes, idx * 4)
    }

    /// The file stores one size per segment.
    proof fn lemma_one_size_per_segment(&self)
        requires
            self.wf(),
        ensures
            self.index_files.size() >= self.segments@.len() * 4,
    {
        let file = self.file@;
        let spans = crate::overlay::file_spans(file);
        assert(spans[7] == file_blob(file, 7));
        assert(spans[9] == file_blob(file, 9));
        assert(crate::overlay::parse::layout_verdict(file.len(), spans) is Ok);
        assert(self.segments@.len() == spans[7].size() / 20);
    }

    /// The global rows of segment `idx`; none past the last segment.
    pub fn segment_row_range(&self, idx: usize) -> (r: Range<u32>)
        requires
            self.wf(),
        ensures
            idx < self.segments@.len() ==> r.start == segment_start(self.segments@, idx as int)
                && r.end == segment_start(self.segments@, idx + 1),
            idx >= self.segments@.len() ==> r.start == 0 && r.end == 0,
    {
        if idx >= self.segments.len() {
            return 0..0;
        }
        self.segment_offsets[idx]..self.segment_offsets[idx + 1]
    }

    /// How many usage sites `name` has in the workspace.
    pub open spec fn usages_of(&self, name: Seq<char>) -> u64 {
        match self.usages_count {
            Some(index) => index.count(encode_utf8(name)),
            None => 0,
        }
    }

    /// How many usage sites `name` has in the workspace.
    pub fn usage_count(&self, name: &str) -> (n: u64)
        requires
            self.wf(),
        ensures
            n == self.usages_of(name@),
    {
        match &self.usages_count {
            Some(index) => {
                let bytes = self.usage_index.read(self.file.as_slice());
                index.get(bytes, name.as_bytes())
            },
            None => 0,
        }
    }
}

// ───────────────────────────── path ranges ─────────────────────────────

/// Whether `s` starts with `p`.
pub open spec fn starts_with(s: Seq<u8>, p: Seq<u8>) -> bool {
    p.len() <= s.len() && s.take(p.len() as int) == p
}

/// Whether a sequence of ranks starts with another.
pub open spec fn ranks_start_with(s: Seq<int>, p: Seq<int>) -> bool
    decreases p.len(),
{
    if p.len() == 0 {
        true
    } else {
        s.len() > 0 && s[0] == p[0] && ranks_start_with(s.drop_first(), p.drop_first())
    }
}

/// The smallest sequence after every one that starts with `p`, where there is one.
pub open spec fn ranks_past(p: Seq<int>) -> Option<Seq<int>>
    decreases p.len(),
{
    if p.len() == 0 {
        None
    } else {
        match ranks_past(p.drop_first()) {
            Some(u) => Some(seq![p[0]] + u),
            None => if p[0] < 255 {
                Some(seq![p[0] + 1])
            } else {
                None
            },
        }
    }
}

/// What starts with `p` is what lies from `p` up to the first sequence past it.
proof fn lemma_ranks_past(s: Seq<int>, p: Seq<int>)
    requires
        forall|i: int| 0 <= i < s.len() ==> #[trigger] s[i] <= 255,
        forall|i: int| 0 <= i < p.len() ==> #[trigger] p[i] <= 255,
    ensures
        ranks_start_with(s, p) == (!ranks_before(s, p) && (match ranks_past(p) {
            Some(u) => ranks_before(s, u),
            None => true,
        })),
    decreases p.len(),
{
    if p.len() > 0 {
        if s.len() > 0 && s[0] == p[0] {
            assert forall|i: int| 0 <= i < s.drop_first().len() implies #[trigger] s.drop_first()[i]
                <= 255 by {
                assert(s[i + 1] <= 255);
            }
            assert forall|i: int| 0 <= i < p.drop_first().len() implies #[trigger] p.drop_first()[i]
                <= 255 by {
                assert(p[i + 1] <= 255);
            }
            lemma_ranks_past(s.drop_first(), p.drop_first());
        }
        let rest = ranks_past(p.drop_first());
        if rest is Some {
            let w = seq![p[0]] + rest->0;
            assert(w.drop_first() =~= rest->0);
            assert(w[0] == p[0]);
            assert(ranks_past(p) == Some(w));
        } else if p[0] < 255 {
            let w = seq![p[0] + 1];
            assert(w[0] == p[0] + 1);
            assert(w.drop_first() =~= Seq::<int>::empty());
            assert(ranks_past(p) == Some(w));
            if s.len() > 0 && s[0] == p[0] + 1 {
                assert(!ranks_before(s.drop_first(), w.drop_first()));
            }
        } else {
            assert(ranks_past(p) is None);
            if s.len() > 0 {
                assert(s[0] <= 255);
            }
        }
    }
}

/// Starting with a byte string, seen from the ranks.
proof fn lemma_starts_with_ranks(s: Seq<u8>, p: Seq<u8>)
    ensures
        starts_with(s, p) == ranks_start_with(
            crate::order::byte_ranks(s),
            crate::order::byte_ranks(p),
        ),
    decreases p.len(),
{
    let (x, y) = (crate::order::byte_ranks(s), crate::order::byte_ranks(p));
    if p.len() == 0 {
        assert(s.take(0) =~= p);
    } else if s.len() > 0 {
        let (s1, p1) = (s.drop_first(), p.drop_first());
        assert(crate::order::byte_ranks(s1) =~= x.drop_first());
        assert(crate::order::byte_ranks(p1) =~= y.drop_first());
        lemma_starts_with_ranks(s1, p1);
        assert(x[0] == s[0] as int);
        assert(y[0] == p[0] as int);
        if starts_with(s, p) {
            assert(s.take(p.len() as int)[0] == p[0]);
            assert(s1.take(p1.len() as int) =~= s.take(p.len() as int).drop_first());
            assert(p1 =~= p.drop_first());
        }
        if s[0] == p[0] && starts_with(s1, p1) {
            assert forall|i: int| 0 <= i < p.len() implies s.take(p.len() as int)[i] == p[i] by {
                if i > 0 {
                    assert(s1.take(p1.len() as int)[i - 1] == p1[i - 1]);
                }
            }
            assert(s.take(p.len() as int) =~= p);
        }
    }
}

/// The smallest byte string after every one that starts with `p`: `p` without the 255s it ends
/// in, its last byte one higher. Nothing where `p` is made of 255s.
pub open spec fn bytes_past(p: Seq<u8>) -> Option<Seq<u8>>
    decreases p.len(),
{
    if p.len() == 0 {
        None
    } else if p.last() < 255 {
        Some(p.drop_last().push((p.last() + 1) as u8))
    } else {
        bytes_past(p.drop_last())
    }
}

/// Dropping the 255s at the end is the same as counting up from the front.
proof fn lemma_bytes_past(p: Seq<u8>)
    ensures
        (match bytes_past(p) {
            Some(u) => ranks_past(crate::order::byte_ranks(p)) == Some(
                crate::order::byte_ranks(u),
            ),
            None => ranks_past(crate::order::byte_ranks(p)) is None,
        }),
    decreases p.len(),
{
    let x = crate::order::byte_ranks(p);
    if p.len() > 0 {
        let q = p.drop_last();
        lemma_bytes_past(q);
        assert(x.drop_last() =~= crate::order::byte_ranks(q));
        assert(x.last() == p.last() as int);
        lemma_ranks_past_back(x);
        if p.last() < 255 {
            let u = q.push((p.last() + 1) as u8);
            assert(crate::order::byte_ranks(u) =~= x.drop_last().push(x.last() + 1));
        }
    }
}

/// Counting up from the back.
proof fn lemma_ranks_past_back(x: Seq<int>)
    requires
        x.len() > 0,
    ensures
        ranks_past(x) == (if x.last() < 255 {
            Some(x.drop_last().push(x.last() + 1))
        } else {
            ranks_past(x.drop_last())
        }),
    decreases x.len(),
{
    if x.len() == 1 {
        assert(x.drop_first() =~= Seq::<int>::empty());
        assert(x.drop_last() =~= Seq::<int>::empty());
        assert(ranks_past(x.drop_first()) is None);
        if x.last() < 255 {
            assert(seq![x[0] + 1] =~= x.drop_last().push(x.last() + 1));
        }
    } else {
        let y = x.drop_first();
        lemma_ranks_past_back(y);
        assert(y.last() == x.last());
        assert(y.drop_last() =~= x.drop_last().drop_first());
        if x.last() < 255 {
            assert(seq![x[0]] + y.drop_last().push(y.last() + 1) =~= x.drop_last().push(
                x.last() + 1,
            ));
        } else {
            assert(x.drop_last()[0] == x[0]);
        }
    }
}

/// A byte string starts with `p` exactly where it lies from `p` up to the first one past it.
proof fn lemma_prefix_interval(s: Seq<u8>, p: Seq<u8>)
    ensures
        starts_with(s, p) == (!bytes_before(s, p) && (match bytes_past(p) {
            Some(u) => bytes_before(s, u),
            None => true,
        })),
{
    let (x, y) = (crate::order::byte_ranks(s), crate::order::byte_ranks(p));
    assert forall|i: int| 0 <= i < x.len() implies #[trigger] x[i] <= 255 by {
        assert(x[i] == s[i] as int);
    }
    assert forall|i: int| 0 <= i < y.len() implies #[trigger] y[i] <= 255 by {
        assert(y[i] == p[i] as int);
    }
    lemma_starts_with_ranks(s, p);
    lemma_ranks_past(x, y);
    lemma_bytes_past(p);
}

/// Between `p` and something that starts with `p` everything starts with `p`.
pub proof fn lemma_prefix_between(p: Seq<u8>, a: Seq<u8>, b: Seq<u8>)
    requires
        !bytes_before(a, p),
        !bytes_before(b, a),
        starts_with(b, p),
    ensures
        starts_with(a, p),
{
    lemma_prefix_interval(a, p);
    lemma_prefix_interval(b, p);
    match bytes_past(p) {
        Some(u) => {
            lemma_bytes_total(a, b);
            if a != b {
                lemma_bytes_transitive(a, b, u);
            }
        },
        None => {},
    }
}

/// The source paths of a segment table, as sorted keys.
pub struct PathKeys<'a> {
    pub segments: &'a Vec<SegmentMeta>,
}

impl<'a> KeyTable for PathKeys<'a> {
    open spec fn size(&self) -> nat {
        self.segments@.len()
    }

    open spec fn key_at(&self, i: int) -> Seq<u8> {
        encode_utf8(self.segments@[i].source_path@)
    }

    open spec fn readable(&self) -> bool {
        true
    }

    fn count(&self) -> (n: usize) {
        self.segments.len()
    }

    fn key_below(&self, i: usize, target: &[u8]) -> (r: bool) {
        bytes_less(self.segments[i].source_path.as_str().as_bytes(), target)
    }
}

impl Overlay {
    /// Whether the segments stand in ascending order of the bytes of their paths.
    pub open spec fn path_sorted(&self) -> bool {
        keys_ascend(&(PathKeys { segments: &self.segments }))
    }

    /// Whether the path of segment `i` starts with `prefix`.
    pub open spec fn path_starts(&self, i: int, prefix: Seq<char>) -> bool {
        starts_with(encode_utf8(self.segments@[i].source_path@), encode_utf8(prefix))
    }

    /// Whether the segments `lo..hi` are those whose path starts with `prefix`.
    pub open spec fn is_path_run(&self, lo: int, hi: int, prefix: Seq<char>) -> bool {
        &&& 0 <= lo <= hi <= self.segments@.len()
        &&& forall|i: int|
            0 <= i < self.segments@.len() ==> ((lo <= i < hi) == #[trigger] self.path_starts(
                i,
                prefix,
            ))
    }

    /// The segments whose path starts with `prefix`: one run of them, where the paths are sorted.
    ///
    /// Without a match the range is `0..0`.
    pub fn path_seg_range(&self, prefix: &str) -> (r: Range<usize>)
        ensures
            r.start <= r.end <= self.segments@.len(),
            r.start == r.end ==> r.start == 0,
            self.path_sorted() ==> self.is_path_run(r.start as int, r.end as int, prefix@),
    {
        let n: usize = self.segments.len();
        let keys = PathKeys { segments: &self.segments };
        let p = prefix.as_bytes();
        if prefix.is_empty() {
            proof {
                assert(encode_utf8(prefix@) =~= Seq::<u8>::empty());
                assert forall|i: int| 0 <= i < n implies #[trigger] self.path_starts(
                    i,
                    prefix@,
                ) by {
                    assert(encode_utf8(self.segments@[i].source_path@).take(0) =~= Seq::<
                        u8,
                    >::empty());
                }
            }
            return 0..n;
        }
        let lo: usize = lower_bound(&keys, p);
        let mut upper: Vec<u8> = vstd::slice::slice_to_vec(p);
        while upper.len() > 0 && upper[upper.len() - 1] == 255
            invariant
                bytes_past(upper@) == bytes_past(p@),
            decreases upper.len(),
        {
            let ghost was = upper@;
            let _ = upper.pop();
            assert(upper@ =~= was.drop_last());
        }
        let hi: usize = if upper.len() == 0 {
            n
        } else {
            let last: usize = upper.len() - 1;
            let b: u8 = upper[last];
            let ghost was = upper@;
            upper.set(last, b + 1);
            assert(upper@ =~= was.drop_last().push((b + 1) as u8));
            assert(bytes_past(p@) == Some(upper@));
            lower_bound(&keys, upper.as_slice())
        };
        proof {
            if self.path_sorted() {
                assert forall|i: int| 0 <= i < n implies ((lo <= i < hi)
                    == #[trigger] self.path_starts(i, prefix@)) by {
                    let s = encode_utf8(self.segments@[i].source_path@);
                    assert(keys.key_at(i) == s);
                    lemma_prefix_interval(s, p@);
                }
            }
        }
        if lo >= hi {
            return 0..0;
        }
        lo..hi
    }

    /// The global rows of every segment whose path starts with `prefix`.
    pub fn path_row_range(&self, prefix: &str) -> (r: Range<u32>)
        requires
            self.wf(),
        ensures
            self.path_sorted() ==> exists|lo: int, hi: int| #[trigger]
                self.is_path_run(lo, hi, prefix@) && (if lo < hi {
                    r.start == segment_start(self.segments@, lo) && r.end == segment_start(
                        self.segments@,
                        hi,
                    )
                } else {
                    r.start == 0 && r.end == 0
                }),
    {
        let range = self.path_seg_range(prefix);
        let lo: usize = range.start;
        let hi: usize = range.end;
        assert(self.path_sorted() ==> self.is_path_run(lo as int, hi as int, prefix@));
        if lo == hi {
            return 0..0;
        }
        self.segment_offsets[lo]..self.segment_offsets[hi]
    }
}

// ───────────────────────────── node handles ─────────────────────────────

/// The first `width` bytes of each path fingerprint, in ascending order of fingerprint.
pub struct DigestKeys<'a> {
    pub segments: &'a Vec<SegmentMeta>,
    pub order: &'a Vec<usize>,
    pub width: usize,
}

impl<'a> KeyTable for DigestKeys<'a> {
    open spec fn size(&self) -> nat {
        self.order@.len()
    }

    open spec fn key_at(&self, i: int) -> Seq<u8> {
        self.segments@[self.order@[i] as int].sha256@.take(self.width as int)
    }

    open spec fn readable(&self) -> bool {
        &&& self.width <= 32
        &&& forall|i: int|
            0 <= i < self.order@.len() ==> (#[trigger] self.order@[i]) < self.segments@.len()
    }

    fn count(&self) -> (n: usize) {
        self.order.len()
    }

    fn key_below(&self, i: usize, target: &[u8]) -> (r: bool) {
        let at: usize = self.order[i];
        let head = vstd::slice::slice_subrange(
            self.segments[at].sha256.as_slice(),
            0,
            self.width,
        );
        assert(head@ =~= self.key_at(i as int));
        bytes_less(head, target)
    }
}

/// Cutting two byte strings of one length short does not swap their order.
proof fn lemma_heads_keep_order(a: Seq<u8>, b: Seq<u8>, n: int)
    requires
        a.len() == b.len(),
        0 <= n <= a.len(),
        !bytes_before(b, a),
    ensures
        !bytes_before(b.take(n), a.take(n)),
    decreases n,
{
    let (x, y) = (crate::order::byte_ranks(b), crate::order::byte_ranks(a));
    let (xn, yn) = (crate::order::byte_ranks(b.take(n)), crate::order::byte_ranks(a.take(n)));
    if n > 0 {
        assert(xn[0] == x[0] && yn[0] == y[0]);
        let (a1, b1) = (a.drop_first(), b.drop_first());
        assert(x.drop_first() =~= crate::order::byte_ranks(b1));
        assert(y.drop_first() =~= crate::order::byte_ranks(a1));
        assert(xn.drop_first() =~= crate::order::byte_ranks(b1.take(n - 1)));
        assert(yn.drop_first() =~= crate::order::byte_ranks(a1.take(n - 1)));
        if x[0] == y[0] {
            lemma_heads_keep_order(a1, b1, n - 1);
        }
    } else {
        assert(yn.len() == 0);
    }
}

impl Overlay {
    /// Whether the path fingerprint of segment `i` starts with `head`.
    pub open spec fn digest_starts(&self, i: int, head: Seq<u8>) -> bool {
        self.segments@[i].sha256@.take(head.len() as int) == head
    }

    /// Whether segment `i` is the first, in ascending order of fingerprint, whose fingerprint
    /// starts with `head`.
    pub open spec fn is_first_with_head(&self, i: int, head: Seq<u8>) -> bool {
        &&& 0 <= i < self.segments@.len()
        &&& self.digest_starts(i, head)
        &&& forall|j: int|
            0 <= j < self.segments@.len() && j != i && #[trigger] self.digest_starts(j, head)
                ==> sorts_before(&(SegmentsByDigest { segments: &self.segments }), i, j)
    }

    proof fn lemma_heads_ascend(&self, width: usize)
        requires
            self.wf(),
            width <= 32,
        ensures
            keys_ascend(
                &(DigestKeys { segments: &self.segments, order: &self.seg_id_index, width }),
            ),
    {
        let keys = DigestKeys { segments: &self.segments, order: &self.seg_id_index, width };
        let table = SegmentsByDigest { segments: &self.segments };
        assert forall|i: int, j: int|
            #![trigger keys.key_at(i), keys.key_at(j)]
            0 <= i < j < keys.size() implies !bytes_before(keys.key_at(j), keys.key_at(i)) by {
            let (a, b) = (self.seg_id_index@[i] as int, self.seg_id_index@[j] as int);
            assert(sorts_before(&table, a, b));
            lemma_bytes_total(self.segments@[a].sha256@, self.segments@[b].sha256@);
            lemma_heads_keep_order(
                self.segments@[a].sha256@,
                self.segments@[b].sha256@,
                width as int,
            );
        }
    }

    /// The segment that the hexadecimal prefix of a node handle names.
    ///
    /// `None` where the prefix is malformed or no fingerprint starts with it.
    pub fn seg_idx_for_node_id_prefix(&self, prefix: &str) -> (r: Option<u32>)
        requires
            self.wf(),
        ensures
            (match hex_bytes(encode_utf8(prefix@)) {
                None => r is None,
                Some(head) => match r {
                    Some(i) => self.is_first_with_head(i as int, head),
                    None => forall|j: int|
                        0 <= j < self.segments@.len() ==> !#[trigger] self.digest_starts(j, head),
                },
            }),
    {
        let head = match decode_hex_prefix(prefix.as_bytes()) {
            Some(head) => head,
            None => {
                return None;
            },
        };
        let keys = DigestKeys {
            segments: &self.segments,
            order: &self.seg_id_index,
            width: head.len(),
        };
        let p: usize = lower_bound(&keys, head.as_slice());
        proof {
            self.lemma_heads_ascend(keys.width);
            assert forall|j: int|
                0 <= j < self.segments@.len() && #[trigger] self.digest_starts(j, head@) implies p
                < keys.size() && keys.key_at(p as int) == head@ && (exists|k: int|
                p <= k < keys.size() && #[trigger] self.seg_id_index@[k] == j) by {
                assert(self.seg_id_index@.contains(j as usize));
                let k = choose|k: int|
                    0 <= k < self.seg_id_index@.len() && self.seg_id_index@[k] == j as usize;
                assert(keys.key_at(k) == head@);
                lemma_found_at_lower_bound(&keys, head@, p as int, k);
            }
        }
        if p < self.seg_id_index.len() {
            let at: usize = self.seg_id_index[p];
            let found = vstd::slice::slice_subrange(
                self.segments[at].sha256.as_slice(),
                0,
                head.len(),
            );
            assert(found@ =~= keys.key_at(p as int));
            if same_bytes(found, head.as_slice()) {
                proof {
                    assert(self.digest_starts(at as int, head@));
                    assert forall|j: int|
                        0 <= j < self.segments@.len() && j != at && #[trigger] self.digest_starts(
                            j,
                            head@,
                        ) implies sorts_before(
                        &(SegmentsByDigest { segments: &self.segments }),
                        at as int,
                        j,
                    ) by {
                        let k = choose|k: int|
                            p <= k < keys.size() && #[trigger] self.seg_id_index@[k] == j;
                        assert(self.seg_id_index@[p as int] == at);
                    }
                }
                return Some(at as u32);
            }
        }
        None
    }

    /// Whether the fingerprints of the segments listed start with `head`.
    pub open spec fn with_head(&self, head: Seq<u8>) -> spec_fn(usize) -> bool {
        |i: usize| self.digest_starts(i as int, head)
    }

    /// The paths of the segments whose fingerprint starts with `head`, in ascending order of
    /// fingerprint.
    pub open spec fn paths_with_head(&self, head: Seq<u8>) -> Seq<Seq<char>> {
        self.seg_id_index@.filter(self.with_head(head)).map_values(
            |i: usize| self.segments@[i as int].source_path@,
        )
    }

    /// The run of the fingerprint order whose fingerprints start with `head`.
    fn head_run(&self, head: &Vec<u8>) -> (r: (usize, usize))
        requires
            self.wf(),
            0 < head@.len() <= 32,
        ensures
            r.0 <= r.1 <= self.seg_id_index@.len(),
            forall|i: int|
                0 <= i < self.seg_id_index@.len() ==> ((r.0 <= i < r.1) == self.digest_starts(
                    (#[trigger] self.seg_id_index@[i]) as int,
                    head@,
                )),
    {
        let n: usize = self.seg_id_index.len();
        let keys = DigestKeys {
            segments: &self.segments,
            order: &self.seg_id_index,
            width: head.len(),
        };
        let lo: usize = lower_bound(&keys, head.as_slice());
        proof {
            self.lemma_heads_ascend(keys.width);
            lemma_bytes_total(head@, head@);
        }
        let mut hi: usize = lo;
        while hi < n
            invariant
                self.wf(),
                keys.segments == &self.segments,
                keys.order == &self.seg_id_index,
                keys.width == head@.len(),
                0 < head@.len() <= 32,
                n == self.seg_id_index@.len(),
                lo <= hi <= n,
                keys_ascend(&keys),
                forall|i: int| 0 <= i < lo ==> bytes_before(#[trigger] keys.key_at(i), head@),
                forall|i: int| lo <= i < n ==> !bytes_before(#[trigger] keys.key_at(i), head@),
                forall|i: int| lo <= i < hi ==> #[trigger] keys.key_at(i) == head@,
            ensures
                lo <= hi <= n,
                hi < n ==> keys.key_at(hi as int) != head@,
                forall|i: int| lo <= i < hi ==> #[trigger] keys.key_at(i) == head@,
            decreases n - hi,
        {
            let at: usize = self.seg_id_index[hi];
            let found = vstd::slice::slice_subrange(
                self.segments[at].sha256.as_slice(),
                0,
                head.len(),
            );
            assert(found@ =~= keys.key_at(hi as int));
            if !same_bytes(found, head.as_slice()) {
                break;
            }
            hi += 1;
        }
        proof {
            assert forall|i: int| 0 <= i < n implies ((lo <= i < hi) == self.digest_starts(
                (#[trigger] self.seg_id_index@[i]) as int,
                head@,
            )) by {
                let key = keys.key_at(i);
                lemma_bytes_total(head@, head@);
                if i >= hi && key == head@ {
                    let m = keys.key_at(hi as int);
                    lemma_bytes_total(m, head@);
                    if i > hi {
                        assert(!bytes_before(key, m));
                    }
                }
            }
        }
        (lo, hi)
    }

    /// Every source path whose fingerprint starts with the hexadecimal prefix.
    ///
    /// A handle of a whole file has to see a second match to refuse to guess.
    pub fn seg_paths_for_node_id_prefix(&self, prefix: &str) -> (r: Vec<String>)
        requires
            self.wf(),
        ensures
            (match hex_bytes(encode_utf8(prefix@)) {
                None => r@.len() == 0,
                Some(head) => text_views(r@) == self.paths_with_head(head),
            }),
    {
        let mut paths: Vec<String> = Vec::new();
        let head = match decode_hex_prefix(prefix.as_bytes()) {
            Some(head) => head,
            None => {
                return paths;
            },
        };
        let (lo, hi) = self.head_run(&head);
        let ghost order = self.seg_id_index@;
        let ghost keep = self.with_head(head@);
        let mut k: usize = lo;
        while k < hi
            invariant
                self.wf(),
                order == self.seg_id_index@,
                lo <= k <= hi <= order.len(),
                paths@.len() == k - lo,
                forall|i: int|
                    0 <= i < k - lo ==> (#[trigger] paths@[i])@
                        == self.segments@[order[lo + i] as int].source_path@,
            decreases hi - k,
        {
            let at: usize = self.seg_id_index[k];
            paths.push(self.segments[at].source_path.clone());
            k += 1;
        }
        proof {
            let run = order.subrange(lo as int, hi as int);
            lemma_filter_run(order, keep, lo as int, hi as int);
            assert(self.paths_with_head(head@) =~= run.map_values(
                |i: usize| self.segments@[i as int].source_path@,
            ));
            assert(text_views(paths@) =~= self.paths_with_head(head@));
        }
        paths
    }
}

/// A list of texts, by their characters.
pub open spec fn text_views(v: Seq<String>) -> Seq<Seq<char>> {
    v.map_values(|s: String| s@)
}

/// Where what is kept is one run, filtering gives that run.
proof fn lemma_filter_run(s: Seq<usize>, keep: spec_fn(usize) -> bool, lo: int, hi: int)
    requires
        0 <= lo <= hi <= s.len(),
        forall|i: int| 0 <= i < s.len() ==> ((lo <= i < hi) == keep(#[trigger] s[i])),
    ensures
        s.filter(keep) == s.subrange(lo, hi),
{
    let (a, b, c) = (s.subrange(0, lo), s.subrange(lo, hi), s.subrange(hi, s.len() as int));
    a.lemma_all_neg_filter_empty(keep);
    c.lemma_all_neg_filter_empty(keep);
    lemma_filter_all(b, keep);
    assert(s =~= a + b + c);
    Seq::filter_distributes_over_add(a + b, c, keep);
    Seq::filter_distributes_over_add(a, b, keep);
    assert(s.filter(keep) =~= b);
}

/// Filtering a sequence of which everything is kept changes nothing.
proof fn lemma_filter_all(s: Seq<usize>, keep: spec_fn(usize) -> bool)
    requires
        forall|i: int| 0 <= i < s.len() ==> keep(#[trigger] s[i]),
    ensures
        s.filter(keep) == s,
    decreases s.len(),
{
    reveal(Seq::filter);
    if s.len() > 0 {
        lemma_filter_all(s.drop_last(), keep);
        assert(s =~= s.drop_last().push(s.last()));
    }
}

} // verus!
