//! Narrowing a segment to the rows that pass everything its columns can tell.

use crate::clauses::{Clauses, CompareOp, Predicate, PredicateValue};
use crate::columnar_storage::hits::{residual, travels, waits, waits_on, Hit};
use crate::columnar_storage::ColumnarStorage;
use crate::fields::{
    canonical, canonical_text, late_field, lemma_posting_fields_are_enrichment, posting_field,
    ranks_field_like_a_built_row, view_cannot_answer, view_ranks,
};
use crate::filter::eval_predicate;
use crate::rows::{rows_ascending, rows_of};
use crate::segment::{Accessor, RowView, SegmentReader};
use crate::text::same_text;
use roaring::RoaringBitmap;
use vstd::prelude::*;
use vstd::string::*;

verus! {


// ───────────────────────────── predicates ─────────────────────────────

/// Whether a predicate has to wait for a built row of a segment.
pub fn predicate_waits_for_a_built_row(
    seg: &SegmentReader,
    p: &Predicate,
    has_path: bool,
) -> (r: bool)
    ensures
        r == waits_on(*p, has_path),
{
    let accessor = match &p.value {
        PredicateValue::Number(_) => Accessor::Num,
        _ => Accessor::Str,
    };
    p.op == CompareOp::Matches || p.op == CompareOp::NotMatches || !seg.answers_field(
        canonical(p.field.as_str()),
        has_path,
        accessor,
    )
}

/// The positions among the first `n` predicates of those that are tested on a row and have
/// (`late`) or have not to wait for a built one.
pub open spec fn half(preds: Seq<Predicate>, has_path: bool, late: bool, n: int) -> Seq<usize>
    decreases n,
{
    if n <= 0 {
        seq![]
    } else if residual(preds[n - 1]) && waits_on(preds[n - 1], has_path) == late {
        half(preds, has_path, late, n - 1).push((n - 1) as usize)
    } else {
        half(preds, has_path, late, n - 1)
    }
}

/// Splits the predicates of a query into those that a view answers and those that have to wait for
/// a built row, by position.
pub fn split_seg_predicates(seg: &SegmentReader, preds: &Vec<Predicate>, has_path: bool) -> (r: (
    Vec<usize>,
    Vec<usize>,
))
    ensures
        r.0@ == half(preds@, has_path, false, preds@.len() as int),
        r.1@ == half(preds@, has_path, true, preds@.len() as int),
{
    let mut early: Vec<usize> = Vec::new();
    let mut late: Vec<usize> = Vec::new();
    let mut i: usize = 0;
    while i < preds.len()
        invariant
            i <= preds@.len(),
            early@ == half(preds@, has_path, false, i as int),
            late@ == half(preds@, has_path, true, i as int),
        decreases preds.len() - i,
    {
        if !same_text(preds[i].field.as_str(), "count") {
            if predicate_waits_for_a_built_row(seg, &preds[i], has_path) {
                late.push(i);
            } else {
                early.push(i);
            }
        }
        i += 1;
    }
    (early, late)
}

/// Every predicate that is tested on a row is in exactly one half.
pub proof fn lemma_split_partitions(preds: Seq<Predicate>, has_path: bool, n: int, k: usize)
    requires
        0 <= n <= preds.len() <= usize::MAX,
    ensures
        half(preds, has_path, false, n).contains(k) == (k < n && residual(preds[k as int])
            && !waits_on(preds[k as int], has_path)),
        half(preds, has_path, true, n).contains(k) == (k < n && residual(preds[k as int])
            && waits_on(preds[k as int], has_path)),
    decreases n,
{
    if n > 0 {
        lemma_split_partitions(preds, has_path, n - 1, k);
        lemma_push_contains(half(preds, has_path, false, n - 1), (n - 1) as usize, k);
        lemma_push_contains(half(preds, has_path, true, n - 1), (n - 1) as usize, k);
    }
}

proof fn lemma_push_contains(s: Seq<usize>, x: usize, k: usize)
    ensures
        s.push(x).contains(k) == (s.contains(k) || k == x),
{
    let t = s.push(x);
    if s.contains(k) {
        let i = choose|i: int| 0 <= i < s.len() && s[i] == k;
        assert(t[i] == k);
    }
    if k == x {
        assert(t[s.len() as int] == k);
    }
    if t.contains(k) {
        let i = choose|i: int| 0 <= i < t.len() && t[i] == k;
        if i < s.len() {
            assert(s[i] == k);
        }
    }
}

/// The positions of a half are those of predicates.
pub(crate) proof fn lemma_half_in_range(preds: Seq<Predicate>, has_path: bool, late: bool, n: int)
    requires
        0 <= n <= preds.len() <= usize::MAX,
    ensures
        forall|i: int|
            0 <= i < half(preds, has_path, late, n).len() ==> (#[trigger] half(
                preds,
                has_path,
                late,
                n,
            )[i]) < n && residual(preds[half(preds, has_path, late, n)[i] as int]) && waits_on(
                preds[half(preds, has_path, late, n)[i] as int],
                has_path,
            ) == late,
    decreases n,
{
    if n > 0 {
        lemma_half_in_range(preds, has_path, late, n - 1);
        let before = half(preds, has_path, late, n - 1);
        let now = half(preds, has_path, late, n);
        assert forall|i: int| 0 <= i < now.len() implies (#[trigger] now[i]) < n && residual(
            preds[now[i] as int],
        ) && waits_on(preds[now[i] as int], has_path) == late by {
            if i < before.len() {
                assert(now[i] == before[i]);
            }
        }
    }
}

/// Whether an ordering by a field can be applied to views.
pub fn ordering_travels_on_views(order_field: &str) -> (r: bool)
    ensures
        r == view_ranks(canonical_text(order_field@)),
{
    ranks_field_like_a_built_row(canonical(order_field))
}

/// Whether the ordering of a query can be applied to views.
pub fn query_travels_on_views(clauses: &Clauses) -> (r: bool)
    ensures
        r == travels(clauses.order_by),
{
    match &clauses.order_by {
        Some(o) => ordering_travels_on_views(o.field.as_str()),
        None => true,
    }
}

/// Whether every row of a segment can be filtered from its columns.
pub fn segment_rows_can_travel_as_views(seg: &SegmentReader, preds: &Vec<Predicate>) -> (r: bool)
    ensures
        r == rows_travel(preds@),
{
    let (early, late) = split_seg_predicates(seg, preds, true);
    late.len() == 0
}

/// Whether every predicate that is tested on a row can be read from the columns.
pub open spec fn rows_travel(preds: Seq<Predicate>) -> bool {
    half(preds, true, true, preds.len() as int).len() == 0
}

// ───────────────────────────── narrowing ─────────────────────────────

/// The rows of one segment that pass everything a view can test, and the predicates still to test.
pub struct NarrowedSegment {
    pub rows: Vec<u32>,
    pub late: Vec<usize>,
}

/// Whether rows are those of hits, one for each.
pub open spec fn are_hit_rows(rows: Seq<u32>, hits: Seq<Hit>) -> bool {
    rows.len() == hits.len() && forall|i: int|
        0 <= i < rows.len() ==> (#[trigger] rows[i]) == hits[i].row
}

impl ColumnarStorage {
    /// The hits among the first `n` rows of segment `s` that are candidates and pass everything a
    /// view can test.
    pub open spec fn early_hits(
        &self,
        s: int,
        candidates: Set<u32>,
        preds: Seq<Predicate>,
        n: int,
    ) -> Seq<Hit>
        decreases n,
    {
        if n <= 0 {
            seq![]
        } else {
            let rest = self.early_hits(s, candidates, preds, n - 1);
            let h = Hit { seg: s, row: n - 1 };
            if candidates.contains((n - 1) as u32) && self.hit_passes_early(h, preds) {
                rest.push(h)
            } else {
                rest
            }
        }
    }

    proof fn lemma_early_gap(
        &self,
        s: int,
        candidates: Set<u32>,
        preds: Seq<Predicate>,
        a: int,
        b: int,
    )
        requires
            0 <= a <= b,
            forall|r: int|
                a <= r < b ==> !(candidates.contains(r as u32) && #[trigger] self.hit_passes_early(
                    Hit { seg: s, row: r },
                    preds,
                )),
        ensures
            self.early_hits(s, candidates, preds, a) == self.early_hits(s, candidates, preds, b),
        decreases b - a,
    {
        if a < b {
            self.lemma_early_gap(s, candidates, preds, a, b - 1);
            assert(!(candidates.contains((b - 1) as u32) && self.hit_passes_early(
                Hit { seg: s, row: b - 1 },
                preds,
            )));
        }
    }

    /// The postings of a segment keep every row that passes what a view can test.
    proof fn lemma_postings_keep_early(&self, s: int, preds: Seq<Predicate>, r: int, k: int)
        requires
            0 <= s < self.seg_count(),
            self.seg(s).wf(),
            0 <= r < self.seg(s).rows@.len(),
            self.hit_passes_early(Hit { seg: s, row: r }, preds),
            0 <= k < preds.len(),
        ensures
            self.seg(s).posting_keeps(preds[k], r),
    {
        let p = preds[k];
        let seg = self.seg(s);
        if seg.settles(p) {
            let f = canonical_text(p.field@);
            let h = Hit { seg: s, row: r };
            assert(seg.posts(f));
            lemma_posting_fields_are_enrichment(f);
            lemma_posting_fields_are_early(f);
            if !residual(p) {
                lemma_count_is_canonical();
            }
            assert(self.hit_satisfies(h, p));
            assert(self.hit_text(h, f) == seg.extra(f, r));
        }
    }

    /// Narrows one segment to the rows that pass everything a view can test.
    pub fn narrow_one_segment(&self, s: usize, candidates: &RoaringBitmap, clauses: &Clauses) -> (n:
        NarrowedSegment)
        requires
            self.wf(),
            s < self.seg_count(),
        ensures
            are_hit_rows(
                n.rows@,
                self.early_hits(
                    s as int,
                    rows_of(*candidates),
                    clauses.where_predicates@,
                    self.seg(s as int).rows@.len() as int,
                ),
            ),
            forall|i: int|
                0 <= i < n.rows@.len() ==> (#[trigger] n.rows@[i]) < self.seg(s as int).rows@.len(),
            n.late@ == half(
                clauses.where_predicates@,
                true,
                true,
                clauses.where_predicates@.len() as int,
            ),
    {
        let preds = &clauses.where_predicates;
        let ghost cand = rows_of(*candidates);
        let ghost si = s as int;
        let seg = &*self.shared.segments[s];
        assert(self.shared.segments@[s as int].wf());
        let path = self.shared.overlay.segments[s].source_path.as_str();
        let (early, late) = split_seg_predicates(seg, preds, true);
        let kept = seg.prefilter_enrichment_postings(candidates, clauses);
        let list = rows_ascending(&kept);
        let count: u32 = seg.row_count();
        let mut rows: Vec<u32> = Vec::new();
        let ghost mut seen: int = 0;
        let mut i: usize = 0;
        while i < list.len()
            invariant
                self.wf(),
                si == s,
                s < self.seg_count(),
                *seg == self.seg(si),
                seg.wf(),
                count == seg.rows@.len(),
                path@ == self.index().segments@[si].source_path@,
                preds@ == clauses.where_predicates@,
                early@ == half(preds@, true, false, preds@.len() as int),
                cand == rows_of(*candidates),
                list@.to_set() == seg.posted_rows(cand, preds@, preds@.len() as int),
                forall|a: int, b: int| 0 <= a < b < list@.len() ==> list@[a] < list@[b],
                i <= list@.len(),
                seen == (if i == 0 {
                    0
                } else if list@[i - 1] < count {
                    list@[i - 1] + 1
                } else {
                    count as int
                }),
                are_hit_rows(rows@, self.early_hits(si, cand, preds@, seen)),
                forall|a: int| 0 <= a < rows@.len() ==> (#[trigger] rows@[a]) < count,
            decreases list.len() - i,
        {
            let r: u32 = list[i];
            let ghost upto: int = if r < count {
                r as int
            } else {
                count as int
            };
            proof {
                assert forall|q: int| seen <= q < upto implies !(cand.contains(q as u32)
                    && #[trigger] self.hit_passes_early(Hit { seg: si, row: q }, preds@)) by {
                    if cand.contains(q as u32) && self.hit_passes_early(
                        Hit { seg: si, row: q },
                        preds@,
                    ) {
                        self.lemma_kept(si, cand, preds@, q);
                        assert(list@.to_set().contains(q as u32));
                        let k = choose|k: int| 0 <= k < list@.len() && list@[k] == q as u32;
                        if k < i {
                            if k < i - 1 {
                                assert(list@[k] < list@[i - 1]);
                            }
                        } else if k > i {
                            assert(list@[i as int] < list@[k]);
                        }
                    }
                }
                if seen <= upto {
                    self.lemma_early_gap(si, cand, preds@, seen, upto);
                }
                if i > 0 {
                    assert(list@[i - 1] < list@[i as int]);
                }
            }
            if r < count {
                assert(list@.to_set().contains(r));
                let view = RowView::of(seg, Some(path), r);
                let ghost h = Hit { seg: si, row: r as int };
                assert(self.is_view_of(view, h));
                let passes = self.view_passes(&view, preds, &early, Ghost(h));
                if passes {
                    rows.push(r);
                }
                proof {
                    assert((r as int) as u32 == r);
                    let was = self.early_hits(si, cand, preds@, r as int);
                    let now = self.early_hits(si, cand, preds@, r + 1);
                    assert(now == if passes {
                        was.push(h)
                    } else {
                        was
                    });
                    seen = r + 1;
                }
            } else {
                proof {
                    seen = count as int;
                }
            }
            i += 1;
        }
        proof {
            let n = count as int;
            assert forall|q: int| seen <= q < n implies !(cand.contains(q as u32)
                && #[trigger] self.hit_passes_early(Hit { seg: si, row: q }, preds@)) by {
                if cand.contains(q as u32) && self.hit_passes_early(
                    Hit { seg: si, row: q },
                    preds@,
                ) {
                    self.lemma_kept(si, cand, preds@, q);
                    assert(list@.to_set().contains(q as u32));
                    let k = choose|k: int| 0 <= k < list@.len() && list@[k] == q as u32;
                    if k < i - 1 {
                        assert(list@[k] < list@[i - 1]);
                    }
                }
            }
            self.lemma_early_gap(si, cand, preds@, seen, n);
        }
        NarrowedSegment { rows, late }
    }

    proof fn lemma_kept(&self, s: int, cand: Set<u32>, preds: Seq<Predicate>, q: int)
        requires
            self.wf(),
            0 <= s < self.seg_count(),
            0 <= q < self.seg(s).rows@.len(),
            cand.contains(q as u32),
            self.hit_passes_early(Hit { seg: s, row: q }, preds),
        ensures
            self.seg(s).posted_rows(cand, preds, preds.len() as int).contains(q as u32),
    {
        assert(self.shared.segments@[s].wf());
        assert forall|k: int| 0 <= k < preds.len() implies self.seg(s).posting_keeps(
            #[trigger] preds[k],
            (q as u32) as int,
        ) by {
            self.lemma_postings_keep_early(s, preds, q, k);
        }
    }

    fn view_passes(
        &self,
        view: &RowView<'_>,
        preds: &Vec<Predicate>,
        early: &Vec<usize>,
        Ghost(h): Ghost<Hit>,
    ) -> (r: bool)
        requires
            self.is_view_of(*view, h),
            early@ == half(preds@, true, false, preds@.len() as int),
        ensures
            r == self.hit_passes_early(h, preds@),
    {
        let total: usize = preds.len();
        proof {
            lemma_half_in_range(preds@, true, false, preds@.len() as int);
        }
        let mut i: usize = 0;
        while i < early.len()
            invariant
                self.is_view_of(*view, h),
                total == preds@.len(),
                early@ == half(preds@, true, false, preds@.len() as int),
                forall|k: int|
                    0 <= k < early@.len() ==> (#[trigger] early@[k]) < preds@.len() && residual(
                        preds@[early@[k] as int],
                    ) && !waits(preds@[early@[k] as int]),
                i <= early@.len(),
                forall|k: int|
                    0 <= k < i ==> self.hit_satisfies(h, preds@[#[trigger] early@[k] as int]),
            decreases early.len() - i,
        {
            let p = &preds[early[i]];
            proof {
                let f = canonical_text(p.field@);
                self.lemma_view_reads(*view, h, f);
            }
            if !eval_predicate(view, p) {
                assert(!self.hit_satisfies(h, preds@[early@[i as int] as int]));
                return false;
            }
            i += 1;
        }
        proof {
            assert forall|k: int|
                0 <= k < preds@.len() && residual(#[trigger] preds@[k]) && !waits(
                    preds@[k],
                ) implies self.hit_satisfies(h, preds@[k]) by {
                lemma_split_partitions(preds@, true, preds@.len() as int, k as usize);
                let a = choose|a: int| 0 <= a < early@.len() && early@[a] == k as usize;
                assert(self.hit_satisfies(h, preds@[early@[a] as int]));
            }
        }
        true
    }

    /// Where nothing has to wait, what passes early is what matches.
    pub(crate) proof fn lemma_early_is_matched(
        &self,
        s: int,
        candidates: Set<u32>,
        preds: Seq<Predicate>,
        n: int,
    )
        requires
            rows_travel(preds),
            preds.len() <= usize::MAX,
        ensures
            self.early_hits(s, candidates, preds, n) == self.matched(s, candidates, preds, n),
        decreases n,
    {
        if n > 0 {
            self.lemma_early_is_matched(s, candidates, preds, n - 1);
            let h = Hit { seg: s, row: n - 1 };
            assert(self.hit_passes_early(h, preds) == self.hit_matches(h, preds)) by {
                assert forall|k: int| 0 <= k < preds.len() && residual(#[trigger] preds[k]) implies
                    !waits(preds[k]) by {
                    lemma_split_partitions(preds, true, preds.len() as int, k as usize);
                }
            }
        }
    }
}

proof fn lemma_posting_fields_are_early(f: Seq<char>)
    requires
        posting_field(f),
    ensures
        !view_cannot_answer(f),
        !late_field(f),
{
    lemma_posting_fields_are_enrichment(f);
    reveal_strlit("naming");
    reveal_strlit("guard_kind");
    reveal_strlit("guard_defines");
    reveal_strlit("guard_mentions");
    reveal_strlit("guard_negates");
    reveal_strlit("guard_group_id");
    reveal_strlit("key_path");
    reveal_strlit("body");
    reveal_strlit("role");
    assert("body"@.len() == 4 && "role"@.len() == 4);
}

proof fn lemma_count_is_canonical()
    ensures
        canonical_text("count"@) == "count"@,
        !posting_field("count"@),
{
    reveal_strlit("count");
    reveal_strlit("kind");
    reveal_strlit("file");
    reveal_strlit("lang");
    assert("count"@.len() == 5 && "kind"@.len() == 4 && "file"@.len() == 4 && "lang"@.len() == 4);
    if posting_field("count"@) {
        lemma_posting_fields_are_enrichment("count"@);
    }
}

} // verus!
