//! Choosing the rows that a query delivers.
//!
//! Where every predicate and the ordering can be read from the columns, a page is chosen from row
//! views and only its rows are built. Where not, rows are built segment by segment, and those that
//! cannot make the page are shed as they come. Every segment is read on both routes, and what is
//! shed is counted.

use crate::clauses::{Clauses, OrderBy, Predicate};
use crate::collapse::{
    collapsed, dedupe_symbol_matches, dedupe_views_of_segment, distinct_by, lemma_collapse_follows,
    lemma_distinct_members, Collapsible, CollapseKey,
};
use crate::columnar_storage::budgets::{
    doubled, topk_keep, trim_at, trim_point, FindBounds, FindRefusal,
};
use crate::columnar_storage::candidates::rows_by_segment;
use crate::columnar_storage::gates::{topk_trim_for, trim_bound, view_page_bound_for, page_bound};
use crate::columnar_storage::hits::{lemma_top_k_follows, residual, travels, waits, Hit};
use crate::columnar_storage::narrow::{
    are_hit_rows, half, lemma_half_in_range, lemma_split_partitions, query_travels_on_views,
    rows_travel, segment_rows_can_travel_as_views, NarrowedSegment,
};
use crate::columnar_storage::ColumnarStorage;
use crate::fields::canonical_text;
use crate::filter::{collect_top_k, eval_predicate, first, reader_of, row_before, ClauseTarget};
use crate::order::PathTable;
use crate::rows::rows_of;
use crate::overlay::paths_repeat;
use crate::segment::{unless_empty, RowView, SymbolMatch};
use crate::sort::{distinct_positions, lemma_sorted_order_distinct, pick, sorted_order};
use crate::top_k::{
    lemma_arrivals_trimmed, lemma_head_of_longer, lemma_ordered, lemma_ordered_members,
    lemma_trim_changes_no_page, no_ties, ordered,
};
use roaring::RoaringBitmap;
use crate::path_parts::plainly;
use vstd::prelude::*;
use vstd::string::*;

verus! {

// ───────────────────────────── views ─────────────────────────────

impl ColumnarStorage {
    fn views_of_rows<'a>(&'a self, s: usize, rows: &Vec<u32>) -> (views: Vec<RowView<'a>>)
        requires
            self.wf(),
            s < self.seg_count(),
            forall|i: int|
                0 <= i < rows@.len() ==> (#[trigger] rows@[i]) < self.seg(s as int).rows@.len(),
        ensures
            views@.len() == rows@.len(),
            forall|i: int|
                0 <= i < views@.len() ==> self.is_view_of(
                    #[trigger] views@[i],
                    Hit { seg: s as int, row: rows@[i] as int },
                ),
    {
        let seg = &*self.shared.segments[s];
        let path = self.shared.overlay.segments[s].source_path.as_str();
        let mut views: Vec<RowView<'a>> = Vec::new();
        let mut i: usize = 0;
        while i < rows.len()
            invariant
                s < self.seg_count(),
                self.wf(),
                *seg == self.seg(s as int),
                path@ == self.index().segments@[s as int].source_path@,
                forall|k: int|
                    0 <= k < rows@.len() ==> (#[trigger] rows@[k]) < self.seg(
                        s as int,
                    ).rows@.len(),
                i <= rows@.len(),
                views@.len() == i,
                forall|k: int|
                    0 <= k < i ==> self.is_view_of(
                        #[trigger] views@[k],
                        Hit { seg: s as int, row: rows@[k] as int },
                    ),
            decreases rows.len() - i,
        {
            views.push(RowView::of(seg, Some(path), rows[i]));
            i += 1;
        }
        views
    }

    /// The views of a segment's matching rows, each reported once.
    fn distinct_views<'a>(
        &'a self,
        s: usize,
        rows: &Vec<u32>,
        Ghost(hits): Ghost<Seq<Hit>>,
    ) -> (views: Vec<RowView<'a>>)
        requires
            self.wf(),
            s < self.seg_count(),
            are_hit_rows(rows@, hits),
            forall|i: int| 0 <= i < hits.len() ==> (#[trigger] hits[i]).seg == s,
            forall|i: int|
                0 <= i < rows@.len() ==> (#[trigger] rows@[i]) < self.seg(s as int).rows@.len(),
        ensures
            self.are_views(views@, distinct_by(hits, self.hit_key(), hits.len() as int)),
    {
        let all = self.views_of_rows(s, rows);
        proof {
            let stands = |v: RowView<'a>, h: Hit| self.is_view_of(v, h);
            assert forall|i: int| 0 <= i < all@.len() implies stands(#[trigger] all@[i], hits[i]) by {
                assert(rows@[i] == hits[i].row);
                assert(hits[i] == Hit { seg: s as int, row: rows@[i] as int });
            }
            assert forall|i: int, j: int|
                #![trigger all@[i], all@[j]]
                0 <= i < j < all@.len() implies (all@[i].key_view() == all@[j].key_view()) == ((
            self.hit_key())(hits[i]) == (self.hit_key())(hits[j])) by {
                assert(stands(all@[i], hits[i]));
                assert(stands(all@[j], hits[j]));
                assert(all@[i].key() == (self.hit_key())(hits[i]));
                assert(all@[j].key() == (self.hit_key())(hits[j]));
                let (a, b) = (all@[i].key_view(), all@[j].key_view());
                if a == b {
                    assert(a.line == b.line);
                }
            }
            lemma_collapse_follows(all@, hits, self.hit_key(), stands, all@.len() as int);
        }
        let ghost start = all@;
        let out = dedupe_views_of_segment(all);
        proof {
            let stands = |v: RowView<'a>, h: Hit| self.is_view_of(v, h);
            let left = distinct_by(hits, self.hit_key(), hits.len() as int);
            assert forall|i: int| 0 <= i < out@.len() implies self.is_view_of(
                #[trigger] out@[i],
                left[i],
            ) by {
                assert(stands(collapsed(start, start.len() as int)[i], left[i]));
            }
        }
        out
    }

    /// The segments in path order.
    pub fn ordered_segments(&self) -> (order: Vec<usize>)
        requires
            self.wf(),
        ensures
            self.orders_segments(order@),
            order@.len() == self.seg_count(),
            forall|i: int| 0 <= i < order@.len() ==> (#[trigger] order@[i]) < self.seg_count(),
            forall|i: int, j: int|
                #![trigger order@[i], order@[j]]
                0 <= i < j < order@.len() ==> order@[i] != order@[j],
    {
        let metas = &self.shared.overlay.segments;
        let mut paths: Vec<String> = Vec::new();
        let mut i: usize = 0;
        while i < metas.len()
            invariant
                metas@ == self.index().segments@,
                i <= metas@.len(),
                paths@.len() == i,
                forall|k: int| 0 <= k < i ==> (#[trigger] paths@[k])@ == metas@[k].source_path@,
            decreases metas.len() - i,
        {
            paths.push(metas[i].source_path.clone());
            i += 1;
        }
        let table = PathTable { items: &paths };
        let order = sorted_order(&table);
        proof {
            lemma_sorted_order_distinct(&table, order@);
            assert(self.are_paths(paths@));
        }
        order
    }

    // ───────────────────────────── a page from views ─────────────────────────────

    /// How many views a scan for a page of `need` carries after the first `n` segments.
    pub open spec fn carried_after(
        &self,
        order: Seq<usize>,
        by: Seq<Set<u32>>,
        preds: Seq<Predicate>,
        need: usize,
        n: int,
    ) -> nat
        decreases n,
    {
        if n <= 0 {
            0
        } else {
            let s = order[n - 1] as int;
            let len = self.carried_after(order, by, preds, need, n - 1) + self.segment_hits(
                s,
                by[s],
                preds,
            ).len();
            if len > trim_point(need) && len > doubled(need) {
                doubled(need) as nat
            } else {
                len
            }
        }
    }

    /// Whether a scan for a page of `need` never carries more than `max` views.
    pub open spec fn carries_within(
        &self,
        order: Seq<usize>,
        by: Seq<Set<u32>>,
        preds: Seq<Predicate>,
        need: usize,
        max: usize,
    ) -> bool {
        forall|n: int|
            0 <= n <= order.len() ==> #[trigger] self.carried_after(order, by, preds, need, n)
                <= max
    }

    /// Whether `r` is the page that a query's matching rows give, with how many more there are.
    pub open spec fn is_page(
        &self,
        order: Seq<usize>,
        by: Seq<Set<u32>>,
        clauses: Clauses,
        need: usize,
        bounds: FindBounds,
        hits: Seq<Hit>,
        r: Result<(Vec<SymbolMatch>, usize), FindRefusal>,
    ) -> bool {
        let preds = clauses.where_predicates@;
        let before = self.hit_before(clauses.order_by);
        let all = self.hits_upto(order, by, preds, order.len() as int);
        match r {
            Ok(page) => {
                &&& self.are_rows(page.0@, hits)
                &&& ordered(hits, before) == first(ordered(all, before), need as nat)
                &&& page.1 == capped_len(all.len() - hits.len())
                &&& hits.len() <= bounds.rows
                &&& self.carries_within(order, by, preds, need, bounds.views)
            },
            Err(FindRefusal::Carried { max }) => max == bounds.views && !self.carries_within(
                order,
                by,
                preds,
                need,
                bounds.views,
            ),
            Err(FindRefusal::Built { max }) => {
                &&& max == bounds.rows
                &&& first(ordered(all, before), need as nat).len() > bounds.rows
                &&& self.carries_within(order, by, preds, need, bounds.views)
            },
            Err(_) => false,
        }
    }

    fn trimmed_views<'a>(
        &'a self,
        views: Vec<RowView<'a>>,
        keep: usize,
        clauses: &Clauses,
        Ghost(hits): Ghost<Seq<Hit>>,
    ) -> (out: Vec<RowView<'a>>)
        requires
            self.are_views(views@, hits),
            travels(clauses.order_by),
        ensures
            self.are_views(
                out@,
                first(ordered(hits, self.hit_before(clauses.order_by)), keep as nat),
            ),
    {
        let count: usize = views.len();
        let ghost start = views@;
        proof {
            assert forall|i: int| 0 <= i < views@.len() implies (
            #[trigger] views@[i]).readable() by {
                assert(self.is_view_of(views@[i], hits[i]));
            }
        }
        let out = collect_top_k(views, keep, clauses);
        proof {
            let before = self.hit_before(clauses.order_by);
            let stands = |v: RowView<'a>, h: Hit| self.is_view_of(v, h);
            self.lemma_hits_weak(clauses.order_by);
            assert forall|i: int, j: int|
                #![trigger start[i], start[j]]
                0 <= i < start.len() && 0 <= j < start.len() implies row_before(
                reader_of(&start[i]),
                reader_of(&start[j]),
                clauses.order_by,
            ) == before(hits[i], hits[j]) by {
                self.lemma_views_rank(start[i], start[j], hits[i], hits[j], clauses.order_by);
            }
            assert forall|i: int| 0 <= i < start.len() implies stands(
                #[trigger] start[i],
                hits[i],
            ) by {
                assert(self.is_view_of(start[i], hits[i]));
            }
            lemma_top_k_follows(
                start,
                hits,
                clauses.order_by,
                keep as nat,
                out@,
                before,
                stands,
            );
            let best = first(ordered(hits, before), keep as nat);
            assert forall|i: int| 0 <= i < out@.len() implies self.is_view_of(
                #[trigger] out@[i],
                best[i],
            ) by {
                assert(stands(out@[i], best[i]));
            }
        }
        out
    }

    fn build_views<'a>(&'a self, views: &Vec<RowView<'a>>, Ghost(hits): Ghost<Seq<Hit>>) -> (rows:
        Vec<SymbolMatch>)
        requires
            self.wf(),
            self.are_views(views@, hits),
        ensures
            self.are_rows(rows@, hits),
    {
        let mut rows: Vec<SymbolMatch> = Vec::new();
        let mut i: usize = 0;
        while i < views.len()
            invariant
                self.wf(),
                self.are_views(views@, hits),
                i <= views@.len(),
                rows@.len() == i,
                forall|k: int|
                    0 <= k < i ==> self.seg(hits[k].seg).builds(
                        hits[k].row,
                        Some(self.hit_path(hits[k])),
                        #[trigger] rows@[k],
                    ),
            decreases views.len() - i,
        {
            assert(self.is_view_of(views@[i as int], hits[i as int]));
            rows.push(views[i].materialize());
            i += 1;
        }
        let ghost bare = rows@;
        self.stamp_usage_counts(&mut rows);
        proof {
            assert forall|i: int| 0 <= i < rows@.len() implies self.stands_for(
                #[trigger] rows@[i],
                hits[i],
            ) by {
                assert(self.is_view_of(views@[i], hits[i]));
                assert(self.seg(hits[i].seg).builds(
                    hits[i].row,
                    Some(self.hit_path(hits[i])),
                    bare[i],
                ));
                let stored = Some(self.hit_row(hits[i]).usages_count as usize);
                assert((SymbolMatch { usages_count: stored, ..rows@[i] }) == bare[i]);
            }
        }
        rows
    }

    /// Whether a scan for a page of `need` has lost nothing of the first `n` segments that the page
    /// needs.
    spec fn viewed(
        &self,
        order: Seq<usize>,
        by: Seq<Set<u32>>,
        clauses: Clauses,
        need: usize,
        hits: Seq<Hit>,
        shed: usize,
        n: int,
    ) -> bool {
        let before = self.hit_before(clauses.order_by);
        let all = self.hits_upto(order, by, clauses.where_predicates@, n);
        &&& hits.len() <= all.len()
        &&& shed == capped_len(all.len() - hits.len())
        &&& first(ordered(hits, before), need as nat) == first(ordered(all, before), need as nat)
    }

    /// What a scan holds once more hits have come: all of them, or the best where they are many.
    spec fn stepped(&self, hits: Seq<Hit>, more: Seq<Hit>, k: usize, order_by: Option<OrderBy>) -> Seq<
        Hit,
    > {
        let all = hits + more;
        if all.len() > trim_point(k) {
            first(ordered(all, self.hit_before(order_by)), doubled(k) as nat)
        } else {
            all
        }
    }

    proof fn lemma_view_step(
        &self,
        order: Seq<usize>,
        by: Seq<Set<u32>>,
        clauses: Clauses,
        need: usize,
        hits: Seq<Hit>,
        shed: usize,
        n: int,
    )
        requires
            0 <= n < order.len(),
            self.viewed(order, by, clauses, need, hits, shed, n),
            hits.len() == self.carried_after(order, by, clauses.where_predicates@, need, n),
        ensures
            ({
                let s = order[n] as int;
                let fresh = self.segment_hits(s, by[s], clauses.where_predicates@);
                let now = self.stepped(hits, fresh, need, clauses.order_by);
                &&& self.viewed(
                    order,
                    by,
                    clauses,
                    need,
                    now,
                    capped_len(shed + (hits.len() + fresh.len() - now.len())),
                    n + 1,
                )
                &&& now.len() == self.carried_after(
                    order,
                    by,
                    clauses.where_predicates@,
                    need,
                    n + 1,
                )
                &&& now.len() <= hits.len() + fresh.len()
            }),
    {
        let s = order[n] as int;
        let preds = clauses.where_predicates@;
        let before = self.hit_before(clauses.order_by);
        let all = self.hits_upto(order, by, preds, n);
        let fresh = self.segment_hits(s, by[s], preds);
        let joined = hits + fresh;
        self.lemma_hits_weak(clauses.order_by);
        lemma_head_of_longer(hits, all, fresh, need as nat, before);
        assert(self.hits_upto(order, by, preds, n + 1) == all + fresh);
        lemma_ordered(joined, before);
        lemma_trim_changes_no_page(joined, doubled(need) as nat, need as nat, before);
    }

    /// Takes in the matching rows of one segment, and gives how many were shed.
    fn take_views<'a>(
        &'a self,
        kept: Vec<RowView<'a>>,
        s: usize,
        candidates: &RoaringBitmap,
        clauses: &Clauses,
        need: usize,
        Ghost(hits): Ghost<Seq<Hit>>,
    ) -> (r: (Vec<RowView<'a>>, usize))
        requires
            self.wf(),
            s < self.seg_count(),
            travels(clauses.order_by),
            rows_travel(clauses.where_predicates@),
            self.are_views(kept@, hits),
        ensures
            ({
                let fresh = self.segment_hits(
                    s as int,
                    rows_of(*candidates),
                    clauses.where_predicates@,
                );
                let now = self.stepped(hits, fresh, need, clauses.order_by);
                &&& self.are_views(r.0@, now)
                &&& r.1 == hits.len() + fresh.len() - now.len()
            }),
    {
        let ghost si = s as int;
        let ghost cand = rows_of(*candidates);
        let ghost preds = clauses.where_predicates@;
        let ghost fresh = self.segment_hits(si, cand, preds);
        let total_preds: usize = clauses.where_predicates.len();
        let narrowed = self.narrow_one_segment(s, candidates, clauses);
        let ghost size = self.seg(si).rows@.len() as int;
        let ghost matched = self.matched(si, cand, preds, size);
        proof {
            self.lemma_early_is_matched(si, cand, preds, size);
            self.lemma_matched_members(si, cand, preds, size);
        }
        let mut more = self.distinct_views(s, &narrowed.rows, Ghost(matched));
        let ghost was = kept@;
        let ghost added = more@;
        let mut all = kept;
        all.append(&mut more);
        let ghost joined = hits + fresh;
        proof {
            assert forall|i: int| 0 <= i < all@.len() implies self.is_view_of(
                #[trigger] all@[i],
                joined[i],
            ) by {
                if i < was.len() {
                    assert(all@[i] == was[i]);
                } else {
                    assert(all@[i] == added[i - was.len()]);
                }
            }
        }
        let count: usize = all.len();
        if count > trim_at(need) {
            let best = self.trimmed_views(all, topk_keep(need), clauses, Ghost(joined));
            proof {
                self.lemma_hits_weak(clauses.order_by);
                lemma_ordered(joined, self.hit_before(clauses.order_by));
            }
            let left: usize = best.len();
            (best, count - left)
        } else {
            (all, 0)
        }
    }

    /// Chooses a page of `need` rows from views, and builds only its rows.
    ///
    /// The page is the head of every matching row in the query's order, and the second part counts
    /// the matching rows that are not on it.
    #[verifier::rlimit(60)]
    pub fn page_from_row_views(
        &self,
        by_segment: &Vec<RoaringBitmap>,
        clauses: &Clauses,
        need: usize,
        bounds: FindBounds,
    ) -> (r: Result<(Vec<SymbolMatch>, usize), FindRefusal>)
        requires
            self.wf(),
            by_segment@.len() == self.seg_count(),
            travels(clauses.order_by),
            rows_travel(clauses.where_predicates@),
        ensures
            exists|order: Seq<usize>, hits: Seq<Hit>|
                self.orders_segments(order) && #[trigger] self.is_page(
                    order,
                    rows_by_segment(by_segment@),
                    *clauses,
                    need,
                    bounds,
                    hits,
                    r,
                ),
    {
        let order = self.ordered_segments();
        let ghost by = rows_by_segment(by_segment@);
        let ghost preds = clauses.where_predicates@;
        let ghost before = self.hit_before(clauses.order_by);
        let mut kept: Vec<RowView<'_>> = Vec::new();
        let ghost mut hits: Seq<Hit> = seq![];
        let mut shed: usize = 0;
        let mut n: usize = 0;
        while n < order.len()
            invariant
                self.wf(),
                by_segment@.len() == self.seg_count(),
                by == rows_by_segment(by_segment@),
                preds == clauses.where_predicates@,
                travels(clauses.order_by),
                rows_travel(preds),
                self.orders_segments(order@),
                forall|i: int| 0 <= i < order@.len() ==> (#[trigger] order@[i]) < self.seg_count(),
                n <= order@.len(),
                self.are_views(kept@, hits),
                self.viewed(order@, by, *clauses, need, hits, shed, n as int),
                hits.len() == self.carried_after(order@, by, preds, need, n as int),
                forall|m: int|
                    0 <= m <= n ==> #[trigger] self.carried_after(order@, by, preds, need, m)
                        <= bounds.views,
            decreases order.len() - n,
        {
            let s: usize = order[n];
            let ghost fresh = self.segment_hits(s as int, by[s as int], preds);
            assert(by[s as int] == rows_of(by_segment@[s as int]));
            proof {
                self.lemma_view_step(order@, by, *clauses, need, hits, shed, n as int);
            }
            let mut taken: Vec<RowView<'_>> = Vec::new();
            core::mem::swap(&mut taken, &mut kept);
            let (now, dropped) = self.take_views(
                taken,
                s,
                &by_segment[s],
                clauses,
                need,
                Ghost(hits),
            );
            proof {
                hits = self.stepped(hits, fresh, need, clauses.order_by);
            }
            kept = now;
            shed = add_capped(shed, dropped);
            n += 1;
            if kept.len() > bounds.views {
                let r: Result<(Vec<SymbolMatch>, usize), FindRefusal> = Err(
                    FindRefusal::Carried { max: bounds.views },
                );
                proof {
                    assert(self.carried_after(order@, by, preds, need, n as int) > bounds.views);
                    assert(self.is_page(order@, by, *clauses, need, bounds, hits, r));
                }
                return r;
            }
        }
        proof {
            self.lemma_hits_weak(clauses.order_by);
        }
        let ghost all = self.hits_upto(order@, by, preds, order@.len() as int);
        proof {
            assert(self.carries_within(order@, by, preds, need, bounds.views));
            lemma_ordered(hits, before);
            lemma_ordered(all, before);
        }
        if kept.len() > need {
            let count: usize = kept.len();
            let ghost window = hits;
            kept = self.trimmed_views(kept, need, clauses, Ghost(hits));
            proof {
                lemma_trim_changes_no_page(window, need as nat, need as nat, before);
                hits = first(ordered(window, before), need as nat);
                lemma_ordered(hits, before);
                assert(ordered(hits, before) == hits) by {
                    crate::top_k::lemma_ordered_of_ordered(hits, before);
                }
            }
            shed = add_capped(shed, count - kept.len());
        }
        proof {
            assert(ordered(hits, before) == first(ordered(all, before), need as nat));
        }
        if kept.len() > bounds.rows {
            let r: Result<(Vec<SymbolMatch>, usize), FindRefusal> = Err(
                FindRefusal::Built { max: bounds.rows },
            );
            assert(self.is_page(order@, by, *clauses, need, bounds, hits, r));
            return r;
        }
        let rows = self.build_views(&kept, Ghost(hits));
        let r: Result<(Vec<SymbolMatch>, usize), FindRefusal> = Ok((rows, shed));
        assert(self.is_page(order@, by, *clauses, need, bounds, hits, r));
        r
    }
}

/// A count, as far as it goes.
pub open spec fn capped_len(n: int) -> usize {
    if n > usize::MAX {
        usize::MAX
    } else if n < 0 {
        0
    } else {
        n as usize
    }
}

pub(crate) fn add_capped(a: usize, b: usize) -> (c: usize)
    ensures
        c == capped_len(a + b),
{
    let sum: u128 = a as u128 + b as u128;
    if sum > usize::MAX as u128 {
        usize::MAX
    } else {
        sum as usize
    }
}


// ───────────────────────────── building as it goes ─────────────────────────────

impl ColumnarStorage {
    /// The hits among the first `n` of a list that match.
    spec fn matching(&self, hits: Seq<Hit>, preds: Seq<Predicate>, n: int) -> Seq<Hit>
        decreases n,
    {
        if n <= 0 {
            seq![]
        } else if self.hit_matches(hits[n - 1], preds) {
            self.matching(hits, preds, n - 1).push(hits[n - 1])
        } else {
            self.matching(hits, preds, n - 1)
        }
    }

    proof fn lemma_matching_extends(&self, a: Seq<Hit>, h: Hit, preds: Seq<Predicate>, n: int)
        requires
            0 <= n <= a.len(),
        ensures
            self.matching(a.push(h), preds, n) == self.matching(a, preds, n),
        decreases n,
    {
        if n > 0 {
            self.lemma_matching_extends(a, h, preds, n - 1);
            assert(a.push(h)[n - 1] == a[n - 1]);
        }
    }

    /// What matches is what passes early and then matches.
    proof fn lemma_matched_after_early(
        &self,
        s: int,
        candidates: Set<u32>,
        preds: Seq<Predicate>,
        n: int,
    )
        ensures
            self.matching(
                self.early_hits(s, candidates, preds, n),
                preds,
                self.early_hits(s, candidates, preds, n).len() as int,
            ) == self.matched(s, candidates, preds, n),
        decreases n,
    {
        if n > 0 {
            self.lemma_matched_after_early(s, candidates, preds, n - 1);
            let was = self.early_hits(s, candidates, preds, n - 1);
            let h = Hit { seg: s, row: n - 1 };
            if candidates.contains((n - 1) as u32) && self.hit_passes_early(h, preds) {
                self.lemma_matching_extends(was, h, preds, was.len() as int);
                assert(was.push(h)[was.len() as int] == h);
            }
        }
    }

    proof fn lemma_early_members(
        &self,
        s: int,
        candidates: Set<u32>,
        preds: Seq<Predicate>,
        n: int,
    )
        requires
            0 <= n,
        ensures
            self.early_hits(s, candidates, preds, n).len() <= n,
            forall|i: int|
                0 <= i < self.early_hits(s, candidates, preds, n).len() ==> {
                    let h = #[trigger] self.early_hits(s, candidates, preds, n)[i];
                    h.seg == s && 0 <= h.row < n && self.hit_passes_early(h, preds)
                },
        decreases n,
    {
        if n > 0 {
            self.lemma_early_members(s, candidates, preds, n - 1);
            let before = self.early_hits(s, candidates, preds, n - 1);
            let now = self.early_hits(s, candidates, preds, n);
            assert forall|i: int| 0 <= i < now.len() implies {
                let h = #[trigger] now[i];
                h.seg == s && 0 <= h.row < n && self.hit_passes_early(h, preds)
            } by {
                if i < before.len() {
                    assert(now[i] == before[i]);
                }
            }
        }
    }

    fn row_passes(
        &self,
        row: &SymbolMatch,
        preds: &Vec<Predicate>,
        late: &Vec<usize>,
        Ghost(h): Ghost<Hit>,
    ) -> (r: bool)
        requires
            self.stands_for(*row, h),
            self.hit_passes_early(h, preds@),
            late@ == half(preds@, true, true, preds@.len() as int),
        ensures
            r == self.hit_matches(h, preds@),
    {
        let total: usize = preds.len();
        proof {
            lemma_half_in_range(preds@, true, true, preds@.len() as int);
        }
        let mut i: usize = 0;
        while i < late.len()
            invariant
                self.stands_for(*row, h),
                total == preds@.len(),
                late@ == half(preds@, true, true, preds@.len() as int),
                forall|k: int|
                    0 <= k < late@.len() ==> (#[trigger] late@[k]) < preds@.len() && residual(
                        preds@[late@[k] as int],
                    ),
                i <= late@.len(),
                forall|k: int|
                    0 <= k < i ==> self.hit_satisfies(h, preds@[#[trigger] late@[k] as int]),
            decreases late.len() - i,
        {
            let p = &preds[late[i]];
            proof {
                self.lemma_row_reads(*row, h, canonical_text(p.field@));
            }
            if !eval_predicate(row, p) {
                assert(!self.hit_satisfies(h, preds@[late@[i as int] as int]));
                return false;
            }
            i += 1;
        }
        proof {
            assert forall|k: int|
                0 <= k < preds@.len() && residual(#[trigger] preds@[k]) implies self.hit_satisfies(
                h,
                preds@[k],
            ) by {
                if waits(preds@[k]) {
                    lemma_split_partitions(preds@, true, preds@.len() as int, k as usize);
                    let a = choose|a: int| 0 <= a < late@.len() && late@[a] == k as usize;
                    assert(self.hit_satisfies(h, preds@[late@[a] as int]));
                }
            }
        }
        true
    }

    /// Leaves off the built rows that a predicate still to be tested does not hold of.
    fn matching_rows(
        &self,
        rows: Vec<SymbolMatch>,
        preds: &Vec<Predicate>,
        late: &Vec<usize>,
        Ghost(hits): Ghost<Seq<Hit>>,
    ) -> (out: Vec<SymbolMatch>)
        requires
            self.are_rows(rows@, hits),
            forall|i: int|
                0 <= i < hits.len() ==> self.hit_passes_early(#[trigger] hits[i], preds@),
            late@ == half(preds@, true, true, preds@.len() as int),
        ensures
            self.are_rows(out@, self.matching(hits, preds@, hits.len() as int)),
    {
        let mut keep: Vec<usize> = Vec::new();
        let mut i: usize = 0;
        let count: usize = rows.len();
        while i < count
            invariant
                count == rows@.len(),
                self.are_rows(rows@, hits),
                forall|k: int|
                    0 <= k < hits.len() ==> self.hit_passes_early(#[trigger] hits[k], preds@),
                late@ == half(preds@, true, true, preds@.len() as int),
                i <= count,
                distinct_positions(keep@, count as int),
                forall|a: int| 0 <= a < keep@.len() ==> (#[trigger] keep@[a]) < i,
                keep@.len() == self.matching(hits, preds@, i as int).len(),
                forall|a: int|
                    0 <= a < keep@.len() ==> hits[#[trigger] keep@[a] as int] == self.matching(
                        hits,
                        preds@,
                        i as int,
                    )[a],
            decreases count - i,
        {
            assert(self.stands_for(rows@[i as int], hits[i as int]));
            if self.row_passes(&rows[i], preds, late, Ghost(hits[i as int])) {
                keep.push(i);
            }
            i += 1;
        }
        let ghost start = rows@;
        let out = pick(rows, &keep);
        proof {
            let want = self.matching(hits, preds@, hits.len() as int);
            assert forall|a: int| 0 <= a < out@.len() implies self.stands_for(
                #[trigger] out@[a],
                want[a],
            ) by {
                assert(out@[a] == start[keep@[a] as int]);
                assert(self.stands_for(start[keep@[a] as int], hits[keep@[a] as int]));
            }
        }
        out
    }

    /// Collapses the built rows of one segment.
    fn distinct_rows(&self, rows: Vec<SymbolMatch>, Ghost(hits): Ghost<Seq<Hit>>, Ghost(s): Ghost<int>) -> (out:
        Vec<SymbolMatch>)
        requires
            self.are_rows(rows@, hits),
            forall|i: int| 0 <= i < hits.len() ==> (#[trigger] hits[i]).seg == s,
        ensures
            self.are_rows(out@, distinct_by(hits, self.hit_key(), hits.len() as int)),
    {
        let ghost start = rows@;
        proof {
            let stands = |m: SymbolMatch, h: Hit| self.stands_for(m, h);
            assert forall|i: int| 0 <= i < start.len() implies stands(
                #[trigger] start[i],
                hits[i],
            ) by {
                assert(self.stands_for(start[i], hits[i]));
            }
            assert forall|i: int, j: int|
                #![trigger start[i], start[j]]
                0 <= i < j < start.len() implies (start[i].key_view() == start[j].key_view()) == ((
            self.hit_key())(hits[i]) == (self.hit_key())(hits[j])) by {
                self.lemma_row_key(start[i], hits[i]);
                self.lemma_row_key(start[j], hits[j]);
                let (a, b) = (start[i].key_view(), start[j].key_view());
                let (x, y) = ((self.hit_key())(hits[i]), (self.hit_key())(hits[j]));
                if a == b {
                    assert(a.line == b.line && a.name == b.name && a.kind == b.kind);
                    assert(x == y);
                }
                if x == y {
                    assert(a == b);
                }
            }
            lemma_collapse_follows(start, hits, self.hit_key(), stands, start.len() as int);
        }
        let out = dedupe_symbol_matches(rows);
        proof {
            let stands = |m: SymbolMatch, h: Hit| self.stands_for(m, h);
            let left = distinct_by(hits, self.hit_key(), hits.len() as int);
            assert forall|i: int| 0 <= i < out@.len() implies self.stands_for(
                #[trigger] out@[i],
                left[i],
            ) by {
                assert(stands(collapsed(start, start.len() as int)[i], left[i]));
            }
        }
        out
    }

    proof fn lemma_row_key(&self, m: SymbolMatch, h: Hit)
        requires
            self.stands_for(m, h),
        ensures
            m.key_view() == (CollapseKey {
                name: self.hit_row(h).name@,
                kind: unless_empty(self.hit_row(h).fql_kind@),
                path: Some(plainly(self.hit_path(h))),
                line: if self.hit_row(h).line == 0 {
                    None
                } else {
                    Some(self.hit_row(h).line as usize)
                },
            }),
    {
        let bare = SymbolMatch {
            usages_count: Some(self.hit_row(h).usages_count as usize),
            ..m
        };
        assert(bare.name@ == self.hit_row(h).name@);
        assert(bare.fql_kind == m.fql_kind && bare.path == m.path && bare.line == m.line);
    }

    /// How many rows a trim keeps for this query, where dropping rows by rank is sound: no two
    /// segments hold rows of one file.
    pub open spec fn trims(&self, clauses: Clauses) -> Option<usize> {
        if paths_repeat(self.index().segments@) {
            None
        } else {
            trim_bound(clauses)
        }
    }

    /// How many rows a trim keeps for this query, where dropping rows by rank is sound.
    pub fn trim_budget(&self, clauses: &Clauses) -> (r: Option<usize>)
        requires
            self.wf(),
        ensures
            r == self.trims(*clauses),
    {
        if self.shared.overlay.has_duplicate_paths() {
            None
        } else {
            topk_trim_for(clauses)
        }
    }

    /// Whether a segment chooses the rows it contributes before it builds any.
    pub open spec fn chooses(&self, s: int, candidates: Set<u32>, clauses: Clauses) -> bool {
        &&& self.trims(clauses) is Some
        &&& rows_travel(clauses.where_predicates@)
        &&& travels(clauses.order_by)
        &&& self.matched(
            s,
            candidates,
            clauses.where_predicates@,
            self.seg(s).rows@.len() as int,
        ).len() > trim_point(self.trims(clauses)->0)
    }

    /// The hits that a segment contributes: all that match, or the best of them where it chooses.
    pub open spec fn contribution(&self, s: int, candidates: Set<u32>, clauses: Clauses) -> Seq<Hit> {
        let all = self.segment_hits(s, candidates, clauses.where_predicates@);
        if self.chooses(s, candidates, clauses) {
            first(
                ordered(all, self.hit_before(clauses.order_by)),
                doubled(self.trims(clauses)->0) as nat,
            )
        } else {
            all
        }
    }

    /// The hits that rows of segment `s` are.
    pub open spec fn row_hits(s: int, rows: Seq<u32>) -> Seq<Hit> {
        Seq::new(rows.len(), |i: int| Hit { seg: s, row: rows[i] as int })
    }

    /// The matching rows of a segment that stand for each answer it holds.
    pub open spec fn distinct_hits(&self, s: int, rows: Seq<u32>) -> Seq<Hit> {
        let hits = ColumnarStorage::row_hits(s, rows);
        distinct_by(hits, self.hit_key(), hits.len() as int)
    }

    /// Whether a narrowed segment can choose the rows it contributes before it builds any.
    pub open spec fn can_choose(n: NarrowedSegment, clauses: Clauses, trim: Option<usize>) -> bool {
        &&& trim is Some
        &&& n.late@.len() == 0
        &&& n.rows@.len() > trim_point(trim->0)
        &&& travels(clauses.order_by)
    }

    /// The rows that a narrowed segment contributes, chosen from its columns, and how many answers
    /// that leaves out. Nothing is chosen where a predicate is still to run, where the ordering
    /// cannot be read from the columns, or where there are too few rows for a trim to shed any.
    ///
    /// Rows that report the same answer count once, before the best are chosen.
    pub fn topk_rows_of_segment(
        &self,
        s: usize,
        narrowed: &NarrowedSegment,
        clauses: &Clauses,
        trim: Option<usize>,
    ) -> (r: Option<(Vec<u32>, usize)>)
        requires
            self.wf(),
            s < self.seg_count(),
            forall|i: int|
                0 <= i < narrowed.rows@.len() ==> (#[trigger] narrowed.rows@[i]) < self.seg(
                    s as int,
                ).rows@.len(),
        ensures
            r is Some <==> ColumnarStorage::can_choose(*narrowed, *clauses, trim),
            r is Some ==> {
                let all = self.distinct_hits(s as int, narrowed.rows@);
                let best = first(
                    ordered(all, self.hit_before(clauses.order_by)),
                    doubled(trim->0) as nat,
                );
                &&& are_hit_rows((r->0).0@, best)
                &&& (r->0).1 == all.len() - best.len()
                &&& forall|i: int|
                    0 <= i < (r->0).0@.len() ==> (#[trigger] (r->0).0@[i]) < self.seg(
                        s as int,
                    ).rows@.len()
            },
    {
        match trim {
            Some(k) => {
                if narrowed.late.len() == 0 && narrowed.rows.len() > trim_at(k)
                    && query_travels_on_views(clauses) {
                    let ghost hits = ColumnarStorage::row_hits(s as int, narrowed.rows@);
                    let views = self.distinct_views(s, &narrowed.rows, Ghost(hits));
                    let count: usize = views.len();
                    let ghost all = self.distinct_hits(s as int, narrowed.rows@);
                    let best = self.trimmed_views(views, topk_keep(k), clauses, Ghost(all));
                    let ghost chosen = first(
                        ordered(all, self.hit_before(clauses.order_by)),
                        doubled(k) as nat,
                    );
                    proof {
                        self.lemma_hits_weak(clauses.order_by);
                        lemma_ordered(all, self.hit_before(clauses.order_by));
                        lemma_distinct_members(hits, self.hit_key(), hits.len() as int);
                        assert forall|j: int| 0 <= j < chosen.len() implies (
                        #[trigger] chosen[j]).seg == s by {
                            lemma_ordered_members(all, self.hit_before(clauses.order_by), j);
                        }
                    }
                    let mut rows: Vec<u32> = Vec::new();
                    let mut i: usize = 0;
                    while i < best.len()
                        invariant
                            self.are_views(best@, chosen),
                            forall|j: int|
                                0 <= j < chosen.len() ==> (#[trigger] chosen[j]).seg == s,
                            i <= best@.len(),
                            rows@.len() == i,
                            forall|j: int|
                                0 <= j < i ==> (#[trigger] rows@[j]) < self.seg(
                                    s as int,
                                ).rows@.len(),
                            forall|j: int| 0 <= j < i ==> (#[trigger] rows@[j]) == chosen[j].row,
                        decreases best.len() - i,
                    {
                        assert(self.is_view_of(best@[i as int], chosen[i as int]));
                        rows.push(best[i].row);
                        i += 1;
                    }
                    return Some((rows, count - best.len()));
                }
                None
            },
            None => None,
        }
    }

    /// Builds the rows that one segment contributes, and counts those it left out.
    pub fn materialize_one_segment(
        &self,
        s: usize,
        candidates: &RoaringBitmap,
        clauses: &Clauses,
        trim: Option<usize>,
    ) -> (r: (Vec<SymbolMatch>, usize))
        requires
            self.wf(),
            s < self.seg_count(),
            trim == self.trims(*clauses),
        ensures
            self.are_rows(r.0@, self.contribution(s as int, rows_of(*candidates), *clauses)),
            r.1 == self.segment_hits(
                s as int,
                rows_of(*candidates),
                clauses.where_predicates@,
            ).len() - r.0@.len(),
    {
        let ghost si = s as int;
        let ghost cand = rows_of(*candidates);
        let ghost preds = clauses.where_predicates@;
        let ghost size = self.seg(si).rows@.len() as int;
        let ghost early = self.early_hits(si, cand, preds, size);
        let ghost matched = self.matched(si, cand, preds, size);
        let total_preds: usize = clauses.where_predicates.len();
        let narrowed = self.narrow_one_segment(s, candidates, clauses);
        proof {
            self.lemma_early_members(si, cand, preds, size);
            self.lemma_matched_members(si, cand, preds, size);
            self.lemma_matched_after_early(si, cand, preds, size);
            self.lemma_hits_weak(clauses.order_by);
        }
        match self.topk_rows_of_segment(s, &narrowed, clauses, trim) {
            Some((rows, shed)) => {
                let ghost chosen = self.contribution(si, cand, *clauses);
                proof {
                    self.lemma_early_is_matched(si, cand, preds, size);
                    let hits = ColumnarStorage::row_hits(si, narrowed.rows@);
                    assert(hits =~= matched) by {
                        assert forall|i: int| 0 <= i < hits.len() implies hits[i] == #[trigger] matched[i] by {
                            assert(narrowed.rows@[i] == early[i].row);
                        }
                    }
                    self.lemma_contribution_members(si, cand, *clauses);
                }
                let views = self.views_of_rows(s, &rows);
                proof {
                    assert forall|i: int| 0 <= i < views@.len() implies self.is_view_of(
                        #[trigger] views@[i],
                        chosen[i],
                    ) by {
                        assert(chosen[i] == Hit { seg: si, row: rows@[i] as int });
                    }
                }
                return (self.build_views(&views, Ghost(chosen)), shed);
            },
            None => {},
        }
        proof {
            assert(!self.chooses(si, cand, *clauses)) by {
                if self.chooses(si, cand, *clauses) {
                    self.lemma_early_is_matched(si, cand, preds, size);
                }
            }
        }
        let views = self.views_of_rows(s, &narrowed.rows);
        proof {
            assert forall|i: int| 0 <= i < views@.len() implies self.is_view_of(
                #[trigger] views@[i],
                early[i],
            ) by {
                assert(early[i] == Hit { seg: si, row: narrowed.rows@[i] as int });
            }
        }
        let built = self.build_views(&views, Ghost(early));
        let rows = self.matching_rows(
            built,
            &clauses.where_predicates,
            &narrowed.late,
            Ghost(early),
        );
        let out = self.distinct_rows(rows, Ghost(matched), Ghost(si));
        (out, 0)
    }

    /// How many rows a scan holds after the first `n` segments.
    pub open spec fn built_after(
        &self,
        order: Seq<usize>,
        by: Seq<Set<u32>>,
        clauses: Clauses,
        n: int,
    ) -> nat
        decreases n,
    {
        if n <= 0 {
            0
        } else {
            let s = order[n - 1] as int;
            let len = self.built_after(order, by, clauses, n - 1) + self.contribution(
                s,
                by[s],
                clauses,
            ).len();
            match self.trims(clauses) {
                Some(k) => if len > trim_point(k) && len > doubled(k) {
                    doubled(k) as nat
                } else {
                    len
                },
                None => len,
            }
        }
    }

    /// Whether a scan never holds more than `max` rows.
    pub open spec fn builds_within(
        &self,
        order: Seq<usize>,
        by: Seq<Set<u32>>,
        clauses: Clauses,
        max: usize,
    ) -> bool {
        forall|n: int|
            0 <= n <= order.len() ==> #[trigger] self.built_after(order, by, clauses, n) <= max
    }

    /// Whether `r` holds every row that matches, or with a trim enough of them for the page.
    pub open spec fn is_scan(
        &self,
        order: Seq<usize>,
        by: Seq<Set<u32>>,
        clauses: Clauses,
        max_rows: usize,
        hits: Seq<Hit>,
        r: Result<(Vec<SymbolMatch>, usize), FindRefusal>,
    ) -> bool {
        let before = self.hit_before(clauses.order_by);
        let all = self.hits_upto(order, by, clauses.where_predicates@, order.len() as int);
        match r {
            Ok(page) => {
                &&& self.are_rows(page.0@, hits)
                &&& hits.len() <= all.len()
                &&& page.1 == capped_len(all.len() - hits.len())
                &&& self.builds_within(order, by, clauses, max_rows)
                &&& match self.trims(clauses) {
                    Some(k) => first(ordered(hits, before), k as nat) == first(
                        ordered(all, before),
                        k as nat,
                    ),
                    None => hits == all,
                }
            },
            Err(FindRefusal::Built { max }) => max == max_rows && !self.builds_within(
                order,
                by,
                clauses,
                max_rows,
            ),
            Err(_) => false,
        }
    }

    fn trimmed_rows(
        &self,
        rows: Vec<SymbolMatch>,
        keep: usize,
        clauses: &Clauses,
        Ghost(hits): Ghost<Seq<Hit>>,
    ) -> (out: Vec<SymbolMatch>)
        requires
            self.are_rows(rows@, hits),
        ensures
            self.are_rows(
                out@,
                first(ordered(hits, self.hit_before(clauses.order_by)), keep as nat),
            ),
    {
        let count: usize = rows.len();
        let ghost start = rows@;
        let out = collect_top_k(rows, keep, clauses);
        proof {
            let before = self.hit_before(clauses.order_by);
            let stands = |m: SymbolMatch, h: Hit| self.stands_for(m, h);
            self.lemma_hits_weak(clauses.order_by);
            assert forall|i: int, j: int|
                #![trigger start[i], start[j]]
                0 <= i < start.len() && 0 <= j < start.len() implies row_before(
                reader_of(&start[i]),
                reader_of(&start[j]),
                clauses.order_by,
            ) == before(hits[i], hits[j]) by {
                self.lemma_rows_rank(start[i], start[j], hits[i], hits[j], clauses.order_by);
            }
            assert forall|i: int| 0 <= i < start.len() implies stands(
                #[trigger] start[i],
                hits[i],
            ) by {
                assert(self.stands_for(start[i], hits[i]));
            }
            lemma_top_k_follows(
                start,
                hits,
                clauses.order_by,
                keep as nat,
                out@,
                before,
                stands,
            );
            let best = first(ordered(hits, before), keep as nat);
            assert forall|i: int| 0 <= i < out@.len() implies self.stands_for(
                #[trigger] out@[i],
                best[i],
            ) by {
                assert(stands(out@[i], best[i]));
            }
        }
        out
    }

    /// Whether no hit is of the segments from position `n` of an order on.
    spec fn behind(hits: Seq<Hit>, order: Seq<usize>, n: int) -> bool {
        forall|i: int, m: int|
            #![trigger hits[i], order[m]]
            0 <= i < hits.len() && n <= m < order.len() ==> hits[i].seg != order[m]
    }

    proof fn lemma_best_behind(
        hits: Seq<Hit>,
        before: spec_fn(Hit, Hit) -> bool,
        keep: nat,
        order: Seq<usize>,
        n: int,
    )
        requires
            ColumnarStorage::behind(hits, order, n),
        ensures
            ColumnarStorage::behind(first(ordered(hits, before), keep), order, n),
    {
        let best = first(ordered(hits, before), keep);
        assert forall|i: int, m: int|
            #![trigger best[i], order[m]]
            0 <= i < best.len() && n <= m < order.len() implies best[i].seg != order[m] by {
            lemma_ordered_members(hits, before, i);
            assert(best[i] == ordered(hits, before)[i]);
            let k = choose|k: int| 0 <= k < hits.len() && hits[k] == best[i];
            assert(hits[k].seg != order[m]);
        }
    }

    /// Hits of different segments do not tie, where no two segments hold rows of one file.
    proof fn lemma_segments_do_not_tie(&self, a: Seq<Hit>, b: Seq<Hit>, order_by: Option<OrderBy>)
        requires
            !paths_repeat(self.index().segments@),
            forall|i: int|
                0 <= i < a.len() ==> 0 <= (#[trigger] a[i]).seg < self.index().segments@.len(),
            forall|i: int|
                0 <= i < b.len() ==> 0 <= (#[trigger] b[i]).seg < self.index().segments@.len(),
            forall|i: int, j: int|
                #![trigger a[i], b[j]]
                0 <= i < a.len() && 0 <= j < b.len() ==> a[i].seg != b[j].seg,
        ensures
            no_ties(a, b, self.hit_before(order_by)),
    {
        let before = self.hit_before(order_by);
        assert forall|i: int, j: int|
            #![trigger a[i], b[j]]
            0 <= i < a.len() && 0 <= j < b.len() implies before(a[i], b[j]) || before(
            b[j],
            a[i],
        ) by {
            let (x, y) = (a[i].seg, b[j].seg);
            if self.hit_path(a[i]) == self.hit_path(b[j]) {
                let segs = self.index().segments@;
                if x < y {
                    assert(segs[x].source_path@ == segs[y].source_path@);
                } else {
                    assert(segs[y].source_path@ == segs[x].source_path@);
                }
                assert(paths_repeat(segs));
            }
            self.lemma_paths_break_ties(a[i], b[j], order_by);
        }
    }
}


impl ColumnarStorage {
    /// Builds the rows that match, segment by segment, and sheds those that cannot make the page.
    pub fn page_from_built_rows(
        &self,
        by_segment: &Vec<RoaringBitmap>,
        clauses: &Clauses,
        max_rows: usize,
    ) -> (r: Result<(Vec<SymbolMatch>, usize), FindRefusal>)
        requires
            self.wf(),
            by_segment@.len() == self.seg_count(),
        ensures
            exists|order: Seq<usize>, hits: Seq<Hit>|
                self.orders_segments(order) && #[trigger] self.is_scan(
                    order,
                    rows_by_segment(by_segment@),
                    *clauses,
                    max_rows,
                    hits,
                    r,
                ),
    {
        let order = self.ordered_segments();
        let trim = self.trim_budget(clauses);
        let ghost by = rows_by_segment(by_segment@);
        let mut results: Vec<SymbolMatch> = Vec::new();
        let ghost mut hits: Seq<Hit> = seq![];
        let mut shed: usize = 0;
        let mut n: usize = 0;
        while n < order.len()
            invariant
                self.wf(),
                by_segment@.len() == self.seg_count(),
                by == rows_by_segment(by_segment@),
                trim == self.trims(*clauses),
                self.orders_segments(order@),
                forall|i: int| 0 <= i < order@.len() ==> (#[trigger] order@[i]) < self.seg_count(),
                forall|i: int, j: int|
                    #![trigger order@[i], order@[j]]
                    0 <= i < j < order@.len() ==> order@[i] != order@[j],
                n <= order@.len(),
                self.are_rows(results@, hits),
                ColumnarStorage::behind(hits, order@, n as int),
                self.scanned(order@, by, *clauses, hits, shed, n as int),
                hits.len() == self.built_after(order@, by, *clauses, n as int),
                forall|m: int|
                    0 <= m <= n ==> #[trigger] self.built_after(order@, by, *clauses, m)
                        <= max_rows,
            decreases order.len() - n,
        {
            let s: usize = order[n];
            assert(by[s as int] == rows_of(by_segment@[s as int]));
            proof {
                self.lemma_scan_step(order@, by, *clauses, results@, hits, shed, n as int);
            }
            let ghost given = self.contribution(s as int, by[s as int], *clauses);
            let mut taken: Vec<SymbolMatch> = Vec::new();
            core::mem::swap(&mut taken, &mut results);
            let (now, dropped) = self.take_rows(
                taken,
                s,
                &by_segment[s],
                clauses,
                trim,
                Ghost(hits),
            );
            proof {
                hits = self.stepped_rows(hits, given, *clauses);
            }
            results = now;
            shed = add_capped(shed, dropped);
            n += 1;
            if results.len() > max_rows {
                let r: Result<(Vec<SymbolMatch>, usize), FindRefusal> = Err(
                    FindRefusal::Built { max: max_rows },
                );
                proof {
                    assert(self.built_after(order@, by, *clauses, n as int) > max_rows);
                    assert(self.is_scan(order@, by, *clauses, max_rows, hits, r));
                }
                return r;
            }
        }
        let r: Result<(Vec<SymbolMatch>, usize), FindRefusal> = Ok((results, shed));
        proof {
            assert(self.builds_within(order@, by, *clauses, max_rows));
            assert(self.is_scan(order@, by, *clauses, max_rows, hits, r));
        }
        r
    }

    /// Whether a scan has lost nothing of the first `n` segments that the page needs.
    spec fn scanned(
        &self,
        order: Seq<usize>,
        by: Seq<Set<u32>>,
        clauses: Clauses,
        hits: Seq<Hit>,
        shed: usize,
        n: int,
    ) -> bool {
        let before = self.hit_before(clauses.order_by);
        let all = self.hits_upto(order, by, clauses.where_predicates@, n);
        &&& hits.len() <= all.len()
        &&& shed == capped_len(all.len() - hits.len())
        &&& match self.trims(clauses) {
            Some(k) => first(ordered(hits, before), k as nat) == first(
                ordered(all, before),
                k as nat,
            ),
            None => hits == all,
        }
    }

    spec fn stepped_rows(&self, hits: Seq<Hit>, given: Seq<Hit>, clauses: Clauses) -> Seq<Hit> {
        match self.trims(clauses) {
            Some(k) => self.stepped(hits, given, k, clauses.order_by),
            None => hits + given,
        }
    }

    /// Takes in the rows that one segment contributes, and gives how many were shed.
    fn take_rows(
        &self,
        rows: Vec<SymbolMatch>,
        s: usize,
        candidates: &RoaringBitmap,
        clauses: &Clauses,
        trim: Option<usize>,
        Ghost(hits): Ghost<Seq<Hit>>,
    ) -> (r: (Vec<SymbolMatch>, usize))
        requires
            self.wf(),
            s < self.seg_count(),
            trim == self.trims(*clauses),
            self.are_rows(rows@, hits),
        ensures
            ({
                let cand = rows_of(*candidates);
                let fresh = self.segment_hits(s as int, cand, clauses.where_predicates@);
                let given = self.contribution(s as int, cand, *clauses);
                let now = self.stepped_rows(hits, given, *clauses);
                &&& self.are_rows(r.0@, now)
                &&& r.1 == capped_len(hits.len() + fresh.len() - now.len())
            }),
    {
        let ghost given = self.contribution(s as int, rows_of(*candidates), *clauses);
        let (mut more, left) = self.materialize_one_segment(s, candidates, clauses, trim);
        let ghost added = more@;
        let ghost was = rows@;
        let mut all = rows;
        all.append(&mut more);
        let ghost joined = hits + given;
        proof {
            assert forall|i: int| 0 <= i < all@.len() implies self.stands_for(
                #[trigger] all@[i],
                joined[i],
            ) by {
                if i < was.len() {
                    assert(all@[i] == was[i]);
                } else {
                    assert(all@[i] == added[i - was.len()]);
                }
            }
        }
        match trim {
            Some(k) => {
                let count: usize = all.len();
                if count > trim_at(k) {
                    let best = self.trimmed_rows(all, topk_keep(k), clauses, Ghost(joined));
                    proof {
                        self.lemma_hits_weak(clauses.order_by);
                        lemma_ordered(joined, self.hit_before(clauses.order_by));
                    }
                    let kept: usize = best.len();
                    return (best, add_capped(left, count - kept));
                }
            },
            None => {},
        }
        (all, left)
    }

    proof fn lemma_scan_step(
        &self,
        order: Seq<usize>,
        by: Seq<Set<u32>>,
        clauses: Clauses,
        rows: Seq<SymbolMatch>,
        hits: Seq<Hit>,
        shed: usize,
        n: int,
    )
        requires
            self.wf(),
            0 <= n < order.len(),
            forall|i: int| 0 <= i < order.len() ==> (#[trigger] order[i]) < self.seg_count(),
            forall|i: int, j: int|
                #![trigger order[i], order[j]]
                0 <= i < j < order.len() ==> order[i] != order[j],
            self.are_rows(rows, hits),
            ColumnarStorage::behind(hits, order, n),
            self.scanned(order, by, clauses, hits, shed, n),
            hits.len() == self.built_after(order, by, clauses, n),
        ensures
            ({
                let s = order[n] as int;
                let fresh = self.segment_hits(s, by[s], clauses.where_predicates@);
                let given = self.contribution(s, by[s], clauses);
                let now = self.stepped_rows(hits, given, clauses);
                &&& self.scanned(
                    order,
                    by,
                    clauses,
                    now,
                    capped_len(
                        shed + capped_len(hits.len() + fresh.len() - now.len()),
                    ),
                    n + 1,
                )
                &&& ColumnarStorage::behind(now, order, n + 1)
                &&& now.len() == self.built_after(order, by, clauses, n + 1)
            }),
    {
        let s = order[n] as int;
        let preds = clauses.where_predicates@;
        let before = self.hit_before(clauses.order_by);
        let all = self.hits_upto(order, by, preds, n);
        let fresh = self.segment_hits(s, by[s], preds);
        let given = self.contribution(s, by[s], clauses);
        let joined = hits + given;
        let now = self.stepped_rows(hits, given, clauses);
        self.lemma_hits_weak(clauses.order_by);
        self.lemma_segment_hits_members(s, by[s], preds);
        lemma_ordered(fresh, before);
        lemma_ordered(joined, before);
        self.lemma_contribution_members(s, by[s], clauses);
        assert(ColumnarStorage::behind(joined, order, n + 1)) by {
            assert forall|i: int, m: int|
                #![trigger joined[i], order[m]]
                0 <= i < joined.len() && n + 1 <= m < order.len() implies joined[i].seg
                != order[m] by {
                if i < hits.len() {
                    assert(joined[i] == hits[i]);
                } else {
                    assert(joined[i] == given[i - hits.len()]);
                    assert(order[n] != order[m]);
                }
            }
        }
        assert(self.hits_upto(order, by, preds, n + 1) == all + fresh);
        match self.trims(clauses) {
            Some(k) => {
                if self.chooses(s, by[s], clauses) {
                    assert forall|i: int| 0 <= i < hits.len() implies 0 <= (
                    #[trigger] hits[i]).seg < self.index().segments@.len() && hits[i].seg != s by {
                        assert(self.stands_for(rows[i], hits[i]));
                        assert(hits[i].seg != order[n]);
                    }
                    self.lemma_segments_do_not_tie(hits, fresh, clauses.order_by);
                    self.lemma_segments_do_not_tie(hits, given, clauses.order_by);
                    lemma_arrivals_trimmed(
                        hits,
                        all,
                        fresh,
                        doubled(k) as nat,
                        k as nat,
                        before,
                    );
                } else {
                    lemma_head_of_longer(hits, all, fresh, k as nat, before);
                }
                lemma_trim_changes_no_page(joined, doubled(k) as nat, k as nat, before);
                ColumnarStorage::lemma_best_behind(
                    joined,
                    before,
                    doubled(k) as nat,
                    order,
                    n + 1,
                );
            },
            None => {},
        }
    }

    proof fn lemma_contribution_members(&self, s: int, candidates: Set<u32>, clauses: Clauses)
        ensures
            forall|i: int|
                0 <= i < self.contribution(s, candidates, clauses).len() ==> (
                #[trigger] self.contribution(s, candidates, clauses)[i]).seg == s,
            self.contribution(s, candidates, clauses).len() <= self.segment_hits(
                s,
                candidates,
                clauses.where_predicates@,
            ).len(),
    {
        let preds = clauses.where_predicates@;
        let before = self.hit_before(clauses.order_by);
        let fresh = self.segment_hits(s, candidates, preds);
        let given = self.contribution(s, candidates, clauses);
        self.lemma_segment_hits_members(s, candidates, preds);
        self.lemma_hits_weak(clauses.order_by);
        lemma_ordered(fresh, before);
        assert forall|i: int| 0 <= i < given.len() implies (#[trigger] given[i]).seg == s by {
            if self.chooses(s, candidates, clauses) {
                lemma_ordered_members(fresh, before, i);
                assert(given[i] == ordered(fresh, before)[i]);
                let k = choose|k: int| 0 <= k < fresh.len() && fresh[k] == given[i];
                assert(fresh[k].seg == s);
            } else {
                assert(given[i] == fresh[i]);
            }
        }
    }

    // ───────────────────────────── the scan ─────────────────────────────

    /// How many candidate row numbers a scan holds.
    pub open spec fn candidate_count(by: Seq<Set<u32>>, n: int) -> nat
        decreases n,
    {
        if n <= 0 {
            0
        } else {
            ColumnarStorage::candidate_count(by, n - 1) + by[n - 1].len()
        }
    }

    /// The page bound of a query, where a page can be chosen from views: the query has one, no two
    /// segments hold rows of one file, and every predicate and the ordering read from the columns.
    pub open spec fn view_page(&self, clauses: Clauses) -> Option<usize> {
        if paths_repeat(self.index().segments@) || !travels(clauses.order_by)
            || self.seg_count() == 0 || !rows_travel(clauses.where_predicates@) {
            None
        } else {
            page_bound(clauses)
        }
    }

    /// How many rows a page chosen from views has to hold. A segment answers for them all: which
    /// predicates its columns settle does not depend on what they hold.
    pub fn view_page_bound(&self, clauses: &Clauses) -> (r: Option<usize>)
        requires
            self.wf(),
        ensures
            r == self.view_page(*clauses),
    {
        if !self.shared.overlay.has_duplicate_paths() && query_travels_on_views(clauses)
            && self.shared.segments.len() > 0 && segment_rows_can_travel_as_views(
            &self.shared.segments[0],
            &clauses.where_predicates,
        ) {
            view_page_bound_for(clauses)
        } else {
            None
        }
    }

    /// Whether `m` is what candidates are turned into: too many are refused, and else it is the
    /// page chosen from views or the rows that were built.
    #[verifier::opaque]
    pub open spec fn is_materialized(
        &self,
        by: Seq<Set<u32>>,
        clauses: Clauses,
        bounds: FindBounds,
        m: Result<(Vec<SymbolMatch>, usize), FindRefusal>,
    ) -> bool {
        let ids = ColumnarStorage::candidate_count(by, by.len() as int);
        if ids > bounds.row_ids {
            m is Err && m->Err_0 is RowIds && m->Err_0->RowIds_max == bounds.row_ids && (ids
                <= u64::MAX ==> m->Err_0->candidates == ids)
        } else {
            match self.view_page(clauses) {
                Some(need) => exists|order: Seq<usize>, hits: Seq<Hit>|
                    self.orders_segments(order) && #[trigger] self.is_page(
                        order,
                        by,
                        clauses,
                        need,
                        bounds,
                        hits,
                        m,
                    ),
                None => exists|order: Seq<usize>, hits: Seq<Hit>|
                    self.orders_segments(order) && #[trigger] self.is_scan(
                        order,
                        by,
                        clauses,
                        bounds.rows,
                        hits,
                        m,
                    ),
            }
        }
    }

    /// Turns candidates into result rows: the page of the query, or everything that matches where
    /// no page can be chosen early. The second part counts the matching rows that were left out.
    pub fn materialize_all(
        &self,
        by_segment: &Vec<RoaringBitmap>,
        clauses: &Clauses,
        bounds: FindBounds,
    ) -> (r: Result<(Vec<SymbolMatch>, usize), FindRefusal>)
        requires
            self.wf(),
            by_segment@.len() == self.seg_count(),
        ensures
            self.is_materialized(rows_by_segment(by_segment@), *clauses, bounds, r),
    {
        reveal(ColumnarStorage::is_materialized);
        let ghost by = rows_by_segment(by_segment@);
        let mut ids: u128 = 0;
        let mut i: usize = 0;
        while i < by_segment.len()
            invariant
                i <= by_segment@.len(),
                by == rows_by_segment(by_segment@),
                ids == ColumnarStorage::candidate_count(by, i as int),
                ids <= i * 0x1_0000_0000_0000_0000,
            decreases by_segment.len() - i,
        {
            let n: u64 = by_segment[i].len();
            assert(by[i as int] == rows_of(by_segment@[i as int]));
            assert(i * 0x1_0000_0000_0000_0000 + n <= 0xffff_ffff_ffff_ffff
                * 0x1_0000_0000_0000_0000 + 0xffff_ffff_ffff_ffff);
            ids = ids + n as u128;
            i += 1;
        }
        if ids > bounds.row_ids as u128 {
            let candidates: u64 = if ids > 0xffff_ffff_ffff_ffff {
                0xffff_ffff_ffff_ffff
            } else {
                ids as u64
            };
            return Err(FindRefusal::RowIds { candidates, max: bounds.row_ids });
        }
        match self.view_page_bound(clauses) {
            Some(need) => {
                return self.page_from_row_views(by_segment, clauses, need, bounds);
            },
            None => {},
        }
        self.page_from_built_rows(by_segment, clauses, bounds.rows)
    }
}

/// Whichever way a page was reached, it is the same page: the head of every matching row in the
/// query's order.
pub proof fn lemma_routes_agree(
    s: ColumnarStorage,
    order: Seq<usize>,
    by: Seq<Set<u32>>,
    clauses: Clauses,
    bounds: FindBounds,
    chosen: Seq<Hit>,
    page: (Vec<SymbolMatch>, usize),
    built: Seq<Hit>,
    scan: (Vec<SymbolMatch>, usize),
)
    requires
        s.trims(clauses) is Some,
        s.is_page(
            order,
            by,
            clauses,
            s.trims(clauses)->0,
            bounds,
            chosen,
            Ok::<_, FindRefusal>(page),
        ),
        s.is_scan(order, by, clauses, bounds.rows, built, Ok::<_, FindRefusal>(scan)),
    ensures
        ordered(chosen, s.hit_before(clauses.order_by)) == first(
            ordered(built, s.hit_before(clauses.order_by)),
            s.trims(clauses)->0 as nat,
        ),
        capped_len(chosen.len() + page.1 as int) == capped_len(built.len() + scan.1 as int),
{
    let before = s.hit_before(clauses.order_by);
    let all = s.hits_upto(order, by, clauses.where_predicates@, order.len() as int);
    s.lemma_hits_weak(clauses.order_by);
    lemma_ordered(chosen, before);
    lemma_ordered(all, before);
    lemma_ordered(built, before);
}

} // verus!
