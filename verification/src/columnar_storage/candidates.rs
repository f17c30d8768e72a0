//! Which rows of which segments a query has to look at.
//!
//! Candidates are a set of local rows for each segment of the overlay, in its order. Pruning empties
//! the sets of segments that cannot answer.

use crate::clauses::{has_path_filter, Clauses, CompareOp, Predicate, PredicateValue};
use crate::columnar_storage::hits::Hit;
use crate::columnar_storage::gates::{has_any_indexed_predicate, served_by_index};
use crate::columnar_storage::ColumnarStorage;
use crate::fields::{canonical_text, is_zone_field, zone_field};
use crate::overlay::format::{RowPtr, SegmentMeta};
use crate::overlay::parse::{rows_before, segment_start};
use crate::overlay::lookup::opt_rows;
use crate::paths::{glob_to_path_prefix, in_scope, literal_prefix, scope_selects};
use crate::rows::{row_span, rows_ascending, rows_of, span_rows};
use crate::segment::{SegmentReader, ZoneMap};
use crate::text::same_text;
use roaring::RoaringBitmap;
use vstd::prelude::*;
use vstd::string::*;

verus! {

/// The candidate rows of each segment.
pub open spec fn rows_by_segment(v: Seq<RoaringBitmap>) -> Seq<Set<u32>> {
    v.map_values(|b: RoaringBitmap| rows_of(b))
}

// ───────────────────────────── ranges ─────────────────────────────

/// The stored range of a column, from range `i` on.
pub open spec fn zone_from(zones: Seq<ZoneMap>, column: Seq<char>, i: int) -> Option<(u32, u32)>
    decreases zones.len() - i,
{
    if i < 0 || i >= zones.len() {
        None
    } else if zones[i].column@ == column {
        Some((zones[i].min, zones[i].max))
    } else {
        zone_from(zones, column, i + 1)
    }
}

/// Whether a range can hold a value that compares so with `val`.
pub open spec fn range_passes(min: u32, max: u32, op: CompareOp, val: u32) -> bool {
    match op {
        CompareOp::Gt => max > val,
        CompareOp::Gte => max >= val,
        CompareOp::Lt => min < val,
        CompareOp::Lte => min <= val,
        CompareOp::Eq => min <= val <= max,
        _ => true,
    }
}

/// Whether a segment can hold a row whose column compares so with `val`; one that stores no range
/// always can.
pub open spec fn zone_passes(seg: SegmentReader, column: Seq<char>, op: CompareOp, val: u32) -> bool {
    match zone_from(seg.zone_maps@, column, 0) {
        Some(zone) => range_passes(zone.0, zone.1, op, val),
        None => true,
    }
}

fn find_zone(zones: &Vec<ZoneMap>, column: &str) -> (r: Option<(u32, u32)>)
    ensures
        r == zone_from(zones@, column@, 0),
{
    let mut i: usize = 0;
    while i < zones.len()
        invariant
            i <= zones@.len(),
            zone_from(zones@, column@, 0) == zone_from(zones@, column@, i as int),
        decreases zones.len() - i,
    {
        if same_text(zones[i].column.as_str(), column) {
            return Some((zones[i].min, zones[i].max));
        }
        i += 1;
    }
    None
}

/// Whether no 32-bit value compares so with `val`.
pub open spec fn impossible(op: CompareOp, val: i64) -> bool {
    match op {
        CompareOp::Lt => val <= 0,
        CompareOp::Lte => val < 0,
        CompareOp::Eq => val < 0,
        _ => false,
    }
}

/// Whether a predicate lets a segment through by its stored ranges.
///
/// The stored usage counts are not those a query reads, so they let everything through.
pub open spec fn zone_admits(seg: SegmentReader, p: Predicate) -> bool {
    match p.value {
        PredicateValue::Number(val) => {
            let col = p.field@;
            if col == "usages"@ || col == "usages_count"@ {
                true
            } else if zone_field(col) && impossible(p.op, val) {
                false
            } else if 0 <= val <= u32::MAX {
                zone_passes(seg, col, p.op, val as u32)
            } else {
                true
            }
        },
        _ => true,
    }
}

impl ColumnarStorage {
    // ───────────────────────────── per-segment gates ─────────────────────────────

    /// The segments whose files the query's scope selects; `None` where it has no scope.
    pub fn segments_passing_path_filter(&self, clauses: &Clauses) -> (r: Option<Vec<bool>>)
        requires
            self.wf(),
        ensures
            (r is None) == !clauses.scopes_paths(),
            r is Some ==> r->0@.len() == self.seg_count() && forall|i: int|
                0 <= i < self.seg_count() ==> #[trigger] r->0@[i] == scope_selects(
                    self.index().segments@[i].source_path@,
                    *clauses,
                ),
    {
        if !has_path_filter(clauses) {
            return None;
        }
        let metas = &self.shared.overlay.segments;
        let mut allowed: Vec<bool> = Vec::new();
        let mut i: usize = 0;
        while i < metas.len()
            invariant
                metas@ == self.index().segments@,
                i <= metas@.len(),
                allowed@.len() == i,
                forall|k: int|
                    0 <= k < i ==> #[trigger] allowed@[k] == scope_selects(
                        metas@[k].source_path@,
                        *clauses,
                    ),
            decreases metas.len() - i,
        {
            allowed.push(in_scope(metas[i].source_path.as_str(), clauses));
            i += 1;
        }
        Some(allowed)
    }

    /// The segments that can hold a row whose column compares so with `val`; `None` where no
    /// segment stores a range of the column.
    pub fn segments_passing_zone_map(&self, col: &str, op: CompareOp, val: u32) -> (r: Option<
        Vec<bool>,
    >)
        ensures
            (r is None) == (forall|i: int|
                0 <= i < self.seg_count() ==> zone_from(
                    (#[trigger] self.seg(i)).zone_maps@,
                    col@,
                    0,
                ) is None),
            r is Some ==> r->0@.len() == self.seg_count() && forall|i: int|
                0 <= i < self.seg_count() ==> #[trigger] r->0@[i] == zone_passes(
                    self.seg(i),
                    col@,
                    op,
                    val,
                ),
    {
        let segs = &self.shared.segments;
        let mut allowed: Vec<bool> = Vec::new();
        let mut any = false;
        let mut i: usize = 0;
        while i < segs.len()
            invariant
                segs@ == self.shared.segments@,
                i <= segs@.len(),
                allowed@.len() == i,
                any == (exists|k: int|
                    0 <= k < i && zone_from((#[trigger] self.seg(k)).zone_maps@, col@, 0) is Some),
                forall|k: int|
                    0 <= k < i ==> #[trigger] allowed@[k] == zone_passes(
                        self.seg(k),
                        col@,
                        op,
                        val,
                    ),
            decreases segs.len() - i,
        {
            let zone = find_zone(&segs[i].zone_maps, col);
            assert(*segs@[i as int] == self.seg(i as int));
            let ghost was = any;
            let passes = match zone {
                None => true,
                Some((min, max)) => {
                    any = true;
                    match op {
                        CompareOp::Gt => max > val,
                        CompareOp::Gte => max >= val,
                        CompareOp::Lt => min < val,
                        CompareOp::Lte => min <= val,
                        CompareOp::Eq => val >= min && val <= max,
                        _ => true,
                    }
                },
            };
            allowed.push(passes);
            proof {
                if any {
                    if zone is Some {
                        assert(zone_from(self.seg(i as int).zone_maps@, col@, 0) is Some);
                    } else {
                        let k = choose|k: int|
                            0 <= k < i && zone_from(
                                (#[trigger] self.seg(k)).zone_maps@,
                                col@,
                                0,
                            ) is Some;
                        assert(k < i + 1);
                    }
                }
                if exists|k: int|
                    0 <= k < i + 1 && zone_from(
                        (#[trigger] self.seg(k)).zone_maps@,
                        col@,
                        0,
                    ) is Some {
                    let k = choose|k: int|
                        0 <= k < i + 1 && zone_from(
                            (#[trigger] self.seg(k)).zone_maps@,
                            col@,
                            0,
                        ) is Some;
                    if k < i {
                        assert(was);
                    }
                }
            }
            i += 1;
        }
        if any {
            Some(allowed)
        } else {
            None
        }
    }

    // ───────────────────────────── grouping ─────────────────────────────

    /// The local rows of segment `s` among some global rows.
    pub open spec fn locals_of(&self, ids: Set<u32>, s: int) -> Set<u32> {
        Set::new(
            |l: u32|
                exists|g: u32| #[trigger]
                    ids.contains(g) && self.index().row_at(g) == Some(
                        RowPtr { segment_idx: s as u32, local_row_idx: l },
                    ),
        )
    }

    /// Splits global rows by segment. A row that points past the last segment belongs to none.
    pub fn group_by_segment(&self, ids: &RoaringBitmap) -> (out: Vec<RoaringBitmap>)
        requires
            self.wf(),
        ensures
            out@.len() == self.seg_count(),
            forall|s: int|
                0 <= s < self.seg_count() ==> #[trigger] rows_by_segment(out@)[s]
                    == self.locals_of(rows_of(*ids), s),
    {
        let list = rows_ascending(ids);
        let mut out = self.no_rows();
        let n: usize = self.shared.segments.len();
        let mut i: usize = 0;
        proof {
            assert forall|s: int| 0 <= s < n implies rows_of(#[trigger] out@[s])
                =~= self.locals_of(list@.take(0).to_set(), s) by {}
        }
        while i < list.len()
            invariant
                self.wf(),
                n == self.seg_count(),
                out@.len() == n,
                i <= list@.len(),
                forall|s: int|
                    0 <= s < n ==> rows_of(#[trigger] out@[s]) == self.locals_of(
                        list@.take(i as int).to_set(),
                        s,
                    ),
            decreases list.len() - i,
        {
            let g: u32 = list[i];
            let ghost was = out@;
            let ghost before = list@.take(i as int).to_set();
            let ghost after = list@.take(i + 1).to_set();
            proof {
                assert(list@.take(i + 1) =~= list@.take(i as int).push(g));
                assert forall|x: u32| after.contains(x) == (before.contains(x) || x == g) by {
                    let a = list@.take(i as int);
                    let b = list@.take(i + 1);
                    if before.contains(x) {
                        let k = choose|k: int| 0 <= k < a.len() && a[k] == x;
                        assert(b[k] == x);
                    }
                    if after.contains(x) {
                        let k = choose|k: int| 0 <= k < b.len() && b[k] == x;
                        if k < i {
                            assert(a[k] == x);
                        }
                    }
                    assert(b[i as int] == g);
                }
            }
            match self.shared.overlay.resolve_global(g) {
                Some(ptr) => {
                    let s: usize = ptr.segment_idx as usize;
                    if s < n {
                        let mut rows = RoaringBitmap::new();
                        core::mem::swap(&mut rows, &mut out[s]);
                        let _fresh = rows.insert(ptr.local_row_idx);
                        out[s] = rows;
                    }
                },
                None => {},
            }
            proof {
                assert forall|s: int| 0 <= s < n implies rows_of(#[trigger] out@[s])
                    =~= self.locals_of(after, s) by {
                    assert(rows_of(was[s]) == self.locals_of(before, s));
                    let ptr = self.index().row_at(g);
                    assert forall|l: u32| rows_of(out@[s]).contains(l) == self.locals_of(
                        after,
                        s,
                    ).contains(l) by {
                        let want = Some(RowPtr { segment_idx: s as u32, local_row_idx: l });
                        if rows_of(was[s]).contains(l) {
                            assert(self.locals_of(before, s).contains(l));
                            let x = choose|x: u32| #[trigger]
                                before.contains(x) && self.index().row_at(x) == want;
                            assert(after.contains(x));
                        }
                        if ptr == want {
                            assert(after.contains(g));
                        }
                        if self.locals_of(after, s).contains(l) {
                            let x = choose|x: u32| #[trigger]
                                after.contains(x) && self.index().row_at(x) == want;
                            if x != g {
                                assert(before.contains(x));
                                assert(self.locals_of(before, s).contains(l));
                            }
                        }
                    }
                }
            }
            i += 1;
        }
        assert(list@.take(list@.len() as int) =~= list@);
        out
    }

    fn no_rows(&self) -> (out: Vec<RoaringBitmap>)
        ensures
            out@.len() == self.seg_count(),
            forall|s: int|
                0 <= s < out@.len() ==> rows_of(#[trigger] out@[s]) == Set::<u32>::empty(),
    {
        let n: usize = self.shared.segments.len();
        let mut out: Vec<RoaringBitmap> = Vec::new();
        let mut i: usize = 0;
        while i < n
            invariant
                i <= n,
                out@.len() == i,
                forall|s: int|
                    0 <= s < i ==> rows_of(#[trigger] out@[s]) == Set::<u32>::empty(),
            decreases n - i,
        {
            out.push(RoaringBitmap::new());
            i += 1;
        }
        out
    }
}


// ───────────────────────────── building ─────────────────────────────

impl ColumnarStorage {
    /// Whether a global row lies in a segment whose path starts with `prefix`.
    pub open spec fn under_prefix(&self, prefix: Seq<char>, g: u32) -> bool {
        exists|i: int|
            0 <= i < self.seg_count() && #[trigger] self.index().path_starts(i, prefix)
                && self.seg_rows(i).contains(g)
    }

    /// The rows that the query's scope is known to keep to, by the literal head of its glob.
    pub open spec fn path_floor(&self, clauses: Clauses) -> Option<Set<u32>> {
        if clauses.in_glob is Some && literal_prefix(clauses.in_glob->0@) is Some {
            Some(
                Set::new(|g: u32| self.under_prefix(literal_prefix(clauses.in_glob->0@)->0, g)),
            )
        } else {
            None
        }
    }

    /// Whether rows are what the index gives for the literal head of a query's glob: those under
    /// it, where the segments are sorted by path.
    pub open spec fn floors(&self, clauses: Clauses, rows: Option<Set<u32>>) -> bool {
        &&& self.index().path_sorted() ==> rows == self.path_floor(clauses)
        &&& (rows is Some) == (self.path_floor(clauses) is Some)
    }

    /// The rows that the indexes leave of a query, where the tables that are searched by halving
    /// are sorted.
    pub open spec fn exact_rows(&self, clauses: Clauses) -> Set<u32> {
        self.candidates(clauses.where_predicates@, self.path_floor(clauses))
    }

    /// Whether rows are what the indexes leave of a query. Where a table that is searched by
    /// halving is not sorted, what it gives is not said; the rows keep to the floor and to the other
    /// indexes all the same.
    pub open spec fn narrows_to(&self, clauses: Clauses, rows: Set<u32>) -> bool {
        exists|floor: Option<Set<u32>>| #[trigger]
            self.floors(clauses, floor) && self.leaves(clauses.where_predicates@, floor, rows)
    }

    /// Over sorted tables the indexes leave one set of rows.
    pub proof fn lemma_sorted_tables_decide(&self, clauses: Clauses, rows: Set<u32>)
        requires
            self.sorted(),
            self.index().path_sorted(),
            self.narrows_to(clauses, rows),
        ensures
            rows == self.exact_rows(clauses),
    {
    }

    proof fn lemma_run_spans(&self, prefix: Seq<char>, lo: int, hi: int, g: u32)
        requires
            self.wf(),
            self.index().is_path_run(lo, hi, prefix),
        ensures
            (lo < hi && segment_start(self.index().segments@, lo) <= g < segment_start(
                self.index().segments@,
                hi,
            )) == self.under_prefix(prefix, g),
    {
        let segs = self.index().segments@;
        if lo < hi && segment_start(segs, lo) <= g < segment_start(segs, hi) {
            let i = lemma_segment_at(segs, lo, hi, g);
            assert(self.index().path_starts(i, prefix));
            assert(self.seg_rows(i).contains(g));
        }
        if self.under_prefix(prefix, g) {
            let i = choose|i: int|
                0 <= i < self.seg_count() && #[trigger] self.index().path_starts(i, prefix)
                    && self.seg_rows(i).contains(g);
            lemma_starts_ascend(segs, lo, i);
            lemma_starts_ascend(segs, i + 1, hi);
        }
    }

    pub(crate) fn floor_rows(&self, clauses: &Clauses) -> (r: Option<RoaringBitmap>)
        requires
            self.wf(),
        ensures
            self.floors(*clauses, opt_rows(r)),
    {
        let prefix: Option<String> = match &clauses.in_glob {
            Some(glob) => glob_to_path_prefix(glob.as_str()),
            None => None,
        };
        match prefix {
            Some(prefix) => {
                let range = self.shared.overlay.path_row_range(prefix.as_str());
                let rows = span_rows(range.start, range.end);
                proof {
                    if self.index().path_sorted() {
                        let (lo, hi) = choose|lo: int, hi: int| #[trigger]
                            self.index().is_path_run(lo, hi, prefix@) && (if lo < hi {
                                range.start == segment_start(self.index().segments@, lo)
                                    && range.end == segment_start(self.index().segments@, hi)
                            } else {
                                range.start == 0 && range.end == 0
                            });
                        assert forall|g: u32| rows_of(rows).contains(g) == self.under_prefix(
                            prefix@,
                            g,
                        ) by {
                            self.lemma_run_spans(prefix@, lo, hi, g);
                        }
                        assert(rows_of(rows) =~= self.path_floor(*clauses)->0);
                    }
                }
                Some(rows)
            },
            None => None,
        }
    }

    /// Whether no index serves the query, and only its scope narrows it.
    pub open spec fn scope_alone(&self, clauses: Clauses) -> bool {
        clauses.scopes_paths() && !exists|k: int|
            0 <= k < clauses.where_predicates@.len() && served_by_index(
                #[trigger] clauses.where_predicates@[k],
                self.index(),
            )
    }

    /// The candidate rows of segment `s`, before any pruning.
    ///
    /// None outside the query's scope. Within it every row, where no index serves the query; else
    /// those that the indexes leave.
    pub open spec fn candidate_rows(&self, clauses: Clauses, left: Set<u32>, s: int) -> Set<u32> {
        if !scope_selects(self.index().segments@[s].source_path@, clauses) {
            Set::empty()
        } else if self.scope_alone(clauses) {
            row_span(0, self.seg(s).rows@.len() as u32)
        } else {
            self.locals_of(left, s)
        }
    }

    /// Whether these are the candidate rows of each segment, for rows that the indexes leave.
    pub open spec fn are_candidates(
        &self,
        clauses: Clauses,
        left: Set<u32>,
        by: Seq<Set<u32>>,
    ) -> bool {
        &&& self.scope_alone(clauses) || self.narrows_to(clauses, left)
        &&& forall|s: int|
            0 <= s < self.seg_count() ==> #[trigger] by[s] == self.candidate_rows(clauses, left, s)
    }

    /// The candidate rows of each segment.
    pub fn build_candidate_segments(&self, clauses: &Clauses) -> (out: Vec<RoaringBitmap>)
        requires
            self.wf(),
        ensures
            out@.len() == self.seg_count(),
            exists|left: Set<u32>| #[trigger]
                self.are_candidates(*clauses, left, rows_by_segment(out@)),
    {
        if has_path_filter(clauses) && !has_any_indexed_predicate(clauses, &self.shared.overlay) {
            let metas = &self.shared.overlay.segments;
            let mut out: Vec<RoaringBitmap> = Vec::new();
            let mut i: usize = 0;
            while i < metas.len()
                invariant
                    self.wf(),
                    self.scope_alone(*clauses),
                    metas@ == self.index().segments@,
                    i <= metas@.len(),
                    out@.len() == i,
                    forall|s: int|
                        0 <= s < i ==> rows_of(#[trigger] out@[s]) == self.candidate_rows(
                            *clauses,
                            Set::empty(),
                            s,
                        ),
                decreases metas.len() - i,
            {
                if in_scope(metas[i].source_path.as_str(), clauses) {
                    assert(self.shared.segments@[i as int].wf());
                    let rows: u32 = self.shared.segments[i].row_count();
                    out.push(span_rows(0, rows));
                } else {
                    out.push(RoaringBitmap::new());
                }
                i += 1;
            }
            proof {
                assert(self.are_candidates(*clauses, Set::empty(), rows_by_segment(out@)));
            }
            return out;
        }
        let floor = self.floor_rows(clauses);
        let ghost start = opt_rows(floor);
        let ids = self.prefilter_global(clauses, floor);
        let mut out = self.group_by_segment(&ids);
        let ghost left = rows_of(ids);
        proof {
            assert(!self.scope_alone(*clauses));
            assert(self.floors(*clauses, start));
            assert(self.narrows_to(*clauses, left));
        }
        match self.segments_passing_path_filter(clauses) {
            Some(allowed) => {
                keep_allowed(&mut out, &allowed);
                proof {
                    assert forall|s: int|
                        0 <= s < self.seg_count() implies #[trigger] rows_by_segment(out@)[s]
                        == self.candidate_rows(*clauses, left, s) by {
                        assert(allowed@[s] == scope_selects(
                            self.index().segments@[s].source_path@,
                            *clauses,
                        ));
                    }
                }
            },
            None => {
                proof {
                    assert forall|s: int| 0 <= s < self.seg_count() implies scope_selects(
                        (#[trigger] self.index().segments@[s]).source_path@,
                        *clauses,
                    ) by {}
                    assert forall|s: int|
                        0 <= s < self.seg_count() implies #[trigger] rows_by_segment(out@)[s]
                        == self.candidate_rows(*clauses, left, s) by {
                        assert(scope_selects(
                            self.index().segments@[s].source_path@,
                            *clauses,
                        ));
                    }
                }
            },
        }
        assert(self.are_candidates(*clauses, left, rows_by_segment(out@)));
        out
    }

    /// Whether a query can find anything in segment `s`: the session does not hide it, and no
    /// predicate is ruled out by its stored ranges.
    pub open spec fn worth_reading(&self, clauses: Clauses, s: int) -> bool {
        &&& !self.dirty.hides(self.index().segments@[s])
        &&& forall|k: int|
            0 <= k < clauses.where_predicates@.len() ==> zone_admits(
                self.seg(s),
                #[trigger] clauses.where_predicates@[k],
            )
    }

    /// Empties the candidates of the segments in which a query can find nothing.
    pub fn prune_candidate_segments(&self, by_segment: &mut Vec<RoaringBitmap>, clauses: &Clauses)
        requires
            self.wf(),
            old(by_segment)@.len() == self.seg_count(),
        ensures
            final(by_segment)@.len() == self.seg_count(),
            forall|s: int|
                0 <= s < self.seg_count() ==> #[trigger] rows_by_segment(final(by_segment)@)[s]
                    == if self.worth_reading(*clauses, s) {
                    rows_by_segment(old(by_segment)@)[s]
                } else {
                    Set::empty()
                },
    {
        let allowed = self.segments_worth_reading(clauses);
        keep_allowed(by_segment, &allowed);
        proof {
            assert forall|s: int|
                0 <= s < self.seg_count() implies #[trigger] rows_by_segment(by_segment@)[s] == (
            if self.worth_reading(*clauses, s) {
                rows_by_segment(old(by_segment)@)[s]
            } else {
                Set::<u32>::empty()
            }) by {
                assert(allowed@[s] == self.worth_reading(*clauses, s));
            }
        }
    }

    /// Whether the first `n` predicates, and the session, let a segment through.
    spec fn admitted(&self, clauses: Clauses, s: int, n: int) -> bool {
        &&& !self.dirty.hides(self.index().segments@[s])
        &&& forall|k: int|
            0 <= k < n ==> zone_admits(self.seg(s), #[trigger] clauses.where_predicates@[k])
    }

    proof fn lemma_admitted_step(&self, clauses: Clauses, s: int, k: int)
        requires
            0 <= k < clauses.where_predicates@.len(),
        ensures
            self.admitted(clauses, s, k + 1) == (self.admitted(clauses, s, k) && zone_admits(
                self.seg(s),
                clauses.where_predicates@[k],
            )),
    {
        if self.admitted(clauses, s, k) && zone_admits(
            self.seg(s),
            clauses.where_predicates@[k],
        ) {
            assert forall|j: int| 0 <= j < k + 1 implies zone_admits(
                self.seg(s),
                #[trigger] clauses.where_predicates@[j],
            ) by {}
        }
    }

    fn visible_segments(&self) -> (out: Vec<bool>)
        requires
            self.wf(),
        ensures
            out@.len() == self.seg_count(),
            forall|s: int|
                0 <= s < out@.len() ==> #[trigger] out@[s] == !self.dirty.hides(
                    self.index().segments@[s],
                ),
    {
        let metas = &self.shared.overlay.segments;
        let mut out: Vec<bool> = Vec::new();
        let mut i: usize = 0;
        while i < metas.len()
            invariant
                metas@ == self.index().segments@,
                i <= metas@.len(),
                out@.len() == i,
                forall|s: int|
                    0 <= s < i ==> #[trigger] out@[s] == !self.dirty.hides(metas@[s]),
            decreases metas.len() - i,
        {
            out.push(!self.dirty.shadows_segment(&metas[i]));
            i += 1;
        }
        out
    }

    /// The segments in which a query can find something.
    pub fn segments_worth_reading(&self, clauses: &Clauses) -> (out: Vec<bool>)
        requires
            self.wf(),
        ensures
            out@.len() == self.seg_count(),
            forall|s: int|
                0 <= s < out@.len() ==> #[trigger] out@[s] == self.worth_reading(*clauses, s),
    {
        let mut out = self.visible_segments();
        let n: usize = out.len();
        let preds = &clauses.where_predicates;
        let mut k: usize = 0;
        while k < preds.len()
            invariant
                self.wf(),
                n == self.seg_count(),
                out@.len() == n,
                preds@ == clauses.where_predicates@,
                k <= preds@.len(),
                forall|s: int|
                    0 <= s < n ==> #[trigger] out@[s] == self.admitted(*clauses, s, k as int),
            decreases preds.len() - k,
        {
            let allowed = self.segments_admitted(&preds[k]);
            let mut i: usize = 0;
            while i < n
                invariant
                    i <= n,
                    out@.len() == n,
                    n == self.seg_count(),
                    allowed@.len() == n,
                    k < clauses.where_predicates@.len(),
                    forall|s: int|
                        0 <= s < n ==> #[trigger] allowed@[s] == zone_admits(
                            self.seg(s),
                            clauses.where_predicates@[k as int],
                        ),
                    forall|s: int|
                        0 <= s < i ==> #[trigger] out@[s] == self.admitted(*clauses, s, k + 1),
                    forall|s: int|
                        i <= s < n ==> #[trigger] out@[s] == self.admitted(*clauses, s, k as int),
                decreases n - i,
            {
                proof {
                    self.lemma_admitted_step(*clauses, i as int, k as int);
                    assert(allowed@[i as int] == zone_admits(
                        self.seg(i as int),
                        clauses.where_predicates@[k as int],
                    ));
                }
                if !allowed[i] {
                    out.set(i, false);
                }
                i += 1;
            }
            k += 1;
        }
        out
    }

    /// The segments that a predicate lets through by their stored ranges.
    pub fn segments_admitted(&self, p: &Predicate) -> (out: Vec<bool>)
        requires
            self.wf(),
        ensures
            out@.len() == self.seg_count(),
            forall|s: int|
                0 <= s < out@.len() ==> #[trigger] out@[s] == zone_admits(self.seg(s), *p),
    {
        match &p.value {
            PredicateValue::Number(val) => {
                let col = p.field.as_str();
                if same_text(col, "usages") || same_text(col, "usages_count") {
                    return self.every_segment(true);
                }
                let never = match p.op {
                    CompareOp::Lt => *val <= 0,
                    CompareOp::Lte => *val < 0,
                    CompareOp::Eq => *val < 0,
                    _ => false,
                };
                if is_zone_field(col) && never {
                    return self.every_segment(false);
                }
                if 0 <= *val && *val <= 0xffff_ffff {
                    match self.segments_passing_zone_map(col, p.op, *val as u32) {
                        Some(allowed) => {
                            return allowed;
                        },
                        None => {
                            let out = self.every_segment(true);
                            proof {
                                assert forall|s: int| 0 <= s < out@.len() implies #[trigger] out@[s]
                                    == zone_admits(self.seg(s), *p) by {
                                    assert(zone_from(self.seg(s).zone_maps@, col@, 0) is None);
                                }
                            }
                            return out;
                        },
                    }
                }
                self.every_segment(true)
            },
            _ => self.every_segment(true),
        }
    }

    fn every_segment(&self, value: bool) -> (out: Vec<bool>)
        ensures
            out@.len() == self.seg_count(),
            forall|s: int| 0 <= s < out@.len() ==> #[trigger] out@[s] == value,
    {
        let n: usize = self.shared.segments.len();
        let mut out: Vec<bool> = Vec::new();
        let mut i: usize = 0;
        while i < n
            invariant
                i <= n,
                out@.len() == i,
                forall|s: int| 0 <= s < i ==> #[trigger] out@[s] == value,
            decreases n - i,
        {
            out.push(value);
            i += 1;
        }
        out
    }
}

fn keep_allowed(by_segment: &mut Vec<RoaringBitmap>, allowed: &Vec<bool>)
    requires
        old(by_segment)@.len() == allowed@.len(),
    ensures
        final(by_segment)@.len() == old(by_segment)@.len(),
        forall|s: int|
            0 <= s < allowed@.len() ==> #[trigger] rows_by_segment(final(by_segment)@)[s]
                == if allowed@[s] {
                rows_by_segment(old(by_segment)@)[s]
            } else {
                Set::empty()
            },
{
    let ghost start = by_segment@;
    let n: usize = allowed.len();
    let mut i: usize = 0;
    while i < n
        invariant
            i <= n,
            n == allowed@.len(),
            by_segment@.len() == n,
            start.len() == n,
            forall|s: int|
                0 <= s < i ==> rows_of(#[trigger] by_segment@[s]) == if allowed@[s] {
                    rows_of(start[s])
                } else {
                    Set::empty()
                },
            forall|s: int| i <= s < n ==> #[trigger] by_segment@[s] == start[s],
        decreases n - i,
    {
        if !allowed[i] {
            by_segment[i] = RoaringBitmap::new();
        }
        i += 1;
    }
}

pub(crate) proof fn lemma_starts_ascend(segs: Seq<SegmentMeta>, a: int, b: int)
    requires
        0 <= a,
    ensures
        a <= b ==> segment_start(segs, a) <= segment_start(segs, b),
    decreases b - a,
{
    if a < b {
        lemma_starts_ascend(segs, a, b - 1);
        assert(rows_before(segs, b - 1) <= rows_before(segs, b));
    }
}

proof fn lemma_segment_at(segs: Seq<SegmentMeta>, lo: int, hi: int, g: u32) -> (i: int)
    requires
        0 <= lo < hi,
        segment_start(segs, lo) <= g < segment_start(segs, hi),
    ensures
        lo <= i < hi,
        segment_start(segs, i) <= g < segment_start(segs, i + 1),
    decreases hi - lo,
{
    if g < segment_start(segs, lo + 1) {
        lo
    } else {
        lemma_segment_at(segs, lo + 1, hi, g)
    }
}

// ───────────────────────────── soundness ─────────────────────────────

proof fn lemma_zone_from(seg: SegmentReader, column: Seq<char>, i: int, r: int)
    requires
        seg.zones_hold(),
        0 <= i,
        0 <= r < seg.rows@.len(),
    ensures
        (zone_from(seg.zone_maps@, column, i) is Some && seg.zone_value(column, r) is Some) ==> (
        zone_from(seg.zone_maps@, column, i)->0).0 <= seg.zone_value(column, r)->0 <= (zone_from(
            seg.zone_maps@,
            column,
            i,
        )->0).1,
    decreases seg.zone_maps@.len() - i,
{
    if i < seg.zone_maps@.len() {
        assert(seg.zone_maps@[i].column == seg.zone_maps@[i].column);
        assert(seg.rows@[r].line == seg.rows@[r].line);
        lemma_zone_from(seg, column, i + 1, r);
    }
}

impl ColumnarStorage {
    /// Pruning by stored ranges loses nothing: where the ranges hold what they cover, and are kept
    /// of the columns that have one, a segment with a row that satisfies a predicate is let
    /// through.
    pub proof fn lemma_zone_pruning_keeps_matches(&self, h: Hit, p: Predicate)
        requires
            self.valid_hit(h),
            self.ranges_hold(h.seg),
            self.hit_satisfies(h, p),
        ensures
            zone_admits(self.seg(h.seg), p),
    {
        reveal_strlit("line");
        reveal_strlit("usages");
        reveal_strlit("usages_count");
        reveal_strlit("kind");
        reveal_strlit("file");
        reveal_strlit("lang");
        let col = p.field@;
        if p.value is Number && col != "usages"@ && col != "usages_count"@ {
            lemma_zone_from(self.seg(h.seg), col, 0, h.row);
            lemma_zone_columns(self.seg(h.seg), col, 0);
            if zone_field(col) {
                assert(col == "line"@);
                assert(col[0] == 'l' && col[1] == 'i');
                assert("kind"@[0] == 'k' && "file"@[0] == 'f' && "lang"@[1] == 'a');
                assert(canonical_text(col) == col);
            }
        }
    }

    /// Whether the stored ranges of segment `s` hold what they cover, and are kept of the columns
    /// that have one.
    pub open spec fn ranges_hold(&self, s: int) -> bool {
        self.seg(s).zones_hold() && forall|z: int|
            0 <= z < self.seg(s).zone_maps@.len() ==> zone_field(
                (#[trigger] self.seg(s).zone_maps@[z]).column@,
            )
    }

    /// A predicate on the size of a group rules out no segment.
    pub proof fn lemma_group_size_prunes_nothing(&self, s: int, p: Predicate)
        requires
            self.ranges_hold(s),
            p.field@ == "count"@,
        ensures
            zone_admits(self.seg(s), p),
    {
        reveal_strlit("count");
        reveal_strlit("line");
        reveal_strlit("usages_count");
        lemma_zone_columns(self.seg(s), p.field@, 0);
        assert("count"@.len() == 5 && "line"@.len() == 4 && "usages_count"@.len() == 12);
    }
}

proof fn lemma_zone_columns(seg: SegmentReader, column: Seq<char>, i: int)
    requires
        0 <= i,
        forall|z: int|
            0 <= z < seg.zone_maps@.len() ==> zone_field((#[trigger] seg.zone_maps@[z]).column@),
    ensures
        zone_from(seg.zone_maps@, column, i) is Some ==> zone_field(column),
    decreases seg.zone_maps@.len() - i,
{
    if i < seg.zone_maps@.len() {
        lemma_zone_columns(seg, column, i + 1);
    }
}

} // verus!
