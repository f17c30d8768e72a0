//! What an answer to `FIND symbols` promises, by whichever route it is reached.

use crate::clauses::{Clauses, Predicate};
use crate::collapse::{collapsed, distinct_by, lemma_distinct_members, repeats, Collapsible};
use crate::columnar_storage::budgets::FindBounds;
use crate::columnar_storage::delivery::FindPage;
use crate::columnar_storage::delivery_laws::{answers, lemma_a_delivery_answers};
use crate::columnar_storage::hits::{residual, Hit};
use crate::columnar_storage::symbols::FindError;
use crate::columnar_storage::ColumnarStorage;
use crate::fields::canonical_text;
use crate::filter::row_satisfies;
use crate::order::PathTable;
use crate::path_parts::{lemma_same_path, same_path};
use crate::paths::scope_selects;
use crate::segment::{opt_string, unless_empty, SegmentReader, SymbolMatch};
use crate::sort::is_sorted_order;
use crate::columnar_storage::delivery::{retained, rows_where, selected};
use crate::columnar_storage::delivery_laws::{
    lemma_a_first_page_is_the_top, lemma_the_answer_is_what_answers,
};
use crate::filter::first;
use crate::top_k::{lemma_ordered, ordered};
use vstd::prelude::*;

verus! {

impl ColumnarStorage {
    /// Every symbol that a query without groups finds answers it: its path is in scope and every
    /// predicate holds of it, however the page was come by.
    pub proof fn lemma_found_symbols_answer(
        &self,
        clauses: Clauses,
        known: Seq<String>,
        bounds: FindBounds,
        page: FindPage,
        row: SymbolMatch,
    )
        requires
            self.answers_find(clauses, known, bounds, Ok(page)),
            clauses.group_by is None,
            page.rows@.contains(row),
        ensures
            answers(row, clauses),
    {
        let r = Ok::<FindPage, FindError>(page);
        assert(!self.is_counted(clauses, Some(page)));
        if self.is_named(clauses, bounds.rows, Some(page)) {
            reveal(ColumnarStorage::streams_to);
            let plan = self.stream_plan(clauses)->0;
            let want = choose|want: Option<Set<u32>>| #[trigger]
                self.wants(plan.1, want) && if plan.1 is Some && want is None {
                    false
                } else {
                    self.streams_to(clauses, plan.0, want, Some(page))
                };
            let (rows, counted) = choose|rows: Seq<SymbolMatch>, counted: Seq<SymbolMatch>|
                self.is_stream(
                    rows,
                    plan.0,
                    want,
                    crate::columnar_storage::gates::stream_need(clauses),
                ) && #[trigger] self.is_stream_page(rows, counted, clauses, Some(page));
            let all = collapsed(counted, counted.len() as int);
            let cut = choose|cut: FindPage| #[trigger]
                crate::columnar_storage::delivery::is_delivery(all, clauses, cut) && page.rows
                    == cut.rows;
            lemma_a_delivery_answers(all, clauses, cut, row);
        } else {
            let (left, scan) = choose|
                left: Set<u32>,
                scan: Result<FindPage, crate::columnar_storage::budgets::FindRefusal>,
            | #[trigger]
                self.is_scanned(clauses, left, bounds, scan) && (match scan {
                    Ok(p) => r == Ok::<_, FindError>(p),
                    Err(e) => r is Err && r->Err_0 is Bound && r->Err_0->Bound_0 == e,
                });
            let (found, counted) = self.lemma_scanned(clauses, left, bounds, page);
            let all = found.0@ + counted;
            let cut = choose|cut: FindPage| #[trigger]
                crate::columnar_storage::delivery::is_delivery(
                    collapsed(all, all.len() as int),
                    clauses,
                    cut,
                ) && page.rows == cut.rows;
            lemma_a_delivery_answers(collapsed(all, all.len() as int), clauses, cut, row);
        }
    }

    proof fn lemma_scanned(
        &self,
        clauses: Clauses,
        left: Set<u32>,
        bounds: FindBounds,
        page: FindPage,
    ) -> (f: ((Vec<SymbolMatch>, usize), Seq<SymbolMatch>))
        requires
            self.is_scanned(clauses, left, bounds, Ok(page)),
        ensures
            self.is_materialized(self.scan_candidates(clauses, left), clauses, bounds, Ok(f.0)),
            exists|session: Seq<SymbolMatch>| #[trigger]
                self.is_scan_page(f.0, session, f.1, clauses, bounds.rows, Ok(page)),
    {
        reveal(ColumnarStorage::finishes);
        let r = Ok::<FindPage, crate::columnar_storage::budgets::FindRefusal>(page);
        let m = choose|
            m: Result<(Vec<SymbolMatch>, usize), crate::columnar_storage::budgets::FindRefusal>,
        | #[trigger]
            self.is_materialized(self.scan_candidates(clauses, left), clauses, bounds, m)
                && match m {
                Err(e) => r == Err::<FindPage, _>(e),
                Ok(found) => self.finishes(found, clauses, bounds.rows, r),
            };
        let found = m->Ok_0;
        let (session, counted) = choose|session: Seq<SymbolMatch>, counted: Seq<SymbolMatch>|
            #[trigger]
            self.is_scan_page(found, session, counted, clauses, bounds.rows, r);
        let f = (found, counted);
        assert(self.is_scan_page(f.0, session, f.1, clauses, bounds.rows, Ok(page)));
        f
    }
}

/// Of rows with one key one stays.
proof fn lemma_one_stays<T: Collapsible>(rows: Seq<T>, n: int, i: int) -> (j: int)
    requires
        0 <= i < n <= rows.len(),
    ensures
        0 <= j <= i,
        rows[j].key_view() == rows[i].key_view(),
        collapsed(rows, n).contains(rows[j]),
    decreases i,
{
    if repeats(rows, i) {
        let k = choose|k: int|
            0 <= k < i && (#[trigger] rows[k]).key_view() == rows[i].key_view();
        lemma_one_stays(rows, n, k)
    } else {
        lemma_first_stays(rows, n, i);
        i
    }
}

proof fn lemma_first_stays<T: Collapsible>(rows: Seq<T>, n: int, i: int)
    requires
        0 <= i < n <= rows.len(),
        !repeats(rows, i),
    ensures
        collapsed(rows, n).contains(rows[i]),
    decreases n,
{
    let all = collapsed(rows, n);
    let rest = collapsed(rows, n - 1);
    if i == n - 1 {
        assert(all[rest.len() as int] == rows[i]);
    } else {
        lemma_first_stays(rows, n - 1, i);
        let k = choose|k: int| 0 <= k < rest.len() && rest[k] == rows[i];
        assert(all[k] == rows[i]);
    }
}

proof fn lemma_collapsed_members<T: Collapsible>(rows: Seq<T>, n: int)
    requires
        0 <= n <= rows.len(),
    ensures
        forall|a: int|
            0 <= a < collapsed(rows, n).len() ==> rows.contains(#[trigger] collapsed(rows, n)[a]),
    decreases n,
{
    if n > 0 {
        lemma_collapsed_members(rows, n - 1);
        let all = collapsed(rows, n);
        let rest = collapsed(rows, n - 1);
        assert forall|a: int| 0 <= a < all.len() implies rows.contains(#[trigger] all[a]) by {
            if a < rest.len() {
                assert(all[a] == rest[a]);
            } else {
                assert(rows[n - 1] == all[a]);
            }
        }
    }
}

/// Whether two rows report one thing: the same name, kind, path and line.
pub open spec fn report_one_thing(a: SymbolMatch, b: SymbolMatch) -> bool {
    &&& a.name@ == b.name@
    &&& opt_string(a.fql_kind) == opt_string(b.fql_kind)
    &&& a.line == b.line
    &&& (match (a.path, b.path) {
        (Some(p), Some(q)) => same_path(p@, q@),
        (None, None) => true,
        _ => false,
    })
}

proof fn lemma_keys_tell(a: SymbolMatch, b: SymbolMatch)
    ensures
        a.key_view() == b.key_view() <==> report_one_thing(a, b),
{
    if a.path is Some && b.path is Some {
        lemma_same_path(a.path->0@, b.path->0@);
    }
    let (x, y) = (a.key_view(), b.key_view());
    if x == y {
        assert(x.name == y.name && x.kind == y.kind && x.path == y.path && x.line == y.line);
    }
}

/// A thing is reported once: no two rows that are left report one thing, every row that is left was
/// given, and of those given that report one thing the first is left.
pub proof fn lemma_a_thing_is_reported_once(rows: Seq<SymbolMatch>, a: int, b: int, i: int)
    requires
        0 <= i < rows.len(),
        0 <= a < b < collapsed(rows, rows.len() as int).len(),
    ensures
        !report_one_thing(
            collapsed(rows, rows.len() as int)[a],
            collapsed(rows, rows.len() as int)[b],
        ),
        rows.contains(collapsed(rows, rows.len() as int)[a]),
        exists|j: int|
            0 <= j <= i && report_one_thing(#[trigger] rows[j], rows[i]) && collapsed(
                rows,
                rows.len() as int,
            ).contains(rows[j]),
{
    let n = rows.len() as int;
    lemma_collapsed_members(rows, n);
    lemma_collapsed_apart(rows, n, a, b);
    lemma_keys_tell(collapsed(rows, n)[a], collapsed(rows, n)[b]);
    let j = lemma_one_stays(rows, n, i);
    lemma_keys_tell(rows[j], rows[i]);
}

proof fn lemma_collapsed_apart<T: Collapsible>(rows: Seq<T>, n: int, a: int, b: int)
    requires
        0 <= n <= rows.len(),
        0 <= a < b < collapsed(rows, n).len(),
    ensures
        collapsed(rows, n)[a].key_view() != collapsed(rows, n)[b].key_view(),
    decreases n,
{
    let rest = collapsed(rows, n - 1);
    let all = collapsed(rows, n);
    if b < rest.len() {
        lemma_collapsed_apart(rows, n - 1, a, b);
    } else {
        lemma_collapsed_before(rows, n - 1);
        assert(all[b] == rows[n - 1]);
        assert(all[a] == rest[a]);
        let k = choose|k: int| 0 <= k < n - 1 && rows[k] == rest[a];
        assert(!repeats(rows, n - 1));
        assert(rows[k].key_view() != rows[n - 1].key_view());
    }
}

proof fn lemma_collapsed_before<T: Collapsible>(rows: Seq<T>, n: int)
    requires
        0 <= n <= rows.len(),
    ensures
        forall|a: int|
            0 <= a < collapsed(rows, n).len() ==> exists|k: int|
                0 <= k < n && rows[k] == #[trigger] collapsed(rows, n)[a],
    decreases n,
{
    if n > 0 {
        lemma_collapsed_before(rows, n - 1);
        let all = collapsed(rows, n);
        let rest = collapsed(rows, n - 1);
        assert forall|a: int| 0 <= a < all.len() implies exists|k: int|
            0 <= k < n && rows[k] == #[trigger] all[a] by {
            if a < rest.len() {
                assert(all[a] == rest[a]);
                let k = choose|k: int| 0 <= k < n - 1 && rows[k] == rest[a];
                assert(rows[k] == all[a]);
            } else {
                assert(rows[n - 1] == all[a]);
            }
        }
    }
}

/// Of items with one key one stays.
proof fn lemma_one_is_kept<U, K>(items: Seq<U>, key: spec_fn(U) -> K, n: int, i: int) -> (j: int)
    requires
        0 <= i < n <= items.len(),
    ensures
        0 <= j <= i,
        key(items[j]) == key(items[i]),
        distinct_by(items, key, n).contains(items[j]),
    decreases n,
{
    let all = distinct_by(items, key, n);
    let rest = distinct_by(items, key, n - 1);
    if i < n - 1 {
        let j = lemma_one_is_kept(items, key, n - 1, i);
        let k = choose|k: int| 0 <= k < rest.len() && rest[k] == items[j];
        assert(all[k] == items[j]);
        j
    } else if exists|k: int| 0 <= k < n - 1 && key(#[trigger] items[k]) == key(items[n - 1]) {
        let k = choose|k: int| 0 <= k < n - 1 && key(#[trigger] items[k]) == key(items[n - 1]);
        let j = lemma_one_is_kept(items, key, n - 1, k);
        j
    } else {
        assert(all[rest.len() as int] == items[i]);
        i
    }
}

/// Whether a row reports row `r` of a segment, of the file at `path`: its name, kind, language, line
/// and enrichment.
pub open spec fn reports(row: SymbolMatch, seg: SegmentReader, path: Seq<char>, r: int) -> bool {
    &&& 0 <= r < seg.rows@.len()
    &&& row.name@ == seg.rows@[r].name@
    &&& opt_string(row.path) == Some(path)
    &&& row.line == (if seg.rows@[r].line == 0 {
        None
    } else {
        Some(seg.rows@[r].line as usize)
    })
    &&& (match row.fql_kind {
        Some(kind) => kind@ == seg.rows@[r].fql_kind@,
        None => seg.rows@[r].fql_kind@.len() == 0,
    })
    &&& (match row.language {
        Some(language) => language@ == seg.rows@[r].language@,
        None => seg.rows@[r].language@.len() == 0,
    })
    &&& row.fields@ == seg.rows@[r].extra@
}

impl ColumnarStorage {
    /// Whether a row reports what is in sight: a row of a segment that the session does not hide, or
    /// one of the session's own.
    pub open spec fn is_in_sight(&self, row: SymbolMatch) -> bool {
        ||| exists|s: int, r: int|
            0 <= s < self.seg_count() && !self.dirty.hides(self.index().segments@[s])
                && #[trigger] reports(
                row,
                self.seg(s),
                self.index().segments@[s].source_path@,
                r,
            )
        ||| exists|j: int, r: int|
            0 <= j < self.dirty.added@.len() && #[trigger] reports(
                row,
                *self.dirty.added@[j].reader,
                self.dirty.added@[j].source_path@,
                r,
            )
    }

    proof fn lemma_matched_candidates(
        &self,
        s: int,
        candidates: Set<u32>,
        predicates: Seq<Predicate>,
        n: int,
        h: Hit,
    )
        requires
            0 <= n <= u32::MAX + 1,
        ensures
            self.matched(s, candidates, predicates, n).contains(h) ==> candidates.contains(
                h.row as u32,
            ),
            h.seg == s && 0 <= h.row < n && candidates.contains(h.row as u32) && self.hit_matches(
                h,
                predicates,
            ) ==> self.matched(s, candidates, predicates, n).contains(h),
        decreases n,
    {
        if n > 0 {
            self.lemma_matched_candidates(s, candidates, predicates, n - 1, h);
            let all = self.matched(s, candidates, predicates, n);
            let rest = self.matched(s, candidates, predicates, n - 1);
            if all.contains(h) {
                let k = choose|k: int| 0 <= k < all.len() && all[k] == h;
                if k < rest.len() {
                    assert(rest[k] == h);
                }
            }
            if rest.contains(h) {
                let k = choose|k: int| 0 <= k < rest.len() && rest[k] == h;
                assert(all[k] == h);
            }
            if h == (Hit { seg: s, row: n - 1 }) && candidates.contains(h.row as u32)
                && self.hit_matches(h, predicates) {
                assert(all[rest.len() as int] == h);
            }
        } else {
            assert(self.matched(s, candidates, predicates, n).len() == 0);
        }
    }

    proof fn lemma_hits_upto(
        &self,
        order: Seq<usize>,
        by: Seq<Set<u32>>,
        predicates: Seq<Predicate>,
        n: int,
        h: Hit,
    )
        requires
            0 <= n <= order.len(),
            self.hits_upto(order, by, predicates, n).contains(h),
        ensures
            exists|m: int|
                0 <= m < n && self.segment_hits(
                    #[trigger] order[m] as int,
                    by[order[m] as int],
                    predicates,
                ).contains(h),
        decreases n,
    {
        if n > 0 {
            let s = order[n - 1] as int;
            let rest = self.hits_upto(order, by, predicates, n - 1);
            let more = self.segment_hits(s, by[s], predicates);
            let all = self.hits_upto(order, by, predicates, n);
            let k = choose|k: int| 0 <= k < all.len() && all[k] == h;
            if k < rest.len() {
                assert(rest[k] == h);
                self.lemma_hits_upto(order, by, predicates, n - 1, h);
                let m = choose|m: int|
                    0 <= m < n - 1 && self.segment_hits(
                        #[trigger] order[m] as int,
                        by[order[m] as int],
                        predicates,
                    ).contains(h);
                assert(order[m] == order[m]);
            } else {
                assert(more[k - rest.len()] == h);
                assert(more.contains(h));
            }
        }
    }

    proof fn lemma_hits_grow(
        &self,
        order: Seq<usize>,
        by: Seq<Set<u32>>,
        predicates: Seq<Predicate>,
        n: int,
        m: int,
        h: Hit,
    )
        requires
            0 <= m < n <= order.len(),
            self.segment_hits(order[m] as int, by[order[m] as int], predicates).contains(h),
        ensures
            self.hits_upto(order, by, predicates, n).contains(h),
        decreases n,
    {
        let s = order[n - 1] as int;
        let rest = self.hits_upto(order, by, predicates, n - 1);
        let more = self.segment_hits(s, by[s], predicates);
        let all = self.hits_upto(order, by, predicates, n);
        if m == n - 1 {
            let k = choose|k: int| 0 <= k < more.len() && more[k] == h;
            assert(all[rest.len() + k] == h);
        } else {
            self.lemma_hits_grow(order, by, predicates, n - 1, m, h);
            let k = choose|k: int| 0 <= k < rest.len() && rest[k] == h;
            assert(all[k] == h);
        }
    }

    /// A query without groups, without a page and without a `HAVING` or a predicate on the size of
    /// groups finds every match: a row that the index knows of, in scope, in a segment that the
    /// session does not hide and of which every predicate holds is reported by the answer, if there is
    /// one: a row with its name, kind, path and line is on the page.
    #[verifier::rlimit(60)]
    #[verifier::spinoff_prover]
    pub proof fn lemma_every_match_is_found(
        &self,
        clauses: Clauses,
        known: Seq<String>,
        bounds: FindBounds,
        page: FindPage,
        h: Hit,
    )
        requires
            self.wf(),
            self.sorted(),
            self.index().path_sorted(),
            self.answers_find(clauses, known, bounds, Ok(page)),
            clauses.group_by is None,
            clauses.limit is None,
            clauses.offset is None,
            clauses.having_predicates@.len() == 0,
            forall|k: int|
                0 <= k < clauses.where_predicates@.len() ==> residual(
                    #[trigger] clauses.where_predicates@[k],
                ) && self.tells(clauses.where_predicates@[k]) && self.hit_satisfies(
                    h,
                    clauses.where_predicates@[k],
                ),
            self.indexed(h),
            self.ranges_hold(h.seg),
            !self.dirty.hides(self.index().segments@[h.seg]),
            scope_selects(self.hit_path(h), clauses),
        ensures
            exists|a: int|
                {
                    let row = #[trigger] page.rows@[a];
                    &&& 0 <= a < page.rows@.len()
                    &&& row.name@ == self.hit_row(h).name@
                    &&& opt_string(row.fql_kind) == unless_empty(self.hit_row(h).fql_kind@)
                    &&& row.path is Some && same_path(row.path->0@, self.hit_path(h))
                    &&& row.line == (if self.hit_row(h).line == 0 {
                        None
                    } else {
                        Some(self.hit_row(h).line as usize)
                    })
                },
    {
        let preds = clauses.where_predicates@;
        assert(!self.is_counted(clauses, Some(page)));
        assert(self.stream_plan(clauses) is None);
        let r = Ok::<FindPage, FindError>(page);
        let (left, scan) = choose|
            left: Set<u32>,
            scan: Result<FindPage, crate::columnar_storage::budgets::FindRefusal>,
        | #[trigger]
            self.is_scanned(clauses, left, bounds, scan) && (match scan {
                Ok(p) => r == Ok::<_, FindError>(p),
                Err(e) => r is Err && r->Err_0 is Bound && r->Err_0->Bound_0 == e,
            });
        let (found, counted) = self.lemma_scanned(clauses, left, bounds, page);
        let by = self.scan_candidates(clauses, left);
        let exact = self.scan_candidates(clauses, self.exact_rows(clauses));
        self.lemma_scan_looks_at_every_match(h, clauses);
        if self.narrows_to(clauses, left) {
            self.lemma_sorted_tables_decide(clauses, left);
        }
        assert(by =~= exact) by {
            assert forall|s: int| 0 <= s < by.len() implies by[s] == exact[s] by {}
        }
        assert(by[h.seg].contains(h.row as u32));
        let hits = self.lemma_scan_hits(clauses, by, bounds, found);
        let like = self.lemma_hit_is_listed(clauses, by, hits, h);
        let at = choose|at: int| 0 <= at < hits.len() && hits[at] == like;
        let all = found.0@ + counted;
        assert(self.stands_for(found.0@[at], hits[at]));
        assert(all[at] == found.0@[at]);
        self.lemma_reported_key(found.0@[at], like);
        let j = lemma_one_stays(all, all.len() as int, at);
        let row = all[j];
        assert(row == found.0@[j]);
        assert(self.stands_for(found.0@[j], hits[j]));
        self.lemma_reported_key(row, hits[j]);
        assert(answers(row, clauses)) by {
            self.lemma_listed_hits_answer(clauses, by, hits, j, row);
        }
        let cut = choose|cut: FindPage| #[trigger]
            crate::columnar_storage::delivery::is_delivery(
                collapsed(all, all.len() as int),
                clauses,
                cut,
            ) && page.rows == cut.rows;
        lemma_a_delivery_answers(collapsed(all, all.len() as int), clauses, cut, row);
        let a = choose|a: int| 0 <= a < page.rows@.len() && page.rows@[a] == row;
        assert(row.key_view() == all[at].key_view());
        lemma_same_path(self.hit_path(hits[j]), self.hit_path(h));
        assert(page.rows@[a] == row);
    }

    /// What a scan without a page reads: every hit.
    proof fn lemma_scan_hits(
        &self,
        clauses: Clauses,
        by: Seq<Set<u32>>,
        bounds: FindBounds,
        found: (Vec<SymbolMatch>, usize),
    ) -> (hits: Seq<Hit>)
        requires
            self.is_materialized(by, clauses, bounds, Ok(found)),
            clauses.limit is None,
        ensures
            self.are_rows(found.0@, hits),
            exists|order: Seq<usize>|
                self.orders_segments(order) && hits == #[trigger] self.hits_upto(
                    order,
                    by,
                    clauses.where_predicates@,
                    order.len() as int,
                ),
    {
        reveal(ColumnarStorage::is_materialized);
        let (order, hits) = choose|order: Seq<usize>, hits: Seq<Hit>|
            self.orders_segments(order) && #[trigger] self.is_scan(
                order,
                by,
                clauses,
                bounds.rows,
                hits,
                Ok(found),
            );
        assert(hits == self.hits_upto(
            order,
            by,
            clauses.where_predicates@,
            order.len() as int,
        ));
        hits
    }

    proof fn lemma_hit_is_listed(
        &self,
        clauses: Clauses,
        by: Seq<Set<u32>>,
        hits: Seq<Hit>,
        h: Hit,
    ) -> (like: Hit)
        requires
            self.wf(),
            self.valid_hit(h),
            by.len() == self.seg_count(),
            by[h.seg].contains(h.row as u32),
            self.hit_matches(h, clauses.where_predicates@),
            exists|order: Seq<usize>|
                self.orders_segments(order) && hits == #[trigger] self.hits_upto(
                    order,
                    by,
                    clauses.where_predicates@,
                    order.len() as int,
                ),
        ensures
            hits.contains(like),
            like.seg == h.seg,
            (self.hit_key())(like) == (self.hit_key())(h),
    {
        let preds = clauses.where_predicates@;
        let order = choose|order: Seq<usize>|
            self.orders_segments(order) && hits == #[trigger] self.hits_upto(
                order,
                by,
                preds,
                order.len() as int,
            );
        let n = self.seg(h.seg).rows@.len() as int;
        assert(self.shared.segments@[h.seg].wf());
        let matched = self.matched(h.seg, by[h.seg], preds, n);
        self.lemma_matched_candidates(h.seg, by[h.seg], preds, n, h);
        let i = choose|i: int| 0 <= i < matched.len() && matched[i] == h;
        let j = lemma_one_is_kept(matched, self.hit_key(), matched.len() as int, i);
        self.lemma_matched_members(h.seg, by[h.seg], preds, n);
        let like = matched[j];
        let paths = choose|paths: Vec<String>|
            #![trigger is_sorted_order(&(PathTable { items: &paths }), order)]
            is_sorted_order(&(PathTable { items: &paths }), order) && self.are_paths(paths@);
        assert(order.contains(h.seg as usize));
        let m = choose|m: int| 0 <= m < order.len() && order[m] == h.seg as usize;
        self.lemma_hits_grow(order, by, preds, order.len() as int, m, like);
        like
    }

    proof fn lemma_reported_key(&self, row: SymbolMatch, h: Hit)
        requires
            self.stands_for(row, h),
        ensures
            row.name@ == self.hit_row(h).name@,
            opt_string(row.fql_kind) == unless_empty(self.hit_row(h).fql_kind@),
            opt_string(row.path) == Some(self.hit_path(h)),
            row.line == (if self.hit_row(h).line == 0 {
                None
            } else {
                Some(self.hit_row(h).line as usize)
            }),
            reports(row, self.seg(h.seg), self.hit_path(h), h.row),
    {
        let bare = SymbolMatch {
            usages_count: Some(self.hit_row(h).usages_count as usize),
            ..row
        };
        assert(bare.name@ == self.hit_row(h).name@);
        assert(bare.fql_kind == row.fql_kind && bare.path == row.path && bare.line == row.line);
        assert(bare.language == row.language && bare.fields == row.fields);
    }

    proof fn lemma_listed_hits_answer(
        &self,
        clauses: Clauses,
        by: Seq<Set<u32>>,
        hits: Seq<Hit>,
        j: int,
        row: SymbolMatch,
    )
        requires
            0 <= j < hits.len(),
            self.stands_for(row, hits[j]),
            forall|s: int, r: u32|
                0 <= s < by.len() && #[trigger] by[s].contains(r) ==> scope_selects(
                    self.index().segments@[s].source_path@,
                    clauses,
                ),
            by.len() == self.seg_count(),
            clauses.having_predicates@.len() == 0,
            forall|k: int|
                0 <= k < clauses.where_predicates@.len() ==> residual(
                    #[trigger] clauses.where_predicates@[k],
                ),
            exists|order: Seq<usize>|
                self.orders_segments(order) && hits == #[trigger] self.hits_upto(
                    order,
                    by,
                    clauses.where_predicates@,
                    order.len() as int,
                ),
        ensures
            answers(row, clauses),
    {
        let preds = clauses.where_predicates@;
        let order = choose|order: Seq<usize>|
            self.orders_segments(order) && hits == #[trigger] self.hits_upto(
                order,
                by,
                preds,
                order.len() as int,
            );
        let h = hits[j];
        assert(hits.contains(h));
        self.lemma_hits_upto(order, by, preds, order.len() as int, h);
        let m = choose|m: int|
            0 <= m < order.len() && self.segment_hits(
                #[trigger] order[m] as int,
                by[order[m] as int],
                preds,
            ).contains(h);
        let s = order[m] as int;
        let n = self.seg(s).rows@.len() as int;
        let matched = self.matched(s, by[s], preds, n);
        let kept = self.segment_hits(s, by[s], preds);
        lemma_distinct_members(matched, self.hit_key(), matched.len() as int);
        let k = choose|k: int| 0 <= k < kept.len() && kept[k] == h;
        assert(matched.contains(kept[k]));
        let i = choose|i: int| 0 <= i < matched.len() && matched[i] == h;
        self.lemma_matched_members(s, by[s], preds, n);
        assert(matched[i].seg == s);
        self.lemma_matched_rows(s, by[s], preds, n, h);
        self.lemma_reported_key(row, h);
        assert forall|p: int| 0 <= p < preds.len() implies row_satisfies(
            &row,
            #[trigger] preds[p],
        ) by {
            self.lemma_row_reads(row, h, canonical_text(preds[p].field@));
            assert(self.hit_satisfies(h, preds[p]));
        }
    }

    proof fn lemma_matched_rows(
        &self,
        s: int,
        candidates: Set<u32>,
        predicates: Seq<Predicate>,
        n: int,
        h: Hit,
    )
        requires
            0 <= n,
            self.matched(s, candidates, predicates, n).contains(h),
        ensures
            candidates.contains(h.row as u32),
            0 <= h.row < n,
        decreases n,
    {
        if n > 0 {
            let all = self.matched(s, candidates, predicates, n);
            let rest = self.matched(s, candidates, predicates, n - 1);
            let k = choose|k: int| 0 <= k < all.len() && all[k] == h;
            if k < rest.len() {
                assert(rest[k] == h);
                self.lemma_matched_rows(s, candidates, predicates, n - 1, h);
            }
        }
    }
}

proof fn lemma_flat_member<A>(parts: Seq<Seq<A>>, x: A) -> (k: int)
    requires
        parts.flatten().contains(x),
    ensures
        0 <= k < parts.len(),
        parts[k].contains(x),
    decreases parts.len(),
{
    if parts.len() == 0 {
        assert(parts.flatten().len() == 0);
        0
    } else {
        let head = parts.first();
        let rest = parts.drop_first();
        let all = parts.flatten();
        assert(all == head + rest.flatten());
        let i = choose|i: int| 0 <= i < all.len() && all[i] == x;
        if i < head.len() {
            assert(head[i] == x);
            0
        } else {
            assert(rest.flatten()[i - head.len()] == x);
            let k = lemma_flat_member(rest, x);
            k + 1
        }
    }
}

impl ColumnarStorage {
    /// Nothing is made up: every symbol that a query without groups and without a limit finds is a row
    /// of a segment that the session does not hide, or one of the session's own.
    pub proof fn lemma_found_symbols_are_in_sight(
        &self,
        clauses: Clauses,
        known: Seq<String>,
        bounds: FindBounds,
        page: FindPage,
        row: SymbolMatch,
    )
        requires
            self.wf(),
            self.answers_find(clauses, known, bounds, Ok(page)),
            clauses.group_by is None,
            clauses.limit is None,
            page.rows@.contains(row),
        ensures
            self.is_in_sight(row),
    {
        assert(!self.is_counted(clauses, Some(page)));
        assert(self.stream_plan(clauses) is None);
        let r = Ok::<FindPage, FindError>(page);
        let (left, scan) = choose|
            left: Set<u32>,
            scan: Result<FindPage, crate::columnar_storage::budgets::FindRefusal>,
        | #[trigger]
            self.is_scanned(clauses, left, bounds, scan) && (match scan {
                Ok(p) => r == Ok::<_, FindError>(p),
                Err(e) => r is Err && r->Err_0 is Bound && r->Err_0->Bound_0 == e,
            });
        let (found, counted) = self.lemma_scanned(clauses, left, bounds, page);
        let by = self.scan_candidates(clauses, left);
        let hits = self.lemma_scan_hits(clauses, by, bounds, found);
        let all = found.0@ + counted;
        let few = collapsed(all, all.len() as int);
        let cut = choose|cut: FindPage| #[trigger]
            crate::columnar_storage::delivery::is_delivery(few, clauses, cut) && page.rows
                == cut.rows;
        lemma_a_delivery_answers(few, clauses, cut, row);
        lemma_collapsed_members(all, all.len() as int);
        let c = choose|c: int| 0 <= c < few.len() && few[c] == row;
        assert(all.contains(few[c]));
        let i = choose|i: int| 0 <= i < all.len() && all[i] == row;
        if i < found.0@.len() {
            assert(found.0@[i] == row);
            assert(self.stands_for(found.0@[i], hits[i]));
            self.lemma_reported_key(row, hits[i]);
            let s = self.lemma_listed_hit_is_read(clauses, by, hits, i);
            assert(self.worth_reading(clauses, s));
            assert(!self.dirty.hides(self.index().segments@[s]));
        } else {
            let session = choose|session: Seq<SymbolMatch>| #[trigger]
                self.is_scan_page(found, session, counted, clauses, bounds.rows, Ok(page));
            let k = i - found.0@.len();
            assert(counted[k] == row);
            let bare = session[k];
            let parts = choose|parts: Seq<Seq<SymbolMatch>>| #[trigger]
                parts.flatten() == session && parts.len() == self.dirty.added@.len() && forall|
                    i: int,
                |
                    0 <= i < parts.len() ==> self.dirty.gives(
                        i,
                        self.dirty.all_rows(i),
                        clauses,
                        #[trigger] parts[i],
                    );
            assert(session.contains(bare));
            let j = lemma_flat_member(parts, bare);
            assert(self.dirty.gives(j, self.dirty.all_rows(j), clauses, parts[j]));
            let e = choose|e: int| 0 <= e < parts[j].len() && parts[j][e] == bare;
            let seg = &*self.dirty.added@[j].reader;
            let kept = seg.posted_rows(
                self.dirty.all_rows(j),
                clauses.where_predicates@,
                clauses.where_predicates@.len() as int,
            );
            let list = choose|list: Seq<u32>| #[trigger]
                seg.lists_selected(kept, list) && seg.builds_all(
                    list,
                    Some(self.dirty.added@[j].source_path@),
                    parts[j],
                );
            assert(parts[j][e] == bare);
            assert(seg.builds(list[e] as int, Some(self.dirty.added@[j].source_path@), bare));
            assert(row.name == bare.name && row.path == bare.path && row.line == bare.line
                && row.fql_kind == bare.fql_kind && row.language == bare.language && row.fields
                == bare.fields);
            assert(reports(
                row,
                *self.dirty.added@[j].reader,
                self.dirty.added@[j].source_path@,
                list[e] as int,
            ));
        }
    }

    proof fn lemma_listed_hit_is_read(
        &self,
        clauses: Clauses,
        by: Seq<Set<u32>>,
        hits: Seq<Hit>,
        j: int,
    ) -> (s: int)
        requires
            0 <= j < hits.len(),
            exists|order: Seq<usize>|
                self.orders_segments(order) && hits == #[trigger] self.hits_upto(
                    order,
                    by,
                    clauses.where_predicates@,
                    order.len() as int,
                ),
        ensures
            s == hits[j].seg,
            by[s].contains(hits[j].row as u32),
    {
        let preds = clauses.where_predicates@;
        let order = choose|order: Seq<usize>|
            self.orders_segments(order) && hits == #[trigger] self.hits_upto(
                order,
                by,
                preds,
                order.len() as int,
            );
        let h = hits[j];
        assert(hits.contains(h));
        self.lemma_hits_upto(order, by, preds, order.len() as int, h);
        let m = choose|m: int|
            0 <= m < order.len() && self.segment_hits(
                #[trigger] order[m] as int,
                by[order[m] as int],
                preds,
            ).contains(h);
        let s = order[m] as int;
        let n = self.seg(s).rows@.len() as int;
        let matched = self.matched(s, by[s], preds, n);
        let kept = self.segment_hits(s, by[s], preds);
        lemma_distinct_members(matched, self.hit_key(), matched.len() as int);
        let k = choose|k: int| 0 <= k < kept.len() && kept[k] == h;
        assert(matched.contains(kept[k]));
        let i = choose|i: int| 0 <= i < matched.len() && matched[i] == h;
        self.lemma_matched_members(s, by[s], preds, n);
        assert(matched[i].seg == s);
        self.lemma_matched_rows(s, by[s], preds, n, h);
        s
    }
}

proof fn lemma_flat_holds<A>(parts: Seq<Seq<A>>, k: int, x: A)
    requires
        0 <= k < parts.len(),
        parts[k].contains(x),
    ensures
        parts.flatten().contains(x),
    decreases parts.len(),
{
    let head = parts.first();
    let rest = parts.drop_first();
    let all = parts.flatten();
    assert(all == head + rest.flatten());
    if k == 0 {
        let i = choose|i: int| 0 <= i < head.len() && head[i] == x;
        assert(all[i] == x);
    } else {
        assert(rest[k - 1] == parts[k]);
        lemma_flat_holds(rest, k - 1, x);
        let flat = rest.flatten();
        let i = choose|i: int| 0 <= i < flat.len() && flat[i] == x;
        assert(all[head.len() + i] == x);
    }
}

impl ColumnarStorage {
    /// A query without clauses finds every row of the session: a row with its name, kind, path and line is
    /// on the page, if there is an answer.
    pub proof fn lemma_every_edited_row_is_found(
        &self,
        clauses: Clauses,
        known: Seq<String>,
        bounds: FindBounds,
        page: FindPage,
        j: int,
        r: u32,
    )
        requires
            self.wf(),
            self.answers_find(clauses, known, bounds, Ok(page)),
            clauses.group_by is None,
            clauses.limit is None,
            clauses.offset is None,
            clauses.in_glob is None,
            clauses.exclude_globs@.len() == 0,
            clauses.where_predicates@.len() == 0,
            clauses.having_predicates@.len() == 0,
            0 <= j < self.dirty.added@.len(),
            r < self.dirty.added@[j].reader.rows@.len(),
        ensures
            exists|a: int|
                {
                    let row = #[trigger] page.rows@[a];
                    let was = self.dirty.added@[j].reader.rows@[r as int];
                    &&& 0 <= a < page.rows@.len()
                    &&& row.name@ == was.name@
                    &&& opt_string(row.fql_kind) == unless_empty(was.fql_kind@)
                    &&& row.path is Some && same_path(
                        row.path->0@,
                        self.dirty.added@[j].source_path@,
                    )
                    &&& row.line == (if was.line == 0 {
                        None
                    } else {
                        Some(was.line as usize)
                    })
                },
    {
        assert(!self.is_counted(clauses, Some(page)));
        assert(self.stream_plan(clauses) is None);
        let res = Ok::<FindPage, FindError>(page);
        let (left, scan) = choose|
            left: Set<u32>,
            scan: Result<FindPage, crate::columnar_storage::budgets::FindRefusal>,
        | #[trigger]
            self.is_scanned(clauses, left, bounds, scan) && (match scan {
                Ok(p) => res == Ok::<_, FindError>(p),
                Err(e) => res is Err && res->Err_0 is Bound && res->Err_0->Bound_0 == e,
            });
        let (found, counted) = self.lemma_scanned(clauses, left, bounds, page);
        let session = choose|session: Seq<SymbolMatch>| #[trigger]
            self.is_scan_page(found, session, counted, clauses, bounds.rows, Ok(page));
        let parts = choose|parts: Seq<Seq<SymbolMatch>>| #[trigger]
            parts.flatten() == session && parts.len() == self.dirty.added@.len() && forall|i: int|
                0 <= i < parts.len() ==> self.dirty.gives(
                    i,
                    self.dirty.all_rows(i),
                    clauses,
                    #[trigger] parts[i],
                );
        assert(self.dirty.gives(j, self.dirty.all_rows(j), clauses, parts[j]));
        let seg = &*self.dirty.added@[j].reader;
        assert(self.dirty.added@[j].reader.wf());
        let path = self.dirty.added@[j].source_path@;
        let kept = seg.posted_rows(self.dirty.all_rows(j), clauses.where_predicates@, 0);
        let list = choose|list: Seq<u32>| #[trigger]
            seg.lists_selected(kept, list) && seg.builds_all(list, Some(path), parts[j]);
        assert(kept.contains(r));
        assert(list.contains(r));
        let e = choose|e: int| 0 <= e < list.len() && list[e] == r;
        let bare = parts[j][e];
        assert(seg.builds(list[e] as int, Some(path), bare));
        assert(parts[j].contains(bare));
        lemma_flat_holds(parts, j, bare);
        let k = choose|k: int| 0 <= k < session.len() && session[k] == bare;
        let all = found.0@ + counted;
        let at = found.0@.len() + k;
        assert(all[at] == counted[k]);
        assert(counted[k] == counted[k]);
        let few = collapsed(all, all.len() as int);
        let m = lemma_one_stays(all, all.len() as int, at);
        let row = all[m];
        lemma_keys_tell(row, all[at]);
        assert(answers(row, clauses));
        let cut = choose|cut: FindPage| #[trigger]
            crate::columnar_storage::delivery::is_delivery(few, clauses, cut) && page.rows
                == cut.rows;
        lemma_a_delivery_answers(few, clauses, cut, row);
        let a = choose|a: int| 0 <= a < page.rows@.len() && page.rows@[a] == row;
        assert(page.rows@[a] == row);
    }
}

// ───────────────────────────── the top of a ranking ─────────────────────────────

impl ColumnarStorage {
    /// Whether two rows report one thing: of one name, kind and line, in one file.
    pub open spec fn reports_alike(&self, a: Hit, b: Hit) -> bool {
        &&& self.hit_row(a).name@ == self.hit_row(b).name@
        &&& unless_empty(self.hit_row(a).fql_kind@) == unless_empty(self.hit_row(b).fql_kind@)
        &&& (self.hit_row(a).line == self.hit_row(b).line)
        &&& same_path(self.hit_path(a), self.hit_path(b))
    }

    /// Whether a row does not come before what a match reports.
    pub open spec fn comes_no_sooner(&self, h: Hit, clauses: Clauses, row: SymbolMatch) -> bool {
        exists|x: Hit| #[trigger]
            self.stands_for(row, x) && !(self.hit_before(clauses.order_by))(h, x)
    }

    /// Whether a row comes before none that a page shows.
    pub open spec fn outdone_by(&self, h: Hit, clauses: Clauses, page: FindPage) -> bool {
        forall|a: int|
            0 <= a < page.rows@.len() ==> self.comes_no_sooner(h, clauses, #[trigger] page.rows@[a])
    }

    /// A limited query without edits, where the page is chosen over views, shows the top of the ranking of
    /// all matches: a row that the index knows of and of which every predicate holds is on the page, or
    /// comes before no row that is.
    #[verifier::rlimit(60)]
    #[verifier::spinoff_prover]
    pub proof fn lemma_a_limited_page_is_the_top_of_all_matches(
        &self,
        clauses: Clauses,
        left: Set<u32>,
        bounds: FindBounds,
        page: FindPage,
        h: Hit,
    )
        requires
            self.wf(),
            self.sorted(),
            self.index().path_sorted(),
            self.is_scanned(clauses, left, bounds, Ok(page)),
            self.view_page(clauses) is Some,
            self.dirty.nothing(),
            clauses.group_by is None,
            clauses.offset is None,
            forall|k: int|
                0 <= k < clauses.where_predicates@.len() ==> residual(
                    #[trigger] clauses.where_predicates@[k],
                ) && self.tells(clauses.where_predicates@[k]) && self.hit_satisfies(
                    h,
                    clauses.where_predicates@[k],
                ),
            self.indexed(h),
            self.ranges_hold(h.seg),
            scope_selects(self.hit_path(h), clauses),
        ensures
            exists|like: Hit| #[trigger]
                self.reports_alike(like, h) && ((exists|a: int|
                    0 <= a < page.rows@.len() && self.stands_for(#[trigger] page.rows@[a], like))
                    || self.outdone_by(like, clauses, page)),
    {
        let by = self.scan_candidates(clauses, left);
        let before = self.hit_before(clauses.order_by);
        let need = self.view_page(clauses)->0;
        let (rows, hits, all) = self.lemma_page_is_of_hits(clauses, left, bounds, page);
        self.lemma_scan_looks_at_every_match(h, clauses);
        if self.narrows_to(clauses, left) {
            self.lemma_sorted_tables_decide(clauses, left);
        }
        let like = self.lemma_hit_is_listed(clauses, by, all, h);
        assert(self.reports_alike(like, h));
        let cut = choose|cut: FindPage| #[trigger]
            crate::columnar_storage::delivery::is_delivery(
                collapsed(rows, rows.len() as int),
                clauses,
                cut,
            ) && page.rows == cut.rows;
        if !hits.contains(like) {
            self.lemma_left_out_hits_come_later(clauses, hits, all, need, like);
            self.lemma_cut_rows_are_no_worse(clauses, rows, hits, cut, like);
            assert(self.outdone_by(like, clauses, page));
        } else {
            let at = choose|at: int| 0 <= at < hits.len() && hits[at] == like;
            assert forall|j: int| 0 <= j < rows.len() implies answers(#[trigger] rows[j], clauses) by {
                assert(self.stands_for(rows[j], hits[j]));
                self.lemma_top_hits_answer(clauses, by, hits, all, need, j, rows[j]);
            }
            let j = self.lemma_cut_is_the_top_of_hits(clauses, rows, hits, cut, at);
            assert(self.reports_alike(hits[j], h));
            if page.rows@.contains(rows[j]) {
                let a = choose|a: int| 0 <= a < page.rows@.len() && page.rows@[a] == rows[j];
                assert(self.stands_for(page.rows@[a], hits[j]));
            } else {
                assert(self.outdone_by(hits[j], clauses, page));
            }
        }
    }

    #[verifier::rlimit(40)]
    #[verifier::spinoff_prover]
    proof fn lemma_page_is_of_hits(
        &self,
        clauses: Clauses,
        left: Set<u32>,
        bounds: FindBounds,
        page: FindPage,
    ) -> (f: (Seq<SymbolMatch>, Seq<Hit>, Seq<Hit>))
        requires
            self.wf(),
            self.sorted(),
            self.index().path_sorted(),
            self.is_scanned(clauses, left, bounds, Ok(page)),
            self.view_page(clauses) is Some,
            self.dirty.nothing(),
            clauses.group_by is None,
            clauses.offset is None,
        ensures
            self.all_stand_for(f.0, f.1),
            exists|order: Seq<usize>|
                self.orders_segments(order) && f.2 == #[trigger] self.hits_upto(
                    order,
                    self.scan_candidates(clauses, left),
                    clauses.where_predicates@,
                    order.len() as int,
                ),
            ordered(f.1, self.hit_before(clauses.order_by)) == first(
                ordered(f.2, self.hit_before(clauses.order_by)),
                self.view_page(clauses)->0 as nat,
            ),
            exists|cut: FindPage| #[trigger]
                crate::columnar_storage::delivery::is_delivery(
                    collapsed(f.0, f.0.len() as int),
                    clauses,
                    cut,
                ) && page.rows == cut.rows,
    {
        let by = self.scan_candidates(clauses, left);
        let (found, counted) = self.lemma_scanned(clauses, left, bounds, page);
        reveal(ColumnarStorage::is_materialized);
        let need = self.view_page(clauses)->0;
        let (order, hits) = choose|order: Seq<usize>, hits: Seq<Hit>|
            self.orders_segments(order) && #[trigger] self.is_page(
                order,
                by,
                clauses,
                need,
                bounds,
                hits,
                Ok(found),
            );
        let all = self.hits_upto(order, by, clauses.where_predicates@, order.len() as int);
        let session = choose|session: Seq<SymbolMatch>| #[trigger]
            self.is_scan_page(found, session, counted, clauses, bounds.rows, Ok(page));
        assert(session.len() == 0) by {
            let parts = choose|parts: Seq<Seq<SymbolMatch>>| #[trigger]
                parts.flatten() == session && parts.len() == self.dirty.added@.len() && forall|
                    i: int,
                |
                    0 <= i < parts.len() ==> self.dirty.gives(
                        i,
                        self.dirty.all_rows(i),
                        clauses,
                        #[trigger] parts[i],
                    );
            assert(parts.len() == 0);
        }
        assert(found.0@ + counted =~= found.0@);
        (found.0@, hits, all)
    }

    proof fn lemma_left_out_hits_come_later(
        &self,
        clauses: Clauses,
        hits: Seq<Hit>,
        all: Seq<Hit>,
        need: usize,
        like: Hit,
    )
        requires
            self.wf(),
            ordered(hits, self.hit_before(clauses.order_by)) == first(
                ordered(all, self.hit_before(clauses.order_by)),
                need as nat,
            ),
            all.contains(like),
            !hits.contains(like),
        ensures
            forall|x: Hit| hits.contains(x) ==> !#[trigger] (self.hit_before(clauses.order_by))(
                like,
                x,
            ),
    {
        let before = self.hit_before(clauses.order_by);
        let top = first(ordered(all, before), need as nat);
        self.lemma_hits_weak(clauses.order_by);
        lemma_ordered(all, before);
        crate::columnar_storage::lookup_laws::lemma_ordered_holds(all, before, like);
        let whole = ordered(all, before);
        let p = choose|p: int| 0 <= p < whole.len() && whole[p] == like;
        assert forall|x: Hit| hits.contains(x) implies !#[trigger] before(like, x) by {
            crate::columnar_storage::lookup_laws::lemma_ordered_holds(hits, before, x);
            let q = choose|q: int| 0 <= q < top.len() && top[q] == x;
            assert(whole[q] == x);
            if p < top.len() {
                assert(top[p] == like);
                crate::top_k::lemma_ordered_members(hits, before, p);
            }
            assert(!before(whole[p], whole[q]));
        }
    }

    spec fn all_stand_for(&self, rows: Seq<SymbolMatch>, hits: Seq<Hit>) -> bool {
        &&& rows.len() == hits.len()
        &&& forall|i: int|
            0 <= i < rows.len() ==> self.stands_for(#[trigger] rows[i], #[trigger] hits[i])
    }

    proof fn lemma_cut_rows_stand(
        &self,
        clauses: Clauses,
        rows: Seq<SymbolMatch>,
        hits: Seq<Hit>,
        cut: FindPage,
        a: int,
    ) -> (i: int)
        requires
            self.all_stand_for(rows, hits),
            crate::columnar_storage::delivery::is_delivery(
                collapsed(rows, rows.len() as int),
                clauses,
                cut,
            ),
            clauses.group_by is None,
            0 <= a < cut.rows@.len(),
        ensures
            0 <= i < hits.len(),
            self.stands_for(cut.rows@[a], hits[i]),
    {
        let few = collapsed(rows, rows.len() as int);
        lemma_collapsed_members(rows, rows.len() as int);
        assert(cut.rows@.contains(cut.rows@[a]));
        lemma_a_delivery_answers(few, clauses, cut, cut.rows@[a]);
        let c = choose|c: int| 0 <= c < few.len() && few[c] == cut.rows@[a];
        assert(rows.contains(few[c]));
        let i = choose|i: int| 0 <= i < rows.len() && rows[i] == cut.rows@[a];
        assert(self.stands_for(rows[i], hits[i]));
        i
    }

    proof fn lemma_cut_rows_are_no_worse(
        &self,
        clauses: Clauses,
        rows: Seq<SymbolMatch>,
        hits: Seq<Hit>,
        cut: FindPage,
        h: Hit,
    )
        requires
            self.all_stand_for(rows, hits),
            crate::columnar_storage::delivery::is_delivery(
                collapsed(rows, rows.len() as int),
                clauses,
                cut,
            ),
            clauses.group_by is None,
            forall|x: Hit| hits.contains(x) ==> !#[trigger] (self.hit_before(clauses.order_by))(h, x),
        ensures
            self.outdone_by(h, clauses, cut),
    {
        assert forall|a: int| 0 <= a < cut.rows@.len() implies self.comes_no_sooner(
            h,
            clauses,
            #[trigger] cut.rows@[a],
        ) by {
            let i = self.lemma_cut_rows_stand(clauses, rows, hits, cut, a);
            assert(hits.contains(hits[i]));
            assert(!(self.hit_before(clauses.order_by))(h, hits[i]));
        }
    }

    proof fn lemma_cut_is_the_top_of_hits(
        &self,
        clauses: Clauses,
        rows: Seq<SymbolMatch>,
        hits: Seq<Hit>,
        cut: FindPage,
        at: int,
    ) -> (j: int)
        requires
            self.wf(),
            self.all_stand_for(rows, hits),
            crate::columnar_storage::delivery::is_delivery(
                collapsed(rows, rows.len() as int),
                clauses,
                cut,
            ),
            clauses.group_by is None,
            clauses.offset is None,
            0 <= at < rows.len(),
            forall|j: int| 0 <= j < rows.len() ==> answers(#[trigger] rows[j], clauses),
        ensures
            0 <= j < rows.len(),
            self.stands_for(rows[j], hits[j]),
            self.reports_alike(hits[j], hits[at]),
            cut.rows@.contains(rows[j]) || self.outdone_by(hits[j], clauses, cut),
    {
        let few = collapsed(rows, rows.len() as int);
        assert(self.stands_for(rows[at], hits[at]));
        self.lemma_reported_key(rows[at], hits[at]);
        let j = lemma_one_stays(rows, rows.len() as int, at);
        let row = rows[j];
        assert(self.stands_for(rows[j], hits[j]));
        self.lemma_reported_key(row, hits[j]);
        lemma_keys_tell(row, rows[at]);
        let chosen = rows_where(few, |i: int| selected(few[i], clauses));
        let kept = rows_where(chosen, |i: int| retained(chosen[i], clauses));
        lemma_the_answer_is_what_answers(few, clauses, row);
        if !cut.rows@.contains(row) {
            assert forall|a: int| 0 <= a < cut.rows@.len() implies self.comes_no_sooner(
                hits[j],
                clauses,
                #[trigger] cut.rows@[a],
            ) by {
                let i = self.lemma_cut_rows_stand(clauses, rows, hits, cut, a);
                lemma_a_first_page_is_the_top(kept, clauses, cut, row, a);
                self.lemma_rows_rank(row, cut.rows@[a], hits[j], hits[i], clauses.order_by);
                assert(!(self.hit_before(clauses.order_by))(hits[j], hits[i]));
            }
        }
        j
    }

    proof fn lemma_top_hits_answer(
        &self,
        clauses: Clauses,
        by: Seq<Set<u32>>,
        hits: Seq<Hit>,
        all: Seq<Hit>,
        need: usize,
        j: int,
        row: SymbolMatch,
    )
        requires
            0 <= j < hits.len(),
            self.stands_for(row, hits[j]),
            forall|s: int, r: u32|
                0 <= s < by.len() && #[trigger] by[s].contains(r) ==> scope_selects(
                    self.index().segments@[s].source_path@,
                    clauses,
                ),
            by.len() == self.seg_count(),
            clauses.having_predicates@.len() == 0,
            forall|k: int|
                0 <= k < clauses.where_predicates@.len() ==> residual(
                    #[trigger] clauses.where_predicates@[k],
                ),
            ordered(hits, self.hit_before(clauses.order_by)) == first(
                ordered(all, self.hit_before(clauses.order_by)),
                need as nat,
            ),
            exists|order: Seq<usize>|
                self.orders_segments(order) && all == #[trigger] self.hits_upto(
                    order,
                    by,
                    clauses.where_predicates@,
                    order.len() as int,
                ),
        ensures
            answers(row, clauses),
    {
        let before = self.hit_before(clauses.order_by);
        let h = hits[j];
        assert(hits.contains(h));
        crate::columnar_storage::lookup_laws::lemma_ordered_holds(hits, before, h);
        let o = ordered(hits, before);
        let q = choose|q: int| 0 <= q < o.len() && o[q] == h;
        assert(ordered(all, before)[q] == h);
        crate::top_k::lemma_ordered_members(all, before, q);
        let i = choose|i: int| 0 <= i < all.len() && all[i] == h;
        self.lemma_listed_hits_answer(clauses, by, all, i, row);
    }
}

} // verus!
