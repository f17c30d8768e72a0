//! `FIND symbols`: from the clauses of a query to its page.
//!
//! Clauses that no row could answer are refused. Groups are counted from the index where they can
//! be, and a page in the order of names is streamed off the name index. Everything else is scanned:
//! the indexes propose rows, the segments that cannot answer are left out, what matches is built or
//! chosen, the session's own rows join it, and the page is cut.

use crate::clauses::{Clauses, SortDirection};
use crate::collapse::{collapsed, dedupe_symbol_matches};
use crate::columnar_storage::budgets::{FindBounds, FindRefusal};
use crate::columnar_storage::candidates::rows_by_segment;
use crate::columnar_storage::delivery::{deliver, is_delivery, FindPage};
use crate::columnar_storage::gates::{
    counted_field, counts_files, counts_kinds, fast_path_need, group_by_enrichment_fast_path_field,
    group_by_file_fast_path_eligible, group_by_kind_fast_path_eligible,
    order_by_name_desc_fast_path, order_by_name_fast_path, order_by_name_kind_desc_fast_path,
    order_by_name_kind_fast_path, stream_need, streamed_kind, streams_names,
};
use crate::columnar_storage::groups::{is_value_page, Grouped};
use crate::columnar_storage::pages::capped_len;
use crate::columnar_storage::refusals::FieldRefusal;
use crate::columnar_storage::streams::wanted_rows;
use crate::columnar_storage::ColumnarStorage;
use crate::filter::first;
use crate::name_index::lists_entries;
use crate::overlay::paths_repeat;
use crate::segment::SymbolMatch;
use crate::top_k::ordered;
use roaring::RoaringBitmap;
use crate::overlay::lookup::opt_rows;
use vstd::prelude::*;
use vstd::string::*;

verus! {

/// Why a query is not answered.
#[derive(Debug)]
pub enum FindError {
    /// It names a field that no symbol row can answer.
    Field(FieldRefusal),
    /// It asks for more than the bounds allow.
    Bound(FindRefusal),
}

impl FindError {
    /// The refusal in words.
    pub fn message(&self) -> (s: String)
        ensures
            s@ == (match self {
                FindError::Field(e) => e.text(),
                FindError::Bound(e) => e.text(),
            }),
    {
        match self {
            FindError::Field(e) => e.message(),
            FindError::Bound(e) => e.message(),
        }
    }
}

impl ColumnarStorage {
    /// Whether `after` are rows with the session's usage counts written onto them.
    pub open spec fn stamped(&self, before: Seq<SymbolMatch>, after: Seq<SymbolMatch>) -> bool {
        after.len() == before.len() && forall|i: int|
            #![trigger after[i]]
            0 <= i < after.len() ==> after[i] == (SymbolMatch {
                usages_count: Some(self.usages_now(before[i].name@)),
                ..before[i]
            })
    }

    // ───────────────────────────── counted ─────────────────────────────

    /// Whether `c` is the page that the index counts for a query; nothing where it cannot.
    ///
    /// Only without edits, and only where no two segments hold rows of one file.
    pub open spec fn is_counted(&self, clauses: Clauses, c: Option<FindPage>) -> bool {
        let quiet = self.dirty.nothing();
        let total = self.rows_in_scope(clauses);
        if paths_repeat(self.index().segments@) {
            c is None
        } else if counts_kinds(clauses, quiet) {
            is_value_page(self.kind_counts(clauses), Grouped::Kind, total, clauses, c)
        } else if counts_files(clauses, quiet) {
            c is Some && self.is_file_page(clauses, c->0)
        } else if counted_field(clauses, quiet) is Some {
            let field = counted_field(clauses, quiet)->0;
            is_value_page(
                self.field_counts(clauses, field),
                Grouped::Field(field),
                total,
                clauses,
                c,
            )
        } else {
            c is None
        }
    }

    /// Counts the groups of a query from the index, where it can.
    pub fn counted_page(&self, clauses: &Clauses) -> (c: Option<FindPage>)
        requires
            self.wf(),
        ensures
            self.is_counted(*clauses, c),
    {
        if self.shared.overlay.has_duplicate_paths() {
            return None;
        }
        let quiet = self.dirty.is_empty();
        if group_by_kind_fast_path_eligible(clauses, quiet) {
            return self.fast_group_by_kind(clauses);
        }
        if group_by_file_fast_path_eligible(clauses, quiet) {
            return self.fast_group_by_file(clauses);
        }
        match group_by_enrichment_fast_path_field(clauses, quiet) {
            Some(field) => self.fast_group_by_enrichment(field, clauses),
            None => None,
        }
    }

    // ───────────────────────────── streamed ─────────────────────────────

    /// Whether rows are those that a stream of names gives for a query, with `want` among the
    /// wanted ones only.
    pub open spec fn is_stream(
        &self,
        rows: Seq<SymbolMatch>,
        direction: SortDirection,
        want: Option<Set<u32>>,
        need: usize,
    ) -> bool {
        match direction {
            SortDirection::Asc => exists|entries: Seq<(Vec<u8>, u64)>, m: int|
                lists_entries(entries, self.index().name_index@) && #[trigger] self.stream_stops(
                    entries,
                    want,
                    need,
                    m,
                ) && self.are_streamed(rows, self.streamed(entries, want, m)),
            SortDirection::Desc => exists|entries: Seq<(Vec<u8>, u64)>| #[trigger]
                lists_entries(entries, self.index().name_index@) && self.are_streamed(
                    rows,
                    first(
                        ordered(
                            self.streamed(entries, want, entries.len() as int),
                            self.name_desc(),
                        ),
                        need as nat,
                    ),
                ),
        }
    }

    /// Whether streamed rows are too few for a page once each is reported once, though the stream
    /// had given as many as the page needs: the rows that are missing were never read.
    pub open spec fn falls_short(counted: Seq<SymbolMatch>, need: usize) -> bool {
        counted.len() >= need && collapsed(counted, counted.len() as int).len() < need
    }

    /// Whether a page is what is delivered of streamed rows: stamped, each reported once. A page
    /// that falls short is not delivered. Rows past those needed are not counted.
    pub open spec fn is_stream_page(
        &self,
        rows: Seq<SymbolMatch>,
        counted: Seq<SymbolMatch>,
        clauses: Clauses,
        page: Option<FindPage>,
    ) -> bool {
        let need = stream_need(clauses);
        &&& self.stamped(rows, counted)
        &&& (page is None) == ColumnarStorage::falls_short(counted, need)
        &&& page is Some ==> exists|cut: FindPage| #[trigger]
            is_delivery(collapsed(counted, counted.len() as int), clauses, cut) && page->0.rows
                == cut.rows && page->0.total == (if cut.total < need {
                cut.total
            } else {
                need
            })
    }

    /// Whether a page is what streaming names delivers for a query.
    #[verifier::opaque]
    pub open spec fn streams_to(
        &self,
        clauses: Clauses,
        direction: SortDirection,
        want: Option<Set<u32>>,
        page: Option<FindPage>,
    ) -> bool {
        exists|rows: Seq<SymbolMatch>, counted: Seq<SymbolMatch>|
            self.is_stream(rows, direction, want, stream_need(clauses))
                && #[trigger] self.is_stream_page(rows, counted, clauses, page)
    }

    /// The direction in which a query's page can be streamed off the name index, and the kind it
    /// keeps to.
    pub open spec fn stream_plan(&self, clauses: Clauses) -> Option<(SortDirection, Option<Seq<char>>)> {
        if !self.dirty.nothing() {
            None
        } else if streams_names(clauses, SortDirection::Asc) {
            Some((SortDirection::Asc, None))
        } else if streams_names(clauses, SortDirection::Desc) {
            Some((SortDirection::Desc, None))
        } else if streamed_kind(clauses, SortDirection::Asc) is Some {
            Some((SortDirection::Asc, streamed_kind(clauses, SortDirection::Asc)))
        } else if streamed_kind(clauses, SortDirection::Desc) is Some {
            Some((SortDirection::Desc, streamed_kind(clauses, SortDirection::Desc)))
        } else {
            None
        }
    }

    /// Whether `n` is the page that the name index streams for a query; nothing where it cannot,
    /// where the page is larger than the rows that may be built, where the kind asked for has no
    /// rows posted, and where the page would be short.
    pub open spec fn is_named(&self, clauses: Clauses, max: usize, n: Option<FindPage>) -> bool {
        match self.stream_plan(clauses) {
            None => n is None,
            Some(_) if stream_need(clauses) > max => n is None,
            Some(plan) => {
                exists|want: Option<Set<u32>>| #[trigger]
                    self.wants(plan.1, want) && if plan.1 is Some && want is None {
                        n is None
                    } else {
                        self.streams_to(clauses, plan.0, want, n)
                    }
            },
        }
    }

    /// Whether rows are those that the index posts for a kind, where the kinds are sorted, and posted
    /// for the kind in any case; all rows where no kind is asked for.
    pub open spec fn wants(&self, kind: Option<Seq<char>>, want: Option<Set<u32>>) -> bool {
        match kind {
            Some(kind) => {
                &&& self.index().kinds_sorted() ==> want == self.index().kind_rows(kind)
                &&& want is Some ==> forall|g: u32| #[trigger]
                    want->0.contains(g) ==> self.index().posted_for_kind(kind, g)
            },
            None => want is None,
        }
    }

    fn stream(&self, clauses: &Clauses, direction: SortDirection, want: Option<&RoaringBitmap>) -> (page:
        Option<FindPage>)
        requires
            self.wf(),
        ensures
            self.streams_to(*clauses, direction, wanted_rows(want), page),
    {
        reveal(ColumnarStorage::streams_to);
        let need: usize = fast_path_need(clauses);
        let mut rows = match direction {
            SortDirection::Asc => self.stream_names_asc(need, want),
            SortDirection::Desc => self.stream_names_desc(need, want),
        };
        let ghost bare = rows@;
        assert(self.is_stream(bare, direction, wanted_rows(want), need));
        self.stamp_usage_counts(&mut rows);
        let ghost counted = rows@;
        let given: usize = rows.len();
        let distinct = dedupe_symbol_matches(rows);
        if given >= need && distinct.len() < need {
            assert(self.is_stream_page(bare, counted, *clauses, None));
            return None;
        }
        let cut = deliver(distinct, clauses);
        let ghost delivered = cut;
        let FindPage { rows, total } = cut;
        let total: usize = if total < need {
            total
        } else {
            need
        };
        let page = Some(FindPage { rows, total });
        proof {
            assert(is_delivery(
                collapsed(counted, counted.len() as int),
                *clauses,
                delivered,
            ));
            assert(self.is_stream_page(bare, counted, *clauses, page));
        }
        page
    }

    /// Streams a page in the order of names, where the query asks for nothing else.
    pub fn try_order_by_name_fast_paths(&self, clauses: &Clauses, max: usize) -> (n: Option<
        FindPage,
    >)
        requires
            self.wf(),
        ensures
            self.is_named(*clauses, max, n),
    {
        if !self.dirty.is_empty() || fast_path_need(clauses) > max {
            return None;
        }
        if order_by_name_fast_path(clauses) {
            assert(self.wants(None, None));
            return self.stream(clauses, SortDirection::Asc, None);
        }
        if order_by_name_desc_fast_path(clauses) {
            assert(self.wants(None, None));
            return self.stream(clauses, SortDirection::Desc, None);
        }
        match order_by_name_kind_fast_path(clauses) {
            Some(kind) => {
                let found = self.shared.overlay.prefilter_kind(kind);
                assert(self.wants(Some(kind@), opt_rows(found)));
                return match &found {
                    Some(rows) => self.stream(clauses, SortDirection::Asc, Some(rows)),
                    None => None,
                };
            },
            None => {},
        }
        match order_by_name_kind_desc_fast_path(clauses) {
            Some(kind) => {
                let found = self.shared.overlay.prefilter_kind(kind);
                assert(self.wants(Some(kind@), opt_rows(found)));
                match &found {
                    Some(rows) => self.stream(clauses, SortDirection::Desc, Some(rows)),
                    None => None,
                }
            },
            None => None,
        }
    }

    // ───────────────────────────── scanned ─────────────────────────────

    /// The candidate rows of each segment, once those that cannot answer are emptied, for rows that
    /// the indexes leave.
    pub open spec fn scan_candidates(&self, clauses: Clauses, left: Set<u32>) -> Seq<Set<u32>> {
        Seq::new(
            self.seg_count(),
            |s: int|
                if self.worth_reading(clauses, s) {
                    self.candidate_rows(clauses, left, s)
                } else {
                    Set::empty()
                },
        )
    }

    /// Whether rows are those that the session's own segments hold, before they are counted.
    pub open spec fn are_session_rows(&self, rows: Seq<SymbolMatch>, clauses: Clauses) -> bool {
        exists|parts: Seq<Seq<SymbolMatch>>| #[trigger]
            parts.flatten() == rows && parts.len() == self.dirty.added@.len() && forall|i: int|
                0 <= i < parts.len() ==> self.dirty.gives(
                    i,
                    self.dirty.all_rows(i),
                    clauses,
                    #[trigger] parts[i],
                )
    }

    /// Whether a page is that of a scan: the rows materialised, the session's own behind them, each
    /// reported once, delivered; and the answer counts what was shed. Where the session's own make
    /// them too many, the query is refused.
    pub open spec fn is_scan_page(
        &self,
        found: (Vec<SymbolMatch>, usize),
        session: Seq<SymbolMatch>,
        counted: Seq<SymbolMatch>,
        clauses: Clauses,
        max: usize,
        r: Result<FindPage, FindRefusal>,
    ) -> bool {
        let all = found.0@ + counted;
        &&& self.are_session_rows(session, clauses)
        &&& self.stamped(session, counted)
        &&& match r {
            Ok(page) => {
                &&& session.len() == 0 || all.len() <= max
                &&& exists|cut: FindPage| #[trigger]
                    is_delivery(collapsed(all, all.len() as int), clauses, cut) && page.rows
                        == cut.rows && page.total == capped_len(cut.total + found.1)
            },
            Err(e) => session.len() > 0 && all.len() > max && e == (FindRefusal::Built { max }),
        }
    }

    /// Whether `r` is what comes of a scan which found these rows.
    #[verifier::opaque]
    pub open spec fn finishes(
        &self,
        found: (Vec<SymbolMatch>, usize),
        clauses: Clauses,
        max: usize,
        r: Result<FindPage, FindRefusal>,
    ) -> bool {
        exists|session: Seq<SymbolMatch>, counted: Seq<SymbolMatch>| #[trigger]
            self.is_scan_page(found, session, counted, clauses, max, r)
    }

    fn finish_scan(&self, found: (Vec<SymbolMatch>, usize), clauses: &Clauses, max: usize) -> (r:
        Result<FindPage, FindRefusal>)
        requires
            self.wf(),
        ensures
            self.finishes(found, *clauses, max, r),
    {
        reveal(ColumnarStorage::finishes);
        let ghost pair = found;
        let (rows, shed) = found;
        let mut own = self.dirty.materialize_all(clauses);
        let ghost session = own@;
        assert(self.are_session_rows(session, *clauses));
        self.stamp_usage_counts(&mut own);
        let ghost counted = own@;
        if own.len() > 0 && (own.len() > max || rows.len() > max - own.len()) {
            let refusal = FindRefusal::Built { max };
            assert(self.is_scan_page(pair, session, counted, *clauses, max, Err(refusal)));
            return Err(refusal);
        }
        let mut all = rows;
        all.append(&mut own);
        let ghost joined = all@;
        assert(joined == pair.0@ + counted);
        let distinct = dedupe_symbol_matches(all);
        let cut = deliver(distinct, clauses);
        let ghost page = cut;
        let FindPage { rows, total } = cut;
        let sum: u128 = total as u128 + shed as u128;
        let total: usize = if sum > usize::MAX as u128 {
            usize::MAX
        } else {
            sum as usize
        };
        let out = FindPage { rows, total };
        proof {
            assert(is_delivery(collapsed(joined, joined.len() as int), *clauses, page));
            assert(self.is_scan_page(pair, session, counted, *clauses, max, Ok(out)));
        }
        Ok(out)
    }

    /// Whether `r` is what scanning gives for a query, for rows that the indexes leave.
    pub open spec fn is_scanned(
        &self,
        clauses: Clauses,
        left: Set<u32>,
        bounds: FindBounds,
        r: Result<FindPage, FindRefusal>,
    ) -> bool {
        &&& self.scope_alone(clauses) || self.narrows_to(clauses, left)
        &&& exists|m: Result<(Vec<SymbolMatch>, usize), FindRefusal>| #[trigger]
            self.is_materialized(self.scan_candidates(clauses, left), clauses, bounds, m)
                && match m {
                Err(e) => r == Err::<FindPage, _>(e),
                Ok(found) => self.finishes(found, clauses, bounds.rows, r),
            }
    }

    /// Scans for the rows of a query.
    pub fn scan_symbols(&self, clauses: &Clauses, bounds: FindBounds) -> (r: Result<
        FindPage,
        FindRefusal,
    >)
        requires
            self.wf(),
        ensures
            exists|left: Set<u32>| #[trigger] self.is_scanned(*clauses, left, bounds, r),
    {
        let mut by_segment = self.build_candidate_segments(clauses);
        let ghost built = rows_by_segment(by_segment@);
        self.prune_candidate_segments(&mut by_segment, clauses);
        let ghost by = rows_by_segment(by_segment@);
        let m = self.materialize_all(&by_segment, clauses, bounds);
        let ghost made = m;
        let ghost left = choose|left: Set<u32>| #[trigger]
            self.are_candidates(*clauses, left, built);
        proof {
            assert(by =~= self.scan_candidates(*clauses, left)) by {
                assert forall|s: int| 0 <= s < by.len() implies by[s] == self.scan_candidates(
                    *clauses,
                    left,
                )[s] by {
                    assert(built[s] == self.candidate_rows(*clauses, left, s));
                }
            }
        }
        match m {
            Err(e) => {
                assert(self.is_scanned(*clauses, left, bounds, Err(e)));
                Err(e)
            },
            Ok(found) => {
                let ghost pair = found;
                let r = self.finish_scan(found, clauses, bounds.rows);
                assert(self.finishes(pair, *clauses, bounds.rows, r));
                assert(self.is_scanned(*clauses, left, bounds, r));
                r
            },
        }
    }

    // ───────────────────────────── the query ─────────────────────────────

    /// Whether a query names a field that no symbol row can answer, and how it is refused: a
    /// `WHERE` before an `ORDER BY`, and that before a `GROUP BY`.
    pub open spec fn refuses(&self, clauses: Clauses, known: Seq<String>, e: FieldRefusal) -> bool {
        match self.unanswered_from(clauses.where_predicates@, known, 0) {
            Some(field) => e is Where && e->Where_0@ == field,
            None => if self.orders_by_nothing(clauses, known) {
                e is OrderBy && e->OrderBy_0@ == crate::fields::canonical_text(
                    clauses.order_by->0.field@,
                )
            } else {
                self.groups_by_nothing(clauses, known) && e is GroupBy && clauses.group_by->0
                    is Field && e->GroupBy_0@ == crate::fields::canonical_text(
                    clauses.group_by->0->Field_0@,
                )
            },
        }
    }

    /// Whether every field that a query names can be answered by a symbol row.
    pub open spec fn answerable(&self, clauses: Clauses, known: Seq<String>) -> bool {
        &&& self.unanswered_from(clauses.where_predicates@, known, 0) is None
        &&& !self.orders_by_nothing(clauses, known)
        &&& !self.groups_by_nothing(clauses, known)
    }

    /// Whether `r` answers a query.
    pub open spec fn answers_find(
        &self,
        clauses: Clauses,
        known: Seq<String>,
        bounds: FindBounds,
        r: Result<FindPage, FindError>,
    ) -> bool {
        if !self.answerable(clauses, known) {
            r is Err && r->Err_0 is Field && self.refuses(clauses, known, r->Err_0->Field_0)
        } else {
            ||| r is Ok && self.is_counted(clauses, Some(r->Ok_0))
            ||| self.is_counted(clauses, None) && r is Ok && self.is_named(clauses, bounds.rows, Some(r->Ok_0))
            ||| self.is_counted(clauses, None) && self.is_named(clauses, bounds.rows, None) && exists|
                left: Set<u32>,
                scan: Result<FindPage, FindRefusal>,
            | #[trigger]
                self.is_scanned(clauses, left, bounds, scan) && (match scan {
                    Ok(page) => r == Ok::<_, FindError>(page),
                    Err(e) => r is Err && r->Err_0 is Bound && r->Err_0->Bound_0 == e,
                })
        }
    }

    /// `FIND symbols`. `known` are the fields that the registered languages can write onto a row.
    pub fn find_symbols(&self, clauses: &Clauses, known: &Vec<String>, bounds: FindBounds) -> (r:
        Result<FindPage, FindError>)
        requires
            self.wf(),
        ensures
            self.answers_find(*clauses, known@, bounds, r),
    {
        match self.reject_unknown_where_fields(clauses, known) {
            Err(e) => {
                return Err(FindError::Field(e));
            },
            Ok(_) => {},
        }
        match self.reject_unknown_order_by_field(clauses, known) {
            Err(e) => {
                return Err(FindError::Field(e));
            },
            Ok(_) => {},
        }
        match self.reject_unknown_group_by_field(clauses, known) {
            Err(e) => {
                return Err(FindError::Field(e));
            },
            Ok(_) => {},
        }
        match self.counted_page(clauses) {
            Some(page) => {
                return Ok(page);
            },
            None => {},
        }
        match self.try_order_by_name_fast_paths(clauses, bounds.rows) {
            Some(page) => {
                return Ok(page);
            },
            None => {},
        }
        let scan = self.scan_symbols(clauses, bounds);
        let ghost made = scan;
        proof {
            let left = choose|left: Set<u32>| #[trigger]
                self.is_scanned(*clauses, left, bounds, made);
            assert(self.is_scanned(*clauses, left, bounds, made));
        }
        match scan {
            Ok(page) => Ok(page),
            Err(e) => Err(FindError::Bound(e)),
        }
    }
}

} // verus!
