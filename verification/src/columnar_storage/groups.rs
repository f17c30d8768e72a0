//! Groups counted from the index, without building a row of them.

use crate::clauses::Clauses;
use crate::columnar_storage::delivery::{
    cut_page, is_cut, retain_rows, retained, rows_where, FindPage,
};
use crate::columnar_storage::gates::{all_count_exactly, exact};
use crate::columnar_storage::pages::{add_capped, capped_len};
use crate::columnar_storage::prefilter::{posts_partially, segment_posts_partially};
use crate::columnar_storage::ColumnarStorage;
use crate::overlay::paths_repeat;
use crate::overlay::postings::count_views;
use crate::path_parts::{is_same_path, same_path};
use crate::paths::{in_scope, scope_selects};
use crate::overlay::lookup::opt_rows;
use crate::rows::{count_in_span, insert_span, rows_of};
use crate::segment::{opt_string, SymbolMatch};
use roaring::RoaringBitmap;
use vstd::prelude::*;
use vstd::string::*;

verus! {

// ───────────────────────────── group rows ─────────────────────────────

/// What the groups are of.
pub enum Grouped {
    Kind,
    Field(Seq<char>),
}

/// Whether a row carries nothing but what a group does.
pub open spec fn bare_group(m: SymbolMatch, count: nat) -> bool {
    &&& m.count == Some(capped_len(count as int))
    &&& m.node_kind is None
    &&& m.language is None
    &&& m.line is None
    &&& m.usages_count is None
    &&& m.node_id is None
    &&& m.rev is None
}

/// Whether a row is that of the group of a value.
pub open spec fn is_value_group(m: SymbolMatch, of: Grouped, value: Seq<char>, count: nat) -> bool {
    &&& bare_group(m, count)
    &&& m.name@ == value
    &&& m.path is None
    &&& match of {
        Grouped::Kind => opt_string(m.fql_kind) == Some(value) && m.fields@.len() == 0,
        Grouped::Field(f) => m.fql_kind is None && m.fields@.len() == 1 && m.fields@[0].0@ == f
            && m.fields@[0].1@ == value,
    }
}

/// Whether a row is that of the group of rows without a value.
pub open spec fn is_empty_group(m: SymbolMatch, count: nat) -> bool {
    &&& bare_group(m, count)
    &&& m.name@.len() == 0
    &&& m.path is None
    &&& m.fql_kind is None
    &&& m.fields@.len() == 0
}

/// Whether rows are those of the groups counted, and of the rows that no value accounts for.
pub open spec fn are_value_groups(
    rows: Seq<SymbolMatch>,
    of: Grouped,
    counts: Seq<(Seq<char>, nat)>,
    rest: nat,
) -> bool {
    &&& rows.len() == counts.len() + if rest > 0 {
        1nat
    } else {
        0nat
    }
    &&& forall|i: int|
        0 <= i < counts.len() ==> is_value_group(
            #[trigger] rows[i],
            of,
            counts[i].0,
            counts[i].1,
        )
    &&& rest > 0 ==> is_empty_group(rows[counts.len() as int], rest)
}

/// The sum of the first `n` counts.
pub open spec fn sum_of(counts: Seq<(Seq<char>, nat)>, n: int) -> nat
    decreases n,
{
    if n <= 0 {
        0
    } else {
        sum_of(counts, n - 1) + counts[n - 1].1
    }
}

fn as_count(n: u64) -> (r: usize)
    ensures
        r == capped_len(n as int),
{
    if n > usize::MAX as u64 {
        usize::MAX
    } else {
        n as usize
    }
}

fn group_row(value: &str, field: Option<&str>, count: u64) -> (m: SymbolMatch)
    ensures
        (match field {
            Some(f) => is_value_group(m, Grouped::Field(f@), value@, count as nat),
            None => is_value_group(m, Grouped::Kind, value@, count as nat),
        }),
{
    let mut m = SymbolMatch::default();
    m.name = value.to_owned();
    m.count = Some(as_count(count));
    match field {
        Some(f) => {
            let mut fields: Vec<(String, String)> = Vec::new();
            fields.push((f.to_owned(), value.to_owned()));
            m.fields = fields;
        },
        None => {
            m.fql_kind = Some(value.to_owned());
        },
    }
    m
}

/// The groups of counted values, and of what is left of `total` rows; nothing where the values
/// account for more rows than there are.
fn value_groups(counts: &Vec<(String, u64)>, field: Option<&str>, total: usize) -> (r: Option<
    Vec<SymbolMatch>,
>)
    ensures
        ({
            let views = count_views(counts@);
            let described = sum_of(views, views.len() as int);
            let of = match field {
                Some(f) => Grouped::Field(f@),
                None => Grouped::Kind,
            };
            match r {
                Some(rows) => described <= total && are_value_groups(
                    rows@,
                    of,
                    views,
                    (total - described) as nat,
                ),
                None => described > total,
            }
        }),
{
    let ghost views = count_views(counts@);
    let ghost of = match field {
        Some(f) => Grouped::Field(f@),
        None => Grouped::Kind,
    };
    let mut rows: Vec<SymbolMatch> = Vec::new();
    let mut described: u128 = 0;
    let mut i: usize = 0;
    while i < counts.len()
        invariant
            i <= counts@.len(),
            views == count_views(counts@),
            of == (match field {
                Some(f) => Grouped::Field(f@),
                None => Grouped::Kind,
            }),
            described == sum_of(views, i as int),
            described <= i * 0x1_0000_0000_0000_0000,
            rows@.len() == i,
            forall|k: int|
                0 <= k < i ==> is_value_group(#[trigger] rows@[k], of, views[k].0, views[k].1),
        decreases counts.len() - i,
    {
        assert(views[i as int] == (counts@[i as int].0@, counts@[i as int].1 as nat));
        rows.push(group_row(counts[i].0.as_str(), field, counts[i].1));
        described = described + counts[i].1 as u128;
        i += 1;
    }
    assert(views.len() == counts@.len());
    if described > total as u128 {
        return None;
    }
    let rest: usize = total - described as usize;
    if rest > 0 {
        let mut m = SymbolMatch::default();
        m.count = Some(rest);
        rows.push(m);
    }
    Some(rows)
}

/// Whether a page is that of groups: those a `HAVING` retains, ordered and cut.
pub open spec fn is_group_page(groups: Seq<SymbolMatch>, clauses: Clauses, page: FindPage) -> bool {
    is_cut(rows_where(groups, |i: int| retained(groups[i], clauses)), clauses, page)
}

/// Whether `r` is the page of counted groups: nothing where there are no counts, or where they
/// account for more than `total` rows.
pub open spec fn is_value_page(
    counts: Option<Seq<(Seq<char>, nat)>>,
    of: Grouped,
    total: usize,
    clauses: Clauses,
    r: Option<FindPage>,
) -> bool {
    if counts is None || sum_of(counts->0, counts->0.len() as int) > total {
        r is None
    } else {
        r is Some && exists|groups: Seq<SymbolMatch>| #[trigger]
            are_value_groups(
                groups,
                of,
                counts->0,
                (total - sum_of(counts->0, counts->0.len() as int)) as nat,
            ) && is_group_page(groups, clauses, r->0)
    }
}

fn value_page(
    counts: &Vec<(String, u64)>,
    field: Option<&str>,
    total: usize,
    clauses: &Clauses,
) -> (r: Option<FindPage>)
    ensures
        is_value_page(
            Some(count_views(counts@)),
            match field {
                Some(f) => Grouped::Field(f@),
                None => Grouped::Kind,
            },
            total,
            *clauses,
            r,
        ),
{
    match value_groups(counts, field, total) {
        None => None,
        Some(groups) => {
            let ghost g = groups@;
            let kept = retain_rows(groups, clauses);
            let page = cut_page(kept, clauses);
            assert(is_group_page(g, *clauses, page));
            Some(page)
        },
    }
}

// ───────────────────────────── scope ─────────────────────────────

impl ColumnarStorage {
    /// How many distinct rows the in-scope ones among the first `n` segments hold.
    pub open spec fn canonical_rows(&self, clauses: Clauses, n: int) -> nat
        decreases n,
    {
        if n <= 0 {
            0
        } else {
            let meta = self.index().segments@[n - 1];
            self.canonical_rows(clauses, n - 1) + if scope_selects(meta.source_path@, clauses) {
                meta.dedup_row_count as nat
            } else {
                0nat
            }
        }
    }

    /// The global rows of the in-scope ones among the first `n` segments.
    pub open spec fn scope_rows(&self, clauses: Clauses, n: int) -> Set<u32>
        decreases n,
    {
        if n <= 0 {
            Set::empty()
        } else if scope_selects(self.index().segments@[n - 1].source_path@, clauses) {
            self.scope_rows(clauses, n - 1).union(self.seg_rows(n - 1))
        } else {
            self.scope_rows(clauses, n - 1)
        }
    }

    /// The rows that a query's scope keeps to; everything where it has none.
    pub open spec fn scope_mask(&self, clauses: Clauses) -> Option<Set<u32>> {
        if clauses.scopes_paths() {
            Some(self.scope_rows(clauses, self.seg_count() as int))
        } else {
            None
        }
    }

    fn scope(&self, clauses: &Clauses) -> (r: (RoaringBitmap, usize))
        requires
            self.wf(),
        ensures
            rows_of(r.0) == self.scope_rows(*clauses, self.seg_count() as int),
            r.1 == capped_len(self.canonical_rows(*clauses, self.seg_count() as int) as int),
    {
        let metas = &self.shared.overlay.segments;
        let mut mask = RoaringBitmap::new();
        let mut total: u128 = 0;
        let mut i: usize = 0;
        while i < metas.len()
            invariant
                self.wf(),
                metas@ == self.index().segments@,
                i <= metas@.len(),
                rows_of(mask) == self.scope_rows(*clauses, i as int),
                total == self.canonical_rows(*clauses, i as int),
                total <= i * 0x1_0000_0000,
            decreases metas.len() - i,
        {
            if in_scope(metas[i].source_path.as_str(), clauses) {
                total = total + metas[i].dedup_row_count as u128;
                let range = self.shared.overlay.segment_row_range(i);
                insert_span(&mut mask, range.start, range.end);
            }
            i += 1;
        }
        let count: usize = if total > usize::MAX as u128 {
            usize::MAX
        } else {
            total as usize
        };
        (mask, count)
    }

    // ───────────────────────────── by kind ─────────────────────────────

    /// The counts of the kinds that a query in this scope sees.
    pub open spec fn kind_counts(&self, clauses: Clauses) -> Option<Seq<(Seq<char>, nat)>> {
        self.index().kind_counts_from(self.scope_mask(clauses), 0)
    }

    /// How many distinct rows a query in this scope sees.
    pub open spec fn rows_in_scope(&self, clauses: Clauses) -> usize {
        capped_len(self.canonical_rows(clauses, self.seg_count() as int) as int)
    }

    /// `GROUP BY` the kind, counted from the kind postings. The rows without a kind are one group:
    /// what the kinds do not account for. Nothing where the postings cannot be read, or account
    /// for more rows than there are.
    pub fn fast_group_by_kind(&self, clauses: &Clauses) -> (r: Option<FindPage>)
        requires
            self.wf(),
        ensures
            is_value_page(
                self.kind_counts(*clauses),
                Grouped::Kind,
                self.rows_in_scope(*clauses),
                *clauses,
                r,
            ),
    {
        let (mask, total) = self.scope(clauses);
        let narrow = clauses.in_glob.is_some() || clauses.exclude_globs.len() > 0;
        let counts = if narrow {
            self.shared.overlay.kind_global_counts(Some(&mask))
        } else {
            self.shared.overlay.kind_global_counts(None)
        };
        match counts {
            None => None,
            Some(list) => value_page(&list, None, total, clauses),
        }
    }

    // ───────────────────────────── by enrichment ─────────────────────────────

    /// Whether an in-scope segment stores a column without posting it.
    pub open spec fn scope_posts_partially(&self, clauses: Clauses, field: Seq<char>) -> bool {
        exists|i: int|
            0 <= i < self.seg_count() && scope_selects(
                self.index().segments@[i].source_path@,
                clauses,
            ) && posts_partially(#[trigger] self.seg(i), field)
    }

    /// The counts of the values of a field that a query in this scope sees; nothing where the
    /// overlay keeps no keys of the field, or a segment stores it without posting it, or a key
    /// cannot be read.
    pub open spec fn field_counts(&self, clauses: Clauses, field: Seq<char>) -> Option<
        Seq<(Seq<char>, nat)>,
    > {
        if !(exists|i: int| #[trigger] self.index().enrich_of_field(i, field))
            || self.scope_posts_partially(clauses, field) {
            None
        } else {
            self.index().value_counts_from(field, self.scope_mask(clauses), 0)
        }
    }

    /// `GROUP BY` a posted field, counted from the overlay's keys. The rows without a value are one
    /// group. Nothing where the keys cannot be read whole, or account for more rows than there are.
    pub fn fast_group_by_enrichment(&self, field: &str, clauses: &Clauses) -> (r: Option<FindPage>)
        requires
            self.wf(),
        ensures
            is_value_page(
                self.field_counts(*clauses, field@),
                Grouped::Field(field@),
                self.rows_in_scope(*clauses),
                *clauses,
                r,
            ),
    {
        if !self.shared.overlay.has_enrichment_field(field) {
            return None;
        }
        let metas = &self.shared.overlay.segments;
        let mut i: usize = 0;
        while i < metas.len()
            invariant
                self.wf(),
                metas@ == self.index().segments@,
                i <= metas@.len(),
                forall|k: int|
                    0 <= k < i && scope_selects(metas@[k].source_path@, *clauses)
                        ==> !posts_partially(#[trigger] self.seg(k), field@),
            decreases metas.len() - i,
        {
            if in_scope(metas[i].source_path.as_str(), clauses) && segment_posts_partially(
                &*self.shared.segments[i],
                field,
            ) {
                assert(posts_partially(self.seg(i as int), field@));
                return None;
            }
            i += 1;
        }
        let (mask, total) = self.scope(clauses);
        let narrow = clauses.in_glob.is_some() || clauses.exclude_globs.len() > 0;
        let counts = if narrow {
            self.shared.overlay.enrichment_value_counts(field, Some(&mask))
        } else {
            self.shared.overlay.enrichment_value_counts(field, None)
        };
        match counts {
            None => None,
            Some(list) => value_page(&list, Some(field), total, clauses),
        }
    }

    // ───────────────────────────── by file ─────────────────────────────

    /// How many rows of segment `i` a query counts: its distinct rows, or where there are
    /// predicates, those of the rows that the indexes leave.
    pub open spec fn file_count(&self, clauses: Clauses, left: Set<u32>, i: int) -> nat {
        if clauses.where_predicates@.len() == 0 {
            self.index().segments@[i].dedup_row_count as nat
        } else {
            left.intersect(self.seg_rows(i)).len()
        }
    }

    /// The in-scope files among the first `n` segments that have rows to count, each once, with how
    /// many.
    pub open spec fn file_counts(&self, clauses: Clauses, left: Set<u32>, n: int) -> Seq<
        (Seq<char>, nat),
    >
        decreases n,
    {
        if n <= 0 {
            seq![]
        } else {
            let path = self.index().segments@[n - 1].source_path@;
            let count = self.file_count(clauses, left, n - 1);
            let rest = self.file_counts(clauses, left, n - 1);
            if scope_selects(path, clauses) && count > 0 {
                count_more(rest, path, count)
            } else {
                rest
            }
        }
    }

    /// Whether rows are those of the files counted.
    pub open spec fn are_file_groups(rows: Seq<SymbolMatch>, counts: Seq<(Seq<char>, nat)>) -> bool {
        rows.len() == counts.len() && forall|i: int|
            0 <= i < rows.len() ==> {
                let m = #[trigger] rows[i];
                &&& bare_group(m, counts[i].1)
                &&& opt_string(m.path) == Some(counts[i].0)
                &&& m.name@.len() == 0
                &&& m.fql_kind is None
                &&& m.fields@.len() == 0
            }
    }

    /// Whether a page is that of the files counted, for rows that the indexes leave.
    pub open spec fn is_file_page(&self, clauses: Clauses, page: FindPage) -> bool {
        exists|left: Set<u32>, groups: Seq<SymbolMatch>|
            #![trigger self.file_counts(clauses, left, self.seg_count() as int), is_group_page(groups, clauses, page)]
            {
                &&& clauses.where_predicates@.len() == 0 || self.narrows_to(clauses, left)
                &&& ColumnarStorage::are_file_groups(
                    groups,
                    self.file_counts(clauses, left, self.seg_count() as int),
                )
                &&& is_group_page(groups, clauses, page)
            }
    }

    proof fn lemma_counted_paths(&self, clauses: Clauses, left: Set<u32>, n: int)
        requires
            0 <= n <= self.index().segments@.len(),
        ensures
            forall|k: int|
                #![trigger self.file_counts(clauses, left, n)[k]]
                0 <= k < self.file_counts(clauses, left, n).len() ==> exists|i: int|
                    0 <= i < n && (#[trigger] self.index().segments@[i]).source_path@
                        == self.file_counts(clauses, left, n)[k].0,
        decreases n,
    {
        if n > 0 {
            self.lemma_counted_paths(clauses, left, n - 1);
            let rest = self.file_counts(clauses, left, n - 1);
            let now = self.file_counts(clauses, left, n);
            let segs = self.index().segments@;
            lemma_place(rest, segs[n - 1].source_path@, 0);
            assert forall|k: int| #![trigger now[k]] 0 <= k < now.len() implies exists|i: int|
                0 <= i < n && (#[trigger] segs[i]).source_path@ == now[k].0 by {
                if k < rest.len() {
                    assert(rest[k].0 == now[k].0);
                    let i = choose|i: int|
                        0 <= i < n - 1 && (#[trigger] segs[i]).source_path@ == rest[k].0;
                    assert(segs[i].source_path@ == now[k].0);
                } else {
                    assert(segs[n - 1].source_path@ == now[k].0);
                }
            }
        }
    }

    proof fn lemma_new_file(&self, clauses: Clauses, left: Set<u32>, n: int)
        requires
            0 <= n < self.index().segments@.len(),
            !paths_repeat(self.index().segments@),
        ensures
            place_of(
                self.file_counts(clauses, left, n),
                self.index().segments@[n].source_path@,
                0,
            ) == self.file_counts(clauses, left, n).len(),
    {
        let counts = self.file_counts(clauses, left, n);
        let segs = self.index().segments@;
        self.lemma_counted_paths(clauses, left, n);
        lemma_place(counts, segs[n].source_path@, 0);
        let at = place_of(counts, segs[n].source_path@, 0);
        if at < counts.len() {
            assert(counts[at].0 == counts[at].0);
            let i = choose|i: int|
                0 <= i < n && (#[trigger] segs[i]).source_path@ == counts[at].0;
            assert(same_path(segs[i].source_path@, segs[n].source_path@));
            assert(segs[n] == segs[n]);
        }
    }

    /// `GROUP BY` the file, counted from the segment table and the postings. The counts of segments
    /// of one file are summed. Nothing where a predicate is not settled by them.
    pub fn fast_group_by_file(&self, clauses: &Clauses) -> (r: Option<FindPage>)
        requires
            self.wf(),
        ensures
            (r is Some) == (forall|i: int|
                0 <= i < clauses.where_predicates@.len() ==> exact(
                    #[trigger] clauses.where_predicates@[i],
                )),
            r is Some ==> self.is_file_page(*clauses, r->0),
    {
        if !all_count_exactly(&clauses.where_predicates) {
            return None;
        }
        let filtered = clauses.where_predicates.len() > 0;
        let ids: RoaringBitmap = if filtered {
            let floor = self.floor_rows(clauses);
            let ghost start = opt_rows(floor);
            let rows = self.prefilter_global(clauses, floor);
            assert(self.floors(*clauses, start));
            assert(self.narrows_to(*clauses, rows_of(rows)));
            rows
        } else {
            RoaringBitmap::new()
        };
        let ghost left = rows_of(ids);
        let metas = &self.shared.overlay.segments;
        let repeats = self.shared.overlay.has_duplicate_paths();
        let mut rows: Vec<SymbolMatch> = Vec::new();
        let mut i: usize = 0;
        while i < metas.len()
            invariant
                self.wf(),
                metas@ == self.index().segments@,
                filtered == (clauses.where_predicates@.len() > 0),
                left == rows_of(ids),
                repeats == paths_repeat(metas@),
                i <= metas@.len(),
                ColumnarStorage::are_file_groups(
                    rows@,
                    self.file_counts(*clauses, left, i as int),
                ),
            decreases metas.len() - i,
        {
            let ghost counts = self.file_counts(*clauses, left, i as int);
            if in_scope(metas[i].source_path.as_str(), clauses) {
                let count: u64 = if filtered {
                    let range = self.shared.overlay.segment_row_range(i);
                    count_in_span(&ids, range.start, range.end)
                } else {
                    metas[i].dedup_row_count as u64
                };
                assert(count == self.file_count(*clauses, left, i as int));
                if count > 0 {
                    proof {
                        if !repeats {
                            self.lemma_new_file(*clauses, left, i as int);
                        }
                    }
                    let at: usize = if repeats {
                        find_group(&rows, metas[i].source_path.as_str(), Ghost(counts))
                    } else {
                        rows.len()
                    };
                    add_to_group(
                        &mut rows,
                        at,
                        metas[i].source_path.as_str(),
                        count,
                        Ghost(counts),
                    );
                }
            }
            i += 1;
        }
        let ghost g = rows@;
        let kept = retain_rows(rows, clauses);
        let page = cut_page(kept, clauses);
        assert(is_group_page(g, *clauses, page));
        proof {
            let counts = self.file_counts(*clauses, left, self.seg_count() as int);
            assert(ColumnarStorage::are_file_groups(g, counts));
        }
        Some(page)
    }
}

/// Where the count of a path stands, from `i` on; the length where there is none.
pub open spec fn place_of(counts: Seq<(Seq<char>, nat)>, path: Seq<char>, i: int) -> int
    decreases counts.len() - i,
{
    if i < 0 || i >= counts.len() {
        counts.len() as int
    } else if same_path(counts[i].0, path) {
        i
    } else {
        place_of(counts, path, i + 1)
    }
}

/// Counts with more rows of a path.
pub open spec fn count_more(counts: Seq<(Seq<char>, nat)>, path: Seq<char>, more: nat) -> Seq<
    (Seq<char>, nat),
> {
    let at = place_of(counts, path, 0);
    if at < counts.len() {
        counts.update(at, (counts[at].0, counts[at].1 + more))
    } else {
        counts.push((path, more))
    }
}

proof fn lemma_place(counts: Seq<(Seq<char>, nat)>, path: Seq<char>, i: int)
    requires
        0 <= i <= counts.len(),
    ensures
        i <= place_of(counts, path, i) <= counts.len(),
        place_of(counts, path, i) < counts.len() ==> same_path(
            counts[place_of(counts, path, i)].0,
            path,
        ),
    decreases counts.len() - i,
{
    if i < counts.len() && !same_path(counts[i].0, path) {
        lemma_place(counts, path, i + 1);
    }
}

fn find_group(rows: &Vec<SymbolMatch>, path: &str, Ghost(counts): Ghost<Seq<(Seq<char>, nat)>>) -> (at:
    usize)
    requires
        ColumnarStorage::are_file_groups(rows@, counts),
    ensures
        at == place_of(counts, path@, 0),
{
    let mut i: usize = 0;
    while i < rows.len()
        invariant
            ColumnarStorage::are_file_groups(rows@, counts),
            i <= rows@.len(),
            place_of(counts, path@, 0) == place_of(counts, path@, i as int),
        decreases rows.len() - i,
    {
        let m = &rows[i];
        assert(opt_string(rows@[i as int].path) == Some(counts[i as int].0));
        match &m.path {
            Some(p) => {
                if is_same_path(p.as_str(), path) {
                    return i;
                }
            },
            None => {},
        }
        i += 1;
    }
    i
}

fn add_to_group(
    rows: &mut Vec<SymbolMatch>,
    at: usize,
    path: &str,
    count: u64,
    Ghost(counts): Ghost<Seq<(Seq<char>, nat)>>,
)
    requires
        ColumnarStorage::are_file_groups(old(rows)@, counts),
        at == place_of(counts, path@, 0),
    ensures
        ColumnarStorage::are_file_groups(final(rows)@, count_more(counts, path@, count as nat)),
{
    let ghost was = rows@;
    let ghost now = count_more(counts, path@, count as nat);
    proof {
        lemma_place(counts, path@, 0);
    }
    let mut m = SymbolMatch::default();
    if at < rows.len() {
        assert(bare_group(was[at as int], counts[at as int].1));
        let before: usize = match rows[at].count {
            Some(n) => n,
            None => 0,
        };
        m.path = match &rows[at].path {
            Some(p) => Some(p.clone()),
            None => None,
        };
        m.count = Some(add_capped(before, as_count(count)));
        rows.set(at, m);
        assert(rows@ == was.update(at as int, m));
        assert(bare_group(m, now[at as int].1));
    } else {
        m.path = Some(path.to_owned());
        m.count = Some(as_count(count));
        rows.push(m);
    }
    assert forall|i: int| 0 <= i < rows@.len() implies {
        let m = #[trigger] rows@[i];
        &&& bare_group(m, now[i].1)
        &&& opt_string(m.path) == Some(now[i].0)
        &&& m.name@.len() == 0
        &&& m.fql_kind is None
        &&& m.fields@.len() == 0
    } by {
        if i < was.len() && i != at {
            assert(rows@[i] == was[i]);
        }
    }
}

} // verus!
