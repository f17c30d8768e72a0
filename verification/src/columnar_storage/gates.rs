//! Which queries a shortcut answers.
//!
//! A shortcut answers from counts or from a stream of names. Each gate admits only the shapes
//! whose answer the scan would give too; what misses a gate is answered by the scan.

use crate::clauses::{
    no_having_after_paging, Clauses, CompareOp, GroupBy, Predicate, PredicateValue, SortDirection,
};
use crate::fields::{canonical, canonical_text, is_posting_field, posting_field};
use crate::overlay::Overlay;
use crate::text::same_text;
use vstd::prelude::*;
use vstd::string::*;

verus! {

/// The most rows a running trim keeps to.
pub const TOPK_THRESHOLD: usize = 1000;

// ───────────────────────────── grouping ─────────────────────────────

/// Whether a stored structure counts what a predicate selects exactly: an equality of kind or of
/// name with a text. Every other index only proposes rows.
pub open spec fn exact(p: Predicate) -> bool {
    &&& canonical_text(p.field@) == "fql_kind"@ || canonical_text(p.field@) == "name"@
    &&& p.op == CompareOp::Eq
    &&& p.value is String
}

/// Whether a stored structure counts what a predicate selects exactly.
pub fn counts_exactly(p: &Predicate) -> (r: bool)
    ensures
        r == exact(*p),
{
    let field = canonical(p.field.as_str());
    (same_text(field, "fql_kind") || same_text(field, "name")) && p.op == CompareOp::Eq
        && match &p.value {
        PredicateValue::String(_) => true,
        _ => false,
    }
}

/// Whether a counted group row reads a field: its own count, or what it was grouped by.
pub open spec fn group_reads(field: Seq<char>, grouped: Seq<char>) -> bool {
    canonical_text(field) == "count"@ || canonical_text(field) == grouped
}

fn reads_group_field(field: &str, grouped: &str) -> (r: bool)
    ensures
        r == group_reads(field@, grouped@),
{
    let named = canonical(field);
    same_text(named, "count") || same_text(named, grouped)
}

/// Whether every `HAVING` and `ORDER BY` names something a counted group row carries.
pub open spec fn reads_group_row(clauses: Clauses, grouped: Seq<char>) -> bool {
    &&& forall|i: int|
        0 <= i < clauses.having_predicates@.len() ==> group_reads(
            (#[trigger] clauses.having_predicates@[i]).field@,
            grouped,
        )
    &&& clauses.order_by is Some ==> group_reads(clauses.order_by->0.field@, grouped)
}

/// Whether every `HAVING` and `ORDER BY` names something a counted group row carries.
pub fn only_the_group_row_is_read(clauses: &Clauses, grouped: &str) -> (r: bool)
    ensures
        r == reads_group_row(*clauses, grouped@),
{
    let mut i: usize = 0;
    while i < clauses.having_predicates.len()
        invariant
            i <= clauses.having_predicates@.len(),
            forall|k: int|
                0 <= k < i ==> group_reads(
                    (#[trigger] clauses.having_predicates@[k]).field@,
                    grouped@,
                ),
        decreases clauses.having_predicates.len() - i,
    {
        if !reads_group_field(clauses.having_predicates[i].field.as_str(), grouped) {
            return false;
        }
        i += 1;
    }
    match &clauses.order_by {
        Some(o) => reads_group_field(o.field.as_str(), grouped),
        None => true,
    }
}

/// The canonical field that a query groups by.
pub open spec fn grouped_by(clauses: Clauses) -> Option<Seq<char>> {
    match clauses.group_by {
        Some(GroupBy::Field(f)) => Some(canonical_text(f@)),
        None => None,
    }
}

/// Whether a `GROUP BY` of the path can be counted from the segment table.
pub open spec fn counts_files(clauses: Clauses, dirty_empty: bool) -> bool {
    &&& dirty_empty
    &&& grouped_by(clauses) == Some("path"@)
    &&& reads_group_row(clauses, "path"@)
    &&& forall|i: int|
        0 <= i < clauses.where_predicates@.len() ==> exact(#[trigger] clauses.where_predicates@[i])
}

/// Whether every predicate of a list is counted exactly.
pub fn all_count_exactly(predicates: &Vec<Predicate>) -> (r: bool)
    ensures
        r == (forall|i: int| 0 <= i < predicates@.len() ==> exact(#[trigger] predicates@[i])),
{
    let mut i: usize = 0;
    while i < predicates.len()
        invariant
            i <= predicates@.len(),
            forall|k: int| 0 <= k < i ==> exact(#[trigger] predicates@[k]),
        decreases predicates.len() - i,
    {
        if !counts_exactly(&predicates[i]) {
            return false;
        }
        i += 1;
    }
    true
}

/// Whether a `GROUP BY` of the path can be counted from the segment table: no uncommitted rows,
/// a `HAVING` and an `ORDER BY` that the group row answers, and only predicates that are counted
/// exactly.
pub fn group_by_file_fast_path_eligible(clauses: &Clauses, dirty_empty: bool) -> (r: bool)
    ensures
        r == counts_files(*clauses, dirty_empty),
{
    if !dirty_empty {
        return false;
    }
    match &clauses.group_by {
        Some(GroupBy::Field(f)) => {
            if !same_text(canonical(f.as_str()), "path") {
                return false;
            }
        },
        None => {
            return false;
        },
    }
    only_the_group_row_is_read(clauses, "path") && all_count_exactly(&clauses.where_predicates)
}

/// Whether a `GROUP BY` of the kind can be counted from the kind postings.
pub open spec fn counts_kinds(clauses: Clauses, dirty_empty: bool) -> bool {
    &&& dirty_empty
    &&& clauses.where_predicates@.len() == 0
    &&& grouped_by(clauses) == Some("fql_kind"@)
    &&& reads_group_row(clauses, "fql_kind"@)
}

/// Whether a `GROUP BY` of the kind can be counted from the kind postings: no uncommitted rows,
/// no `WHERE`, and a `HAVING` and an `ORDER BY` that the group row answers.
pub fn group_by_kind_fast_path_eligible(clauses: &Clauses, dirty_empty: bool) -> (r: bool)
    ensures
        r == counts_kinds(*clauses, dirty_empty),
{
    if !dirty_empty || clauses.where_predicates.len() != 0 {
        return false;
    }
    match &clauses.group_by {
        Some(GroupBy::Field(f)) => same_text(canonical(f.as_str()), "fql_kind")
            && only_the_group_row_is_read(clauses, "fql_kind"),
        None => false,
    }
}

/// The posted enrichment field whose `GROUP BY` can be counted from the overlay's keys.
pub open spec fn counted_field(clauses: Clauses, dirty_empty: bool) -> Option<Seq<char>> {
    match grouped_by(clauses) {
        Some(f) => if dirty_empty && clauses.where_predicates@.len() == 0 && posting_field(f)
            && reads_group_row(clauses, f) {
            Some(f)
        } else {
            None
        },
        None => None,
    }
}

/// The posted enrichment field whose `GROUP BY` can be counted from the overlay's keys.
pub fn group_by_enrichment_fast_path_field<'a>(clauses: &'a Clauses, dirty_empty: bool) -> (r: Option<
    &'a str,
>)
    ensures
        crate::filter::opt_text(r) == counted_field(*clauses, dirty_empty),
{
    if !dirty_empty || clauses.where_predicates.len() != 0 {
        return None;
    }
    match &clauses.group_by {
        Some(GroupBy::Field(f)) => {
            let field = canonical(f.as_str());
            if !is_posting_field(field) || !only_the_group_row_is_read(clauses, field) {
                return None;
            }
            Some(field)
        },
        None => None,
    }
}

// ───────────────────────────── name order ─────────────────────────────

/// Whether a query orders by name, in a direction.
pub open spec fn orders_by_name(clauses: Clauses, direction: SortDirection) -> bool {
    match clauses.order_by {
        Some(o) => o.field@ == "name"@ && o.direction == direction,
        None => false,
    }
}

fn is_ordered_by_name(clauses: &Clauses, direction: SortDirection) -> (r: bool)
    ensures
        r == orders_by_name(*clauses, direction),
{
    match &clauses.order_by {
        Some(o) => same_text(o.field.as_str(), "name") && o.direction == direction,
        None => false,
    }
}

/// Whether nothing but a page is asked of the rows, paths included.
pub open spec fn bare_page(clauses: Clauses) -> bool {
    &&& clauses.limit is Some
    &&& clauses.group_by is None
    &&& clauses.in_glob is None
    &&& clauses.exclude_globs@.len() == 0
    &&& clauses.pages_last()
}

fn is_bare_page(clauses: &Clauses) -> (r: bool)
    ensures
        r == bare_page(*clauses),
{
    clauses.limit.is_some() && clauses.group_by.is_none() && clauses.in_glob.is_none()
        && clauses.exclude_globs.len() == 0 && no_having_after_paging(clauses)
}

/// The kind that a query keeps to, where an equality of kind is all its `WHERE`.
pub open spec fn only_kind(clauses: Clauses) -> Option<Seq<char>> {
    if clauses.where_predicates@.len() == 1 {
        let p = clauses.where_predicates@[0];
        if canonical_text(p.field@) == "fql_kind"@ && p.op == CompareOp::Eq {
            p.value.text()
        } else {
            None
        }
    } else {
        None
    }
}

fn find_only_kind<'a>(clauses: &'a Clauses) -> (r: Option<&'a str>)
    ensures
        crate::filter::opt_text(r) == only_kind(*clauses),
{
    if clauses.where_predicates.len() != 1 {
        return None;
    }
    let p = &clauses.where_predicates[0];
    if !same_text(canonical(p.field.as_str()), "fql_kind") || p.op != CompareOp::Eq {
        return None;
    }
    match &p.value {
        PredicateValue::String(kind) => Some(kind.as_str()),
        _ => None,
    }
}

/// The kind that an ascending name stream filters by, where such a stream answers the query.
pub open spec fn streamed_kind(clauses: Clauses, direction: SortDirection) -> Option<Seq<char>> {
    if orders_by_name(clauses, direction) && bare_page(clauses) {
        only_kind(clauses)
    } else {
        None
    }
}

/// The kind of `ORDER BY name ASC LIMIT n WHERE fql_kind = '<kind>'`.
pub fn order_by_name_kind_fast_path<'a>(clauses: &'a Clauses) -> (r: Option<&'a str>)
    ensures
        crate::filter::opt_text(r) == streamed_kind(*clauses, SortDirection::Asc),
{
    if !is_ordered_by_name(clauses, SortDirection::Asc) || !is_bare_page(clauses) {
        return None;
    }
    find_only_kind(clauses)
}

/// The kind of `ORDER BY name DESC LIMIT n WHERE fql_kind = '<kind>'`.
pub fn order_by_name_kind_desc_fast_path<'a>(clauses: &'a Clauses) -> (r: Option<&'a str>)
    ensures
        crate::filter::opt_text(r) == streamed_kind(*clauses, SortDirection::Desc),
{
    if !is_ordered_by_name(clauses, SortDirection::Desc) || !is_bare_page(clauses) {
        return None;
    }
    find_only_kind(clauses)
}

/// Whether a plain stream of names answers the query.
pub open spec fn streams_names(clauses: Clauses, direction: SortDirection) -> bool {
    &&& orders_by_name(clauses, direction)
    &&& bare_page(clauses)
    &&& clauses.where_predicates@.len() == 0
}

/// Whether `ORDER BY name ASC LIMIT n` is all the query asks.
pub fn order_by_name_fast_path(clauses: &Clauses) -> (r: bool)
    ensures
        r == streams_names(*clauses, SortDirection::Asc),
{
    is_ordered_by_name(clauses, SortDirection::Asc) && is_bare_page(clauses)
        && clauses.where_predicates.len() == 0
}

/// Whether `ORDER BY name DESC LIMIT n` is all the query asks.
pub fn order_by_name_desc_fast_path(clauses: &Clauses) -> (r: bool)
    ensures
        r == streams_names(*clauses, SortDirection::Desc),
{
    is_ordered_by_name(clauses, SortDirection::Desc) && is_bare_page(clauses)
        && clauses.where_predicates.len() == 0
}

/// Whether `LIMIT n` is all the query asks. The tie-breakers order by name first, as the name
/// stream does.
pub fn bare_limit_name_fast_path(clauses: &Clauses) -> (r: bool)
    ensures
        r == (clauses.order_by is None && bare_page(*clauses) && clauses.where_predicates@.len()
            == 0),
{
    clauses.order_by.is_none() && is_bare_page(clauses) && clauses.where_predicates.len() == 0
}

// ───────────────────────────── indexed predicates ─────────────────────────────

/// Whether an index may serve a predicate.
pub open spec fn served_by_index(p: Predicate, overlay: Overlay) -> bool {
    let f = canonical_text(p.field@);
    ||| f == "fql_kind"@ && p.op == CompareOp::Eq
    ||| f == "name"@ && (p.op == CompareOp::Eq || p.op == CompareOp::Like || p.op
        == CompareOp::Matches)
    ||| f == "language"@
    ||| exists|i: int| #[trigger] overlay.enrich_of_field(i, p.field@)
}

/// Whether any predicate of a query may be served by an index.
pub fn has_any_indexed_predicate(clauses: &Clauses, overlay: &Overlay) -> (r: bool)
    requires
        overlay.wf(),
    ensures
        r == (exists|k: int|
            0 <= k < clauses.where_predicates@.len() && served_by_index(
                #[trigger] clauses.where_predicates@[k],
                *overlay,
            )),
{
    let mut k: usize = 0;
    while k < clauses.where_predicates.len()
        invariant
            overlay.wf(),
            k <= clauses.where_predicates@.len(),
            forall|j: int|
                0 <= j < k ==> !served_by_index(
                    #[trigger] clauses.where_predicates@[j],
                    *overlay,
                ),
        decreases clauses.where_predicates.len() - k,
    {
        let p = &clauses.where_predicates[k];
        let f = canonical(p.field.as_str());
        if (same_text(f, "fql_kind") && p.op == CompareOp::Eq) || (same_text(f, "name") && (p.op
            == CompareOp::Eq || p.op == CompareOp::Like || p.op == CompareOp::Matches))
            || same_text(f, "language") || overlay.has_enrichment_field(p.field.as_str()) {
            assert(served_by_index(clauses.where_predicates@[k as int], *overlay));
            return true;
        }
        k += 1;
    }
    false
}

// ───────────────────────────── bounded pages ─────────────────────────────

/// The rows a running trim keeps to: the `LIMIT`, where it is small, nothing is skipped, and
/// neither a `GROUP BY` nor a `HAVING` is written.
pub open spec fn trim_bound(clauses: Clauses) -> Option<usize> {
    if clauses.group_by is None && (clauses.offset is None || clauses.offset->0 == 0)
        && clauses.limit is Some && clauses.limit->0 <= TOPK_THRESHOLD && clauses.pages_last() {
        clauses.limit
    } else {
        None
    }
}

/// The rows a running trim keeps to.
pub fn topk_trim_for(clauses: &Clauses) -> (r: Option<usize>)
    ensures
        r == trim_bound(*clauses),
{
    let skips = match clauses.offset {
        Some(n) => n != 0,
        None => false,
    };
    if clauses.group_by.is_some() || skips || !no_having_after_paging(clauses) {
        return None;
    }
    match clauses.limit {
        Some(k) => if k <= TOPK_THRESHOLD {
            Some(k)
        } else {
            None
        },
        None => None,
    }
}

/// The rows a page needs: the `LIMIT` and the rows the `OFFSET` skips, since the skip runs after
/// uncommitted rows are merged in. Nothing where there is no page to cut, or where a `GROUP BY`
/// or a `HAVING` is written.
pub open spec fn page_bound(clauses: Clauses) -> Option<usize> {
    if clauses.group_by is Some || !clauses.pages_last() || clauses.limit is None {
        None
    } else {
        let skip = match clauses.offset {
            Some(n) => n as int,
            None => 0,
        };
        let need = clauses.limit->0 + skip;
        if 0 < need <= usize::MAX {
            Some(need as usize)
        } else {
            None
        }
    }
}

/// The rows a page needs.
pub fn view_page_bound_for(clauses: &Clauses) -> (r: Option<usize>)
    ensures
        r == page_bound(*clauses),
{
    if clauses.group_by.is_some() || !no_having_after_paging(clauses) {
        return None;
    }
    let skip: usize = match clauses.offset {
        Some(n) => n,
        None => 0,
    };
    match clauses.limit {
        Some(limit) => match limit.checked_add(skip) {
            Some(need) => if need > 0 {
                Some(need)
            } else {
                None
            },
            None => None,
        },
        None => None,
    }
}

/// How many rows a name stream has to give: the `LIMIT` and the `OFFSET`, at least one.
pub open spec fn stream_need(clauses: Clauses) -> usize {
    let limit = if clauses.limit is Some {
        clauses.limit->0 as int
    } else {
        0
    };
    let skip = if clauses.offset is Some {
        clauses.offset->0 as int
    } else {
        0
    };
    if limit + skip < 1 {
        1
    } else if limit + skip > usize::MAX {
        usize::MAX
    } else {
        (limit + skip) as usize
    }
}

/// How many rows a name stream has to give: the `LIMIT` and the `OFFSET`, at least one.
pub fn fast_path_need(clauses: &Clauses) -> (n: usize)
    ensures
        n == stream_need(*clauses),
{
    let limit: usize = match clauses.limit {
        Some(n) => n,
        None => 0,
    };
    let offset: usize = match clauses.offset {
        Some(n) => n,
        None => 0,
    };
    let want: usize = limit.saturating_add(offset);
    if want < 1 {
        1
    } else {
        want
    }
}

/// Wherever the trim keeps a page, the page from views has the same size; with an `OFFSET` only
/// the page from views carries the rows that are skipped.
pub proof fn lemma_trim_is_a_page(clauses: Clauses)
    requires
        trim_bound(clauses) is Some,
        trim_bound(clauses)->0 > 0,
    ensures
        page_bound(clauses) == trim_bound(clauses),
{
}

} // verus!
