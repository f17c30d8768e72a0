//! The last stage of a query: filter, group, order, and cut the page.

use crate::clauses::{Clauses, GroupBy};
use crate::columnar_storage::hits::residual;
use crate::fields::{canonical, canonical_text};
use crate::filter::{
    delivery_order, eval_predicate, first, orders_rows, row_satisfies, ClauseTarget,
};
use crate::paths::{in_scope, scope_selects};
use crate::segment::SymbolMatch;
use crate::sort::{distinct_positions, pick, picked};
use crate::text::same_text;
use crate::text_index::{count_among, is_first_item, TextIndex};
use vstd::prelude::*;
use vstd::string::*;

verus! {

/// One page of an answer, with the size of the answer.
pub struct FindPage {
    pub rows: Vec<SymbolMatch>,
    pub total: usize,
}

/// The positions below `n` at which a test holds.
pub open spec fn positions_where(test: spec_fn(int) -> bool, n: int) -> Seq<usize>
    decreases n,
{
    if n <= 0 {
        seq![]
    } else if test(n - 1) {
        positions_where(test, n - 1).push((n - 1) as usize)
    } else {
        positions_where(test, n - 1)
    }
}

proof fn lemma_positions_step(test: spec_fn(int) -> bool, n: int, bound: int)
    requires
        0 <= n <= bound <= usize::MAX,
        distinct_positions(positions_where(test, n), bound),
        forall|a: int|
            0 <= a < positions_where(test, n).len() ==> (#[trigger] positions_where(test, n)[a])
                < n,
        n < bound,
    ensures
        distinct_positions(positions_where(test, n + 1), bound),
        forall|a: int|
            0 <= a < positions_where(test, n + 1).len() ==> (
            #[trigger] positions_where(test, n + 1)[a]) < n + 1,
{
}

/// The rows at which a test holds, in their order.
pub open spec fn rows_where(rows: Seq<SymbolMatch>, test: spec_fn(int) -> bool) -> Seq<SymbolMatch> {
    picked(rows, positions_where(test, rows.len() as int))
}

// ───────────────────────────── filters ─────────────────────────────

/// Whether a query's scope selects a row; a row without a path is selected where there is none.
pub open spec fn row_in_scope(row: SymbolMatch, clauses: Clauses) -> bool {
    match row.path {
        Some(p) => scope_selects(p@, clauses),
        None => !clauses.scopes_paths(),
    }
}

/// Whether the predicates that are tested on a row hold, and its path is in scope.
pub open spec fn selected(row: SymbolMatch, clauses: Clauses) -> bool {
    row_in_scope(row, clauses) && forall|k: int|
        0 <= k < clauses.where_predicates@.len() && residual(
            #[trigger] clauses.where_predicates@[k],
        ) ==> row_satisfies(&row, clauses.where_predicates@[k])
}

/// Whether the predicates on a group hold: every `HAVING`, and a `WHERE` on its size.
pub open spec fn retained(row: SymbolMatch, clauses: Clauses) -> bool {
    &&& forall|k: int|
        0 <= k < clauses.where_predicates@.len() && !residual(
            #[trigger] clauses.where_predicates@[k],
        ) ==> row_satisfies(&row, clauses.where_predicates@[k])
    &&& forall|k: int|
        0 <= k < clauses.having_predicates@.len() ==> row_satisfies(
            &row,
            #[trigger] clauses.having_predicates@[k],
        )
}

fn is_selected(row: &SymbolMatch, clauses: &Clauses) -> (r: bool)
    ensures
        r == selected(*row, *clauses),
{
    let here = match &row.path {
        Some(p) => in_scope(p.as_str(), clauses),
        None => clauses.in_glob.is_none() && clauses.exclude_globs.len() == 0,
    };
    if !here {
        return false;
    }
    let preds = &clauses.where_predicates;
    let mut k: usize = 0;
    while k < preds.len()
        invariant
            preds@ == clauses.where_predicates@,
            k <= preds@.len(),
            forall|j: int|
                0 <= j < k && residual(#[trigger] preds@[j]) ==> row_satisfies(row, preds@[j]),
        decreases preds.len() - k,
    {
        if !same_text(preds[k].field.as_str(), "count") && !eval_predicate(row, &preds[k]) {
            assert(!row_satisfies(row, preds@[k as int]));
            return false;
        }
        k += 1;
    }
    true
}

fn is_retained(row: &SymbolMatch, clauses: &Clauses) -> (r: bool)
    ensures
        r == retained(*row, *clauses),
{
    let preds = &clauses.where_predicates;
    let mut k: usize = 0;
    while k < preds.len()
        invariant
            preds@ == clauses.where_predicates@,
            k <= preds@.len(),
            forall|j: int|
                0 <= j < k && !residual(#[trigger] preds@[j]) ==> row_satisfies(row, preds@[j]),
        decreases preds.len() - k,
    {
        if same_text(preds[k].field.as_str(), "count") && !eval_predicate(row, &preds[k]) {
            assert(!row_satisfies(row, preds@[k as int]));
            return false;
        }
        k += 1;
    }
    let having = &clauses.having_predicates;
    let mut j: usize = 0;
    while j < having.len()
        invariant
            having@ == clauses.having_predicates@,
            j <= having@.len(),
            forall|i: int| 0 <= i < j ==> row_satisfies(row, #[trigger] having@[i]),
        decreases having.len() - j,
    {
        if !eval_predicate(row, &having[j]) {
            assert(!row_satisfies(row, having@[j as int]));
            return false;
        }
        j += 1;
    }
    true
}

/// Keeps the rows that a query selects.
pub fn select_rows(rows: Vec<SymbolMatch>, clauses: &Clauses) -> (out: Vec<SymbolMatch>)
    ensures
        out@ == rows_where(rows@, |i: int| selected(rows@[i], *clauses)),
{
    let ghost test = |i: int| selected(rows@[i], *clauses);
    let n: usize = rows.len();
    let mut keep: Vec<usize> = Vec::new();
    let mut i: usize = 0;
    while i < n
        invariant
            n == rows@.len(),
            i <= n,
            test == (|i: int| selected(rows@[i], *clauses)),
            keep@ == positions_where(test, i as int),
            distinct_positions(keep@, n as int),
            forall|a: int| 0 <= a < keep@.len() ==> (#[trigger] keep@[a]) < i,
        decreases n - i,
    {
        proof {
            lemma_positions_step(test, i as int, n as int);
        }
        if is_selected(&rows[i], clauses) {
            keep.push(i);
        }
        i += 1;
    }
    pick(rows, &keep)
}

/// Keeps the groups, or rows, that a query retains.
pub fn retain_rows(rows: Vec<SymbolMatch>, clauses: &Clauses) -> (out: Vec<SymbolMatch>)
    ensures
        out@ == rows_where(rows@, |i: int| retained(rows@[i], *clauses)),
{
    let ghost test = |i: int| retained(rows@[i], *clauses);
    let n: usize = rows.len();
    let mut keep: Vec<usize> = Vec::new();
    let mut i: usize = 0;
    while i < n
        invariant
            n == rows@.len(),
            i <= n,
            test == (|i: int| retained(rows@[i], *clauses)),
            keep@ == positions_where(test, i as int),
            distinct_positions(keep@, n as int),
            forall|a: int| 0 <= a < keep@.len() ==> (#[trigger] keep@[a]) < i,
        decreases n - i,
    {
        proof {
            lemma_positions_step(test, i as int, n as int);
        }
        if is_retained(&rows[i], clauses) {
            keep.push(i);
        }
        i += 1;
    }
    pick(rows, &keep)
}

// ───────────────────────────── groups ─────────────────────────────

/// The key under which a row is grouped by a field: its text, or nothing where it has none.
pub open spec fn group_key(row: SymbolMatch, field: Seq<char>) -> Seq<char> {
    match row.text_of(field) {
        Some(t) => t,
        None => seq![],
    }
}

/// How many of the first `n` rows are grouped under a key.
pub open spec fn group_size(rows: Seq<SymbolMatch>, field: Seq<char>, key: Seq<char>, n: int) -> nat
    decreases n,
{
    if n <= 0 {
        0
    } else {
        group_size(rows, field, key, n - 1) + if group_key(rows[n - 1], field) == key {
            1nat
        } else {
            0nat
        }
    }
}

/// Whether row `i` is the first of its group.
pub open spec fn leads_group(rows: Seq<SymbolMatch>, field: Seq<char>, i: int) -> bool {
    forall|j: int|
        0 <= j < i ==> group_key(#[trigger] rows[j], field) != group_key(rows[i], field)
}

/// Whether `out` holds one row for each group, in the order of their first rows: the first row,
/// with the size of the group.
pub open spec fn groups_rows(rows: Seq<SymbolMatch>, field: Seq<char>, out: Seq<SymbolMatch>) -> bool {
    let leads = positions_where(|i: int| leads_group(rows, field, i), rows.len() as int);
    out.len() == leads.len() && forall|a: int|
        #![trigger out[a]]
        0 <= a < out.len() ==> out[a] == (SymbolMatch {
            count: Some(
                group_size(
                    rows,
                    field,
                    group_key(rows[leads[a] as int], field),
                    rows.len() as int,
                ) as usize,
            ),
            ..rows[leads[a] as int]
        })
}

proof fn lemma_group_size(rows: Seq<SymbolMatch>, field: Seq<char>, keys: Seq<String>, key: Seq<char>, n: int)
    requires
        0 <= n <= rows.len() == keys.len(),
        forall|i: int| 0 <= i < keys.len() ==> (#[trigger] keys[i])@ == group_key(rows[i], field),
    ensures
        group_size(rows, field, key, n) == count_among(keys, key, n),
        group_size(rows, field, key, n) <= n,
    decreases n,
{
    if n > 0 {
        lemma_group_size(rows, field, keys, key, n - 1);
        assert(keys[n - 1]@ == group_key(rows[n - 1], field));
    }
}

/// Groups rows by a field.
pub fn group_rows(rows: Vec<SymbolMatch>, field: &str) -> (out: Vec<SymbolMatch>)
    ensures
        groups_rows(rows@, canonical_text(field@), out@),
{
    let name = canonical(field);
    let ghost f = canonical_text(field@);
    let n: usize = rows.len();
    let ghost all = rows@;
    let mut keys: Vec<String> = Vec::new();
    let mut i: usize = 0;
    while i < n
        invariant
            n == rows@.len(),
            rows@ == all,
            name@ == f,
            i <= n,
            keys@.len() == i,
            forall|k: int| 0 <= k < i ==> (#[trigger] keys@[k])@ == group_key(all[k], f),
        decreases n - i,
    {
        let key: String = match rows[i].field_str(name) {
            Some(t) => t.to_owned(),
            None => {
                let none = String::new();
                assert(none@ =~= seq![]);
                none
            },
        };
        keys.push(key);
        i += 1;
    }
    let index = TextIndex::new(keys);
    let ghost test = |i: int| leads_group(all, f, i);
    let mut keep: Vec<usize> = Vec::new();
    let mut sizes: Vec<usize> = Vec::new();
    let mut j: usize = 0;
    while j < n
        invariant
            n == all.len(),
            j <= n,
            index.wf(),
            index.items@.len() == n,
            forall|k: int| 0 <= k < n ==> (#[trigger] index.items@[k])@ == group_key(all[k], f),
            test == (|i: int| leads_group(all, f, i)),
            keep@ == positions_where(test, j as int),
            distinct_positions(keep@, n as int),
            forall|a: int| 0 <= a < keep@.len() ==> (#[trigger] keep@[a]) < j,
            sizes@.len() == keep@.len(),
            forall|a: int|
                0 <= a < sizes@.len() ==> #[trigger] sizes@[a] == group_size(
                    all,
                    f,
                    group_key(all[keep@[a] as int], f),
                    n as int,
                ),
        decreases n - j,
    {
        proof {
            lemma_positions_step(test, j as int, n as int);
            lemma_group_size(all, f, index.items@, group_key(all[j as int], f), n as int);
            assert(index.items@[j as int]@ == group_key(all[j as int], f));
        }
        let key = index.items[j].as_str();
        let found = index.find_first(key);
        let leads = match found {
            Some(at) => at == j,
            None => false,
        };
        proof {
            assert(leads == leads_group(all, f, j as int)) by {
                match found {
                    Some(at) => {
                        assert(is_first_item(index.items@, key@, at as int));
                        if at != j {
                            assert(at < j);
                            assert(index.items@[at as int]@ == group_key(all[at as int], f));
                            assert(group_key(all[at as int], f) == group_key(all[j as int], f));
                        } else {
                            assert forall|k: int| 0 <= k < j implies group_key(
                                #[trigger] all[k],
                                f,
                            ) != group_key(all[j as int], f) by {
                                assert(index.items@[k]@ == group_key(all[k], f));
                            }
                        }
                    },
                    None => {
                        assert(index.items@[j as int]@ == key@);
                    },
                }
            }
        }
        if leads {
            keep.push(j);
            sizes.push(index.count_of(key));
        }
        j += 1;
    }
    let mut out = pick(rows, &keep);
    let ghost heads = out@;
    let m: usize = out.len();
    let mut a: usize = 0;
    while a < m
        invariant
            m == out@.len(),
            m == heads.len(),
            m == sizes@.len(),
            a <= m,
            forall|k: int|
                #![trigger out@[k]]
                0 <= k < a ==> out@[k] == (SymbolMatch { count: Some(sizes@[k]), ..heads[k] }),
            forall|k: int| a <= k < m ==> #[trigger] out@[k] == heads[k],
        decreases m - a,
    {
        out[a].count = Some(sizes[a]);
        a += 1;
    }
    out
}

// ───────────────────────────── pages ─────────────────────────────

/// How many rows a query skips.
pub open spec fn skipped(clauses: Clauses) -> nat {
    match clauses.offset {
        Some(n) => n as nat,
        None => 0,
    }
}

/// The part of an order that a page shows.
pub open spec fn page_of(order: Seq<usize>, clauses: Clauses) -> Seq<usize> {
    let rest = if skipped(clauses) < order.len() {
        order.skip(skipped(clauses) as int)
    } else {
        seq![]
    };
    match clauses.limit {
        Some(n) => first(rest, n as nat),
        None => rest,
    }
}

/// Whether a page is that of rows in a query's order.
pub open spec fn is_cut(rows: Seq<SymbolMatch>, clauses: Clauses, page: FindPage) -> bool {
    &&& page.total == rows.len()
    &&& exists|order: Seq<usize>| #[trigger]
        orders_rows(rows, clauses.order_by, order) && page.rows@ == picked(
            rows,
            page_of(order, clauses),
        )
}

/// Orders rows and cuts the page.
pub fn cut_page(rows: Vec<SymbolMatch>, clauses: &Clauses) -> (page: FindPage)
    ensures
        is_cut(rows@, *clauses, page),
{
    let total: usize = rows.len();
    let order = delivery_order(&rows, clauses);
    let skip: usize = match clauses.offset {
        Some(n) => n,
        None => 0,
    };
    let from: usize = if skip < total {
        skip
    } else {
        total
    };
    let room: usize = total - from;
    let take: usize = match clauses.limit {
        Some(n) => if n < room {
            n
        } else {
            room
        },
        None => room,
    };
    let mut cut: Vec<usize> = Vec::new();
    let mut i: usize = 0;
    while i < take
        invariant
            i <= take,
            from + take <= order@.len(),
            order@.len() == total,
            distinct_positions(order@, total as int),
            cut@.len() == i,
            forall|k: int| 0 <= k < i ==> #[trigger] cut@[k] == order@[from + k],
        decreases take - i,
    {
        cut.push(order[from + i]);
        i += 1;
    }
    proof {
        assert(cut@ =~= page_of(order@, *clauses));
        assert(distinct_positions(cut@, total as int)) by {
            assert forall|a: int, b: int|
                #![trigger cut@[a], cut@[b]]
                0 <= a < b < cut@.len() implies cut@[a] != cut@[b] by {
                assert(cut@[a] == order@[from + a] && cut@[b] == order@[from + b]);
            }
            assert forall|a: int| 0 <= a < cut@.len() implies (#[trigger] cut@[a]) < total by {
                assert(cut@[a] == order@[from + a]);
            }
        }
    }
    let out = pick(rows, &cut);
    FindPage { rows: out, total }
}

/// Whether a page is the delivery of rows: those selected, grouped where the query groups, those of
/// them retained, ordered and cut.
pub open spec fn is_delivery(rows: Seq<SymbolMatch>, clauses: Clauses, page: FindPage) -> bool {
    let chosen = rows_where(rows, |i: int| selected(rows[i], clauses));
    &&& rows.len() <= usize::MAX
    &&& match clauses.group_by {
        Some(GroupBy::Field(field)) => exists|groups: Seq<SymbolMatch>| #[trigger]
            groups_rows(chosen, canonical_text(field@), groups) && is_cut(
                rows_where(groups, |i: int| retained(groups[i], clauses)),
                clauses,
                page,
            ),
        None => is_cut(
            rows_where(chosen, |i: int| retained(chosen[i], clauses)),
            clauses,
            page,
        ),
    }
}

/// Delivers rows.
pub fn deliver(rows: Vec<SymbolMatch>, clauses: &Clauses) -> (page: FindPage)
    ensures
        is_delivery(rows@, *clauses, page),
{
    let ghost all = rows@;
    assert(all.len() == rows.len());
    let chosen = select_rows(rows, clauses);
    assert(chosen@ == rows_where(all, |i: int| selected(all[i], *clauses)));
    match &clauses.group_by {
        Some(GroupBy::Field(field)) => {
            let groups = group_rows(chosen, field.as_str());
            let ghost g = groups@;
            let kept = retain_rows(groups, clauses);
            let page = cut_page(kept, clauses);
            assert(groups_rows(chosen@, canonical_text(field@), g));
            page
        },
        None => {
            let kept = retain_rows(chosen, clauses);
            cut_page(kept, clauses)
        },
    }
}

} // verus!
