//! What a delivered page promises: which rows are on it, in what order, and how pages follow one
//! another.

use crate::clauses::{Clauses, GroupBy, OrderBy};
use crate::columnar_storage::delivery::{
    group_key, group_size, groups_rows, is_cut, is_delivery, leads_group, page_of, positions_where,
    retained, rows_where, selected, FindPage,
};
use crate::columnar_storage::hits::residual;
use crate::fields::canonical_text;
use crate::filter::{
    delivers_before, lemma_row_before_weak, orders_rows, reader_of, row_before, row_satisfies,
    ClauseTarget,
};
use crate::paths::scope_selects;
use crate::segment::SymbolMatch;
use crate::sort::picked;
use vstd::prelude::*;
use vstd::string::*;

verus! {

// ───────────────────────────── one order ─────────────────────────────

proof fn lemma_delivers_total(rows: Seq<SymbolMatch>, order_by: Option<OrderBy>, i: int, j: int, k: int)
    ensures
        i != j ==> delivers_before(rows, order_by, i, j) || delivers_before(rows, order_by, j, i),
        !(delivers_before(rows, order_by, i, j) && delivers_before(rows, order_by, j, i)),
        delivers_before(rows, order_by, i, j) && delivers_before(rows, order_by, j, k)
            ==> delivers_before(rows, order_by, i, k),
{
    let (a, b, c) = (reader_of(&rows[i]), reader_of(&rows[j]), reader_of(&rows[k]));
    lemma_row_before_weak(a, b, c, order_by);
    lemma_row_before_weak(c, b, a, order_by);
    lemma_row_before_weak(b, a, c, order_by);
    lemma_row_before_weak(a, c, b, order_by);
    lemma_row_before_weak(c, a, b, order_by);
    lemma_row_before_weak(b, c, a, order_by);
    lemma_row_before_weak(a, b, a, order_by);
    lemma_row_before_weak(b, a, b, order_by);
}

proof fn lemma_orders_agree(
    rows: Seq<SymbolMatch>,
    order_by: Option<OrderBy>,
    p: Seq<usize>,
    q: Seq<usize>,
    n: int,
)
    requires
        orders_rows(rows, order_by, p),
        orders_rows(rows, order_by, q),
        0 <= n <= p.len(),
    ensures
        forall|k: int| 0 <= k < n ==> p[k] == q[k],
    decreases n,
{
    if n > 0 {
        lemma_orders_agree(rows, order_by, p, q, n - 1);
        let m = n - 1;
        if p[m] != q[m] {
            lemma_next_differs(rows, order_by, p, q, m);
            lemma_next_differs(rows, order_by, q, p, m);
            lemma_delivers_total(rows, order_by, p[m] as int, q[m] as int, p[m] as int);
        }
    }
}

proof fn lemma_next_differs(
    rows: Seq<SymbolMatch>,
    order_by: Option<OrderBy>,
    p: Seq<usize>,
    q: Seq<usize>,
    m: int,
)
    requires
        orders_rows(rows, order_by, p),
        orders_rows(rows, order_by, q),
        0 <= m < p.len(),
        forall|k: int| 0 <= k < m ==> p[k] == q[k],
        p[m] != q[m],
    ensures
        delivers_before(rows, order_by, p[m] as int, q[m] as int),
{
    assert(p.contains(q[m]));
    let k = choose|k: int| 0 <= k < p.len() && p[k] == q[m];
    if k < m {
        assert(q[k] == q[m]);
        assert(delivers_before(rows, order_by, q[k] as int, q[m] as int));
        lemma_delivers_total(rows, order_by, q[m] as int, q[m] as int, q[m] as int);
    }
    assert(delivers_before(rows, order_by, p[m] as int, p[k] as int));
}

/// Rows have one order under a query.
pub proof fn lemma_one_order(
    rows: Seq<SymbolMatch>,
    order_by: Option<OrderBy>,
    p: Seq<usize>,
    q: Seq<usize>,
)
    requires
        orders_rows(rows, order_by, p),
        orders_rows(rows, order_by, q),
    ensures
        p == q,
{
    lemma_orders_agree(rows, order_by, p, q, p.len() as int);
    assert(p =~= q);
}

// ───────────────────────────── pages ─────────────────────────────

/// How many rows a page holds, of so many that it is cut from.
pub open spec fn page_size(total: nat, clauses: Clauses) -> nat {
    let skip: nat = match clauses.offset {
        Some(n) => n as nat,
        None => 0,
    };
    let room: nat = if skip < total {
        (total - skip) as nat
    } else {
        0
    };
    match clauses.limit {
        Some(n) => if n < room {
            n as nat
        } else {
            room
        },
        None => room,
    }
}

/// A page holds as many rows as the limit lets it, of those that the offset leaves; they are rows that
/// it was cut from, and none comes before one that stands above it. What the whole counts does not
/// depend on the page.
pub proof fn lemma_a_page_is_filled_in_order(rows: Seq<SymbolMatch>, clauses: Clauses, page: FindPage)
    requires
        is_cut(rows, clauses, page),
    ensures
        page.total == rows.len(),
        page.rows@.len() == page_size(rows.len(), clauses),
        forall|i: int| 0 <= i < page.rows@.len() ==> rows.contains(#[trigger] page.rows@[i]),
        forall|i: int, j: int|
            #![trigger page.rows@[i], page.rows@[j]]
            0 <= i < j < page.rows@.len() ==> !row_before(
                reader_of(&page.rows@[j]),
                reader_of(&page.rows@[i]),
                clauses.order_by,
            ),
{
    let order = choose|order: Seq<usize>| #[trigger]
        orders_rows(rows, clauses.order_by, order) && page.rows@ == picked(
            rows,
            page_of(order, clauses),
        );
    let shown = page_of(order, clauses);
    let skip = crate::columnar_storage::delivery::skipped(clauses) as int;
    assert(shown.len() == page_size(rows.len(), clauses));
    assert forall|i: int| 0 <= i < shown.len() implies #[trigger] shown[i] == order[skip + i] by {}
    assert forall|i: int| 0 <= i < page.rows@.len() implies rows.contains(
        #[trigger] page.rows@[i],
    ) by {
        assert(page.rows@[i] == rows[order[skip + i] as int]);
    }
    assert forall|i: int, j: int|
        #![trigger page.rows@[i], page.rows@[j]]
        0 <= i < j < page.rows@.len() implies !row_before(
        reader_of(&page.rows@[j]),
        reader_of(&page.rows@[i]),
        clauses.order_by,
    ) by {
        let (a, b) = (order[skip + i] as int, order[skip + j] as int);
        assert(page.rows@[i] == rows[a] && page.rows@[j] == rows[b]);
        assert(delivers_before(rows, clauses.order_by, a, b));
        lemma_delivers_total(rows, clauses.order_by, a, b, a);
        lemma_row_before_weak(
            reader_of(&rows[a]),
            reader_of(&rows[b]),
            reader_of(&rows[a]),
            clauses.order_by,
        );
    }
}

/// A page without an offset is the top of the ranking: a row that is not on it comes before none that
/// is. Without a limit either it holds every row.
pub proof fn lemma_a_first_page_is_the_top(
    rows: Seq<SymbolMatch>,
    clauses: Clauses,
    page: FindPage,
    row: SymbolMatch,
    i: int,
)
    requires
        is_cut(rows, clauses, page),
        clauses.offset is None || clauses.offset->0 == 0,
        rows.contains(row),
        !page.rows@.contains(row),
        0 <= i < page.rows@.len(),
    ensures
        !row_before(reader_of(&row), reader_of(&page.rows@[i]), clauses.order_by),
        clauses.limit is Some,
{
    let order = choose|order: Seq<usize>| #[trigger]
        orders_rows(rows, clauses.order_by, order) && page.rows@ == picked(
            rows,
            page_of(order, clauses),
        );
    let shown = page_of(order, clauses);
    assert(order.skip(0) =~= order);
    assert forall|k: int| 0 <= k < shown.len() implies #[trigger] shown[k] == order[k] by {}
    let r = choose|r: int| 0 <= r < rows.len() && rows[r] == row;
    assert(order.contains(r as usize));
    let at = choose|at: int| 0 <= at < order.len() && order[at] == r as usize;
    if at < shown.len() {
        assert(page.rows@[at] == row);
    }
    let a = order[i] as int;
    assert(page.rows@[i] == rows[a]);
    assert(delivers_before(rows, clauses.order_by, a, r));
    lemma_row_before_weak(
        reader_of(&rows[a]),
        reader_of(&rows[r]),
        reader_of(&rows[a]),
        clauses.order_by,
    );
}

/// Pages follow one another: a page and the one that begins where it ends are, one after the other,
/// the page of both sizes together.
pub proof fn lemma_pages_follow_one_another(
    rows: Seq<SymbolMatch>,
    one: Clauses,
    two: Clauses,
    both: Clauses,
    first: FindPage,
    second: FindPage,
    whole: FindPage,
)
    requires
        is_cut(rows, one, first),
        is_cut(rows, two, second),
        is_cut(rows, both, whole),
        one.order_by == both.order_by,
        two.order_by == both.order_by,
        one.limit is Some,
        two.limit is Some,
        both.limit is Some,
        one.offset is Some,
        two.offset is Some,
        both.offset == one.offset,
        two.offset->0 == one.offset->0 + one.limit->0,
        both.limit->0 == one.limit->0 + two.limit->0,
    ensures
        whole.rows@ == first.rows@ + second.rows@,
{
    let p = choose|order: Seq<usize>| #[trigger]
        orders_rows(rows, one.order_by, order) && first.rows@ == picked(rows, page_of(order, one));
    let q = choose|order: Seq<usize>| #[trigger]
        orders_rows(rows, two.order_by, order) && second.rows@ == picked(
            rows,
            page_of(order, two),
        );
    let o = choose|order: Seq<usize>| #[trigger]
        orders_rows(rows, both.order_by, order) && whole.rows@ == picked(
            rows,
            page_of(order, both),
        );
    lemma_one_order(rows, both.order_by, p, o);
    lemma_one_order(rows, both.order_by, q, o);
    assert(page_of(o, both) =~= page_of(o, one) + page_of(o, two));
    assert(whole.rows@ =~= first.rows@ + second.rows@);
}

// ───────────────────────────── which rows ─────────────────────────────

/// Whether a row answers a query that does not group: its path is in scope, and every predicate holds
/// of it, those of a `HAVING` among them.
pub open spec fn answers(row: SymbolMatch, clauses: Clauses) -> bool {
    &&& row.path is Some ==> scope_selects(row.path->0@, clauses)
    &&& row.path is None ==> clauses.in_glob is None && clauses.exclude_globs@.len() == 0
    &&& forall|k: int|
        0 <= k < clauses.where_predicates@.len() ==> row_satisfies(
            &row,
            #[trigger] clauses.where_predicates@[k],
        )
    &&& forall|k: int|
        0 <= k < clauses.having_predicates@.len() ==> row_satisfies(
            &row,
            #[trigger] clauses.having_predicates@[k],
        )
}

proof fn lemma_kept_rows(rows: Seq<SymbolMatch>, test: spec_fn(int) -> bool, n: int)
    requires
        0 <= n <= rows.len() <= usize::MAX,
    ensures
        forall|a: int|
            #![trigger positions_where(test, n)[a]]
            0 <= a < positions_where(test, n).len() ==> positions_where(test, n)[a] < n && test(
                positions_where(test, n)[a] as int,
            ),
        forall|i: int| 0 <= i < n && #[trigger] test(i) ==> positions_where(test, n).contains(
            i as usize,
        ),
    decreases n,
{
    if n > 0 {
        lemma_kept_rows(rows, test, n - 1);
        let now = positions_where(test, n);
        let was = positions_where(test, n - 1);
        assert forall|i: int| 0 <= i < n && #[trigger] test(i) implies now.contains(i as usize) by {
            if i < n - 1 {
                let k = choose|k: int| 0 <= k < was.len() && was[k] == i as usize;
                assert(now[k] == i as usize);
            } else {
                assert(now[was.len() as int] == i as usize);
            }
        }
    }
}

pub(crate) proof fn lemma_where(rows: Seq<SymbolMatch>, test: spec_fn(int) -> bool, row: SymbolMatch)
    requires
        rows.len() <= usize::MAX,
    ensures
        rows_where(rows, test).contains(row) <==> exists|i: int|
            0 <= i < rows.len() && #[trigger] rows[i] == row && test(i),
{
    let kept = rows_where(rows, test);
    let at = positions_where(test, rows.len() as int);
    lemma_kept_rows(rows, test, rows.len() as int);
    if kept.contains(row) {
        let k = choose|k: int| 0 <= k < kept.len() && kept[k] == row;
        assert(rows[at[k] as int] == row && test(at[k] as int));
    }
    if exists|i: int| 0 <= i < rows.len() && #[trigger] rows[i] == row && test(i) {
        let i = choose|i: int| 0 <= i < rows.len() && #[trigger] rows[i] == row && test(i);
        let k = choose|k: int| 0 <= k < at.len() && at[k] == i as usize;
        assert(kept[k] == row);
    }
}

/// The rows that a query without groups is cut from are those given that answer it, and no others.
pub proof fn lemma_the_answer_is_what_answers(rows: Seq<SymbolMatch>, clauses: Clauses, row: SymbolMatch)
    requires
        rows.len() <= usize::MAX,
    ensures
        ({
            let chosen = rows_where(rows, |i: int| selected(rows[i], clauses));
            let kept = rows_where(chosen, |i: int| retained(chosen[i], clauses));
            kept.contains(row) <==> rows.contains(row) && answers(row, clauses)
        }),
{
    let pick = |i: int| selected(rows[i], clauses);
    let chosen = rows_where(rows, pick);
    let keep = |i: int| retained(chosen[i], clauses);
    let kept = rows_where(chosen, keep);
    lemma_fewer(rows, pick, rows.len() as int);
    lemma_where(rows, pick, row);
    lemma_where(chosen, keep, row);
    if kept.contains(row) {
        let i = choose|i: int| 0 <= i < chosen.len() && #[trigger] chosen[i] == row && keep(i);
        assert(chosen.contains(row));
        let j = choose|j: int| 0 <= j < rows.len() && #[trigger] rows[j] == row && pick(j);
        assert(selected(row, clauses) && retained(row, clauses));
        assert forall|k: int| 0 <= k < clauses.where_predicates@.len() implies row_satisfies(
            &row,
            #[trigger] clauses.where_predicates@[k],
        ) by {
            assert(residual(clauses.where_predicates@[k]) || !residual(
                clauses.where_predicates@[k],
            ));
        }
    }
    if rows.contains(row) && answers(row, clauses) {
        let j = choose|j: int| 0 <= j < rows.len() && rows[j] == row;
        assert(pick(j));
        assert(chosen.contains(row));
        let i = choose|i: int| 0 <= i < chosen.len() && chosen[i] == row;
        assert(keep(i));
    }
}

proof fn lemma_fewer(rows: Seq<SymbolMatch>, test: spec_fn(int) -> bool, n: int)
    requires
        0 <= n,
    ensures
        positions_where(test, n).len() <= n,
    decreases n,
{
    if n > 0 {
        lemma_fewer(rows, test, n - 1);
    }
}

/// A query without groups delivers only rows that answer it, and all of them where it sets no page.
pub proof fn lemma_a_delivery_answers(
    rows: Seq<SymbolMatch>,
    clauses: Clauses,
    page: FindPage,
    row: SymbolMatch,
)
    requires
        clauses.group_by is None,
        is_delivery(rows, clauses, page),
    ensures
        page.rows@.contains(row) ==> rows.contains(row) && answers(row, clauses),
        clauses.limit is None && clauses.offset is None && rows.contains(row) && answers(
            row,
            clauses,
        ) ==> page.rows@.contains(row),
{
    let chosen = rows_where(rows, |i: int| selected(rows[i], clauses));
    let kept = rows_where(chosen, |i: int| retained(chosen[i], clauses));
    lemma_the_answer_is_what_answers(rows, clauses, row);
    lemma_a_page_is_filled_in_order(kept, clauses, page);
    if page.rows@.contains(row) {
        let i = choose|i: int| 0 <= i < page.rows@.len() && page.rows@[i] == row;
        assert(kept.contains(page.rows@[i]));
    }
    if clauses.limit is None && clauses.offset is None && kept.contains(row)
        && !page.rows@.contains(row) {
        assert(kept.len() > 0);
        lemma_a_first_page_is_the_top(kept, clauses, page, row, 0);
    }
}

proof fn lemma_where_filters(
    rows: Seq<SymbolMatch>,
    test: spec_fn(int) -> bool,
    keep: spec_fn(SymbolMatch) -> bool,
    n: int,
)
    requires
        0 <= n <= rows.len() <= usize::MAX,
        forall|i: int| 0 <= i < rows.len() ==> #[trigger] test(i) == keep(rows[i]),
    ensures
        picked(rows, positions_where(test, n)) == rows.take(n).filter(keep),
    decreases n,
{
    reveal(Seq::filter);
    if n > 0 {
        lemma_where_filters(rows, test, keep, n - 1);
        let was = positions_where(test, n - 1);
        assert(rows.take(n).drop_last() =~= rows.take(n - 1));
        assert(rows.take(n).last() == rows[n - 1]);
        assert(test(n - 1) == keep(rows[n - 1]));
        assert(picked(rows, was.push((n - 1) as usize)) =~= picked(rows, was).push(rows[n - 1]));
    } else {
        assert(rows.take(0) =~= Seq::empty());
        assert(picked(rows, positions_where(test, n)) =~= Seq::empty());
    }
}

proof fn lemma_filters_compose(
    rows: Seq<SymbolMatch>,
    a: spec_fn(SymbolMatch) -> bool,
    b: spec_fn(SymbolMatch) -> bool,
    c: spec_fn(SymbolMatch) -> bool,
)
    requires
        forall|r: SymbolMatch| #[trigger] c(r) == (a(r) && b(r)),
    ensures
        rows.filter(a).filter(b) == rows.filter(c),
    decreases rows.len(),
{
    reveal(Seq::filter);
    if rows.len() > 0 {
        let init = rows.drop_last();
        lemma_filters_compose(init, a, b, c);
        let last = rows.last();
        assert(c(last) == (a(last) && b(last)));
        if a(last) {
            let grown = init.filter(a).push(last);
            assert(grown.drop_last() =~= init.filter(a));
            assert(grown.last() == last);
        }
    }
}

/// The size of an answer is the number of rows that answer, whatever the page shows.
pub proof fn lemma_the_total_counts_the_answer(
    rows: Seq<SymbolMatch>,
    clauses: Clauses,
    page: FindPage,
)
    requires
        clauses.group_by is None,
        is_delivery(rows, clauses, page),
    ensures
        page.total == rows.filter(|r: SymbolMatch| answers(r, clauses)).len(),
{
    let pick = |i: int| selected(rows[i], clauses);
    let chosen = rows_where(rows, pick);
    let keep = |i: int| retained(chosen[i], clauses);
    let a = |r: SymbolMatch| selected(r, clauses);
    let b = |r: SymbolMatch| retained(r, clauses);
    let c = |r: SymbolMatch| answers(r, clauses);
    lemma_fewer(rows, pick, rows.len() as int);
    lemma_where_filters(rows, pick, a, rows.len() as int);
    assert(rows.take(rows.len() as int) =~= rows);
    lemma_where_filters(chosen, keep, b, chosen.len() as int);
    assert(chosen.take(chosen.len() as int) =~= chosen);
    assert forall|r: SymbolMatch| #[trigger] c(r) == (a(r) && b(r)) by {
        lemma_answers_split(r, clauses);
    }
    lemma_filters_compose(rows, a, b, c);
}

proof fn lemma_answers_split(row: SymbolMatch, clauses: Clauses)
    ensures
        answers(row, clauses) == (selected(row, clauses) && retained(row, clauses)),
{
    if selected(row, clauses) && retained(row, clauses) {
        assert forall|k: int| 0 <= k < clauses.where_predicates@.len() implies row_satisfies(
            &row,
            #[trigger] clauses.where_predicates@[k],
        ) by {
            assert(residual(clauses.where_predicates@[k]) || !residual(
                clauses.where_predicates@[k],
            ));
        }
    }
}

// ───────────────────────────── groups ─────────────────────────────

/// The key of a row under a grouping: what it reads, or nothing.
pub open spec fn key_of(row: SymbolMatch, field: Seq<char>) -> Seq<char> {
    if row.text_of(field) is Some {
        row.text_of(field)->0
    } else {
        Seq::empty()
    }
}

/// The rows of a list that have a key.
pub open spec fn with_key(rows: Seq<SymbolMatch>, field: Seq<char>, key: Seq<char>) -> Seq<
    SymbolMatch,
> {
    rows.filter(|r: SymbolMatch| key_of(r, field) == key)
}

proof fn lemma_group_size_is(rows: Seq<SymbolMatch>, field: Seq<char>, key: Seq<char>, n: int)
    requires
        0 <= n <= rows.len(),
    ensures
        group_size(rows, field, key, n) == with_key(rows.take(n), field, key).len(),
    decreases n,
{
    reveal(Seq::filter);
    if n > 0 {
        lemma_group_size_is(rows, field, key, n - 1);
        assert(rows.take(n).drop_last() =~= rows.take(n - 1));
        assert(rows.take(n).last() == rows[n - 1]);
    } else {
        assert(rows.take(0) =~= Seq::empty());
    }
}

/// Whether a row of a result is row `i` of a list with the number of the list's rows that have its key.
pub open spec fn counts_group(
    rows: Seq<SymbolMatch>,
    field: Seq<char>,
    group: SymbolMatch,
    i: int,
) -> bool {
    &&& 0 <= i < rows.len()
    &&& group == (SymbolMatch { count: group.count, ..rows[i] })
    &&& group.count is Some
    &&& group.count->0 == with_key(rows, field, key_of(rows[i], field)).len()
}

/// Every row of a grouping is one of those grouped, with the number of those that have its key.
pub proof fn lemma_a_group_counts_its_rows(
    rows: Seq<SymbolMatch>,
    field: Seq<char>,
    out: Seq<SymbolMatch>,
    a: int,
)
    requires
        rows.len() <= usize::MAX,
        groups_rows(rows, field, out),
        0 <= a < out.len(),
    ensures
        exists|i: int| #[trigger] counts_group(rows, field, out[a], i),
{
    let test = |i: int| leads_group(rows, field, i);
    let leads = positions_where(test, rows.len() as int);
    lemma_kept_rows(rows, test, rows.len() as int);
    let i = leads[a] as int;
    lemma_group_size_is(rows, field, group_key(rows[i], field), rows.len() as int);
    assert(rows.take(rows.len() as int) =~= rows);
    assert(group_key(rows[i], field) =~= key_of(rows[i], field));
    lemma_group_fits(rows, field, group_key(rows[i], field), rows.len() as int);
    assert(out[a] == out[a]);
    assert(counts_group(rows, field, out[a], i));
}

/// Every row that is grouped has its group: a row of the result whose key it has.
pub proof fn lemma_every_row_has_its_group(
    rows: Seq<SymbolMatch>,
    field: Seq<char>,
    out: Seq<SymbolMatch>,
    i: int,
)
    requires
        rows.len() <= usize::MAX,
        groups_rows(rows, field, out),
        0 <= i < rows.len(),
    ensures
        exists|a: int|
            0 <= a < out.len() && key_of(#[trigger] out[a], field) == key_of(rows[i], field),
{
    let test = |i: int| leads_group(rows, field, i);
    let leads = positions_where(test, rows.len() as int);
    lemma_kept_rows(rows, test, rows.len() as int);
    let l = lemma_a_lead(rows, field, i);
    assert(test(l));
    let a = choose|a: int| 0 <= a < leads.len() && leads[a] == l as usize;
    assert(out[a] == out[a]);
    assert(out[a].text_of(field) == rows[l].text_of(field));
    assert(key_of(out[a], field) == key_of(rows[i], field));
}

/// No two rows of a grouping have one key.
pub proof fn lemma_groups_have_keys_of_their_own(
    rows: Seq<SymbolMatch>,
    field: Seq<char>,
    out: Seq<SymbolMatch>,
    a: int,
    b: int,
)
    requires
        rows.len() <= usize::MAX,
        groups_rows(rows, field, out),
        0 <= a < b < out.len(),
    ensures
        key_of(out[a], field) != key_of(out[b], field),
{
    let test = |i: int| leads_group(rows, field, i);
    let leads = positions_where(test, rows.len() as int);
    lemma_kept_rows(rows, test, rows.len() as int);
    lemma_positions_ascend(test, rows.len() as int, a, b);
    let (i, j) = (leads[a] as int, leads[b] as int);
    assert(test(j));
    assert(leads_group(rows, field, j));
    assert(group_key(rows[i], field) != group_key(rows[j], field));
    assert(out[a] == out[a] && out[b] == out[b]);
    assert(out[a].text_of(field) == rows[i].text_of(field));
    assert(out[b].text_of(field) == rows[j].text_of(field));
    assert(group_key(rows[i], field) =~= key_of(out[a], field));
    assert(group_key(rows[j], field) =~= key_of(out[b], field));
}

proof fn lemma_positions_ascend(test: spec_fn(int) -> bool, n: int, a: int, b: int)
    requires
        0 <= n <= usize::MAX,
        0 <= a < b < positions_where(test, n).len(),
    ensures
        positions_where(test, n)[a] < positions_where(test, n)[b],
    decreases n,
{
    lemma_positions_below(test, n - 1);
    let was = positions_where(test, n - 1);
    if b < was.len() {
        lemma_positions_ascend(test, n - 1, a, b);
    }
}

proof fn lemma_positions_below(test: spec_fn(int) -> bool, n: int)
    requires
        n <= usize::MAX,
    ensures
        forall|a: int|
            #![trigger positions_where(test, n)[a]]
            0 <= a < positions_where(test, n).len() ==> positions_where(test, n)[a] < n,
    decreases n,
{
    if n > 0 {
        lemma_positions_below(test, n - 1);
        let was = positions_where(test, n - 1);
        let now = positions_where(test, n);
        assert forall|a: int| #![trigger now[a]] 0 <= a < now.len() implies now[a] < n by {
            if a < was.len() {
                assert(now[a] == was[a]);
            }
        }
    }
}

proof fn lemma_a_lead(rows: Seq<SymbolMatch>, field: Seq<char>, i: int) -> (l: int)
    requires
        0 <= i < rows.len(),
    ensures
        0 <= l <= i,
        leads_group(rows, field, l),
        key_of(rows[l], field) == key_of(rows[i], field),
    decreases i,
{
    assert(group_key(rows[i], field) == key_of(rows[i], field));
    if leads_group(rows, field, i) {
        i
    } else {
        let j = choose|j: int|
            0 <= j < i && group_key(#[trigger] rows[j], field) == group_key(rows[i], field);
        assert(group_key(rows[j], field) == key_of(rows[j], field));
        lemma_a_lead(rows, field, j)
    }
}

proof fn lemma_group_fits(rows: Seq<SymbolMatch>, field: Seq<char>, key: Seq<char>, n: int)
    requires
        0 <= n <= rows.len(),
    ensures
        group_size(rows, field, key, n) <= n,
    decreases n,
{
    if n > 0 {
        lemma_group_fits(rows, field, key, n - 1);
    }
}

/// Whether a row is one that a query groups: in scope, with every `WHERE` holding but those on the
/// size of a group.
pub open spec fn is_grouped(row: SymbolMatch, clauses: Clauses) -> bool {
    &&& row.path is Some ==> scope_selects(row.path->0@, clauses)
    &&& row.path is None ==> clauses.in_glob is None && clauses.exclude_globs@.len() == 0
    &&& forall|k: int|
        0 <= k < clauses.where_predicates@.len() && clauses.where_predicates@[k].field@ != seq![
            'c',
            'o',
            'u',
            'n',
            't',
        ] ==> row_satisfies(&row, #[trigger] clauses.where_predicates@[k])
}

/// The rows that a query groups.
pub open spec fn grouped_rows(rows: Seq<SymbolMatch>, clauses: Clauses) -> Seq<SymbolMatch> {
    rows.filter(|r: SymbolMatch| is_grouped(r, clauses))
}

/// A query that groups delivers groups of the rows that it selects: each counts those that have its
/// key, and every predicate on groups holds of it.
pub proof fn lemma_a_grouped_delivery_counts(
    rows: Seq<SymbolMatch>,
    clauses: Clauses,
    page: FindPage,
    field: String,
    a: int,
)
    requires
        clauses.group_by == Some(GroupBy::Field(field)),
        is_delivery(rows, clauses, page),
        0 <= a < page.rows@.len(),
    ensures
        exists|i: int| #[trigger]
            counts_group(
                grouped_rows(rows, clauses),
                canonical_text(field@),
                page.rows@[a],
                i,
            ),
        forall|k: int|
            0 <= k < clauses.having_predicates@.len() ==> row_satisfies(
                &page.rows@[a],
                #[trigger] clauses.having_predicates@[k],
            ),
{
    let pick = |i: int| selected(rows[i], clauses);
    let chosen = rows_where(rows, pick);
    let f = canonical_text(field@);
    let of = |r: SymbolMatch| is_grouped(r, clauses);
    lemma_fewer(rows, pick, rows.len() as int);
    assert forall|i: int| 0 <= i < rows.len() implies #[trigger] pick(i) == of(rows[i]) by {
        reveal_strlit("count");
        assert("count"@ =~= seq!['c', 'o', 'u', 'n', 't']);
    }
    lemma_where_filters(rows, pick, of, rows.len() as int);
    assert(rows.take(rows.len() as int) =~= rows);
    let groups = choose|groups: Seq<SymbolMatch>| #[trigger]
        groups_rows(chosen, f, groups) && is_cut(
            rows_where(groups, |i: int| retained(groups[i], clauses)),
            clauses,
            page,
        );
    let keep = |i: int| retained(groups[i], clauses);
    let kept = rows_where(groups, keep);
    lemma_fewer(chosen, |i: int| leads_group(chosen, f, i), chosen.len() as int);
    lemma_a_page_is_filled_in_order(kept, clauses, page);
    assert(kept.contains(page.rows@[a]));
    lemma_where(groups, keep, page.rows@[a]);
    let g = choose|g: int| 0 <= g < groups.len() && #[trigger] groups[g] == page.rows@[a] && keep(g);
    lemma_a_group_counts_its_rows(chosen, f, groups, g);
    let i = choose|i: int| #[trigger] counts_group(chosen, f, groups[g], i);
    assert(chosen == rows.filter(of));
    assert(chosen == grouped_rows(rows, clauses));
    assert(counts_group(grouped_rows(rows, clauses), f, page.rows@[a], i));
}

} // verus!
