//! Testing and ranking rows: `WHERE` and `HAVING` predicates, `ORDER BY` and its tie-breakers.

use crate::clauses::{Clauses, CompareOp, OrderBy, Predicate, PredicateValue, SortDirection};
use crate::fields::{
    canonical, canonical_text, is_symbol_number_field, is_symbol_text_field, order_tie_breakers,
    symbol_number_field, symbol_text_field, tie_breaker,
};
use crate::order::{lemma_text_weak, lemma_text_total, text_before, text_less};
use crate::pattern::{compile_regex, regex_accepts, regex_compiles, regex_matches};
use crate::sort::{
    distinct_positions, lemma_sorted_order_distinct, lists_positions, pick, picked, sorted_order,
    sorts_before, RankTable,
};
use crate::text::{chars_of, same_text};
use vstd::prelude::*;
use vstd::string::*;

verus! {

// ───────────────────────────── LIKE ─────────────────────────────

/// Whether the pattern `p[i..]` matches the text `t[j..]`: `%` is any run of characters, `_` any
/// one character.
pub open spec fn like_at(t: Seq<char>, j: int, p: Seq<char>, i: int) -> bool
    decreases p.len() - i, t.len() - j,
{
    if i < 0 || j < 0 || j > t.len() {
        false
    } else if i >= p.len() {
        j == t.len()
    } else if p[i] == '%' {
        like_at(t, j, p, i + 1) || (j < t.len() && like_at(t, j + 1, p, i))
    } else {
        j < t.len() && (p[i] == '_' || t[j] == p[i]) && like_at(t, j + 1, p, i + 1)
    }
}

/// Whether a `LIKE` pattern matches a text.
pub open spec fn like_accepts(text: Seq<char>, pattern: Seq<char>) -> bool {
    like_at(text, 0, pattern, 0)
}

/// Whether `row[j]` says whether `p[i..]` matches `t[j..]`, for every `j`.
spec fn is_like_row(t: Seq<char>, p: Seq<char>, i: int, row: Seq<bool>) -> bool {
    &&& row.len() == t.len() + 1
    &&& forall|j: int| 0 <= j <= t.len() ==> #[trigger] row[j] == like_at(t, j, p, i)
}

/// The row of the match table for `p[i..]`, from the row for `p[i + 1..]`.
fn like_row(t: &Vec<char>, p: &Vec<char>, i: usize, next: &Vec<bool>) -> (row: Vec<bool>)
    requires
        i < p@.len(),
        is_like_row(t@, p@, i + 1, next@),
    ensures
        is_like_row(t@, p@, i as int, row@),
{
    let n: usize = t.len();
    let c = p[i];
    let mut back: Vec<bool> = Vec::new();
    back.push(c == '%' && next[n]);
    let mut k: usize = 0;
    while k < n
        invariant
            n == t@.len(),
            k <= n,
            i < p@.len(),
            c == p@[i as int],
            is_like_row(t@, p@, i + 1, next@),
            back@.len() == k + 1,
            forall|m: int| 0 <= m <= k ==> #[trigger] back@[m] == like_at(t@, n - m, p@, i as int),
        decreases n - k,
    {
        let j: usize = n - k - 1;
        assert(back@[k as int] == like_at(t@, j + 1, p@, i as int));
        let m = if c == '%' {
            next[j] || back[k]
        } else {
            (c == '_' || t[j] == c) && next[j + 1]
        };
        back.push(m);
        k += 1;
    }
    let mut row: Vec<bool> = Vec::new();
    row.push(back[n]);
    assert(back@[n as int] == like_at(t@, n - n, p@, i as int));
    let mut j: usize = 0;
    while j < n
        invariant
            n == t@.len(),
            j <= n,
            back@.len() == n + 1,
            forall|m: int|
                0 <= m <= n ==> #[trigger] back@[m] == like_at(t@, n - m, p@, i as int),
            row@.len() == j + 1,
            forall|m: int| 0 <= m <= j ==> #[trigger] row@[m] == like_at(t@, m, p@, i as int),
        decreases n - j,
    {
        assert(back@[n - (j + 1)] == like_at(t@, n - (n - (j + 1)), p@, i as int));
        row.push(back[n - j - 1]);
        j += 1;
    }
    row
}

/// Whether a `LIKE` pattern matches a text.
pub fn like_match(text: &str, pattern: &str) -> (r: bool)
    ensures
        r == like_accepts(text@, pattern@),
{
    let t = chars_of(text);
    let p = chars_of(pattern);
    let n: usize = t.len();
    let mut row: Vec<bool> = Vec::new();
    let mut j: usize = 0;
    while j < n
        invariant
            n == t@.len(),
            j <= n,
            row@.len() == j,
            forall|m: int|
                0 <= m < j ==> #[trigger] row@[m] == like_at(t@, m, p@, p@.len() as int),
        decreases n - j,
    {
        row.push(false);
        j += 1;
    }
    row.push(true);
    let mut i: usize = p.len();
    while i > 0
        invariant
            i <= p@.len(),
            is_like_row(t@, p@, i as int, row@),
        decreases i,
    {
        row = like_row(&t, &p, i - 1, &row);
        i -= 1;
    }
    row[0]
}

// ───────────────────────────── rows under test ─────────────────────────────

/// The text of an optional string.
pub open spec fn opt_text(s: Option<&str>) -> Option<Seq<char>> {
    match s {
        Some(t) => Some(t@),
        None => None,
    }
}

/// The value of an optional number.
pub open spec fn opt_number(n: Option<i64>) -> Option<int> {
    match n {
        Some(v) => Some(v as int),
        None => None,
    }
}

/// A row that clauses can read: every field as text and as a number, where it has one.
pub trait ClauseTarget {
    /// What the row needs to be read.
    spec fn readable(&self) -> bool;

    /// A field as text.
    spec fn text_of(&self, field: Seq<char>) -> Option<Seq<char>>;

    /// A field as a number.
    spec fn number_of(&self, field: Seq<char>) -> Option<int>;

    /// A field as text.
    fn field_str(&self, field: &str) -> (r: Option<&str>)
        requires
            self.readable(),
        ensures
            opt_text(r) == self.text_of(field@),
    ;

    /// A field as a number.
    fn field_num(&self, field: &str) -> (r: Option<i64>)
        requires
            self.readable(),
        ensures
            opt_number(r) == self.number_of(field@),
    ;
}

/// Whether a comparison of numbers holds.
pub open spec fn number_holds(op: CompareOp, n: int, v: int) -> bool {
    match op {
        CompareOp::Eq => n == v,
        CompareOp::NotEq => n != v,
        CompareOp::Gt => n > v,
        CompareOp::Gte => n >= v,
        CompareOp::Lt => n < v,
        CompareOp::Lte => n <= v,
        CompareOp::NotLike | CompareOp::NotMatches => true,
        CompareOp::Like | CompareOp::Matches => false,
    }
}

/// Whether a comparison of texts holds.
pub open spec fn text_holds(op: CompareOp, t: Seq<char>, v: Seq<char>) -> bool {
    match op {
        CompareOp::Eq => t == v,
        CompareOp::NotEq => t != v,
        CompareOp::Like => like_accepts(t, v),
        CompareOp::NotLike => !like_accepts(t, v),
        CompareOp::Matches => regex_compiles(v) && regex_accepts(v, t),
        CompareOp::NotMatches => regex_compiles(v) && !regex_accepts(v, t),
        CompareOp::Gt | CompareOp::Gte | CompareOp::Lt | CompareOp::Lte => false,
    }
}

/// The text of a truth value.
pub open spec fn bool_text(b: bool) -> Seq<char> {
    if b {
        "true"@
    } else {
        "false"@
    }
}

/// Whether a predicate holds of a row that reads the field as `text` and as `number`.
///
/// A field that is absent fails every operator, negations included. The one exception never
/// reads it: a pattern cannot be matched against a value that is no text, so not matching one
/// holds of every row.
pub open spec fn predicate_holds(
    text: Option<Seq<char>>,
    number: Option<int>,
    op: CompareOp,
    value: PredicateValue,
) -> bool {
    match value {
        PredicateValue::String(v) => text is Some && text_holds(op, text->0, v@),
        PredicateValue::Number(v) => if op == CompareOp::NotLike || op == CompareOp::NotMatches {
            true
        } else {
            number is Some && number_holds(op, number->0, v as int)
        },
        PredicateValue::Bool(b) => if op == CompareOp::NotLike || op == CompareOp::NotMatches {
            true
        } else if op == CompareOp::Eq || op == CompareOp::NotEq {
            text is Some && text_holds(op, text->0, bool_text(b))
        } else {
            false
        },
    }
}

/// Whether a predicate holds of a row, its field read under the canonical name.
pub open spec fn row_satisfies<T: ClauseTarget>(row: &T, predicate: Predicate) -> bool {
    let field = canonical_text(predicate.field@);
    predicate_holds(row.text_of(field), row.number_of(field), predicate.op, predicate.value)
}

fn text_test(op: CompareOp, t: &str, v: &str) -> (r: bool)
    ensures
        r == text_holds(op, t@, v@),
{
    match op {
        CompareOp::Eq => same_text(t, v),
        CompareOp::NotEq => !same_text(t, v),
        CompareOp::Like => like_match(t, v),
        CompareOp::NotLike => !like_match(t, v),
        CompareOp::Matches => match compile_regex(v) {
            Some(re) => regex_matches(&re, t),
            None => false,
        },
        CompareOp::NotMatches => match compile_regex(v) {
            Some(re) => !regex_matches(&re, t),
            None => false,
        },
        CompareOp::Gt | CompareOp::Gte | CompareOp::Lt | CompareOp::Lte => false,
    }
}

fn number_test(op: CompareOp, n: i64, v: i64) -> (r: bool)
    ensures
        r == number_holds(op, n as int, v as int),
{
    match op {
        CompareOp::Eq => n == v,
        CompareOp::NotEq => n != v,
        CompareOp::Gt => n > v,
        CompareOp::Gte => n >= v,
        CompareOp::Lt => n < v,
        CompareOp::Lte => n <= v,
        CompareOp::NotLike | CompareOp::NotMatches => true,
        CompareOp::Like | CompareOp::Matches => false,
    }
}

/// Whether a predicate holds of a row, reading the field under the name given.
pub fn eval_predicate_on<T: ClauseTarget>(row: &T, field: &str, predicate: &Predicate) -> (r: bool)
    requires
        row.readable(),
    ensures
        r == predicate_holds(
            row.text_of(field@),
            row.number_of(field@),
            predicate.op,
            predicate.value,
        ),
{
    match &predicate.value {
        PredicateValue::String(v) => match row.field_str(field) {
            Some(t) => text_test(predicate.op, t, v.as_str()),
            None => false,
        },
        PredicateValue::Number(v) => {
            if predicate.op == CompareOp::NotLike || predicate.op == CompareOp::NotMatches {
                true
            } else {
                match row.field_num(field) {
                    Some(n) => number_test(predicate.op, n, *v),
                    None => false,
                }
            }
        },
        PredicateValue::Bool(b) => {
            if predicate.op == CompareOp::NotLike || predicate.op == CompareOp::NotMatches {
                true
            } else if predicate.op == CompareOp::Eq || predicate.op == CompareOp::NotEq {
                match row.field_str(field) {
                    Some(t) => text_test(
                        predicate.op,
                        t,
                        if *b {
                            "true"
                        } else {
                            "false"
                        },
                    ),
                    None => false,
                }
            } else {
                false
            }
        },
    }
}

/// Whether a predicate holds of a row.
pub fn eval_predicate<T: ClauseTarget>(row: &T, predicate: &Predicate) -> (r: bool)
    requires
        row.readable(),
    ensures
        r == row_satisfies(row, *predicate),
{
    eval_predicate_on(row, canonical(predicate.field.as_str()), predicate)
}

/// Whether every predicate holds of a row.
pub open spec fn satisfies_all<T: ClauseTarget>(row: &T, predicates: Seq<Predicate>) -> bool {
    forall|i: int| 0 <= i < predicates.len() ==> row_satisfies(row, #[trigger] predicates[i])
}

// ───────────────────────────── ordering ─────────────────────────────

/// What an ordering reads of one field of a row.
pub struct Reading {
    pub number: Option<int>,
    pub text: Option<Seq<char>>,
}

/// What an ordering reads: a field the row itself holds as text is read as text, one it holds as
/// a number as a number, and any other both ways.
pub open spec fn reading(text: Option<Seq<char>>, number: Option<int>, field: Seq<char>) -> Reading {
    Reading {
        number: if symbol_text_field(field) {
            None
        } else {
            number
        },
        text: if symbol_number_field(field) {
            None
        } else {
            text
        },
    }
}

/// What an ordering reads of a row.
pub open spec fn reading_of<T: ClauseTarget>(row: &T, field: Seq<char>) -> Reading {
    reading(row.text_of(field), row.number_of(field), field)
}

/// Numbers ascend; an absent one comes first.
pub open spec fn number_before(a: Option<int>, b: Option<int>) -> bool {
    b is Some && (a is None || a->0 < b->0)
}

/// Texts ascend in dictionary order; an absent one comes first.
pub open spec fn opt_text_before(a: Option<Seq<char>>, b: Option<Seq<char>>) -> bool {
    b is Some && (a is None || text_before(a->0, b->0))
}

/// One reading comes before another: by number, then by text.
pub open spec fn reading_before(a: Reading, b: Reading) -> bool {
    number_before(a.number, b.number) || (a.number == b.number && opt_text_before(a.text, b.text))
}

/// Whether the tie-breakers from `k` on put the first of two rows before the second.
pub open spec fn ties_before(a: spec_fn(Seq<char>) -> Reading, b: spec_fn(Seq<char>) -> Reading, k: int) -> bool
    decreases 4 - k,
{
    if k >= 4 {
        false
    } else if reading_before(a(tie_breaker(k)), b(tie_breaker(k))) {
        true
    } else if reading_before(b(tie_breaker(k)), a(tie_breaker(k))) {
        false
    } else {
        ties_before(a, b, k + 1)
    }
}

/// Whether an `ORDER BY` puts the first of two rows before the second.
pub open spec fn primary_before(
    a: spec_fn(Seq<char>) -> Reading,
    b: spec_fn(Seq<char>) -> Reading,
    order_by: Option<OrderBy>,
) -> bool {
    match order_by {
        Some(o) => {
            let f = canonical_text(o.field@);
            if o.direction == SortDirection::Asc {
                reading_before(a(f), b(f))
            } else {
                reading_before(b(f), a(f))
            }
        },
        None => false,
    }
}

/// Whether the first of two rows comes before the second: by the `ORDER BY`, then by the
/// tie-breakers.
pub open spec fn row_before(
    a: spec_fn(Seq<char>) -> Reading,
    b: spec_fn(Seq<char>) -> Reading,
    order_by: Option<OrderBy>,
) -> bool {
    primary_before(a, b, order_by) || (!primary_before(b, a, order_by) && ties_before(a, b, 0))
}

/// How an ordering reads a row.
pub open spec fn reader_of<T: ClauseTarget>(row: &T) -> spec_fn(Seq<char>) -> Reading {
    |field: Seq<char>| reading_of(row, field)
}

proof fn lemma_reading_weak(a: Reading, b: Reading, c: Reading)
    ensures
        !reading_before(a, a),
        reading_before(a, b) && reading_before(b, c) ==> reading_before(a, c),
        !reading_before(a, b) && !reading_before(b, c) ==> !reading_before(a, c),
        reading_before(a, b) ==> !reading_before(b, a),
{
    let e = Seq::<char>::empty();
    let (x, y, z) = (
        if a.text is Some { a.text->0 } else { e },
        if b.text is Some { b.text->0 } else { e },
        if c.text is Some { c.text->0 } else { e },
    );
    lemma_text_weak(x, y, z);
    lemma_text_weak(x, x, x);
    lemma_text_total(x, y);
    lemma_text_total(y, z);
    lemma_text_total(x, z);
}

proof fn lemma_ties_weak(
    a: spec_fn(Seq<char>) -> Reading,
    b: spec_fn(Seq<char>) -> Reading,
    c: spec_fn(Seq<char>) -> Reading,
    k: int,
)
    ensures
        !ties_before(a, a, k),
        ties_before(a, b, k) && ties_before(b, c, k) ==> ties_before(a, c, k),
        !ties_before(a, b, k) && !ties_before(b, c, k) ==> !ties_before(a, c, k),
        ties_before(a, b, k) ==> !ties_before(b, a, k),
    decreases 4 - k,
{
    if k < 4 {
        let f = tie_breaker(k);
        lemma_reading_weak(a(f), b(f), c(f));
        lemma_reading_weak(c(f), b(f), a(f));
        lemma_reading_weak(b(f), a(f), c(f));
        lemma_reading_weak(b(f), c(f), a(f));
        lemma_reading_weak(c(f), a(f), b(f));
        lemma_reading_weak(a(f), c(f), b(f));
        lemma_ties_weak(a, b, c, k + 1);
    }
}

/// The ranking of rows is a strict weak order.
pub proof fn lemma_row_before_weak(
    a: spec_fn(Seq<char>) -> Reading,
    b: spec_fn(Seq<char>) -> Reading,
    c: spec_fn(Seq<char>) -> Reading,
    order_by: Option<OrderBy>,
)
    ensures
        !row_before(a, a, order_by),
        row_before(a, b, order_by) && row_before(b, c, order_by) ==> row_before(a, c, order_by),
        !row_before(a, b, order_by) && !row_before(b, c, order_by) ==> !row_before(a, c, order_by),
{
    lemma_ties_weak(a, b, c, 0);
    if order_by is Some {
        let f = canonical_text(order_by->0.field@);
        lemma_reading_weak(a(f), b(f), c(f));
        lemma_reading_weak(c(f), b(f), a(f));
        lemma_reading_weak(b(f), a(f), c(f));
        lemma_reading_weak(b(f), c(f), a(f));
        lemma_reading_weak(c(f), a(f), b(f));
        lemma_reading_weak(a(f), c(f), b(f));
    }
}

fn text_comes_first(a: Option<&str>, b: Option<&str>) -> (r: bool)
    ensures
        r == opt_text_before(opt_text(a), opt_text(b)),
{
    match (a, b) {
        (_, None) => false,
        (None, Some(_)) => true,
        (Some(x), Some(y)) => text_less(x, y),
    }
}

/// Whether field `field` of row `a` comes before that of row `b`.
fn field_comes_first<T: ClauseTarget>(a: &T, b: &T, field: &str) -> (r: bool)
    requires
        a.readable(),
        b.readable(),
    ensures
        r == reading_before(reading_of(a, field@), reading_of(b, field@)),
{
    if !is_symbol_text_field(field) {
        match (a.field_num(field), b.field_num(field)) {
            (None, None) => {},
            (None, Some(_)) => {
                return true;
            },
            (Some(_), None) => {
                return false;
            },
            (Some(x), Some(y)) => {
                if x < y {
                    return true;
                }
                if y < x {
                    return false;
                }
            },
        }
    }
    if is_symbol_number_field(field) {
        return false;
    }
    text_comes_first(a.field_str(field), b.field_str(field))
}

/// Whether row `a` comes before row `b`: by the `ORDER BY`, then by the tie-breakers.
pub fn order_less<T: ClauseTarget>(a: &T, b: &T, clauses: &Clauses) -> (r: bool)
    requires
        a.readable(),
        b.readable(),
    ensures
        r == row_before(reader_of(a), reader_of(b), clauses.order_by),
{
    match &clauses.order_by {
        Some(o) => {
            let field = canonical(o.field.as_str());
            let asc = o.direction == SortDirection::Asc;
            let ahead = if asc {
                field_comes_first(a, b, field)
            } else {
                field_comes_first(b, a, field)
            };
            if ahead {
                return true;
            }
            let behind = if asc {
                field_comes_first(b, a, field)
            } else {
                field_comes_first(a, b, field)
            };
            if behind {
                return false;
            }
        },
        None => {},
    }
    let ties = order_tie_breakers();
    let mut k: usize = 0;
    while k < ties.len()
        invariant
            a.readable(),
            b.readable(),
            k <= 4,
            ties@.len() == 4,
            forall|m: int| 0 <= m < 4 ==> (#[trigger] ties@[m])@ == tie_breaker(m),
            ties_before(reader_of(a), reader_of(b), 0) == ties_before(
                reader_of(a),
                reader_of(b),
                k as int,
            ),
            row_before(reader_of(a), reader_of(b), clauses.order_by) == ties_before(
                reader_of(a),
                reader_of(b),
                0,
            ),
        decreases 4 - k,
    {
        if field_comes_first(a, b, ties[k]) {
            return true;
        }
        if field_comes_first(b, a, ties[k]) {
            return false;
        }
        k += 1;
    }
    false
}

/// Rows ranked as a query orders them.
pub struct OrderedRows<'a, T> {
    pub rows: &'a Vec<T>,
    pub clauses: &'a Clauses,
}

impl<'a, T: ClauseTarget> RankTable for OrderedRows<'a, T> {
    open spec fn size(&self) -> nat {
        self.rows@.len()
    }

    open spec fn readable(&self) -> bool {
        forall|i: int| 0 <= i < self.rows@.len() ==> (#[trigger] self.rows@[i]).readable()
    }

    open spec fn ranks_before(&self, i: int, j: int) -> bool {
        row_before(
            reader_of(&self.rows@[i]),
            reader_of(&self.rows@[j]),
            self.clauses.order_by,
        )
    }

    proof fn strict_weak_order(&self, i: int, j: int, k: int) {
        lemma_row_before_weak(
            reader_of(&self.rows@[i]),
            reader_of(&self.rows@[j]),
            reader_of(&self.rows@[k]),
            self.clauses.order_by,
        );
    }

    fn count(&self) -> (n: usize) {
        self.rows.len()
    }

    fn is_before(&self, i: usize, j: usize) -> (r: bool) {
        order_less(&self.rows[i], &self.rows[j], self.clauses)
    }
}

/// The first `k` of a sequence, or all of it where it is shorter.
pub open spec fn first<A>(s: Seq<A>, k: nat) -> Seq<A> {
    if k < s.len() {
        s.take(k as int)
    } else {
        s
    }
}

/// Whether `order` is the order in which a query delivers `rows`.
pub open spec fn orders_rows<T: ClauseTarget>(
    rows: Seq<T>,
    order_by: Option<OrderBy>,
    order: Seq<usize>,
) -> bool {
    &&& lists_positions(order, 0, rows.len() as int)
    &&& forall|a: int, b: int|
        #![trigger order[a], order[b]]
        0 <= a < b < order.len() ==> delivers_before(
            rows,
            order_by,
            order[a] as int,
            order[b] as int,
        )
}

/// Whether row `i` is delivered before row `j`: it ranks before it, or as high and stands earlier.
pub open spec fn delivers_before<T: ClauseTarget>(
    rows: Seq<T>,
    order_by: Option<OrderBy>,
    i: int,
    j: int,
) -> bool {
    let (a, b) = (reader_of(&rows[i]), reader_of(&rows[j]));
    row_before(a, b, order_by) || (!row_before(b, a, order_by) && i < j)
}

/// Whether `out` is the best `k` of `rows`, best first.
pub open spec fn is_top_k<T: ClauseTarget>(
    rows: Seq<T>,
    order_by: Option<OrderBy>,
    k: nat,
    out: Seq<T>,
) -> bool {
    exists|order: Seq<usize>| #[trigger]
        orders_rows(rows, order_by, order) && out == picked(rows, first(order, k))
}

/// The order in which a query delivers rows.
pub fn delivery_order<T: ClauseTarget>(rows: &Vec<T>, clauses: &Clauses) -> (order: Vec<usize>)
    requires
        forall|i: int| 0 <= i < rows@.len() ==> (#[trigger] rows@[i]).readable(),
    ensures
        orders_rows(rows@, clauses.order_by, order@),
        distinct_positions(order@, rows@.len() as int),
{
    let table = OrderedRows { rows, clauses };
    let order = sorted_order(&table);
    proof {
        lemma_sorted_order_distinct(&table, order@);
        assert forall|a: int, b: int|
            #![trigger order@[a], order@[b]]
            0 <= a < b < order@.len() implies delivers_before(
            rows@,
            clauses.order_by,
            order@[a] as int,
            order@[b] as int,
        ) by {
            assert(sorts_before(&table, order@[a] as int, order@[b] as int));
        }
    }
    order
}

/// The best `k` rows, best first.
pub fn collect_top_k<T: ClauseTarget>(rows: Vec<T>, k: usize, clauses: &Clauses) -> (out: Vec<T>)
    requires
        forall|i: int| 0 <= i < rows@.len() ==> (#[trigger] rows@[i]).readable(),
    ensures
        is_top_k(rows@, clauses.order_by, k as nat, out@),
        out@.len() == (if k < rows@.len() { k as nat } else { rows@.len() }),
        forall|i: int| 0 <= i < out@.len() ==> rows@.contains(#[trigger] out@[i]),
{
    let mut order = delivery_order(&rows, clauses);
    let ghost whole = order@;
    if k < order.len() {
        order.truncate(k);
    }
    assert(order@ =~= first(whole, k as nat));
    let ghost all = rows@;
    let out = pick(rows, &order);
    proof {
        assert(out@ == picked(all, first(whole, k as nat)));
        assert forall|i: int| 0 <= i < out@.len() implies all.contains(#[trigger] out@[i]) by {
            assert(out@[i] == all[order@[i] as int]);
        }
    }
    out
}

} // verus!
