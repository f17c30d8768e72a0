//! Collapsing rows that report one thing: of those with one key the first stays.

use crate::order::{lemma_text_total, lemma_text_transitive, text_before, text_less};
use crate::filter::opt_text;
use crate::segment::{opt_string, RowView, SymbolMatch};
use crate::sort::{
    distinct_positions, is_sorted_order, lemma_sorted_order_distinct, pick, picked, sorted_order,
    sorts_before, RankTable,
};
use crate::text::same_text;
use crate::path_parts::{is_same_path, lemma_same_path, plain_path, plainly};
use vstd::prelude::*;
use vstd::string::*;

verus! {

// ───────────────────────────── firsts of a table ─────────────────────────────

/// Whether two rows of a table rank alike.
pub open spec fn ties<T: RankTable>(t: &T, i: int, j: int) -> bool {
    !t.ranks_before(i, j) && !t.ranks_before(j, i)
}

/// Whether no earlier row ranks like row `i`.
pub open spec fn is_first<T: RankTable>(t: &T, i: int) -> bool {
    forall|j: int| 0 <= j < i ==> !#[trigger] ties(t, j, i)
}

/// The positions below `n` of the first row of each rank, ascending.
pub open spec fn firsts<T: RankTable>(t: &T, n: int) -> Seq<usize>
    decreases n,
{
    if n <= 0 {
        seq![]
    } else if is_first(t, n - 1) {
        firsts(t, n - 1).push((n - 1) as usize)
    } else {
        firsts(t, n - 1)
    }
}

proof fn lemma_first_in_order<T: RankTable>(t: &T, order: Seq<usize>, a: int)
    requires
        is_sorted_order(t, order),
        0 <= a < order.len(),
    ensures
        is_first(t, order[a] as int) == (a == 0 || t.ranks_before(
            order[a - 1] as int,
            order[a] as int,
        )),
{
    let i = order[a] as int;
    let alone = a == 0 || t.ranks_before(order[a - 1] as int, i);
    if !alone {
        let p = order[a - 1] as int;
        assert(sorts_before(t, p, i));
        assert(ties(t, p, i));
    } else {
        assert forall|j: int| 0 <= j < i implies !#[trigger] ties(t, j, i) by {
            assert(order.contains(j as usize));
            let b = choose|b: int| 0 <= b < order.len() && order[b] == j as usize;
            if b < a {
                let p = order[a - 1] as int;
                if b < a - 1 {
                    assert(sorts_before(t, j, p));
                }
                t.strict_weak_order(p, j, i);
                t.strict_weak_order(p, p, p);
                t.strict_weak_order(j, p, j);
            } else if b > a {
                assert(sorts_before(t, i, j));
            }
        }
    }
}

/// The positions of the first row of each rank, ascending.
pub fn first_positions<T: RankTable>(t: &T) -> (out: Vec<usize>)
    requires
        t.readable(),
    ensures
        out@ == firsts(t, t.size() as int),
{
    let order = sorted_order(t);
    proof {
        lemma_sorted_order_distinct(t, order@);
    }
    let n: usize = order.len();
    let mut keep: Vec<bool> = Vec::new();
    let mut i: usize = 0;
    while i < n
        invariant
            i <= n,
            keep@.len() == i,
        decreases n - i,
    {
        keep.push(false);
        i += 1;
    }
    let mut a: usize = 0;
    while a < n
        invariant
            t.readable(),
            a <= n,
            n == order@.len(),
            n == t.size(),
            keep@.len() == n,
            is_sorted_order(t, order@),
            distinct_positions(order@, n as int),
            forall|b: int|
                0 <= b < a ==> keep@[order@[b] as int] == is_first(
                    t,
                    #[trigger] order@[b] as int,
                ),
        decreases n - a,
    {
        proof {
            lemma_first_in_order(t, order@, a as int);
        }
        let alone = a == 0 || t.is_before(order[a - 1], order[a]);
        keep.set(order[a], alone);
        a += 1;
    }
    let mut out: Vec<usize> = Vec::new();
    let mut k: usize = 0;
    proof {
        assert forall|j: int| 0 <= j < n implies #[trigger] keep@[j] == is_first(t, j) by {
            assert(order@.contains(j as usize));
            let b = choose|b: int| 0 <= b < order@.len() && order@[b] == j as usize;
            assert(keep@[order@[b] as int] == is_first(t, order@[b] as int));
        }
    }
    while k < n
        invariant
            k <= n,
            keep@.len() == n,
            forall|j: int| 0 <= j < n ==> #[trigger] keep@[j] == is_first(t, j),
            out@ == firsts(t, k as int),
        decreases n - k,
    {
        if keep[k] {
            out.push(k);
        }
        k += 1;
    }
    out
}

proof fn lemma_firsts_distinct<T: RankTable>(t: &T, n: int, bound: int)
    requires
        0 <= n <= bound <= usize::MAX,
    ensures
        distinct_positions(firsts(t, n), bound),
        forall|a: int| 0 <= a < firsts(t, n).len() ==> (#[trigger] firsts(t, n)[a]) < n,
    decreases n,
{
    if n > 0 {
        lemma_firsts_distinct(t, n - 1, bound);
    }
}

// ───────────────────────────── keys ─────────────────────────────

/// The path of a row, where it has one, written plainly.
pub open spec fn opt_plainly(path: Option<Seq<char>>) -> Option<Seq<char>> {
    match path {
        Some(p) => Some(plainly(p)),
        None => None,
    }
}

/// What two rows must share to report one thing. The path is written plainly.
pub struct CollapseKey {
    pub name: Seq<char>,
    pub kind: Option<Seq<char>>,
    pub path: Option<Seq<char>>,
    pub line: Option<usize>,
}

/// A row that knows what it reports.
pub trait Collapsible {
    /// What the row needs to be read.
    spec fn keyed(&self) -> bool;

    /// The key of the row.
    spec fn key_view(&self) -> CollapseKey;

    /// The parts of the key.
    fn key_parts(&self) -> (k: (&str, Option<&str>, Option<&str>, Option<usize>))
        requires
            self.keyed(),
        ensures
            self.key_view() == (CollapseKey {
                name: k.0@,
                kind: opt_text(k.1),
                path: opt_plainly(opt_text(k.2)),
                line: k.3,
            }),
    ;
}

/// The rows among the first `n` whose key no earlier row has.
pub open spec fn collapsed<T: Collapsible>(rows: Seq<T>, n: int) -> Seq<T>
    decreases n,
{
    if n <= 0 {
        seq![]
    } else if repeats(rows, n - 1) {
        collapsed(rows, n - 1)
    } else {
        collapsed(rows, n - 1).push(rows[n - 1])
    }
}

/// Whether an earlier row has the key of row `i`.
pub open spec fn repeats<T: Collapsible>(rows: Seq<T>, i: int) -> bool {
    exists|j: int| 0 <= j < i && (#[trigger] rows[j]).key_view() == rows[i].key_view()
}

spec fn opt_text_before(a: Option<Seq<char>>, b: Option<Seq<char>>) -> bool {
    match (a, b) {
        (None, Some(_)) => true,
        (Some(x), Some(y)) => text_before(x, y),
        _ => false,
    }
}

spec fn opt_line_before(a: Option<usize>, b: Option<usize>) -> bool {
    match (a, b) {
        (None, Some(_)) => true,
        (Some(x), Some(y)) => x < y,
        _ => false,
    }
}

spec fn key_before(a: CollapseKey, b: CollapseKey) -> bool {
    if a.name != b.name {
        text_before(a.name, b.name)
    } else if a.kind != b.kind {
        opt_text_before(a.kind, b.kind)
    } else if a.path != b.path {
        opt_text_before(a.path, b.path)
    } else {
        opt_line_before(a.line, b.line)
    }
}

proof fn lemma_opt_text_order(a: Option<Seq<char>>, b: Option<Seq<char>>, c: Option<Seq<char>>)
    ensures
        !opt_text_before(a, a),
        a == b || opt_text_before(a, b) || opt_text_before(b, a),
        !(opt_text_before(a, b) && opt_text_before(b, a)),
        opt_text_before(a, b) && opt_text_before(b, c) ==> opt_text_before(a, c),
{
    match (a, b) {
        (Some(x), Some(y)) => {
            lemma_text_total(x, y);
            lemma_text_total(x, x);
            if c is Some {
                if text_before(x, y) && text_before(y, c->0) {
                    lemma_text_transitive(x, y, c->0);
                }
            }
        },
        (Some(x), None) => {
            lemma_text_total(x, x);
        },
        _ => {},
    }
}

proof fn lemma_key_order(a: CollapseKey, b: CollapseKey, c: CollapseKey)
    ensures
        !key_before(a, a),
        a == b || key_before(a, b) || key_before(b, a),
        !(key_before(a, b) && key_before(b, a)),
        key_before(a, b) && key_before(b, c) ==> key_before(a, c),
{
    lemma_text_total(a.name, b.name);
    lemma_text_total(a.name, c.name);
    lemma_text_total(b.name, c.name);
    if text_before(a.name, b.name) && text_before(b.name, c.name) {
        lemma_text_transitive(a.name, b.name, c.name);
    }
    lemma_opt_text_order(a.kind, b.kind, c.kind);
    lemma_opt_text_order(a.kind, c.kind, b.kind);
    lemma_opt_text_order(b.kind, c.kind, a.kind);
    lemma_opt_text_order(a.path, b.path, c.path);
    lemma_opt_text_order(a.path, c.path, b.path);
    lemma_opt_text_order(b.path, c.path, a.path);
}

fn opt_text_less(a: Option<&str>, b: Option<&str>) -> (r: bool)
    ensures
        r == opt_text_before(opt_text(a), opt_text(b)),
{
    match (a, b) {
        (None, Some(_)) => true,
        (Some(x), Some(y)) => text_less(x, y),
        _ => false,
    }
}

fn same_opt_text(a: Option<&str>, b: Option<&str>) -> (r: bool)
    ensures
        r == (opt_text(a) == opt_text(b)),
{
    match (a, b) {
        (None, None) => true,
        (Some(x), Some(y)) => same_text(x, y),
        _ => false,
    }
}

fn same_opt_path(a: Option<&str>, b: Option<&str>) -> (r: bool)
    ensures
        r == (opt_plainly(opt_text(a)) == opt_plainly(opt_text(b))),
{
    match (a, b) {
        (None, None) => true,
        (Some(x), Some(y)) => {
            proof {
                lemma_same_path(x@, y@);
            }
            is_same_path(x, y)
        },
        _ => false,
    }
}

fn opt_path_less(a: Option<&str>, b: Option<&str>) -> (r: bool)
    ensures
        r == opt_text_before(opt_plainly(opt_text(a)), opt_plainly(opt_text(b))),
{
    match (a, b) {
        (None, Some(_)) => true,
        (Some(x), Some(y)) => text_less(plain_path(x).as_str(), plain_path(y).as_str()),
        _ => false,
    }
}

struct KeyTable<'a, T> {
    rows: &'a Vec<T>,
}

impl<'a, T: Collapsible> RankTable for KeyTable<'a, T> {
    closed spec fn size(&self) -> nat {
        self.rows@.len()
    }

    closed spec fn readable(&self) -> bool {
        forall|i: int| 0 <= i < self.rows@.len() ==> (#[trigger] self.rows@[i]).keyed()
    }

    closed spec fn ranks_before(&self, i: int, j: int) -> bool {
        key_before(self.rows@[i].key_view(), self.rows@[j].key_view())
    }

    proof fn strict_weak_order(&self, i: int, j: int, k: int) {
        let (a, b, c) = (
            self.rows@[i].key_view(),
            self.rows@[j].key_view(),
            self.rows@[k].key_view(),
        );
        lemma_key_order(a, b, c);
        lemma_key_order(c, b, a);
        lemma_key_order(a, c, b);
    }

    fn count(&self) -> (n: usize) {
        self.rows.len()
    }

    fn is_before(&self, i: usize, j: usize) -> (r: bool) {
        let a = self.rows[i].key_parts();
        let b = self.rows[j].key_parts();
        if !same_text(a.0, b.0) {
            text_less(a.0, b.0)
        } else if !same_opt_text(a.1, b.1) {
            opt_text_less(a.1, b.1)
        } else if !same_opt_path(a.2, b.2) {
            opt_path_less(a.2, b.2)
        } else {
            match (a.3, b.3) {
                (None, Some(_)) => true,
                (Some(x), Some(y)) => x < y,
                _ => false,
            }
        }
    }
}

proof fn lemma_firsts_collapse<'a, T: Collapsible>(t: &KeyTable<'a, T>, n: int)
    requires
        0 <= n <= t.rows@.len() <= usize::MAX,
    ensures
        picked(t.rows@, firsts(t, n)) == collapsed(t.rows@, n),
    decreases n,
{
    if n <= 0 {
        assert(picked(t.rows@, firsts(t, n)) =~= collapsed(t.rows@, n));
    } else {
        lemma_firsts_collapse(t, n - 1);
        let i = n - 1;
        assert(is_first(t, i) == !repeats(t.rows@, i)) by {
            if repeats(t.rows@, i) {
                let j = choose|j: int|
                    0 <= j < i && (#[trigger] t.rows@[j]).key_view() == t.rows@[i].key_view();
                lemma_key_order(t.rows@[j].key_view(), t.rows@[i].key_view(), t.rows@[i].key_view());
                assert(ties(t, j, i));
            } else {
                assert forall|j: int| 0 <= j < i implies !#[trigger] ties(t, j, i) by {
                    lemma_key_order(
                        t.rows@[j].key_view(),
                        t.rows@[i].key_view(),
                        t.rows@[i].key_view(),
                    );
                }
            }
        }
        let before = firsts(t, n - 1);
        assert(picked(t.rows@, before.push(i as usize)) =~= picked(t.rows@, before).push(
            t.rows@[i],
        ));
    }
}

/// Collapses rows: of those with one key the first stays, and the rest keep their order.
pub fn collapse<T: Collapsible>(rows: Vec<T>) -> (out: Vec<T>)
    requires
        forall|i: int| 0 <= i < rows@.len() ==> (#[trigger] rows@[i]).keyed(),
    ensures
        out@ == collapsed(rows@, rows@.len() as int),
{
    let n: usize = rows.len();
    let order: Vec<usize> = {
        let table = KeyTable { rows: &rows };
        let order = first_positions(&table);
        proof {
            lemma_firsts_collapse(&table, n as int);
            lemma_firsts_distinct(&table, n as int, n as int);
        }
        order
    };
    pick(rows, &order)
}

// ───────────────────────────── rows ─────────────────────────────

fn as_str(s: &Option<String>) -> (r: Option<&str>)
    ensures
        opt_text(r) == opt_string(*s),
{
    match s {
        Some(t) => Some(t.as_str()),
        None => None,
    }
}

impl Collapsible for SymbolMatch {
    open spec fn keyed(&self) -> bool {
        true
    }

    open spec fn key_view(&self) -> CollapseKey {
        CollapseKey {
            name: self.name@,
            kind: opt_string(self.fql_kind),
            path: opt_plainly(opt_string(self.path)),
            line: self.line,
        }
    }

    fn key_parts(&self) -> (k: (&str, Option<&str>, Option<&str>, Option<usize>)) {
        (self.name.as_str(), as_str(&self.fql_kind), as_str(&self.path), self.line)
    }
}

impl<'a> Collapsible for RowView<'a> {
    open spec fn keyed(&self) -> bool {
        self.wf()
    }

    /// The key of a view within its segment, whose rows share one path.
    open spec fn key_view(&self) -> CollapseKey {
        CollapseKey {
            name: self.key().0,
            kind: self.key().1,
            path: None,
            line: Some(self.key().2 as usize),
        }
    }

    fn key_parts(&self) -> (k: (&str, Option<&str>, Option<&str>, Option<usize>)) {
        let key = self.collapse_key();
        (key.0, key.1, None, Some(key.2 as usize))
    }
}

/// Collapses symbol rows that agree in name, kind, path and line.
pub fn dedupe_symbol_matches(results: Vec<SymbolMatch>) -> (out: Vec<SymbolMatch>)
    ensures
        out@ == collapsed(results@, results@.len() as int),
{
    collapse(results)
}

/// Collapses the views of one segment as building them first would.
pub fn dedupe_views_of_segment<'a>(views: Vec<RowView<'a>>) -> (out: Vec<RowView<'a>>)
    requires
        forall|i: int| 0 <= i < views@.len() ==> (#[trigger] views@[i]).wf(),
    ensures
        out@ == collapsed(views@, views@.len() as int),
{
    collapse(views)
}


// ───────────────────────────── what rows stand for ─────────────────────────────

/// The items among the first `n` whose key no earlier item has.
pub open spec fn distinct_by<U, K>(items: Seq<U>, key: spec_fn(U) -> K, n: int) -> Seq<U>
    decreases n,
{
    if n <= 0 {
        seq![]
    } else if exists|j: int| 0 <= j < n - 1 && key(#[trigger] items[j]) == key(items[n - 1]) {
        distinct_by(items, key, n - 1)
    } else {
        distinct_by(items, key, n - 1).push(items[n - 1])
    }
}

/// Rows that stand for items, and agree in their keys as the items do, collapse as the items do.
pub proof fn lemma_collapse_follows<T: Collapsible, U, K>(
    rows: Seq<T>,
    items: Seq<U>,
    key: spec_fn(U) -> K,
    stands: spec_fn(T, U) -> bool,
    n: int,
)
    requires
        0 <= n <= rows.len() == items.len(),
        forall|i: int| 0 <= i < rows.len() ==> stands(#[trigger] rows[i], items[i]),
        forall|i: int, j: int|
            #![trigger rows[i], rows[j]]
            0 <= i < j < rows.len() ==> (rows[i].key_view() == rows[j].key_view()) == (key(items[i])
                == key(items[j])),
    ensures
        collapsed(rows, n).len() == distinct_by(items, key, n).len(),
        forall|i: int|
            0 <= i < collapsed(rows, n).len() ==> stands(
                #[trigger] collapsed(rows, n)[i],
                distinct_by(items, key, n)[i],
            ),
    decreases n,
{
    if n > 0 {
        lemma_collapse_follows(rows, items, key, stands, n - 1);
        let i = n - 1;
        let again = exists|j: int| 0 <= j < i && key(#[trigger] items[j]) == key(items[i]);
        assert(repeats(rows, i) == again) by {
            if repeats(rows, i) {
                let j = choose|j: int|
                    0 <= j < i && (#[trigger] rows[j]).key_view() == rows[i].key_view();
                assert(key(items[j]) == key(items[i]));
            }
            if again {
                let j = choose|j: int| 0 <= j < i && key(#[trigger] items[j]) == key(items[i]);
                assert(rows[j].key_view() == rows[i].key_view());
            }
        }
        assert(stands(rows[i], items[i]));
    }
}

/// What is left of items is among them.
pub proof fn lemma_distinct_members<U, K>(items: Seq<U>, key: spec_fn(U) -> K, n: int)
    requires
        0 <= n <= items.len(),
    ensures
        distinct_by(items, key, n).len() <= n,
        forall|i: int|
            0 <= i < distinct_by(items, key, n).len() ==> items.contains(
                #[trigger] distinct_by(items, key, n)[i],
            ),
    decreases n,
{
    if n > 0 {
        lemma_distinct_members(items, key, n - 1);
        let before = distinct_by(items, key, n - 1);
        let now = distinct_by(items, key, n);
        assert forall|i: int| 0 <= i < now.len() implies items.contains(#[trigger] now[i]) by {
            if i < before.len() {
                assert(now[i] == before[i]);
            } else {
                assert(items[n - 1] == now[i]);
            }
        }
    }
}

} // verus!
