//! Stable sorting, as an order of positions.
//!
//! A sort here gives the positions of a table's rows in ascending order of rank; rows of
//! equal rank keep the order they stand in. That order is unique.

use vstd::prelude::*;

verus! {

/// A table whose rows can be ranked against each other.
pub trait RankTable {
    /// How many rows the table has.
    spec fn size(&self) -> nat;

    /// What the table needs to be read.
    spec fn readable(&self) -> bool;

    /// Whether row `i` ranks before row `j`.
    spec fn ranks_before(&self, i: int, j: int) -> bool;

    /// The ranking is a strict weak order.
    proof fn strict_weak_order(&self, i: int, j: int, k: int)
        ensures
            !self.ranks_before(i, i),
            self.ranks_before(i, j) && self.ranks_before(j, k) ==> self.ranks_before(i, k),
            !self.ranks_before(i, j) && !self.ranks_before(j, k) ==> !self.ranks_before(i, k),
    ;

    /// How many rows the table has.
    fn count(&self) -> (n: usize)
        requires
            self.readable(),
        ensures
            n == self.size(),
    ;

    /// Whether row `i` ranks before row `j`.
    fn is_before(&self, i: usize, j: usize) -> (r: bool)
        requires
            self.readable(),
            i < self.size(),
            j < self.size(),
        ensures
            r == self.ranks_before(i as int, j as int),
    ;
}

/// Whether row `i` comes before row `j` in a stable sort.
pub open spec fn sorts_before<T: RankTable>(t: &T, i: int, j: int) -> bool {
    t.ranks_before(i, j) || (!t.ranks_before(j, i) && i < j)
}

/// Whether `order` lists rows in ascending order of rank, ties by position.
pub open spec fn ascends<T: RankTable>(t: &T, order: Seq<usize>) -> bool {
    forall|a: int, b: int|
        #![trigger order[a], order[b]]
        0 <= a < b < order.len() ==> sorts_before(t, order[a] as int, order[b] as int)
}

/// Whether `order` lists the positions from `lo` up to `hi`, each once.
pub open spec fn lists_positions(order: Seq<usize>, lo: int, hi: int) -> bool {
    &&& order.len() == hi - lo
    &&& forall|a: int| 0 <= a < order.len() ==> lo <= (#[trigger] order[a]) < hi
    &&& forall|i: usize| lo <= i < hi ==> #[trigger] order.contains(i)
}

/// Whether `order` is the stable sort of the table.
pub open spec fn is_sorted_order<T: RankTable>(t: &T, order: Seq<usize>) -> bool {
    ascends(t, order) && lists_positions(order, 0, t.size() as int)
}

/// The order of a stable sort is transitive.
pub proof fn lemma_sorts_before_transitive<T: RankTable>(t: &T, i: int, j: int, k: int)
    requires
        sorts_before(t, i, j),
        sorts_before(t, j, k),
    ensures
        sorts_before(t, i, k),
{
    t.strict_weak_order(i, j, k);
    t.strict_weak_order(k, j, i);
    t.strict_weak_order(j, i, k);
    t.strict_weak_order(i, k, j);
    t.strict_weak_order(k, i, j);
    t.strict_weak_order(j, k, i);
}

/// Of two different rows exactly one comes first.
pub proof fn lemma_sorts_before_total<T: RankTable>(t: &T, i: int, j: int)
    ensures
        i != j ==> sorts_before(t, i, j) || sorts_before(t, j, i),
        !(sorts_before(t, i, j) && sorts_before(t, j, i)),
{
    t.strict_weak_order(i, j, i);
    t.strict_weak_order(j, i, j);
}

/// Merges two ascending lists, the first of earlier positions than the second.
fn merge<T: RankTable>(t: &T, x: &Vec<usize>, y: &Vec<usize>, Ghost(lo): Ghost<int>, Ghost(mid):
    Ghost<int>, Ghost(hi): Ghost<int>) -> (out: Vec<usize>)
    requires
        t.readable(),
        0 <= lo <= mid <= hi <= t.size(),
        ascends(t, x@),
        ascends(t, y@),
        lists_positions(x@, lo, mid),
        lists_positions(y@, mid, hi),
    ensures
        ascends(t, out@),
        lists_positions(out@, lo, hi),
{
    let mut out: Vec<usize> = Vec::new();
    let mut i: usize = 0;
    let mut j: usize = 0;
    while i < x.len() || j < y.len()
        invariant
            t.readable(),
            0 <= lo <= mid <= hi <= t.size(),
            ascends(t, x@),
            ascends(t, y@),
            lists_positions(x@, lo, mid),
            lists_positions(y@, mid, hi),
            i <= x.len(),
            j <= y.len(),
            out@.len() == i + j,
            ascends(t, out@),
            forall|a: int| 0 <= a < out@.len() ==> lo <= (#[trigger] out@[a]) < hi,
            forall|a: int| 0 <= a < i ==> #[trigger] out@.contains(x@[a]),
            forall|a: int| 0 <= a < j ==> #[trigger] out@.contains(y@[a]),
            forall|a: int, b: int|
                #![trigger out@[a], x@[b]]
                0 <= a < out@.len() && i <= b < x.len() ==> sorts_before(
                    t,
                    out@[a] as int,
                    x@[b] as int,
                ),
            forall|a: int, b: int|
                #![trigger out@[a], y@[b]]
                0 <= a < out@.len() && j <= b < y.len() ==> sorts_before(
                    t,
                    out@[a] as int,
                    y@[b] as int,
                ),
        decreases x.len() + y.len() - i - j,
    {
        let from_left = if j >= y.len() {
            true
        } else if i >= x.len() {
            false
        } else {
            !t.is_before(y[j], x[i])
        };
        let ghost was = out@;
        if from_left {
            let v: usize = x[i];
            proof {
                if j < y.len() {
                    assert(sorts_before(t, v as int, y@[j as int] as int));
                    assert forall|b: int| j <= b < y.len() implies sorts_before(
                        t,
                        v as int,
                        #[trigger] y@[b] as int,
                    ) by {
                        if b > j {
                            lemma_sorts_before_transitive(t, v as int, y@[j as int] as int, y@[b] as int);
                        }
                    }
                }
            }
            out.push(v);
            i += 1;
            proof {
                assert(out@[out@.len() - 1] == v);
            }
        } else {
            let v: usize = y[j];
            proof {
                if i < x.len() {
                    assert(sorts_before(t, v as int, x@[i as int] as int));
                    assert forall|b: int| i <= b < x.len() implies sorts_before(
                        t,
                        v as int,
                        #[trigger] x@[b] as int,
                    ) by {
                        if b > i {
                            lemma_sorts_before_transitive(t, v as int, x@[i as int] as int, x@[b] as int);
                        }
                    }
                }
            }
            out.push(v);
            j += 1;
            proof {
                assert(out@[out@.len() - 1] == v);
            }
        }
        proof {
            assert forall|w: usize| was.contains(w) implies #[trigger] out@.contains(w) by {
                let k = choose|k: int| 0 <= k < was.len() && was[k] == w;
                assert(out@[k] == w);
            }
        }
    }
    assert forall|p: usize| lo <= p < hi implies #[trigger] out@.contains(p) by {
        if p < mid {
            assert(x@.contains(p));
            let k = choose|k: int| 0 <= k < x@.len() && x@[k] == p;
            assert(out@.contains(x@[k]));
        } else {
            assert(y@.contains(p));
            let k = choose|k: int| 0 <= k < y@.len() && y@[k] == p;
            assert(out@.contains(y@[k]));
        }
    }
    out
}

fn sort_positions<T: RankTable>(t: &T, lo: usize, hi: usize) -> (out: Vec<usize>)
    requires
        t.readable(),
        lo <= hi <= t.size(),
    ensures
        ascends(t, out@),
        lists_positions(out@, lo as int, hi as int),
    decreases hi - lo,
{
    if hi - lo <= 1 {
        let mut out: Vec<usize> = Vec::new();
        if lo < hi {
            out.push(lo);
            assert(out@[0] == lo);
            assert(out@.contains(lo));
        }
        return out;
    }
    let mid: usize = lo + (hi - lo) / 2;
    let x = sort_positions(t, lo, mid);
    let y = sort_positions(t, mid, hi);
    merge(t, &x, &y, Ghost(lo as int), Ghost(mid as int), Ghost(hi as int))
}

/// The stable sort of a table's rows, as their positions.
pub fn sorted_order<T: RankTable>(t: &T) -> (order: Vec<usize>)
    requires
        t.readable(),
    ensures
        is_sorted_order(t, order@),
{
    let n: usize = t.count();
    sort_positions(t, 0, n)
}

/// A table has one stable sort only.
pub proof fn lemma_sorted_order_unique<T: RankTable>(t: &T, p: Seq<usize>, q: Seq<usize>)
    requires
        is_sorted_order(t, p),
        is_sorted_order(t, q),
    ensures
        p == q,
{
    assert(p.len() == q.len());
    lemma_sorted_orders_agree(t, p, q, p.len() as int);
    assert(p =~= q);
}

/// Two stable sorts agree on their first `n` positions.
proof fn lemma_sorted_orders_agree<T: RankTable>(t: &T, p: Seq<usize>, q: Seq<usize>, n: int)
    requires
        is_sorted_order(t, p),
        is_sorted_order(t, q),
        0 <= n <= p.len(),
    ensures
        forall|k: int| 0 <= k < n ==> p[k] == q[k],
    decreases n,
{
    if n > 0 {
        lemma_sorted_orders_agree(t, p, q, n - 1);
        let m = n - 1;
        if p[m] != q[m] {
            lemma_next_comes_first(t, p, q, m);
            lemma_next_comes_first(t, q, p, m);
            lemma_sorts_before_total(t, p[m] as int, q[m] as int);
        }
    }
}

/// Where two stable sorts first differ, the next row of one comes before the next row of the other.
proof fn lemma_next_comes_first<T: RankTable>(t: &T, p: Seq<usize>, q: Seq<usize>, m: int)
    requires
        is_sorted_order(t, p),
        is_sorted_order(t, q),
        0 <= m < p.len(),
        forall|k: int| 0 <= k < m ==> p[k] == q[k],
        p[m] != q[m],
    ensures
        sorts_before(t, p[m] as int, q[m] as int),
{
    assert(p.contains(q[m]));
    let k = choose|k: int| 0 <= k < p.len() && p[k] == q[m];
    if k < m {
        assert(q[k] == q[m]);
        lemma_sorts_before_total(t, q[k] as int, q[m] as int);
        assert(sorts_before(t, q[k] as int, q[m] as int));
        t.strict_weak_order(q[m] as int, q[m] as int, q[m] as int);
    }
    assert(k > m);
    assert(sorts_before(t, p[m] as int, p[k] as int));
}

/// Whether positions are all inside a list of `n` and each named once.
pub open spec fn distinct_positions(order: Seq<usize>, n: int) -> bool {
    &&& forall|a: int| 0 <= a < order.len() ==> (#[trigger] order[a]) < n
    &&& forall|a: int, b: int|
        #![trigger order[a], order[b]]
        0 <= a < b < order.len() ==> order[a] != order[b]
}

/// What stands at the positions given, in that order.
pub open spec fn picked<T>(rows: Seq<T>, order: Seq<usize>) -> Seq<T> {
    Seq::new(order.len(), |a: int| rows[order[a] as int])
}

/// A stable sort names every position once.
pub proof fn lemma_sorted_order_distinct<T: RankTable>(t: &T, order: Seq<usize>)
    requires
        is_sorted_order(t, order),
    ensures
        distinct_positions(order, t.size() as int),
{
    assert forall|a: int, b: int|
        #![trigger order[a], order[b]]
        0 <= a < b < order.len() implies order[a] != order[b] by {
        assert(sorts_before(t, order[a] as int, order[b] as int));
        t.strict_weak_order(order[a] as int, order[a] as int, order[a] as int);
    }
}

/// Takes the items at the positions given, in that order; the others are dropped.
pub fn pick<T>(rows: Vec<T>, order: &Vec<usize>) -> (out: Vec<T>)
    requires
        distinct_positions(order@, rows@.len() as int),
    ensures
        out@ == picked(rows@, order@),
{
    let ghost all = rows@;
    let mut slots: Vec<Option<T>> = Vec::new();
    let mut rest = rows;
    let n: usize = rest.len();
    let mut back: Vec<Option<T>> = Vec::new();
    while rest.len() > 0
        invariant
            n == all.len(),
            rest@.len() + back@.len() == n,
            rest@ == all.take(rest@.len() as int),
            forall|i: int|
                0 <= i < back@.len() ==> #[trigger] back@[i] == Some(all[n - 1 - i]),
        decreases rest.len(),
    {
        let ghost m = rest@.len();
        let item = rest.pop();
        assert(rest@ =~= all.take(m - 1));
        back.push(item);
    }
    while back.len() > 0
        invariant
            n == all.len(),
            slots@.len() + back@.len() == n,
            forall|i: int|
                0 <= i < back@.len() ==> #[trigger] back@[i] == Some(all[n - 1 - i]),
            forall|i: int| 0 <= i < slots@.len() ==> #[trigger] slots@[i] == Some(all[i]),
        decreases back.len(),
    {
        match back.pop() {
            Some(slot) => {
                slots.push(slot);
            },
            None => {},
        }
    }
    let mut out: Vec<T> = Vec::new();
    let mut a: usize = 0;
    while a < order.len()
        invariant
            n == all.len(),
            slots@.len() == n,
            a <= order@.len(),
            distinct_positions(order@, n as int),
            out@.len() == a,
            forall|b: int| 0 <= b < a ==> #[trigger] out@[b] == all[order@[b] as int],
            forall|b: int|
                a <= b < order@.len() ==> slots@[#[trigger] order@[b] as int] == Some(
                    all[order@[b] as int],
                ),
        decreases order.len() - a,
    {
        let i: usize = order[a];
        let slot = slots[i].take();
        match slot {
            Some(item) => {
                out.push(item);
            },
            None => {
                assert(false);
            },
        }
        a += 1;
    }
    assert(out@ =~= picked(all, order@));
    out
}

} // verus!
