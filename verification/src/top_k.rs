//! Ordered pages: what may be dropped early without changing a page.
//!
//! Items are ranked by a strict weak order and delivered in that order, ties as they stand. A page
//! is the head of that delivery. Dropping what does not make the page, before more items arrive,
//! changes no page.

use crate::filter::first;
use crate::sort::{lists_positions, picked};
use vstd::prelude::*;

verus! {

/// Whether a ranking is a strict weak order.
pub open spec fn weak_order<T>(before: spec_fn(T, T) -> bool) -> bool {
    &&& forall|a: T| !#[trigger] before(a, a)
    &&& forall|a: T, b: T, c: T|
        #![trigger before(a, b), before(b, c)]
        before(a, b) && before(b, c) ==> before(a, c)
    &&& forall|a: T, b: T, c: T|
        #![trigger before(a, b), before(b, c)]
        !before(a, b) && !before(b, c) ==> !before(a, c)
}

/// An ordered list with one more item, behind those of its rank.
pub open spec fn placed<T>(s: Seq<T>, x: T, before: spec_fn(T, T) -> bool) -> Seq<T>
    decreases s.len(),
{
    if s.len() == 0 {
        seq![x]
    } else if before(x, s.last()) {
        placed(s.drop_last(), x, before).push(s.last())
    } else {
        s.push(x)
    }
}

/// A list in the order of delivery: by rank, ties as they stand.
pub open spec fn ordered<T>(s: Seq<T>, before: spec_fn(T, T) -> bool) -> Seq<T>
    decreases s.len(),
{
    if s.len() == 0 {
        seq![]
    } else {
        placed(ordered(s.drop_last(), before), s.last(), before)
    }
}

/// Whether a list is in the order of delivery.
pub open spec fn is_ordered<T>(s: Seq<T>, before: spec_fn(T, T) -> bool) -> bool {
    forall|i: int, j: int|
        #![trigger s[i], s[j]]
        0 <= i < j < s.len() ==> !before(s[j], s[i])
}

/// Where an item is placed: behind every item it does not rank before.
spec fn split_at<T>(s: Seq<T>, x: T, before: spec_fn(T, T) -> bool, p: int) -> bool {
    &&& 0 <= p <= s.len()
    &&& forall|i: int| 0 <= i < p ==> !before(x, #[trigger] s[i])
    &&& forall|i: int| p <= i < s.len() ==> before(x, #[trigger] s[i])
}

proof fn lemma_placed_at<T>(s: Seq<T>, x: T, before: spec_fn(T, T) -> bool, p: int)
    requires
        split_at(s, x, before, p),
    ensures
        placed(s, x, before) == s.take(p).push(x) + s.skip(p),
    decreases s.len(),
{
    if s.len() == 0 {
        assert(placed(s, x, before) =~= s.take(p).push(x) + s.skip(p));
    } else if p < s.len() {
        assert(before(x, s.last()));
        let t = s.drop_last();
        assert forall|i: int| p <= i < t.len() implies before(x, #[trigger] t[i]) by {
            assert(t[i] == s[i]);
        }
        assert forall|i: int| 0 <= i < p implies !before(x, #[trigger] t[i]) by {
            assert(t[i] == s[i]);
        }
        lemma_placed_at(t, x, before, p);
        assert((t.take(p).push(x) + t.skip(p)).push(s.last()) =~= s.take(p).push(x) + s.skip(p));
    } else {
        assert(!before(x, s[s.len() - 1]));
        assert(s.push(x) =~= s.take(p).push(x) + s.skip(p));
    }
}

proof fn lemma_split_exists<T>(s: Seq<T>, x: T, before: spec_fn(T, T) -> bool) -> (p: int)
    requires
        weak_order(before),
        is_ordered(s, before),
    ensures
        split_at(s, x, before, p),
    decreases s.len(),
{
    if s.len() == 0 {
        0
    } else if before(x, s.last()) {
        let t = s.drop_last();
        assert forall|i: int, j: int|
            #![trigger t[i], t[j]]
            0 <= i < j < t.len() implies !before(t[j], t[i]) by {
            assert(t[i] == s[i] && t[j] == s[j]);
        }
        let p = lemma_split_exists(t, x, before);
        assert forall|i: int| 0 <= i < p implies !before(x, #[trigger] s[i]) by {
            assert(t[i] == s[i]);
        }
        assert forall|i: int| p <= i < s.len() implies before(x, #[trigger] s[i]) by {
            if i < t.len() {
                assert(t[i] == s[i]);
            }
        }
        p
    } else {
        let n = s.len() as int;
        assert forall|i: int| 0 <= i < n implies !before(x, #[trigger] s[i]) by {
            if i < n - 1 {
                assert(!before(s[n - 1], s[i]));
                assert(!before(x, s[n - 1]));
            }
        }
        n
    }
}

proof fn lemma_placed_ordered<T>(s: Seq<T>, x: T, before: spec_fn(T, T) -> bool)
    requires
        weak_order(before),
        is_ordered(s, before),
    ensures
        is_ordered(placed(s, x, before), before),
        placed(s, x, before).len() == s.len() + 1,
{
    let p = lemma_split_exists(s, x, before);
    lemma_placed_at(s, x, before, p);
    let t = placed(s, x, before);
    assert forall|i: int, j: int|
        #![trigger t[i], t[j]]
        0 <= i < j < t.len() implies !before(t[j], t[i]) by {
        let a = if i < p {
            s[i]
        } else if i == p {
            x
        } else {
            s[i - 1]
        };
        let b = if j < p {
            s[j]
        } else if j == p {
            x
        } else {
            s[j - 1]
        };
        assert(t[i] == a && t[j] == b);
        if i == p {
            assert(before(x, s[j - 1]));
            assert(!before(x, x));
        } else if j == p {
            assert(!before(x, s[i]));
        }
    }
}

/// An ordered list is in the order of delivery, and as long.
pub proof fn lemma_ordered<T>(s: Seq<T>, before: spec_fn(T, T) -> bool)
    requires
        weak_order(before),
    ensures
        is_ordered(ordered(s, before), before),
        ordered(s, before).len() == s.len(),
    decreases s.len(),
{
    if s.len() > 0 {
        lemma_ordered(s.drop_last(), before);
        lemma_placed_ordered(ordered(s.drop_last(), before), s.last(), before);
    }
}

/// Ordering changes nothing in a list that is in the order of delivery.
pub proof fn lemma_ordered_of_ordered<T>(s: Seq<T>, before: spec_fn(T, T) -> bool)
    requires
        is_ordered(s, before),
    ensures
        ordered(s, before) == s,
    decreases s.len(),
{
    if s.len() > 0 {
        let t = s.drop_last();
        assert forall|i: int, j: int|
            #![trigger t[i], t[j]]
            0 <= i < j < t.len() implies !before(t[j], t[i]) by {
            assert(t[i] == s[i] && t[j] == s[j]);
        }
        lemma_ordered_of_ordered(t, before);
        if t.len() > 0 {
            assert(t.last() == s[s.len() - 2]);
            assert(!before(s[s.len() - 1], s[s.len() - 2]));
        }
        assert(placed(t, s.last(), before) =~= s);
    } else {
        assert(ordered(s, before) =~= s);
    }
}

proof fn lemma_first_ordered<T>(s: Seq<T>, n: nat, before: spec_fn(T, T) -> bool)
    requires
        is_ordered(s, before),
    ensures
        is_ordered(first(s, n), before),
{
    let t = first(s, n);
    assert forall|i: int, j: int|
        #![trigger t[i], t[j]]
        0 <= i < j < t.len() implies !before(t[j], t[i]) by {
        assert(t[i] == s[i] && t[j] == s[j]);
    }
}

/// The head of a list with one more item depends on the head of the list alone.
proof fn lemma_head_of_placed<T>(
    s: Seq<T>,
    t: Seq<T>,
    x: T,
    n: nat,
    before: spec_fn(T, T) -> bool,
)
    requires
        weak_order(before),
        is_ordered(s, before),
        is_ordered(t, before),
        first(s, n) == first(t, n),
    ensures
        first(placed(s, x, before), n) == first(placed(t, x, before), n),
{
    let p = lemma_split_exists(s, x, before);
    let q = lemma_split_exists(t, x, before);
    lemma_placed_at(s, x, before, p);
    lemma_placed_at(t, x, before, q);
    let a = placed(s, x, before);
    let b = placed(t, x, before);
    let f = first(s, n);
    assert(f.len() == first(t, n).len());
    assert forall|i: int| 0 <= i < f.len() implies s[i] == t[i] by {
        assert(first(s, n)[i] == s[i]);
        assert(first(t, n)[i] == t[i]);
    }
    // The two places agree below the head's length.
    if p < q && p < f.len() {
        assert(before(x, s[p]));
        assert(!before(x, t[p]));
    }
    if q < p && q < f.len() {
        assert(before(x, t[q]));
        assert(!before(x, s[q]));
    }
    let u = first(a, n);
    let v = first(b, n);
    if s.len() < n {
        assert(f == s);
        if t.len() >= n {
            assert(first(t, n).len() == n);
        }
        assert(s =~= t);
    } else {
        assert(t.len() >= n);
        assert(u.len() == n && v.len() == n);
        assert forall|i: int| 0 <= i < n implies u[i] == v[i] by {
            assert(u[i] == a[i] && v[i] == b[i]);
            if i < p && i < q {
                assert(a[i] == s[i] && b[i] == t[i]);
            } else {
                assert(p == q);
                if i > p {
                    assert(a[i] == s[i - 1] && b[i] == t[i - 1]);
                }
            }
        }
        assert(u =~= v);
    }
}

/// The head of a longer list depends on the head of what stood before alone.
pub proof fn lemma_head_of_longer<T>(
    s: Seq<T>,
    t: Seq<T>,
    more: Seq<T>,
    n: nat,
    before: spec_fn(T, T) -> bool,
)
    requires
        weak_order(before),
        first(ordered(s, before), n) == first(ordered(t, before), n),
    ensures
        first(ordered(s + more, before), n) == first(ordered(t + more, before), n),
    decreases more.len(),
{
    if more.len() == 0 {
        assert(s + more =~= s);
        assert(t + more =~= t);
    } else {
        let m = more.drop_last();
        lemma_head_of_longer(s, t, m, n, before);
        assert((s + more).drop_last() =~= s + m);
        assert((t + more).drop_last() =~= t + m);
        assert((s + more).last() == more.last());
        assert((t + more).last() == more.last());
        lemma_ordered(s + m, before);
        lemma_ordered(t + m, before);
        lemma_head_of_placed(
            ordered(s + m, before),
            ordered(t + m, before),
            more.last(),
            n,
            before,
        );
    }
}

/// Keeping the best `keep` of a list changes no page of `n`, whatever comes after, where `keep` is
/// no less than `n`.
pub proof fn lemma_trim_changes_no_page<T>(
    all: Seq<T>,
    keep: nat,
    n: nat,
    before: spec_fn(T, T) -> bool,
)
    requires
        weak_order(before),
        n <= keep,
    ensures
        first(ordered(first(ordered(all, before), keep), before), n) == first(
            ordered(all, before),
            n,
        ),
{
    lemma_ordered(all, before);
    let s = ordered(all, before);
    lemma_first_ordered(s, keep, before);
    lemma_ordered_of_ordered(first(s, keep), before);
    assert(first(first(s, keep), n) =~= first(s, n));
}

/// Whether `order` lists the positions of `s` in the order of delivery.
pub open spec fn delivers<T>(s: Seq<T>, before: spec_fn(T, T) -> bool, order: Seq<usize>) -> bool {
    &&& lists_positions(order, 0, s.len() as int)
    &&& forall|a: int, b: int|
        #![trigger order[a], order[b]]
        0 <= a < b < order.len() ==> before(s[order[a] as int], s[order[b] as int]) || (!before(
            s[order[b] as int],
            s[order[a] as int],
        ) && order[a] < order[b])
}

proof fn lemma_position_once(order: Seq<usize>, n: int, p: int)
    requires
        lists_positions(order, 0, n),
        0 <= p < order.len(),
        forall|a: int, b: int|
            #![trigger order[a], order[b]]
            0 <= a < b < order.len() ==> order[a] != order[b],
        order[p] == n - 1,
    ensures
        lists_positions(order.remove(p), 0, n - 1),
{
    let rest = order.remove(p);
    assert forall|a: int| 0 <= a < rest.len() implies 0 <= (#[trigger] rest[a]) < n - 1 by {
        let k = if a < p {
            a
        } else {
            a + 1
        };
        assert(rest[a] == order[k]);
        if k < p {
            assert(order[k] != order[p]);
        } else {
            assert(order[p] != order[k]);
        }
    }
    assert forall|i: usize| 0 <= i < n - 1 implies #[trigger] rest.contains(i) by {
        assert(order.contains(i));
        let k = choose|k: int| 0 <= k < order.len() && order[k] == i;
        if k < p {
            assert(rest[k] == i);
        } else {
            assert(k > p);
            assert(rest[k - 1] == i);
        }
    }
}

/// Picking the positions of a list in the order of delivery gives the ordered list.
pub proof fn lemma_delivers<T>(s: Seq<T>, before: spec_fn(T, T) -> bool, order: Seq<usize>)
    requires
        weak_order(before),
        delivers(s, before, order),
        s.len() <= usize::MAX,
    ensures
        picked(s, order) == ordered(s, before),
    decreases s.len(),
{
    if s.len() == 0 {
        assert(picked(s, order) =~= ordered(s, before));
    } else {
        let n = s.len() as int;
        let t = s.drop_last();
        let x = s.last();
        assert(order.contains((n - 1) as usize));
        let p = choose|p: int| 0 <= p < order.len() && order[p] == (n - 1) as usize;
        let rest = order.remove(p);
        assert forall|a: int, b: int|
            #![trigger order[a], order[b]]
            0 <= a < b < order.len() implies order[a] != order[b] by {
            assert(!before(s[order[a] as int], s[order[a] as int]));
        }
        lemma_position_once(order, n, p);
        let at = |a: int|
            if a < p {
                a
            } else {
                a + 1
            };
        assert forall|a: int, b: int|
            #![trigger rest[a], rest[b]]
            0 <= a < b < rest.len() implies before(t[rest[a] as int], t[rest[b] as int]) || (
        !before(t[rest[b] as int], t[rest[a] as int]) && rest[a] < rest[b]) by {
            assert(rest[a] == order[at(a)] && rest[b] == order[at(b)]);
            assert(0 <= rest[a] < n - 1 && 0 <= rest[b] < n - 1);
            assert(t[rest[a] as int] == s[rest[a] as int]);
            assert(t[rest[b] as int] == s[rest[b] as int]);
        }
        lemma_delivers(t, before, rest);
        let u = picked(t, rest);
        assert forall|i: int| 0 <= i < u.len() implies u[i] == s[order[at(i)] as int] by {
            assert(rest[i] == order[at(i)]);
            assert(0 <= rest[i] < n - 1);
        }
        assert(split_at(u, x, before, p)) by {
            assert forall|i: int| 0 <= i < p implies !before(x, #[trigger] u[i]) by {
                assert(u[i] == s[order[i] as int]);
                let a = s[order[i] as int];
                assert(before(a, s[order[p] as int]) || !before(s[order[p] as int], a));
                if before(a, x) && before(x, a) {
                    assert(before(a, a));
                }
            }
            assert forall|i: int| p <= i < u.len() implies before(x, #[trigger] u[i]) by {
                assert(u[i] == s[order[i + 1] as int]);
                assert(rest[i] == order[i + 1]);
                assert(order[p] != order[i + 1]);
            }
        }
        lemma_placed_at(u, x, before, p);
        let v = picked(s, order);
        assert forall|i: int| 0 <= i < v.len() implies v[i] == (u.take(p).push(x) + u.skip(p))[i] by {
            if i < p {
                assert(u[i] == s[order[i] as int]);
            } else if i > p {
                assert(u[i - 1] == s[order[i] as int]);
            }
        }
        assert(v =~= u.take(p).push(x) + u.skip(p));
    }
}


// ───────────────────────────── order of arrival ─────────────────────────────

/// Whether no item of one list ties with an item of the other.
pub open spec fn no_ties<T>(s: Seq<T>, t: Seq<T>, before: spec_fn(T, T) -> bool) -> bool {
    forall|i: int, j: int|
        #![trigger s[i], t[j]]
        0 <= i < s.len() && 0 <= j < t.len() ==> before(s[i], t[j]) || before(t[j], s[i])
}

proof fn lemma_placed_commutes<T>(s: Seq<T>, x: T, y: T, before: spec_fn(T, T) -> bool)
    requires
        weak_order(before),
        is_ordered(s, before),
        before(x, y),
    ensures
        placed(placed(s, x, before), y, before) == placed(placed(s, y, before), x, before),
{
    let p = lemma_split_exists(s, x, before);
    let q = lemma_split_exists(s, y, before);
    if q < p {
        assert(before(y, s[q]));
        assert(!before(x, s[q]));
        assert(before(x, s[q]));
    }
    lemma_placed_at(s, x, before, p);
    lemma_placed_at(s, y, before, q);
    let a = placed(s, x, before);
    let b = placed(s, y, before);
    assert(split_at(a, y, before, q + 1)) by {
        assert forall|i: int| 0 <= i < q + 1 implies !before(y, #[trigger] a[i]) by {
            if i < p {
                assert(a[i] == s[i]);
            } else if i == p {
                assert(a[i] == x);
                assert(!before(x, x));
            } else {
                assert(a[i] == s[i - 1]);
            }
        }
        assert forall|i: int| q + 1 <= i < a.len() implies before(y, #[trigger] a[i]) by {
            assert(a[i] == s[i - 1]);
        }
    }
    assert(split_at(b, x, before, p)) by {
        assert forall|i: int| 0 <= i < p implies !before(x, #[trigger] b[i]) by {
            assert(b[i] == s[i]);
        }
        assert forall|i: int| p <= i < b.len() implies before(x, #[trigger] b[i]) by {
            if i < q {
                assert(b[i] == s[i]);
            } else if i == q {
                assert(b[i] == y);
            } else {
                assert(b[i] == s[i - 1]);
            }
        }
    }
    lemma_placed_at(a, y, before, q + 1);
    lemma_placed_at(b, x, before, p);
    assert(a.take(q + 1).push(y) + a.skip(q + 1) =~= b.take(p).push(x) + b.skip(p));
}

/// An item that ties with none of the last items may as well have come before them.
proof fn lemma_item_moves_up<T>(s: Seq<T>, t: Seq<T>, x: T, before: spec_fn(T, T) -> bool)
    requires
        weak_order(before),
        no_ties(seq![x], t, before),
    ensures
        ordered((s + t).push(x), before) == ordered(s.push(x) + t, before),
    decreases t.len(),
{
    if t.len() == 0 {
        assert((s + t).push(x) =~= s.push(x) + t);
    } else {
        let u = t.drop_last();
        let y = t.last();
        assert(no_ties(seq![x], u, before)) by {
            assert forall|i: int, j: int|
                #![trigger seq![x][i], u[j]]
                0 <= i < 1 && 0 <= j < u.len() implies before(seq![x][i], u[j]) || before(
                u[j],
                seq![x][i],
            ) by {
                assert(u[j] == t[j]);
                assert(seq![x][0] == x);
            }
        }
        lemma_item_moves_up(s, u, x, before);
        let base = ordered(s + u, before);
        lemma_ordered(s + u, before);
        assert((s + t).push(x).drop_last() =~= s + t);
        assert((s + t).drop_last() =~= s + u);
        assert((s + t).last() == y);
        assert((s + u).push(x).drop_last() =~= s + u);
        assert((s.push(x) + t).drop_last() =~= s.push(x) + u);
        assert((s.push(x) + t).last() == y);
        assert(seq![x][0] == x && t[t.len() - 1] == y);
        assert(before(x, y) || before(y, x));
        assert(ordered(s + t, before) == placed(base, y, before));
        assert((s + t).push(x).last() == x);
        assert(ordered((s + t).push(x), before) == placed(placed(base, y, before), x, before));
        assert((s + u).push(x).last() == x);
        assert(ordered((s + u).push(x), before) == placed(base, x, before));
        assert(ordered(s.push(x) + t, before) == placed(placed(base, x, before), y, before));
        if before(x, y) {
            lemma_placed_commutes(base, x, y, before);
        } else {
            lemma_placed_commutes(base, y, x, before);
        }
    }
}

/// Of two lists that do not tie, either may come first.
pub proof fn lemma_lists_commute<T>(s: Seq<T>, t: Seq<T>, before: spec_fn(T, T) -> bool)
    requires
        weak_order(before),
        no_ties(s, t, before),
    ensures
        ordered(s + t, before) == ordered(t + s, before),
    decreases s.len(),
{
    if s.len() == 0 {
        assert(s + t =~= t);
        assert(t + s =~= t);
    } else {
        let u = s.drop_last();
        let x = s.last();
        assert(no_ties(u, t, before)) by {
            assert forall|i: int, j: int|
                #![trigger u[i], t[j]]
                0 <= i < u.len() && 0 <= j < t.len() implies before(u[i], t[j]) || before(
                t[j],
                u[i],
            ) by {
                assert(u[i] == s[i]);
            }
        }
        assert(no_ties(seq![x], t, before)) by {
            assert forall|i: int, j: int|
                #![trigger seq![x][i], t[j]]
                0 <= i < 1 && 0 <= j < t.len() implies before(seq![x][i], t[j]) || before(
                t[j],
                seq![x][i],
            ) by {
                assert(seq![x][0] == x && s[s.len() - 1] == x);
            }
        }
        lemma_lists_commute(u, t, before);
        lemma_item_moves_up(u, t, x, before);
        assert(u.push(x) =~= s);
        assert((t + s).drop_last() =~= t + u);
        assert((t + s).last() == x);
        assert((u + t).push(x).drop_last() =~= u + t);
    }
}

/// A list may be trimmed before it arrives: keeping the best `keep` of what arrives changes no page
/// of `n`, where it does not tie with what stood before and `keep` is no less than `n`.
pub proof fn lemma_arrivals_trimmed<T>(
    s: Seq<T>,
    all: Seq<T>,
    more: Seq<T>,
    keep: nat,
    n: nat,
    before: spec_fn(T, T) -> bool,
)
    requires
        weak_order(before),
        n <= keep,
        first(ordered(s, before), n) == first(ordered(all, before), n),
        no_ties(s, more, before),
        no_ties(s, first(ordered(more, before), keep), before),
    ensures
        first(ordered(s + first(ordered(more, before), keep), before), n) == first(
            ordered(all + more, before),
            n,
        ),
{
    let best = first(ordered(more, before), keep);
    lemma_trim_changes_no_page(more, keep, n, before);
    lemma_head_of_longer(best, more, s, n, before);
    lemma_lists_commute(s, best, before);
    lemma_lists_commute(s, more, before);
    lemma_head_of_longer(s, all, more, n, before);
}

/// Items of an ordered list are items of the list.
pub proof fn lemma_ordered_members<T>(s: Seq<T>, before: spec_fn(T, T) -> bool, i: int)
    requires
        0 <= i < ordered(s, before).len(),
    ensures
        s.contains(ordered(s, before)[i]),
    decreases s.len(),
{
    if s.len() > 0 {
        let t = s.drop_last();
        let x = s.last();
        lemma_placed_members(ordered(t, before), x, before, i);
        let y = ordered(s, before)[i];
        if y == x {
            assert(s[s.len() - 1] == x);
        } else {
            let u = ordered(t, before);
            let k = choose|k: int| 0 <= k < u.len() && u[k] == y;
            lemma_ordered_members(t, before, k);
            let j = choose|j: int| 0 <= j < t.len() && t[j] == y;
            assert(s[j] == y);
        }
    }
}

proof fn lemma_placed_members<T>(s: Seq<T>, x: T, before: spec_fn(T, T) -> bool, i: int)
    requires
        0 <= i < placed(s, x, before).len(),
    ensures
        placed(s, x, before)[i] == x || s.contains(placed(s, x, before)[i]),
    decreases s.len(),
{
    let p = placed(s, x, before);
    if s.len() > 0 {
        if before(x, s.last()) {
            let t = s.drop_last();
            if i < p.len() - 1 {
                lemma_placed_members(t, x, before, i);
                assert(p[i] == placed(t, x, before)[i]);
                if p[i] != x {
                    let k = choose|k: int| 0 <= k < t.len() && t[k] == p[i];
                    assert(s[k] == p[i]);
                }
            } else {
                assert(p[i] == s[s.len() - 1]);
            }
        } else if i < s.len() {
            assert(p[i] == s[i]);
        }
    }
}

} // verus!
