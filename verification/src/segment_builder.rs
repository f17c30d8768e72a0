//! Building a segment from an indexed file: emitting rows, then linking nodes to their
//! neighbours.

use crate::fields::is_posting_field;
use crate::segment::{
    contains_text, extra_from, extra_of, lists_text, NamePrefixIndex, SegmentReader, SegmentRow,
    ZoneMap, NO_ORDINAL,
};
use crate::sort::{
    distinct_positions, is_sorted_order, lemma_sorted_order_distinct, sorted_order, sorts_before,
    RankTable,
};
use crate::text::same_text;
use std::collections::HashMap;
use vstd::prelude::*;
use vstd::string::*;

verus! {

broadcast use vstd::std_specs::hash::group_hash_axioms;

// ───────────────────────────── navigation ─────────────────────────────

/// A node of a file: its number, and the number of the node around it.
#[derive(Clone, Copy, Debug, PartialEq, Eq, Structural)]
pub struct NavNode {
    pub ordinal: u32,
    pub parent: u32,
}

/// The neighbours of a node, by number; `NO_ORDINAL` where there is none.
#[derive(Clone, Copy, Debug, PartialEq, Eq, Structural)]
pub struct NavLinks {
    pub first_child: u32,
    pub prev_sibling: u32,
    pub next_sibling: u32,
}

/// Whether node `a` comes before its sibling `b`: by number, then by position.
pub open spec fn precedes(nodes: Seq<NavNode>, a: int, b: int) -> bool {
    &&& nodes[a].parent == nodes[b].parent
    &&& nodes[a].ordinal < nodes[b].ordinal || (nodes[a].ordinal == nodes[b].ordinal && a < b)
}

/// Whether `b` is the next sibling of `a`.
pub open spec fn is_next(nodes: Seq<NavNode>, a: int, b: int) -> bool {
    &&& 0 <= b < nodes.len()
    &&& precedes(nodes, a, b)
    &&& forall|c: int|
        0 <= c < nodes.len() && #[trigger] precedes(nodes, a, c) ==> c == b || precedes(nodes, b, c)
}

/// Whether `value` is the number of the next sibling of `a`.
pub open spec fn links_next(nodes: Seq<NavNode>, a: int, value: u32) -> bool {
    if exists|b: int| #[trigger] is_next(nodes, a, b) {
        exists|b: int| #[trigger] is_next(nodes, a, b) && value == nodes[b].ordinal
    } else {
        value == NO_ORDINAL
    }
}

/// Whether `value` is the number of the previous sibling of `a`.
pub open spec fn links_prev(nodes: Seq<NavNode>, a: int, value: u32) -> bool {
    if exists|b: int| 0 <= b < nodes.len() && #[trigger] is_next(nodes, b, a) {
        exists|b: int|
            0 <= b < nodes.len() && #[trigger] is_next(nodes, b, a) && value == nodes[b].ordinal
    } else {
        value == NO_ORDINAL
    }
}

/// Whether `p` is the last node that carries its number.
pub open spec fn owns_ordinal(nodes: Seq<NavNode>, p: int) -> bool {
    forall|q: int| p < q < nodes.len() ==> (#[trigger] nodes[q]).ordinal != nodes[p].ordinal
}

/// Whether `c` is the first child of the number `ordinal`.
pub open spec fn is_first_child(nodes: Seq<NavNode>, ordinal: u32, c: int) -> bool {
    &&& 0 <= c < nodes.len()
    &&& nodes[c].parent == ordinal
    &&& forall|d: int|
        0 <= d < nodes.len() && d != c && (#[trigger] nodes[d]).parent == ordinal ==> precedes(
            nodes,
            c,
            d,
        )
}

/// Whether `value` is the number of the first child of `p`.
pub open spec fn links_first_child(nodes: Seq<NavNode>, p: int, value: u32) -> bool {
    if owns_ordinal(nodes, p) && (exists|c: int| #[trigger]
        is_first_child(nodes, nodes[p].ordinal, c)) {
        exists|c: int| #[trigger]
            is_first_child(nodes, nodes[p].ordinal, c) && value == nodes[c].ordinal
    } else {
        value == NO_ORDINAL
    }
}

/// Whether `links` are the neighbours of the nodes.
pub open spec fn are_links(nodes: Seq<NavNode>, links: Seq<NavLinks>) -> bool {
    &&& links.len() == nodes.len()
    &&& forall|a: int|
        #![trigger links[a]]
        0 <= a < nodes.len() ==> links_next(nodes, a, links[a].next_sibling) && links_prev(
            nodes,
            a,
            links[a].prev_sibling,
        ) && links_first_child(nodes, a, links[a].first_child)
}

/// The nodes of a file, ranked by parent and then by number.
pub struct NodesByParent<'a> {
    pub nodes: &'a Vec<NavNode>,
}

impl<'a> RankTable for NodesByParent<'a> {
    open spec fn size(&self) -> nat {
        self.nodes@.len()
    }

    open spec fn readable(&self) -> bool {
        true
    }

    open spec fn ranks_before(&self, i: int, j: int) -> bool {
        let (a, b) = (self.nodes@[i], self.nodes@[j]);
        a.parent < b.parent || (a.parent == b.parent && a.ordinal < b.ordinal)
    }

    proof fn strict_weak_order(&self, i: int, j: int, k: int) {
    }

    fn count(&self) -> (n: usize) {
        self.nodes.len()
    }

    fn is_before(&self, i: usize, j: usize) -> (r: bool) {
        let (a, b) = (self.nodes[i], self.nodes[j]);
        a.parent < b.parent || (a.parent == b.parent && a.ordinal < b.ordinal)
    }
}

/// Where a node stands in the sorted order.
proof fn lemma_position(t: &NodesByParent<'_>, order: Seq<usize>, c: int) -> (k: int)
    requires
        is_sorted_order(t, order),
        0 <= c < t.size(),
        t.size() <= usize::MAX,
    ensures
        0 <= k < order.len(),
        order[k] == c,
{
    assert(order.contains(c as usize));
    choose|k: int| 0 <= k < order.len() && order[k] == c as usize
}

/// Siblings precede each other as they stand in the sorted order.
proof fn lemma_precedes_sorted(t: &NodesByParent<'_>, order: Seq<usize>, j: int, k: int)
    requires
        is_sorted_order(t, order),
        0 <= j < order.len(),
        0 <= k < order.len(),
        j != k,
        t.nodes@[order[j] as int].parent == t.nodes@[order[k] as int].parent,
    ensures
        precedes(t.nodes@, order[j] as int, order[k] as int) <==> j < k,
{
    if j < k {
        assert(sorts_before(t, order[j] as int, order[k] as int));
    } else {
        assert(sorts_before(t, order[k] as int, order[j] as int));
    }
}

/// In the sorted order, a sibling that follows directly is the next sibling.
proof fn lemma_adjacent_is_next(t: &NodesByParent<'_>, order: Seq<usize>, k: int)
    requires
        is_sorted_order(t, order),
        t.size() <= usize::MAX,
        0 <= k < order.len(),
    ensures
        (k + 1 < order.len() && t.nodes@[order[k] as int].parent == t.nodes@[order[k
            + 1] as int].parent) ==> is_next(t.nodes@, order[k] as int, order[k + 1] as int),
        !(k + 1 < order.len() && t.nodes@[order[k] as int].parent == t.nodes@[order[k
            + 1] as int].parent) ==> forall|b: int|
            0 <= b < t.size() ==> !#[trigger] precedes(t.nodes@, order[k] as int, b),
{
    let nodes = t.nodes@;
    let a = order[k] as int;
    if k + 1 < order.len() && nodes[a].parent == nodes[order[k + 1] as int].parent {
        let b = order[k + 1] as int;
        lemma_precedes_sorted(t, order, k, k + 1);
        assert forall|c: int| 0 <= c < nodes.len() && #[trigger] precedes(nodes, a, c) implies c
            == b || precedes(nodes, b, c) by {
            let m = lemma_position(t, order, c);
            if m != k {
                lemma_precedes_sorted(t, order, k, m);
                if m > k + 1 {
                    lemma_precedes_sorted(t, order, k + 1, m);
                }
            }
        }
    } else {
        assert forall|c: int| 0 <= c < t.size() implies !#[trigger] precedes(nodes, a, c) by {
            if precedes(nodes, a, c) {
                let m = lemma_position(t, order, c);
                if m != k {
                    lemma_precedes_sorted(t, order, k, m);
                    if m > k + 1 {
                        assert(sorts_before(t, order[k] as int, order[k + 1] as int));
                        assert(sorts_before(t, order[k + 1] as int, order[m] as int));
                    }
                }
            }
        }
    }
}

/// A node has at most one next sibling, and is that of at most one.
proof fn lemma_next_unique(nodes: Seq<NavNode>, a: int, b: int, x: int, y: int)
    requires
        is_next(nodes, a, x),
        is_next(nodes, b, y),
        0 <= a < nodes.len(),
        0 <= b < nodes.len(),
    ensures
        a == b ==> x == y,
        x == y ==> a == b,
{
    if a == b && x != y {
        assert(precedes(nodes, a, y));
        assert(precedes(nodes, b, x));
    }
    if x == y && a != b {
        assert(nodes[a].parent == nodes[b].parent);
        if precedes(nodes, a, b) {
            assert(b == x || precedes(nodes, x, b));
        } else {
            assert(precedes(nodes, b, a));
            assert(a == y || precedes(nodes, y, a));
        }
    }
}

fn no_links(n: usize) -> (v: Vec<u32>)
    ensures
        v@.len() == n,
        forall|i: int| 0 <= i < n ==> #[trigger] v@[i] == NO_ORDINAL,
{
    let mut v: Vec<u32> = Vec::new();
    let mut i: usize = 0;
    while i < n
        invariant
            i <= n,
            v@.len() == i,
            forall|k: int| 0 <= k < i ==> #[trigger] v@[k] == NO_ORDINAL,
        decreases n - i,
    {
        v.push(NO_ORDINAL);
        i += 1;
    }
    v
}

/// What stands after position `j` of the sorted order, where it is a sibling.
#[verifier::opaque]
spec fn next_in(nodes: Seq<NavNode>, order: Seq<usize>, j: int) -> u32 {
    if j + 1 < order.len() && nodes[order[j] as int].parent == nodes[order[j + 1] as int].parent {
        nodes[order[j + 1] as int].ordinal
    } else {
        NO_ORDINAL
    }
}

/// What stands before position `j` of the sorted order, where it is a sibling.
#[verifier::opaque]
spec fn prev_in(nodes: Seq<NavNode>, order: Seq<usize>, j: int) -> u32 {
    if 0 < j && nodes[order[j] as int].parent == nodes[order[j - 1] as int].parent {
        nodes[order[j - 1] as int].ordinal
    } else {
        NO_ORDINAL
    }
}

proof fn lemma_next_in(nodes: Seq<NavNode>, order: Seq<usize>, j: int)
    ensures
        next_in(nodes, order, j) == (if j + 1 < order.len() && nodes[order[j] as int].parent == nodes[order[j
            + 1] as int].parent {
            nodes[order[j + 1] as int].ordinal
        } else {
            NO_ORDINAL
        }),
{
    reveal(next_in);
}

fn next_siblings(nodes: &Vec<NavNode>, order: &Vec<usize>) -> (next: Vec<u32>)
    requires
        order@.len() == nodes@.len(),
        distinct_positions(order@, nodes@.len() as int),
    ensures
        next@.len() == nodes@.len(),
        forall|j: int|
            0 <= j < order@.len() ==> next@[#[trigger] order@[j] as int] == next_in(
                nodes@,
                order@,
                j,
            ),
{
    let n: usize = nodes.len();
    let mut next = no_links(n);
    let mut k: usize = 0;
    while k < n
        invariant
            n == nodes@.len(),
            order@.len() == n,
            distinct_positions(order@, n as int),
            k <= n,
            next@.len() == n,
            forall|j: int|
                0 <= j < k ==> next@[#[trigger] order@[j] as int] == next_in(nodes@, order@, j),
            forall|j: int| k <= j < n ==> next@[#[trigger] order@[j] as int] == NO_ORDINAL,
        decreases n - k,
    {
        let here: usize = order[k];
        proof {
            lemma_next_in(nodes@, order@, k as int);
        }
        if k < n - 1 && nodes[here].parent == nodes[order[k + 1]].parent {
            next.set(here, nodes[order[k + 1]].ordinal);
        }
        k += 1;
    }
    next
}

proof fn lemma_prev_in(nodes: Seq<NavNode>, order: Seq<usize>, j: int)
    ensures
        prev_in(nodes, order, j) == (if 0 < j && nodes[order[j] as int].parent == nodes[order[j - 1] as int].parent {
            nodes[order[j - 1] as int].ordinal
        } else {
            NO_ORDINAL
        }),
{
    reveal(prev_in);
}

fn prev_siblings(nodes: &Vec<NavNode>, order: &Vec<usize>) -> (prev: Vec<u32>)
    requires
        order@.len() == nodes@.len(),
        distinct_positions(order@, nodes@.len() as int),
    ensures
        prev@.len() == nodes@.len(),
        forall|j: int|
            0 <= j < order@.len() ==> prev@[#[trigger] order@[j] as int] == prev_in(
                nodes@,
                order@,
                j,
            ),
{
    let n: usize = nodes.len();
    let mut prev = no_links(n);
    let mut k: usize = 0;
    while k < n
        invariant
            n == nodes@.len(),
            order@.len() == n,
            distinct_positions(order@, n as int),
            k <= n,
            prev@.len() == n,
            forall|j: int|
                0 <= j < k ==> prev@[#[trigger] order@[j] as int] == prev_in(nodes@, order@, j),
            forall|j: int| k <= j < n ==> prev@[#[trigger] order@[j] as int] == NO_ORDINAL,
        decreases n - k,
    {
        let here: usize = order[k];
        proof {
            lemma_prev_in(nodes@, order@, k as int);
        }
        if k > 0 && nodes[here].parent == nodes[order[k - 1]].parent {
            prev.set(here, nodes[order[k - 1]].ordinal);
        }
        k += 1;
    }
    prev
}

/// Whether `owner` gives every number the last node that carries it, among the first `n`.
spec fn owners(owner: Map<u32, usize>, nodes: Seq<NavNode>, n: int) -> bool {
    &&& forall|o: u32| #[trigger]
        owner.contains_key(o) ==> owner[o] < n && nodes[owner[o] as int].ordinal == o && forall|
            q: int,
        |
            owner[o] < q < n ==> (#[trigger] nodes[q]).ordinal != o
    &&& forall|q: int| 0 <= q < n ==> owner.contains_key((#[trigger] nodes[q]).ordinal)
}

fn find_owners(nodes: &Vec<NavNode>) -> (owner: HashMap<u32, usize>)
    ensures
        owners(owner@, nodes@, nodes@.len() as int),
{
    let mut owner: HashMap<u32, usize> = HashMap::new();
    let mut i: usize = 0;
    while i < nodes.len()
        invariant
            i <= nodes@.len(),
            owners(owner@, nodes@, i as int),
        decreases nodes.len() - i,
    {
        let _ = owner.insert(nodes[i].ordinal, i);
        i += 1;
    }
    owner
}

fn first_children(nodes: &Vec<NavNode>, order: &Vec<usize>) -> (child: Vec<u32>)
    requires
        is_sorted_order(&(NodesByParent { nodes }), order@),
    ensures
        child@.len() == nodes@.len(),
        forall|p: int|
            0 <= p < nodes@.len() ==> first_child_so_far(
                nodes@,
                order@,
                order@.len() as int,
                p,
                #[trigger] child@[p],
            ),
{
    let n: usize = nodes.len();
    let ghost table = NodesByParent { nodes };
    let owner = find_owners(nodes);
    let mut child = no_links(n);
    let mut k: usize = 0;
    while k < n
        invariant
            n == nodes@.len(),
            k <= n,
            table.nodes == nodes,
            is_sorted_order(&table, order@),
            order@.len() == n,
            child@.len() == n,
            owners(owner@, nodes@, n as int),
            forall|p: int|
                0 <= p < n ==> first_child_so_far(
                    nodes@,
                    order@,
                    k as int,
                    p,
                    #[trigger] child@[p],
                ),
        decreases n - k,
    {
        let here: usize = order[k];
        let ghost was = child@;
        if k == 0 || nodes[order[k - 1]].parent != nodes[here].parent {
            match owner.get(&nodes[here].parent) {
                Some(p) => {
                    child.set(*p, nodes[here].ordinal);
                },
                None => {},
            }
        }
        proof {
            let up = nodes@[here as int].parent;
            assert forall|p: int| 0 <= p < n implies child@[p] == (if group_starts(
                nodes@,
                order@,
                k as int,
            ) && owns_ordinal(nodes@, p) && up == nodes@[p].ordinal {
                nodes@[here as int].ordinal
            } else {
                was[p]
            }) by {
                if owner@.contains_key(up) {
                    let o = owner@[up] as int;
                    assert(owns_ordinal(nodes@, o));
                    if p != o && nodes@[p].ordinal == up {
                        if p < o {
                            assert(nodes@[o].ordinal == nodes@[p].ordinal);
                        } else {
                            assert(nodes@[p].ordinal != up);
                        }
                    }
                } else {
                    assert(owner@.contains_key(nodes@[p].ordinal));
                }
            }
            assert forall|p: int| 0 <= p < n implies first_child_so_far(
                nodes@,
                order@,
                k + 1,
                p,
                #[trigger] child@[p],
            ) by {
                assert(first_child_so_far(nodes@, order@, k as int, p, was[p]));
                lemma_group_start_step(&table, order@, k as int, p, was[p], child@[p]);
            }
        }
        k += 1;
    }
    child
}

/// Links every node of a file to its first child and to the siblings on either side.
///
/// Siblings are the nodes with one parent, in ascending order of their numbers, which is the
/// order a walk of the file meets them in.
pub fn link_nodes(nodes: &Vec<NavNode>) -> (links: Vec<NavLinks>)
    ensures
        are_links(nodes@, links@),
{
    let n: usize = nodes.len();
    let table = NodesByParent { nodes };
    let order = sorted_order(&table);
    proof {
        lemma_sorted_order_distinct(&table, order@);
    }
    let next = next_siblings(nodes, &order);
    let prev = prev_siblings(nodes, &order);
    let child = first_children(nodes, &order);
    let mut links: Vec<NavLinks> = Vec::new();
    let mut i: usize = 0;
    while i < n
        invariant
            n == nodes@.len(),
            next@.len() == n,
            prev@.len() == n,
            child@.len() == n,
            i <= n,
            links@.len() == i,
            forall|a: int|
                0 <= a < i ==> (#[trigger] links@[a]).next_sibling == next@[a]
                    && links@[a].prev_sibling == prev@[a] && links@[a].first_child == child@[a],
        decreases n - i,
    {
        links.push(
            NavLinks { first_child: child[i], prev_sibling: prev[i], next_sibling: next[i] },
        );
        i += 1;
    }
    proof {
        assert forall|a: int| #![trigger links@[a]] 0 <= a < n implies links_next(
            nodes@,
            a,
            links@[a].next_sibling,
        ) && links_prev(nodes@, a, links@[a].prev_sibling) && links_first_child(
            nodes@,
            a,
            links@[a].first_child,
        ) by {
            let k = lemma_position(&table, order@, a);
            assert(next@[order@[k] as int] == next_in(nodes@, order@, k));
            assert(prev@[order@[k] as int] == prev_in(nodes@, order@, k));
            assert(first_child_so_far(nodes@, order@, order@.len() as int, a, child@[a]));
            lemma_links_hold(&table, order@, a, k, links@[a]);
        }
    }
    links
}

/// Whether a group of siblings starts at position `k` of the sorted order.
spec fn group_starts(nodes: Seq<NavNode>, order: Seq<usize>, k: int) -> bool {
    k == 0 || nodes[order[k - 1] as int].parent != nodes[order[k] as int].parent
}

/// What `p` holds for its first child once the groups before position `k` have been met.
spec fn first_child_so_far(nodes: Seq<NavNode>, order: Seq<usize>, k: int, p: int, value: u32) -> bool {
    if owns_ordinal(nodes, p) && (exists|j: int|
        0 <= j < k && group_starts(nodes, order, j) && (#[trigger] nodes[order[j] as int]).parent
            == nodes[p].ordinal) {
        exists|j: int|
            0 <= j < k && group_starts(nodes, order, j) && (#[trigger] nodes[order[j] as int]).parent
                == nodes[p].ordinal && value == nodes[order[j] as int].ordinal
    } else {
        value == NO_ORDINAL
    }
}

/// Every group of siblings starts once.
proof fn lemma_one_start(t: &NodesByParent<'_>, order: Seq<usize>, i: int, j: int)
    requires
        is_sorted_order(t, order),
        0 <= i < j < order.len(),
        group_starts(t.nodes@, order, j),
    ensures
        t.nodes@[order[i] as int].parent != t.nodes@[order[j] as int].parent,
{
    assert(sorts_before(t, order[j - 1] as int, order[j] as int));
    if i < j - 1 {
        assert(sorts_before(t, order[i] as int, order[j - 1] as int));
    }
}

proof fn lemma_group_start_step(
    t: &NodesByParent<'_>,
    order: Seq<usize>,
    k: int,
    p: int,
    was: u32,
    now: u32,
)
    requires
        is_sorted_order(t, order),
        0 <= k < order.len(),
        0 <= p < t.size(),
        first_child_so_far(t.nodes@, order, k, p, was),
        now == (if group_starts(t.nodes@, order, k) && owns_ordinal(t.nodes@, p)
            && t.nodes@[order[k] as int].parent == t.nodes@[p].ordinal {
            t.nodes@[order[k] as int].ordinal
        } else {
            was
        }),
    ensures
        first_child_so_far(t.nodes@, order, k + 1, p, now),
{
    let nodes = t.nodes@;
    if owns_ordinal(nodes, p) {
        if group_starts(nodes, order, k) && nodes[order[k] as int].parent == nodes[p].ordinal {
            assert(0 <= k < k + 1);
        } else if exists|j: int|
            0 <= j < k && group_starts(nodes, order, j) && (
            #[trigger] nodes[order[j] as int]).parent == nodes[p].ordinal {
            let j = choose|j: int|
                0 <= j < k && group_starts(nodes, order, j) && (
                #[trigger] nodes[order[j] as int]).parent == nodes[p].ordinal && was
                    == nodes[order[j] as int].ordinal;
            assert(0 <= j < k + 1);
        }
    }
}

proof fn lemma_links_hold(t: &NodesByParent<'_>, order: Seq<usize>, a: int, k: int, link: NavLinks)
    requires
        is_sorted_order(t, order),
        t.size() <= usize::MAX,
        0 <= a < t.size(),
        0 <= k < order.len(),
        order[k] == a,
        link.next_sibling == next_in(t.nodes@, order, k),
        link.prev_sibling == prev_in(t.nodes@, order, k),
        first_child_so_far(t.nodes@, order, order.len() as int, a, link.first_child),
    ensures
        links_next(t.nodes@, a, link.next_sibling),
        links_prev(t.nodes@, a, link.prev_sibling),
        links_first_child(t.nodes@, a, link.first_child),
{
    let nodes = t.nodes@;
    lemma_next_in(nodes, order, k);
    lemma_prev_in(nodes, order, k);
    lemma_adjacent_is_next(t, order, k);
    // Next sibling.
    if exists|b: int| #[trigger] is_next(nodes, a, b) {
        let b = choose|b: int| #[trigger] is_next(nodes, a, b);
        assert(precedes(nodes, a, b));
        assert(is_next(nodes, a, order[k + 1] as int));
    }
    // Previous sibling.
    if k > 0 {
        lemma_adjacent_is_next(t, order, k - 1);
    }
    if exists|b: int| 0 <= b < nodes.len() && #[trigger] is_next(nodes, b, a) {
        let b = choose|b: int| 0 <= b < nodes.len() && #[trigger] is_next(nodes, b, a);
        let m = lemma_position(t, order, b);
        lemma_adjacent_is_next(t, order, m);
        assert(precedes(nodes, b, a));
        assert(is_next(nodes, b, order[m + 1] as int));
        lemma_next_unique(nodes, b, b, a, order[m + 1] as int);
        lemma_sorted_order_distinct(t, order);
        assert(m + 1 == k);
    } else if k > 0 && nodes[a].parent == nodes[order[k - 1] as int].parent {
        assert(is_next(nodes, order[k - 1] as int, a));
    }
    // First child.
    let ord = nodes[a].ordinal;
    if exists|c: int| #[trigger] is_first_child(nodes, ord, c) {
        let c = choose|c: int| #[trigger] is_first_child(nodes, ord, c);
        let m = lemma_position(t, order, c);
        if m > 0 && nodes[order[m - 1] as int].parent == ord {
            lemma_precedes_sorted(t, order, m - 1, m);
            lemma_sorted_order_distinct(t, order);
            assert(order[m - 1] != order[m]);
            assert(precedes(nodes, c, order[m - 1] as int));
        }
        assert(group_starts(nodes, order, m));
        assert(nodes[order[m] as int].parent == ord);
    }
    if owns_ordinal(nodes, a) && (exists|j: int|
        0 <= j < order.len() && group_starts(nodes, order, j) && (
        #[trigger] nodes[order[j] as int]).parent == ord) {
        let j = choose|j: int|
            0 <= j < order.len() && group_starts(nodes, order, j) && (
            #[trigger] nodes[order[j] as int]).parent == ord && link.first_child
                == nodes[order[j] as int].ordinal;
        let c = order[j] as int;
        assert(is_first_child(nodes, ord, c)) by {
            assert forall|d: int|
                0 <= d < nodes.len() && d != c && (#[trigger] nodes[d]).parent
                    == ord implies precedes(nodes, c, d) by {
                let m = lemma_position(t, order, d);
                if m < j {
                    lemma_one_start(t, order, m, j);
                }
                lemma_precedes_sorted(t, order, j, m);
            }
        }
    }
}

/// The links of two neighbouring siblings mirror each other: the next of the one is the other,
/// and the previous of the other is the one.
pub proof fn lemma_sibling_links_mirror(nodes: Seq<NavNode>, links: Seq<NavLinks>, a: int, b: int)
    requires
        are_links(nodes, links),
        0 <= a < nodes.len(),
        is_next(nodes, a, b),
    ensures
        links[a].next_sibling == nodes[b].ordinal,
        links[b].prev_sibling == nodes[a].ordinal,
{
    assert(links_next(nodes, a, links[a].next_sibling));
    assert(links_prev(nodes, b, links[b].prev_sibling));
    let x = choose|x: int| #[trigger]
        is_next(nodes, a, x) && links[a].next_sibling == nodes[x].ordinal;
    lemma_next_unique(nodes, a, a, b, x);
    let y = choose|y: int|
        0 <= y < nodes.len() && #[trigger] is_next(nodes, y, b) && links[b].prev_sibling
            == nodes[y].ordinal;
    lemma_next_unique(nodes, a, y, b, b);
}

// ───────────────────────────── rows ─────────────────────────────

/// The columns that every row has.
pub struct SymbolRow<'a> {
    pub name: &'a str,
    pub fql_kind: &'a str,
    pub language: &'a str,
    pub line: u32,
    pub byte_start: u32,
    pub byte_end: u32,
    pub usages_count: u32,
}

/// The number of an emitted row.
#[derive(Clone, Copy, Debug, PartialEq, Eq, Structural)]
pub struct RowId(pub u32);

/// A segment being built.
pub struct SegmentBuilder {
    pub provider_id: String,
    pub content_id: Vec<u8>,
    pub rows: Vec<SegmentRow>,
    pub columns: Vec<String>,
}

/// What a list of pairs gives a field once `key` has been set to `value`.
pub open spec fn with_field(old_value: Option<Seq<char>>, key: Seq<char>, value: Seq<char>, field: Seq<char>) -> Option<
    Seq<char>,
> {
    if field == key {
        Some(value)
    } else {
        old_value
    }
}

/// Whether every field of a list of pairs is one of the columns.
pub open spec fn in_columns(extra: Seq<(String, String)>, columns: Seq<String>) -> bool {
    forall|k: int| 0 <= k < extra.len() ==> lists_text(columns, (#[trigger] extra[k]).0@)
}

proof fn lemma_extra_push(extra: Seq<(String, String)>, pair: (String, String), field: Seq<char>, i: int)
    requires
        0 <= i <= extra.len(),
    ensures
        extra_from(extra.push(pair), field, i) == (match extra_from(extra, field, i) {
            Some(v) => Some(v),
            None => if pair.0@ == field {
                Some(pair.1@)
            } else {
                None
            },
        }),
    decreases extra.len() - i,
{
    if i < extra.len() {
        assert(extra.push(pair)[i] == extra[i]);
        if extra[i].0@ != field {
            lemma_extra_push(extra, pair, field, i + 1);
        }
    } else {
        assert(extra.push(pair)[i] == pair);
        assert(extra_from(extra.push(pair), field, i + 1) is None);
    }
}

proof fn lemma_extra_update(extra: Seq<(String, String)>, at: int, pair: (String, String), field: Seq<char>, i: int)
    requires
        0 <= i <= at < extra.len(),
        pair.0@ == extra[at].0@,
        forall|k: int| i <= k < at ==> (#[trigger] extra[k]).0@ != pair.0@,
    ensures
        extra_from(extra.update(at, pair), field, i) == with_field(
            extra_from(extra, field, i),
            pair.0@,
            pair.1@,
            field,
        ),
    decreases at - i,
{
    let new = extra.update(at, pair);
    if i < at {
        assert(new[i] == extra[i]);
        if extra[i].0@ != field {
            lemma_extra_update(extra, at, pair, field, i + 1);
        }
    } else {
        assert(new[i] == pair);
        if pair.0@ != field {
            lemma_extra_same(extra, new, field, i + 1);
        }
    }
}

proof fn lemma_extra_same(a: Seq<(String, String)>, b: Seq<(String, String)>, field: Seq<char>, i: int)
    requires
        0 <= i <= a.len(),
        a.len() == b.len(),
        forall|k: int| i <= k < a.len() ==> a[k] == b[k],
    ensures
        extra_from(a, field, i) == extra_from(b, field, i),
    decreases a.len() - i,
{
    if i < a.len() {
        lemma_extra_same(a, b, field, i + 1);
    }
}

/// Sets a field of a list of pairs.
fn put_extra(extra: &mut Vec<(String, String)>, key: &str, value: &str)
    ensures
        forall|f: Seq<char>| #[trigger]
            extra_of(final(extra)@, f) == with_field(extra_of(old(extra)@, f), key@, value@, f),
        forall|columns: Seq<String>| #[trigger]
            in_columns(old(extra)@, columns) && lists_text(columns, key@) ==> in_columns(
                final(extra)@,
                columns,
            ),
{
    let ghost was = extra@;
    let mut i: usize = 0;
    while i < extra.len()
        invariant
            extra@ == was,
            was == old(extra)@,
            i <= extra@.len(),
            forall|k: int| 0 <= k < i ==> (#[trigger] extra@[k]).0@ != key@,
        decreases extra.len() - i,
    {
        if same_text(extra[i].0.as_str(), key) {
            let pair = (key.to_owned(), value.to_owned());
            extra.set(i, pair);
            proof {
                assert forall|f: Seq<char>| #[trigger] extra_of(extra@, f) == with_field(
                    extra_of(was, f),
                    key@,
                    value@,
                    f,
                ) by {
                    lemma_extra_update(was, i as int, pair, f, 0);
                }
                assert forall|columns: Seq<String>| #[trigger]
                    in_columns(was, columns) && lists_text(columns, key@) implies in_columns(
                    extra@,
                    columns,
                ) by {
                    assert forall|k: int| 0 <= k < extra@.len() implies lists_text(
                        columns,
                        (#[trigger] extra@[k]).0@,
                    ) by {
                        assert(lists_text(columns, was[k].0@));
                    }
                }
            }
            return ;
        }
        i += 1;
    }
    let pair = (key.to_owned(), value.to_owned());
    extra.push(pair);
    proof {
        lemma_extra_absent(was, key@, 0);
        assert forall|f: Seq<char>| #[trigger] extra_of(extra@, f) == with_field(
            extra_of(was, f),
            key@,
            value@,
            f,
        ) by {
            lemma_extra_push(was, pair, f, 0);
        }
        assert forall|columns: Seq<String>| #[trigger]
            in_columns(was, columns) && lists_text(columns, key@) implies in_columns(
            extra@,
            columns,
        ) by {
            assert forall|k: int| 0 <= k < extra@.len() implies lists_text(
                columns,
                (#[trigger] extra@[k]).0@,
            ) by {
                if k < was.len() {
                    assert(lists_text(columns, was[k].0@));
                }
            }
        }
    }
}

proof fn lemma_extra_absent(extra: Seq<(String, String)>, field: Seq<char>, i: int)
    requires
        0 <= i,
        forall|k: int| i <= k < extra.len() ==> (#[trigger] extra[k]).0@ != field,
    ensures
        extra_from(extra, field, i) is None,
    decreases extra.len() - i,
{
    if i < extra.len() {
        lemma_extra_absent(extra, field, i + 1);
    }
}

impl SegmentBuilder {
    /// A row number fits in 32 bits, and every value set on a row has a column.
    pub open spec fn wf(&self) -> bool {
        &&& self.rows@.len() <= u32::MAX
        &&& forall|r: int|
            0 <= r < self.rows@.len() ==> in_columns((#[trigger] self.rows@[r]).extra@, self.columns@)
    }

    /// A builder without rows.
    pub fn new(provider_id: &str, content_id: &[u8]) -> (b: SegmentBuilder)
        ensures
            b.wf(),
            b.provider_id@ == provider_id@,
            b.content_id@ == content_id@,
            b.rows@.len() == 0,
            b.columns@.len() == 0,
    {
        SegmentBuilder {
            provider_id: provider_id.to_owned(),
            content_id: vstd::slice::slice_to_vec(content_id),
            rows: Vec::new(),
            columns: Vec::new(),
        }
    }

    /// Appends a row: no node number, no neighbours, no enrichment.
    pub fn emit_row(&mut self, row: SymbolRow<'_>) -> (id: RowId)
        requires
            old(self).wf(),
            old(self).rows@.len() < u32::MAX,
        ensures
            final(self).wf(),
            id.0 == old(self).rows@.len(),
            final(self).rows@.len() == old(self).rows@.len() + 1,
            final(self).rows@.take(id.0 as int) == old(self).rows@,
            final(self).columns@ == old(self).columns@,
            final(self).content_id@ == old(self).content_id@,
            final(self).provider_id == old(self).provider_id,
            ({
                let new = final(self).rows@[id.0 as int];
                &&& new.name@ == row.name@
                &&& new.fql_kind@ == row.fql_kind@
                &&& new.language@ == row.language@
                &&& new.line == row.line
                &&& new.byte_start == row.byte_start
                &&& new.byte_end == row.byte_end
                &&& new.usages_count == row.usages_count
                &&& new.ordinal is None
                &&& new.parent_ordinal == NO_ORDINAL
                &&& new.first_child_ordinal == NO_ORDINAL
                &&& new.next_sibling_ordinal == NO_ORDINAL
                &&& new.prev_sibling_ordinal == NO_ORDINAL
                &&& new.rev == 0
                &&& new.extra@.len() == 0
            }),
    {
        let id: u32 = self.rows.len() as u32;
        let ghost was = self.rows@;
        self.rows.push(
            SegmentRow {
                name: row.name.to_owned(),
                fql_kind: row.fql_kind.to_owned(),
                language: row.language.to_owned(),
                line: row.line,
                byte_start: row.byte_start,
                byte_end: row.byte_end,
                usages_count: row.usages_count,
                ordinal: None,
                parent_ordinal: NO_ORDINAL,
                first_child_ordinal: NO_ORDINAL,
                next_sibling_ordinal: NO_ORDINAL,
                prev_sibling_ordinal: NO_ORDINAL,
                rev: 0,
                extra: Vec::new(),
            },
        );
        assert(self.rows@.take(id as int) =~= was);
        assert forall|r: int| 0 <= r < self.rows@.len() implies in_columns(
            (#[trigger] self.rows@[r]).extra@,
            self.columns@,
        ) by {
            if r < was.len() {
                assert(in_columns(was[r].extra@, self.columns@));
            }
        }
        RowId(id)
    }

    /// Numbers a row, and records its parent and its text fingerprint.
    pub fn set_node(&mut self, id: RowId, ordinal: u32, parent: u32, rev: u64)
        requires
            old(self).wf(),
            id.0 < old(self).rows@.len(),
        ensures
            final(self).wf(),
            final(self).columns@ == old(self).columns@,
            final(self).content_id@ == old(self).content_id@,
            final(self).provider_id == old(self).provider_id,
            final(self).rows@ == old(self).rows@.update(
                id.0 as int,
                (SegmentRow {
                    ordinal: Some(ordinal),
                    parent_ordinal: parent,
                    rev: rev,
                    ..old(self).rows@[id.0 as int]
                }),
            ),
    {
        let ghost was = self.rows@;
        let i: usize = id.0 as usize;
        self.rows[i].ordinal = Some(ordinal);
        self.rows[i].parent_ordinal = parent;
        self.rows[i].rev = rev;
        assert(self.rows@ =~= was.update(
            i as int,
            (SegmentRow {
                ordinal: Some(ordinal),
                parent_ordinal: parent,
                rev: rev,
                ..was[i as int]
            }),
        ));
        assert forall|r: int| 0 <= r < self.rows@.len() implies in_columns(
            (#[trigger] self.rows@[r]).extra@,
            self.columns@,
        ) by {
            assert(in_columns(was[r].extra@, self.columns@));
        }
    }

    /// Records the neighbours of a row's node.
    pub fn set_links(&mut self, id: RowId, links: NavLinks)
        requires
            old(self).wf(),
            id.0 < old(self).rows@.len(),
        ensures
            final(self).wf(),
            final(self).columns@ == old(self).columns@,
            final(self).content_id@ == old(self).content_id@,
            final(self).provider_id == old(self).provider_id,
            final(self).rows@ == old(self).rows@.update(
                id.0 as int,
                (SegmentRow {
                    first_child_ordinal: links.first_child,
                    prev_sibling_ordinal: links.prev_sibling,
                    next_sibling_ordinal: links.next_sibling,
                    ..old(self).rows@[id.0 as int]
                }),
            ),
    {
        let ghost was = self.rows@;
        let i: usize = id.0 as usize;
        self.rows[i].first_child_ordinal = links.first_child;
        self.rows[i].prev_sibling_ordinal = links.prev_sibling;
        self.rows[i].next_sibling_ordinal = links.next_sibling;
        assert(self.rows@ =~= was.update(
            i as int,
            (SegmentRow {
                first_child_ordinal: links.first_child,
                prev_sibling_ordinal: links.prev_sibling,
                next_sibling_ordinal: links.next_sibling,
                ..was[i as int]
            }),
        ));
        assert forall|r: int| 0 <= r < self.rows@.len() implies in_columns(
            (#[trigger] self.rows@[r]).extra@,
            self.columns@,
        ) by {
            assert(in_columns(was[r].extra@, self.columns@));
        }
    }

    /// Sets an enrichment value on a row; the column is added where it is new.
    pub fn set_field(&mut self, id: RowId, key: &str, value: &str)
        requires
            old(self).wf(),
            id.0 < old(self).rows@.len(),
        ensures
            final(self).wf(),
            final(self).content_id@ == old(self).content_id@,
            final(self).provider_id == old(self).provider_id,
            final(self).rows@.len() == old(self).rows@.len(),
            forall|r: int|
                0 <= r < old(self).rows@.len() && r != id.0 ==> final(self).rows@[r]
                    == #[trigger] old(self).rows@[r],
            ({
                let (a, b) = (old(self).rows@[id.0 as int], final(self).rows@[id.0 as int]);
                &&& b == (SegmentRow { extra: b.extra, ..a })
                &&& forall|f: Seq<char>| #[trigger]
                    extra_of(b.extra@, f) == with_field(extra_of(a.extra@, f), key@, value@, f)
            }),
            forall|t: Seq<char>| #[trigger]
                lists_text(final(self).columns@, t) == (lists_text(old(self).columns@, t) || t
                    == key@),
    {
        let ghost was = self.rows@;
        let ghost cols = self.columns@;
        if !contains_text(&self.columns, key) {
            self.columns.push(key.to_owned());
        }
        proof {
            assert forall|t: Seq<char>| #[trigger] lists_text(self.columns@, t) == (lists_text(
                cols,
                t,
            ) || t == key@) by {
                if lists_text(cols, t) {
                    let k = choose|k: int| 0 <= k < cols.len() && (#[trigger] cols[k])@ == t;
                    assert(self.columns@[k]@ == t);
                }
                if t == key@ && !lists_text(cols, key@) {
                    assert(self.columns@[cols.len() as int]@ == t);
                }
                if lists_text(self.columns@, t) {
                    let k = choose|k: int|
                        0 <= k < self.columns@.len() && (#[trigger] self.columns@[k])@ == t;
                    if k < cols.len() {
                        assert(cols[k]@ == t);
                    }
                }
            }
            assert forall|r: int| 0 <= r < was.len() implies in_columns(
                (#[trigger] was[r]).extra@,
                self.columns@,
            ) by {
                assert(in_columns(was[r].extra@, cols));
                assert forall|k: int| 0 <= k < was[r].extra@.len() implies lists_text(
                    self.columns@,
                    (#[trigger] was[r].extra@[k]).0@,
                ) by {
                    assert(lists_text(cols, was[r].extra@[k].0@));
                }
            }
            assert(lists_text(self.columns@, key@));
        }
        let i: usize = id.0 as usize;
        put_extra(&mut self.rows[i].extra, key, value);
        proof {
            assert(in_columns(was[i as int].extra@, self.columns@));
            assert forall|r: int| 0 <= r < self.rows@.len() implies in_columns(
                (#[trigger] self.rows@[r]).extra@,
                self.columns@,
            ) by {
                if r != i {
                    assert(self.rows@[r] == was[r]);
                }
            }
        }
    }
}

// ───────────────────────────── indexed files ─────────────────────────────

/// One row that the indexer found.
pub struct TableRow {
    pub name: String,
    pub fql_kind: String,
    pub language: String,
    /// The file the row was found in.
    pub path: String,
    pub line: usize,
    pub byte_start: usize,
    pub byte_end: usize,
    pub usages_count: u32,
    pub ordinal: Option<u32>,
    pub parent_ordinal: u32,
    pub rev: u64,
    pub fields: Vec<(String, String)>,
}

/// The rows that the indexer found.
pub struct SymbolTable {
    pub rows: Vec<TableRow>,
}

/// A machine word held at the 32-bit limit.
pub open spec fn clamp32(n: usize) -> u32 {
    if n <= u32::MAX {
        n as u32
    } else {
        u32::MAX
    }
}

fn clamped(n: usize) -> (r: u32)
    ensures
        r == clamp32(n),
{
    if n as u64 <= 0xffff_ffff {
        n as u32
    } else {
        0xffff_ffff
    }
}

/// The value that the first `n` pairs give a field, the last one deciding.
pub open spec fn last_value(fields: Seq<(String, String)>, field: Seq<char>, n: int) -> Option<
    Seq<char>,
>
    decreases n,
{
    if n <= 0 {
        None
    } else if fields[n - 1].0@ == field {
        Some(fields[n - 1].1@)
    } else {
        last_value(fields, field, n - 1)
    }
}

/// The enrichment value that a found row gives a field. The parent number has a column of its
/// own and is none.
pub open spec fn found_value(fields: Seq<(String, String)>, field: Seq<char>, n: int) -> Option<
    Seq<char>,
> {
    if field == "parent_ordinal"@ {
        None
    } else {
        last_value(fields, field, n)
    }
}

/// Whether `s` stores what the indexer found in `t`, neighbours aside.
pub open spec fn stores_row(t: TableRow, s: SegmentRow) -> bool {
    &&& s.name@ == t.name@
    &&& s.fql_kind@ == t.fql_kind@
    &&& s.language@ == t.language@
    &&& s.line == clamp32(t.line)
    &&& s.byte_start == clamp32(t.byte_start)
    &&& s.byte_end == clamp32(t.byte_end)
    &&& s.usages_count == t.usages_count
    &&& s.ordinal == t.ordinal
    &&& s.parent_ordinal == (if t.ordinal is Some {
        t.parent_ordinal
    } else {
        NO_ORDINAL
    })
    &&& s.rev == (if t.ordinal is Some {
        t.rev
    } else {
        0
    })
    &&& forall|f: Seq<char>| #[trigger]
        extra_of(s.extra@, f) == found_value(t.fields@, f, t.fields@.len() as int)
}

/// The nodes among rows `start..n`.
pub open spec fn nodes_among(rows: Seq<TableRow>, start: int, n: int) -> Seq<NavNode>
    decreases n - start,
{
    if n <= start {
        seq![]
    } else {
        let rest = nodes_among(rows, start, n - 1);
        match rows[n - 1].ordinal {
            Some(o) => rest.push(NavNode { ordinal: o, parent: rows[n - 1].parent_ordinal }),
            None => rest,
        }
    }
}

/// Whether a stored row carries the links given.
pub open spec fn carries(s: SegmentRow, links: NavLinks) -> bool {
    &&& s.first_child_ordinal == links.first_child
    &&& s.prev_sibling_ordinal == links.prev_sibling
    &&& s.next_sibling_ordinal == links.next_sibling
}

/// The links of a row that is no node.
pub open spec fn unlinked() -> NavLinks {
    NavLinks { first_child: NO_ORDINAL, prev_sibling: NO_ORDINAL, next_sibling: NO_ORDINAL }
}

/// Whether every stored row carries the links of its node.
pub open spec fn rows_linked(
    found: Seq<TableRow>,
    start: int,
    stored: Seq<SegmentRow>,
    links: Seq<NavLinks>,
) -> bool {
    forall|i: int|
        0 <= i < stored.len() ==> carries(
            #[trigger] stored[i],
            if found[start + i].ordinal is Some {
                links[nodes_among(found, start, start + i).len() as int]
            } else {
                unlinked()
            },
        )
}

/// Whether a column is one that the rows `start..n` set.
pub open spec fn column_found(rows: Seq<TableRow>, start: int, n: int, t: Seq<char>) -> bool {
    t != "parent_ordinal"@ && exists|r: int, k: int|
        start <= r < n && 0 <= k < rows[r].fields@.len() && #[trigger] rows[r].fields@[k].0@ == t
}

/// Whether `b` is the segment of rows `start..` of a table.
pub open spec fn is_segment_of(b: SegmentBuilder, rows: Seq<TableRow>, start: int) -> bool {
    &&& b.rows@.len() == rows.len() - start
    &&& forall|i: int|
        #![trigger b.rows@[i]]
        0 <= i < b.rows@.len() ==> stores_row(rows[start + i], b.rows@[i])
    &&& exists|links: Seq<NavLinks>| #[trigger]
        are_links(nodes_among(rows, start, rows.len() as int), links) && rows_linked(
            rows,
            start,
            b.rows@,
            links,
        )
    &&& forall|t: Seq<char>| #[trigger]
        lists_text(b.columns@, t) == column_found(rows, start, rows.len() as int, t)
}

/// Emits one found row, with its number and its enrichment.
fn emit_found(b: &mut SegmentBuilder, row: &TableRow) -> (id: RowId)
    requires
        old(b).wf(),
        old(b).rows@.len() < u32::MAX,
    ensures
        final(b).wf(),
        final(b).content_id@ == old(b).content_id@,
        final(b).provider_id == old(b).provider_id,
        id.0 == old(b).rows@.len(),
        final(b).rows@.len() == old(b).rows@.len() + 1,
        forall|r: int|
            0 <= r < old(b).rows@.len() ==> final(b).rows@[r] == #[trigger] old(b).rows@[r],
        stores_row(*row, final(b).rows@[id.0 as int]),
        carries(final(b).rows@[id.0 as int], unlinked()),
        forall|t: Seq<char>| #[trigger]
            lists_text(final(b).columns@, t) == (lists_text(old(b).columns@, t) || (t
                != "parent_ordinal"@ && exists|k: int|
                0 <= k < row.fields@.len() && (#[trigger] row.fields@[k]).0@ == t)),
{
    let ghost before = b.rows@;
    let ghost cols = b.columns@;
    let id = b.emit_row(
        SymbolRow {
            name: row.name.as_str(),
            fql_kind: row.fql_kind.as_str(),
            language: row.language.as_str(),
            line: clamped(row.line),
            byte_start: clamped(row.byte_start),
            byte_end: clamped(row.byte_end),
            usages_count: row.usages_count,
        },
    );
    assert forall|r: int| 0 <= r < before.len() implies b.rows@[r] == #[trigger] before[r] by {
        assert(b.rows@.take(id.0 as int)[r] == before[r]);
    }
    match row.ordinal {
        Some(ordinal) => {
            b.set_node(id, ordinal, row.parent_ordinal, row.rev);
        },
        None => {},
    }
    let ghost fixed = b.rows@[id.0 as int];
    let mut k: usize = 0;
    assert forall|f: Seq<char>| #[trigger] extra_of(b.rows@[id.0 as int].extra@, f) is None by {
        lemma_extra_absent(b.rows@[id.0 as int].extra@, f, 0);
    }
    while k < row.fields.len()
        invariant
            b.wf(),
            b.content_id@ == old(b).content_id@,
            b.provider_id == old(b).provider_id,
            before == old(b).rows@,
            cols == old(b).columns@,
            id.0 == before.len(),
            b.rows@.len() == before.len() + 1,
            k <= row.fields@.len(),
            forall|r: int| 0 <= r < before.len() ==> b.rows@[r] == #[trigger] before[r],
            b.rows@[id.0 as int] == (SegmentRow { extra: b.rows@[id.0 as int].extra, ..fixed }),
            forall|f: Seq<char>| #[trigger]
                extra_of(b.rows@[id.0 as int].extra@, f) == found_value(row.fields@, f, k as int),
            forall|t: Seq<char>| #[trigger]
                lists_text(b.columns@, t) == (lists_text(cols, t) || (t != "parent_ordinal"@
                    && exists|j: int| 0 <= j < k && (#[trigger] row.fields@[j]).0@ == t)),
        decreases row.fields.len() - k,
    {
        let key = row.fields[k].0.as_str();
        let ghost was = b.rows@;
        let ghost was_cols = b.columns@;
        if !same_text(key, "parent_ordinal") {
            b.set_field(id, key, row.fields[k].1.as_str());
            proof {
                assert forall|r: int| 0 <= r < before.len() implies b.rows@[r]
                    == #[trigger] before[r] by {
                    assert(b.rows@[r] == was[r]);
                }
            }
        }
        proof {
            assert forall|t: Seq<char>| #[trigger] lists_text(b.columns@, t) == (lists_text(
                cols,
                t,
            ) || (t != "parent_ordinal"@ && exists|j: int|
                0 <= j < k + 1 && (#[trigger] row.fields@[j]).0@ == t)) by {
                assert(lists_text(b.columns@, t) == (lists_text(was_cols, t) || (t == key@ && key@
                    != "parent_ordinal"@)));
                if t == key@ {
                    assert(row.fields@[k as int].0@ == t);
                }
                if exists|j: int| 0 <= j < k + 1 && (#[trigger] row.fields@[j]).0@ == t {
                    let j = choose|j: int| 0 <= j < k + 1 && (#[trigger] row.fields@[j]).0@ == t;
                    if j < k {
                        assert(row.fields@[j].0@ == t);
                    }
                }
            }
            assert forall|f: Seq<char>| #[trigger]
                extra_of(b.rows@[id.0 as int].extra@, f) == found_value(
                    row.fields@,
                    f,
                    k + 1,
                ) by {
                assert(extra_of(was[id.0 as int].extra@, f) == found_value(
                    row.fields@,
                    f,
                    k as int,
                ));
            }
        }
        k += 1;
    }
    id
}

proof fn lemma_nodes_bounded(rows: Seq<TableRow>, start: int, m: int, n: int)
    requires
        start <= m <= n,
    ensures
        nodes_among(rows, start, m).len() <= nodes_among(rows, start, n).len(),
        m < n && rows[m].ordinal is Some ==> nodes_among(rows, start, m).len() < nodes_among(
            rows,
            start,
            n,
        ).len(),
    decreases n - m,
{
    if m < n {
        lemma_nodes_bounded(rows, start, m, n - 1);
    }
}

/// Builds the segment of the rows `start..` of a table: every row emitted in order, then every
/// node linked to its neighbours.
pub fn build_segment(provider_id: &str, content_id: &[u8], table: &SymbolTable, start: usize) -> (b:
    SegmentBuilder)
    requires
        start <= table.rows@.len(),
        table.rows@.len() - start <= u32::MAX,
    ensures
        b.wf(),
        b.provider_id@ == provider_id@,
        b.content_id@ == content_id@,
        is_segment_of(b, table.rows@, start as int),
{
    let mut b = SegmentBuilder::new(provider_id, content_id);
    let ghost found = table.rows@;
    let n: usize = table.rows.len();
    let mut nodes: Vec<NavNode> = Vec::new();
    let mut ids: Vec<RowId> = Vec::new();
    let mut i: usize = start;
    while i < n
        invariant
            found == table.rows@,
            n == found.len(),
            start <= i <= n,
            n - start <= u32::MAX,
            b.wf(),
            b.provider_id@ == provider_id@,
            b.content_id@ == content_id@,
            b.rows@.len() == i - start,
            forall|r: int|
                #![trigger b.rows@[r]]
                0 <= r < b.rows@.len() ==> stores_row(found[start + r], b.rows@[r]) && carries(
                    b.rows@[r],
                    unlinked(),
                ),
            nodes@ == nodes_among(found, start as int, i as int),
            ids@.len() == nodes@.len(),
            forall|k: int|
                #![trigger ids@[k]]
                0 <= k < ids@.len() ==> ids@[k].0 < i - start && found[start
                    + ids@[k].0].ordinal is Some && nodes_among(
                    found,
                    start as int,
                    start + ids@[k].0,
                ).len() == k,
            forall|t: Seq<char>| #[trigger]
                lists_text(b.columns@, t) == column_found(found, start as int, i as int, t),
        decreases n - i,
    {
        let ghost was = b.rows@;
        let ghost was_cols = b.columns@;
        let id = emit_found(&mut b, &table.rows[i]);
        match table.rows[i].ordinal {
            Some(ordinal) => {
                nodes.push(NavNode { ordinal, parent: table.rows[i].parent_ordinal });
                ids.push(id);
            },
            None => {},
        }
        proof {
            assert forall|r: int|
                #![trigger b.rows@[r]]
                0 <= r < b.rows@.len() implies stores_row(found[start + r], b.rows@[r]) && carries(
                b.rows@[r],
                unlinked(),
            ) by {
                if r < was.len() {
                    assert(b.rows@[r] == was[r]);
                }
            }
            assert forall|t: Seq<char>| #[trigger] lists_text(b.columns@, t) == column_found(
                found,
                start as int,
                i + 1,
                t,
            ) by {
                assert(lists_text(was_cols, t) == column_found(found, start as int, i as int, t));
                if exists|k: int|
                    0 <= k < found[i as int].fields@.len() && (
                    #[trigger] found[i as int].fields@[k]).0@ == t {
                    let k = choose|k: int|
                        0 <= k < found[i as int].fields@.len() && (
                        #[trigger] found[i as int].fields@[k]).0@ == t;
                    assert(found[i as int].fields@[k].0@ == t);
                }
                if column_found(found, start as int, i as int, t) {
                    let (r, k) = choose|r: int, k: int|
                        start <= r < i && 0 <= k < found[r].fields@.len()
                            && #[trigger] found[r].fields@[k].0@ == t;
                    assert(start <= r < i + 1);
                }
                if column_found(found, start as int, i + 1, t) {
                    let (r, k) = choose|r: int, k: int|
                        start <= r < i + 1 && 0 <= k < found[r].fields@.len()
                            && #[trigger] found[r].fields@[k].0@ == t;
                    if r < i {
                        assert(column_found(found, start as int, i as int, t));
                    }
                }
            }
        }
        i += 1;
    }
    let links = link_nodes(&nodes);
    let ghost emitted = b.rows@;
    let mut k: usize = 0;
    while k < ids.len()
        invariant
            found == table.rows@,
            n == found.len(),
            b.wf(),
            b.provider_id@ == provider_id@,
            b.content_id@ == content_id@,
            k <= ids@.len(),
            b.rows@.len() == n - start,
            start <= n,
            nodes@ == nodes_among(found, start as int, n as int),
            are_links(nodes@, links@),
            ids@.len() == nodes@.len(),
            forall|j: int|
                #![trigger ids@[j]]
                0 <= j < ids@.len() ==> ids@[j].0 < n - start && found[start
                    + ids@[j].0].ordinal is Some && nodes_among(
                    found,
                    start as int,
                    start + ids@[j].0,
                ).len() == j,
            forall|r: int|
                #![trigger b.rows@[r]]
                0 <= r < b.rows@.len() ==> stores_row(found[start + r], b.rows@[r]) && carries(
                    b.rows@[r],
                    if found[start + r].ordinal is Some && nodes_among(
                        found,
                        start as int,
                        start + r,
                    ).len() < k {
                        links@[nodes_among(found, start as int, start + r).len() as int]
                    } else {
                        unlinked()
                    },
                ),
            forall|t: Seq<char>| #[trigger]
                lists_text(b.columns@, t) == column_found(found, start as int, n as int, t),
        decreases ids.len() - k,
    {
        let ghost was = b.rows@;
        b.set_links(ids[k], links[k]);
        proof {
            let at = ids@[k as int].0 as int;
            assert forall|r: int|
                #![trigger b.rows@[r]]
                0 <= r < b.rows@.len() implies stores_row(found[start + r], b.rows@[r]) && carries(
                b.rows@[r],
                if found[start + r].ordinal is Some && nodes_among(
                    found,
                    start as int,
                    start + r,
                ).len() < k + 1 {
                    links@[nodes_among(found, start as int, start + r).len() as int]
                } else {
                    unlinked()
                },
            ) by {
                assert(stores_row(found[start + r], was[r]));
                if r != at {
                    assert(b.rows@[r] == was[r]);
                    if found[start + r].ordinal is Some {
                        if r < at {
                            lemma_nodes_bounded(found, start as int, start + r, start + at);
                        } else {
                            lemma_nodes_bounded(found, start as int, start + at, start + r);
                        }
                    }
                }
            }
        }
        k += 1;
    }
    proof {
        assert(rows_linked(found, start as int, b.rows@, links@)) by {
            assert forall|r: int| 0 <= r < b.rows@.len() implies carries(
                #[trigger] b.rows@[r],
                if found[start + r].ordinal is Some {
                    links@[nodes_among(found, start as int, start + r).len() as int]
                } else {
                    unlinked()
                },
            ) by {
                lemma_nodes_bounded(found, start as int, start + r, n as int);
            }
        }
    }
    b
}

impl SegmentBuilder {
    /// The finished segment: posting fields are posted, and the ranges of the 32-bit columns kept.
    pub fn finish(self) -> (r: SegmentReader)
        requires
            self.wf(),
        ensures
            r.wf(),
            r.content_id@ == self.content_id@,
            r.rows@ == self.rows@,
            r.columns@ == self.columns@,
            forall|f: Seq<char>| #[trigger]
                r.posts(f) == (lists_text(self.columns@, f) && crate::fields::posting_field(f)),
            r.zones_hold(),
            r.name_prefix is Missing,
            r.usages@.len() == 0,
            r.mentions@.len() == 0,
    {
        let mut posted: Vec<String> = Vec::new();
        let mut i: usize = 0;
        while i < self.columns.len()
            invariant
                i <= self.columns@.len(),
                forall|k: int|
                    0 <= k < posted@.len() ==> lists_text(
                        self.columns@,
                        (#[trigger] posted@[k])@,
                    ) && crate::fields::posting_field(posted@[k]@),
                forall|k: int|
                    0 <= k < i && crate::fields::posting_field(self.columns@[k]@) ==> lists_text(
                        posted@,
                        (#[trigger] self.columns@[k])@,
                    ),
            decreases self.columns.len() - i,
        {
            let ghost was = posted@;
            if is_posting_field(self.columns[i].as_str()) {
                posted.push(self.columns[i].clone());
                assert(posted@[was.len() as int]@ == self.columns@[i as int]@);
            }
            assert forall|t: Seq<char>| lists_text(was, t) implies #[trigger] lists_text(
                posted@,
                t,
            ) by {
                let k = choose|k: int| 0 <= k < was.len() && (#[trigger] was[k])@ == t;
                assert(posted@[k]@ == t);
            }
            i += 1;
        }
        let mut zone_maps: Vec<ZoneMap> = Vec::new();
        if self.rows.len() > 0 {
            let mut line_min: u32 = self.rows[0].line;
            let mut line_max: u32 = self.rows[0].line;
            let mut use_min: u32 = self.rows[0].usages_count;
            let mut use_max: u32 = self.rows[0].usages_count;
            let mut r: usize = 1;
            while r < self.rows.len()
                invariant
                    1 <= r <= self.rows@.len(),
                    forall|k: int|
                        0 <= k < r ==> line_min <= (#[trigger] self.rows@[k]).line <= line_max
                            && use_min <= self.rows@[k].usages_count <= use_max,
                decreases self.rows.len() - r,
            {
                let line: u32 = self.rows[r].line;
                let used: u32 = self.rows[r].usages_count;
                if line < line_min {
                    line_min = line;
                }
                if line > line_max {
                    line_max = line;
                }
                if used < use_min {
                    use_min = used;
                }
                if used > use_max {
                    use_max = used;
                }
                r += 1;
            }
            zone_maps.push(ZoneMap { column: "line".to_owned(), min: line_min, max: line_max });
            zone_maps.push(
                ZoneMap { column: "usages_count".to_owned(), min: use_min, max: use_max },
            );
        }
        proof {
            reveal_strlit("line");
            reveal_strlit("usages_count");
            assert("line"@.len() != "usages_count"@.len());
        }
        let reader = SegmentReader {
            content_id: self.content_id,
            rows: self.rows,
            columns: self.columns,
            posted,
            zone_maps,
            name_prefix: NamePrefixIndex::Missing,
            usages: Vec::new(),
            mentions: Vec::new(),
        };
        proof {
            assert forall|f: Seq<char>| #[trigger] reader.posts(f) == (lists_text(
                reader.columns@,
                f,
            ) && crate::fields::posting_field(f)) by {
                if lists_text(reader.columns@, f) && crate::fields::posting_field(f) {
                    let k = choose|k: int|
                        0 <= k < reader.columns@.len() && (#[trigger] reader.columns@[k])@ == f;
                    assert(lists_text(posted@, reader.columns@[k]@));
                }
            }
            assert forall|r: int, k: int|
                #![trigger reader.rows@[r].extra@[k]]
                0 <= r < reader.rows@.len() && 0 <= k
                    < reader.rows@[r].extra@.len() implies lists_text(
                reader.columns@,
                reader.rows@[r].extra@[k].0@,
            ) by {
                assert(in_columns(reader.rows@[r].extra@, reader.columns@));
            }
        }
        reader
    }
}

} // verus!
