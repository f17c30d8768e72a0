//! How outlines are ordered, and how the outline of declarations lies in the full one.

use crate::columnar_storage::outline::{
    forest, kids_depth, kids_of, lists_rows, outline_items, row_of_ordinal, row_precedes,
    rows_wanted, shown, structural, tree, wanted, OutlineItem, RowsWanted,
};
use crate::segment::SegmentReader;
use vstd::prelude::*;

verus! {

// ───────────────────────────── lists of rows ─────────────────────────────

spec fn ascends(seg: SegmentReader, s: Seq<int>) -> bool {
    forall|a: int, b: int|
        #![trigger s[a], s[b]]
        0 <= a < b < s.len() ==> row_precedes(seg, s[a], s[b])
}

/// A list in reading order with one more row in its place.
proof fn lemma_place(seg: SegmentReader, s: Seq<int>, r: int) -> (t: Seq<int>)
    requires
        ascends(seg, s),
        !s.contains(r),
    ensures
        ascends(seg, t),
        forall|x: int| #[trigger] t.contains(x) == (s.contains(x) || x == r),
    decreases s.len(),
{
    if s.len() == 0 {
        let t = seq![r];
        assert(t[0] == r);
        t
    } else {
        let last = s.last();
        let init = s.drop_last();
        assert(s.contains(last));
        assert forall|x: int| #[trigger] s.contains(x) == (init.contains(x) || x == last) by {
            if s.contains(x) {
                let k = choose|k: int| 0 <= k < s.len() && s[k] == x;
                if k < init.len() {
                    assert(init[k] == x);
                }
            }
            if init.contains(x) {
                let k = choose|k: int| 0 <= k < init.len() && init[k] == x;
                assert(s[k] == x);
            }
        }
        if row_precedes(seg, r, last) {
            let u = lemma_place(seg, init, r);
            let t = u.push(last);
            assert forall|a: int, b: int|
                #![trigger t[a], t[b]]
                0 <= a < b < t.len() implies row_precedes(seg, t[a], t[b]) by {
                assert(t[a] == u[a]);
                if b < u.len() {
                    assert(t[b] == u[b]);
                } else {
                    assert(u.contains(u[a]));
                    if u[a] != r {
                        let k = choose|k: int| 0 <= k < init.len() && init[k] == u[a];
                        assert(s[k] == u[a]);
                        assert(row_precedes(seg, s[k], s[s.len() - 1]));
                    }
                }
            }
            assert forall|x: int| #[trigger] t.contains(x) == (s.contains(x) || x == r) by {
                if t.contains(x) {
                    let k = choose|k: int| 0 <= k < t.len() && t[k] == x;
                    if k < u.len() {
                        assert(u[k] == x);
                        assert(u.contains(x));
                    }
                }
                if u.contains(x) {
                    let k = choose|k: int| 0 <= k < u.len() && u[k] == x;
                    assert(t[k] == x);
                }
                assert(t[u.len() as int] == last);
            }
            t
        } else {
            let t = s.push(r);
            assert(row_precedes(seg, last, r));
            assert forall|a: int, b: int|
                #![trigger t[a], t[b]]
                0 <= a < b < t.len() implies row_precedes(seg, t[a], t[b]) by {
                assert(t[a] == s[a]);
                if b < s.len() {
                    assert(t[b] == s[b]);
                } else if a < s.len() - 1 {
                    assert(row_precedes(seg, s[a], s[s.len() - 1]));
                }
            }
            assert forall|x: int| #[trigger] t.contains(x) == (s.contains(x) || x == r) by {
                if t.contains(x) {
                    let k = choose|k: int| 0 <= k < t.len() && t[k] == x;
                    if k < s.len() {
                        assert(s[k] == x);
                    }
                }
                if s.contains(x) {
                    let k = choose|k: int| 0 <= k < s.len() && s[k] == x;
                    assert(t[k] == x);
                }
                assert(t[s.len() as int] == r);
            }
            t
        }
    }
}

/// The wanted ones among the first `n` rows, in reading order.
proof fn lemma_rows_among(seg: SegmentReader, want: RowsWanted, n: int) -> (s: Seq<int>)
    requires
        0 <= n <= seg.rows@.len(),
    ensures
        ascends(seg, s),
        forall|r: int| #[trigger] s.contains(r) == (0 <= r < n && wanted(seg, want, r)),
    decreases n,
{
    if n == 0 {
        seq![]
    } else {
        let s = lemma_rows_among(seg, want, n - 1);
        if wanted(seg, want, n - 1) {
            lemma_place(seg, s, n - 1)
        } else {
            s
        }
    }
}

/// The list of the wanted rows lists them.
proof fn lemma_lists_wanted(seg: SegmentReader, want: RowsWanted)
    ensures
        lists_rows(seg, want, rows_wanted(seg, want)),
{
    let s = lemma_rows_among(seg, want, seg.rows@.len() as int);
    assert forall|a: int| 0 <= a < s.len() implies 0 <= (#[trigger] s[a]) < seg.rows@.len()
        && wanted(seg, want, s[a]) by {
        assert(s.contains(s[a]));
    }
    assert(lists_rows(seg, want, s));
}

// ───────────────────────────── declarations ─────────────────────────────

/// The rows of outline items.
pub open spec fn item_rows(items: Seq<OutlineItem>) -> Seq<int> {
    items.map_values(|i: OutlineItem| i.row)
}

/// Whether a row is one of a declaration.
pub open spec fn declares(seg: SegmentReader) -> spec_fn(int) -> bool {
    |r: int| structural(seg.rows@[r].fql_kind@)
}

proof fn lemma_rows_concat(a: Seq<OutlineItem>, b: Seq<OutlineItem>)
    ensures
        item_rows(a + b) == item_rows(a) + item_rows(b),
{
    assert(item_rows(a + b) =~= item_rows(a) + item_rows(b));
}

proof fn lemma_tree_declares(seg: SegmentReader, r: int, d: nat, e: nat, levels: nat)
    ensures
        item_rows(tree(seg, false, r, d, levels)) == item_rows(
            tree(seg, true, r, e, levels),
        ).filter(declares(seg)),
    decreases levels, 0int,
{
    let some = declares(seg);
    if levels == 0 {
        reveal(Seq::filter);
        assert(item_rows(tree(seg, false, r, d, levels)) =~= seq![]);
        assert(item_rows(tree(seg, true, r, e, levels)) =~= seq![]);
    } else {
        let l = (levels - 1) as nat;
        let kids = kids_of(seg, r);
        let few = forest(seg, false, kids, 0, kids_depth(seg, false, r, d), l);
        let many = forest(seg, true, kids, 0, kids_depth(seg, true, r, e), l);
        lemma_forest_declares(
            seg,
            kids,
            0,
            kids_depth(seg, false, r, d),
            kids_depth(seg, true, r, e),
            l,
        );
        let head = seq![OutlineItem { row: r, depth: e }];
        lemma_rows_concat(head, many);
        assert(item_rows(head) =~= seq![r]);
        Seq::filter_distributes_over_add(seq![r], item_rows(many), some);
        lemma_filter_one(r, some);
        if shown(seg, false, r) {
            let own = seq![OutlineItem { row: r, depth: d }];
            lemma_rows_concat(own, few);
            assert(item_rows(own) =~= seq![r]);
        } else {
            assert(Seq::<int>::empty() + item_rows(many).filter(some) =~= item_rows(many).filter(
                some,
            ));
        }
    }
}

proof fn lemma_filter_one(r: int, some: spec_fn(int) -> bool)
    ensures
        seq![r].filter(some) == (if some(r) {
            seq![r]
        } else {
            seq![]
        }),
{
    reveal(Seq::filter);
    let one = seq![r];
    assert(one.drop_last() =~= Seq::<int>::empty());
    assert(one.last() == r);
    assert(Seq::<int>::empty().filter(some) =~= Seq::<int>::empty());
    assert(one.filter(some) =~= (if some(r) {
        seq![r]
    } else {
        seq![]
    }));
}

proof fn lemma_forest_declares(
    seg: SegmentReader,
    rows: Seq<int>,
    i: int,
    d: nat,
    e: nat,
    levels: nat,
)
    ensures
        item_rows(forest(seg, false, rows, i, d, levels)) == item_rows(
            forest(seg, true, rows, i, e, levels),
        ).filter(declares(seg)),
    decreases levels, rows.len() - i + 1,
{
    if i < 0 || i >= rows.len() {
        reveal(Seq::filter);
        assert(item_rows(forest(seg, false, rows, i, d, levels)) =~= seq![]);
        assert(item_rows(forest(seg, true, rows, i, e, levels)) =~= seq![]);
    } else {
        lemma_tree_declares(seg, rows[i], d, e, levels);
        lemma_forest_declares(seg, rows, i + 1, d, e, levels);
        lemma_rows_concat(
            tree(seg, false, rows[i], d, levels),
            forest(seg, false, rows, i + 1, d, levels),
        );
        lemma_rows_concat(
            tree(seg, true, rows[i], e, levels),
            forest(seg, true, rows, i + 1, e, levels),
        );
        Seq::filter_distributes_over_add(
            item_rows(tree(seg, true, rows[i], e, levels)),
            item_rows(forest(seg, true, rows, i + 1, e, levels)),
            declares(seg),
        );
    }
}

/// The outline of declarations is the full outline without the other rows: depth aside, what it shows
/// is what the full one shows of declarations, in the same order.
proof fn lemma_declarations_of_the_full_outline(seg: SegmentReader, root: Option<u32>)
    ensures
        item_rows(outline_items(seg, false, root)) == item_rows(
            outline_items(seg, true, root),
        ).filter(declares(seg)),
{
    let levels = seg.rows@.len();
    match root {
        Some(o) => {
            let r = row_of_ordinal(seg, o, 0);
            if r < seg.rows@.len() {
                lemma_tree_declares(seg, r, 0, 0, levels);
            } else {
                reveal(Seq::filter);
                assert(item_rows(Seq::<OutlineItem>::empty()) =~= seq![]);
            }
        },
        None => {
            lemma_forest_declares(seg, rows_wanted(seg, RowsWanted::Top), 0, 0, 0, levels);
        },
    }
}

// ───────────────────────────── parents and siblings ─────────────────────────────

/// Whether one item is that of the node above another, which stands one deeper.
pub open spec fn is_above(seg: SegmentReader, up: OutlineItem, item: OutlineItem) -> bool {
    &&& seg.rows@[up.row].ordinal == Some(seg.rows@[item.row].parent_ordinal)
    &&& item.depth == up.depth + 1
}

/// Whether the item at `i` is that of the node above the item at `j`, and all that stands between
/// the two is below that node as well.
pub open spec fn holds_below(seg: SegmentReader, items: Seq<OutlineItem>, i: int, j: int) -> bool {
    &&& 0 <= i < j
    &&& is_above(seg, items[i], items[j])
    &&& forall|k: int| i < k < j ==> (#[trigger] items[k]).depth > items[i].depth
}

/// Whether the items at `i` and `j` stand side by side: equally deep, with nothing less deep between
/// them.
pub open spec fn stand_beside(items: Seq<OutlineItem>, i: int, j: int) -> bool {
    &&& 0 <= i < j < items.len()
    &&& items[i].depth == items[j].depth
    &&& forall|k: int| i < k < j ==> (#[trigger] items[k]).depth >= items[i].depth
}

/// Whether items read as trees: none stands less deep than `depth`, each that stands deeper lies in
/// the block of the node above it, and those side by side come in reading order.
pub open spec fn reads_as_trees(seg: SegmentReader, items: Seq<OutlineItem>, depth: nat) -> bool {
    &&& forall|j: int|
        #![trigger items[j]]
        0 <= j < items.len() ==> items[j].depth >= depth && (items[j].depth > depth ==> exists|
            i: int,
        | #[trigger]
            holds_below(seg, items, i, j))
    &&& forall|i: int, j: int| #[trigger]
        stand_beside(items, i, j) ==> row_precedes(seg, items[i].row, items[j].row)
}

/// Whether the items at a depth are rows of a list from position `n` on.
spec fn tops_among(items: Seq<OutlineItem>, rows: Seq<int>, n: int, depth: nat) -> bool {
    forall|j: int|
        #![trigger items[j]]
        0 <= j < items.len() && items[j].depth == depth ==> exists|k: int|
            n <= k < rows.len() && #[trigger] rows[k] == items[j].row
}

/// What is below a node, read after it.
proof fn lemma_node_reads(
    seg: SegmentReader,
    head: OutlineItem,
    below: Seq<OutlineItem>,
    items: Seq<OutlineItem>,
)
    requires
        items == seq![head] + below,
        reads_as_trees(seg, below, head.depth + 1),
        forall|j: int|
            #![trigger below[j]]
            0 <= j < below.len() && below[j].depth == head.depth + 1 ==> is_above(
                seg,
                head,
                below[j],
            ),
    ensures
        reads_as_trees(seg, items, head.depth),
        forall|j: int|
            #![trigger items[j]]
            0 < j < items.len() ==> items[j].depth > head.depth,
{
    assert(items[0] == head);
    assert forall|j: int| #![trigger items[j]] 0 < j < items.len() implies items[j] == below[j - 1]
        && items[j].depth > head.depth by {
        assert(below[j - 1].depth >= head.depth + 1);
    }
    assert forall|j: int| #![trigger items[j]] 0 < j < items.len() implies exists|i: int|
        #[trigger]
        holds_below(seg, items, i, j) by {
        assert(items[j] == below[j - 1]);
        if below[j - 1].depth == head.depth + 1 {
            assert(holds_below(seg, items, 0, j));
        } else {
            let i = choose|i: int| #[trigger] holds_below(seg, below, i, j - 1);
            assert(items[i + 1] == below[i]);
            assert forall|k: int| i + 1 < k < j implies (#[trigger] items[k]).depth > items[i
                + 1].depth by {
                assert(below[k - 1].depth > below[i].depth);
            }
            assert(holds_below(seg, items, i + 1, j));
        }
    }
    assert forall|i: int, j: int| #[trigger] stand_beside(items, i, j) implies row_precedes(
        seg,
        items[i].row,
        items[j].row,
    ) by {
        assert(items[j] == below[j - 1]);
        if i > 0 {
            assert(items[i] == below[i - 1]);
            assert forall|k: int| i - 1 < k < j - 1 implies (#[trigger] below[k]).depth >= below[i
                - 1].depth by {
                assert(items[k + 1] == below[k]);
            }
            assert(stand_beside(below, i - 1, j - 1));
        }
    }
}

/// One tree, and the trees that are read after it.
proof fn lemma_joined_reads(
    seg: SegmentReader,
    first: Seq<OutlineItem>,
    rest: Seq<OutlineItem>,
    items: Seq<OutlineItem>,
    depth: nat,
)
    requires
        items == first + rest,
        reads_as_trees(seg, first, depth),
        reads_as_trees(seg, rest, depth),
        forall|j: int| #![trigger first[j]] 0 < j < first.len() ==> first[j].depth > depth,
        rest.len() > 0 ==> rest[0].depth == depth,
        forall|j: int|
            #![trigger rest[j]]
            0 <= j < rest.len() && rest[j].depth == depth && first.len() > 0 ==> row_precedes(
                seg,
                first[0].row,
                rest[j].row,
            ),
    ensures
        reads_as_trees(seg, items, depth),
{
    let m = first.len() as int;
    assert forall|j: int| 0 <= j < m implies #[trigger] items[j] == first[j] by {}
    assert forall|j: int| m <= j < items.len() implies #[trigger] items[j] == rest[j - m] by {}
    assert forall|j: int| #![trigger items[j]] 0 <= j < items.len() implies items[j].depth >= depth
        && (items[j].depth > depth ==> exists|i: int| #[trigger] holds_below(seg, items, i, j)) by {
        if j < m {
            assert(first[j].depth >= depth);
            if items[j].depth > depth {
                let i = choose|i: int| #[trigger] holds_below(seg, first, i, j);
                assert(items[i] == first[i]);
                assert forall|k: int| i < k < j implies (#[trigger] items[k]).depth
                    > items[i].depth by {
                    assert(items[k] == first[k]);
                }
                assert(holds_below(seg, items, i, j));
            }
        } else {
            assert(rest[j - m].depth >= depth);
            if items[j].depth > depth {
                let i = choose|i: int| #[trigger] holds_below(seg, rest, i, j - m);
                assert(items[i + m] == rest[i]);
                assert forall|k: int| i + m < k < j implies (#[trigger] items[k]).depth > items[i
                    + m].depth by {
                    assert(items[k] == rest[k - m]);
                }
                assert(holds_below(seg, items, i + m, j));
            }
        }
    }
    assert forall|i: int, j: int| #[trigger] stand_beside(items, i, j) implies row_precedes(
        seg,
        items[i].row,
        items[j].row,
    ) by {
        if j < m {
            assert(items[i] == first[i] && items[j] == first[j]);
            assert forall|k: int| i < k < j implies (#[trigger] first[k]).depth
                >= first[i].depth by {
                assert(items[k] == first[k]);
            }
            assert(stand_beside(first, i, j));
        } else if i >= m {
            assert(items[i] == rest[i - m] && items[j] == rest[j - m]);
            assert forall|k: int| i - m < k < j - m implies (#[trigger] rest[k]).depth >= rest[i
                - m].depth by {
                assert(items[k + m] == rest[k]);
            }
            assert(stand_beside(rest, i - m, j - m));
        } else {
            assert(items[m] == rest[0]);
            assert(items[i] == first[i]);
            assert(items[j] == rest[j - m]);
            assert(first[i].depth >= depth);
            assert(items[i].depth == depth);
            assert(i == 0);
        }
    }
}

proof fn lemma_tree_reads(seg: SegmentReader, r: int, depth: nat, levels: nat)
    ensures
        ({
            let items = tree(seg, true, r, depth, levels);
            &&& reads_as_trees(seg, items, depth)
            &&& levels > 0 ==> items.len() > 0 && items[0] == (OutlineItem { row: r, depth })
            &&& forall|j: int| #![trigger items[j]] 0 < j < items.len() ==> items[j].depth > depth
        }),
    decreases levels, 0int,
{
    let items = tree(seg, true, r, depth, levels);
    if levels > 0 {
        let kids = kids_of(seg, r);
        let below = forest(seg, true, kids, 0, depth + 1, (levels - 1) as nat);
        let head = OutlineItem { row: r, depth };
        match seg.rows@[r].ordinal {
            Some(o) => {
                lemma_lists_wanted(seg, RowsWanted::Under(o));
            },
            None => {},
        }
        lemma_forest_reads(seg, kids, 0, depth + 1, (levels - 1) as nat);
        assert(items == seq![head] + below);
        assert forall|j: int|
            #![trigger below[j]]
            0 <= j < below.len() && below[j].depth == depth + 1 implies is_above(
            seg,
            head,
            below[j],
        ) by {
            let o = seg.rows@[r].ordinal->0;
            let k = choose|k: int| 0 <= k < kids.len() && #[trigger] kids[k] == below[j].row;
            assert(wanted(seg, RowsWanted::Under(o), kids[k]));
        }
        lemma_node_reads(seg, head, below, items);
    } else {
        assert(items =~= seq![]);
    }
}

proof fn lemma_forest_reads(seg: SegmentReader, rows: Seq<int>, n: int, depth: nat, levels: nat)
    requires
        0 <= n <= rows.len(),
        ascends(seg, rows),
    ensures
        ({
            let items = forest(seg, true, rows, n, depth, levels);
            &&& reads_as_trees(seg, items, depth)
            &&& tops_among(items, rows, n, depth)
            &&& items.len() > 0 ==> items[0].depth == depth
        }),
    decreases levels, rows.len() - n + 1,
{
    let items = forest(seg, true, rows, n, depth, levels);
    if n < rows.len() {
        let first = tree(seg, true, rows[n], depth, levels);
        let rest = forest(seg, true, rows, n + 1, depth, levels);
        let m = first.len() as int;
        assert(items == first + rest);
        lemma_tree_reads(seg, rows[n], depth, levels);
        lemma_forest_reads(seg, rows, n + 1, depth, levels);
        assert forall|j: int|
            #![trigger rest[j]]
            0 <= j < rest.len() && rest[j].depth == depth && first.len() > 0 implies row_precedes(
            seg,
            first[0].row,
            rest[j].row,
        ) by {
            let k = choose|k: int| n + 1 <= k < rows.len() && #[trigger] rows[k] == rest[j].row;
            assert(row_precedes(seg, rows[n], rows[k]));
            assert(levels > 0);
        }
        lemma_joined_reads(seg, first, rest, items, depth);
        assert forall|j: int|
            #![trigger items[j]]
            0 <= j < items.len() && items[j].depth == depth implies exists|k: int|
            n <= k < rows.len() && #[trigger] rows[k] == items[j].row by {
            if j < m {
                assert(items[j] == first[j]);
                assert(levels > 0);
                assert(rows[n] == items[j].row);
            } else {
                assert(items[j] == rest[j - m]);
                let k = choose|k: int|
                    n + 1 <= k < rows.len() && #[trigger] rows[k] == rest[j - m].row;
                assert(rows[k] == items[j].row);
            }
        }
        if items.len() > 0 {
            if m > 0 {
                assert(items[0] == first[0]);
                assert(levels > 0);
            } else {
                assert(items[0] == rest[0]);
            }
        }
    } else {
        assert(items =~= seq![]);
    }
}

/// An outline is a tree walked from the top, each node before what is below it.
///
/// Of a whole file it holds the rows below no node of the file at depth nought; of one node it holds
/// that node alone at depth nought, and nothing at all where the file has no such node. Every other
/// row lies in the block of the node above it, one deeper, so that it stands before the later
/// siblings of that node; and siblings come in ascending order of their lines. The outline of
/// declarations is the full one without the other rows.
pub proof fn lemma_an_outline_is_a_tree_walk(seg: SegmentReader, root: Option<u32>)
    ensures
        ({
            let items = outline_items(seg, true, root);
            &&& reads_as_trees(seg, items, 0)
            &&& forall|i: int, j: int| #[trigger]
                stand_beside(items, i, j) ==> seg.rows@[items[i].row].line
                    <= seg.rows@[items[j].row].line
            &&& item_rows(outline_items(seg, false, root)) == item_rows(items).filter(declares(seg))
            &&& match root {
                None => forall|j: int|
                    #![trigger items[j]]
                    0 <= j < items.len() && items[j].depth == 0 ==> wanted(
                        seg,
                        RowsWanted::Top,
                        items[j].row,
                    ),
                Some(o) => {
                    let r = row_of_ordinal(seg, o, 0);
                    if r < seg.rows@.len() {
                        &&& items.len() > 0
                        &&& items[0] == (OutlineItem { row: r, depth: 0 })
                        &&& forall|j: int|
                            #![trigger items[j]]
                            0 < j < items.len() ==> items[j].depth > 0
                    } else {
                        items.len() == 0
                    }
                },
            }
        }),
{
    let levels = seg.rows@.len();
    let items = outline_items(seg, true, root);
    lemma_declarations_of_the_full_outline(seg, root);
    match root {
        None => {
            let tops = rows_wanted(seg, RowsWanted::Top);
            lemma_lists_wanted(seg, RowsWanted::Top);
            lemma_forest_reads(seg, tops, 0, 0, levels);
            assert forall|j: int|
                #![trigger items[j]]
                0 <= j < items.len() && items[j].depth == 0 implies wanted(
                seg,
                RowsWanted::Top,
                items[j].row,
            ) by {
                let k = choose|k: int| 0 <= k < tops.len() && #[trigger] tops[k] == items[j].row;
                assert(wanted(seg, RowsWanted::Top, tops[k]));
            }
        },
        Some(o) => {
            let r = row_of_ordinal(seg, o, 0);
            if r < seg.rows@.len() {
                lemma_tree_reads(seg, r, 0, levels);
            }
        },
    }
}

} // verus!
