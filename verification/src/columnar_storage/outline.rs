//! `SHOW outline`: the nodes of a file as a tree, in reading order.

use crate::columnar_storage::node_lookup::{join_path, joined, HandleSource, Handles};
use crate::columnar_storage::ColumnarStorage;
use crate::dirty_overlay::lemma_flatten_push;
use crate::node_id::{find_char, hex_bytes, index_of_char, make_node_id, path_node_id};
use crate::paths::{glob_matches, glob_selects, relative_to, segment_source_rel};
use crate::segment::{opt_string, SegmentReader};
use crate::sort::{is_sorted_order, sorted_order, sorts_before, RankTable};
use crate::text::{chars_of, parse_u32, same_text, text_of, unsigned_of};
use crate::path_parts::same_path;
use vstd::prelude::*;
use vstd::string::*;
use vstd::utf8::*;

verus! {

/// Whether a kind is shown in an outline of declarations: declarations of code, and the
/// containers of data files.
pub open spec fn structural(kind: Seq<char>) -> bool {
    ||| kind == "function"@
    ||| kind == "class"@
    ||| kind == "struct"@
    ||| kind == "enum"@
    ||| kind == "interface"@
    ||| kind == "trait"@
    ||| kind == "union"@
    ||| kind == "namespace"@
    ||| kind == "module"@
    ||| kind == "type_alias"@
    ||| kind == "macro"@
    ||| kind == "object"@
    ||| kind == "array"@
}

/// Whether a kind is shown in an outline of declarations.
pub fn outline_is_structural(kind: &str) -> (r: bool)
    ensures
        r == structural(kind@),
{
    same_text(kind, "function") || same_text(kind, "class") || same_text(kind, "struct")
        || same_text(kind, "enum") || same_text(kind, "interface") || same_text(kind, "trait")
        || same_text(kind, "union") || same_text(kind, "namespace") || same_text(kind, "module")
        || same_text(kind, "type_alias") || same_text(kind, "macro") || same_text(kind, "object")
        || same_text(kind, "array")
}

// ───────────────────────────── targets ─────────────────────────────

/// Whether a character is a hexadecimal digit.
pub open spec fn hex_digit(c: char) -> bool {
    ('0' <= c && c <= '9') || ('a' <= c && c <= 'f') || ('A' <= c && c <= 'F')
}

/// The fingerprint and the number that a node handle names; none for anything else.
pub open spec fn node_target(s: Seq<char>) -> Option<(Seq<char>, nat)> {
    let dot = index_of_char(s, '.', 1);
    if s.contains('/') || s.len() == 0 || s[0] != 'n' || dot >= s.len() || dot <= 1 || exists|
        i: int,
    |
        1 <= i < dot && !hex_digit(#[trigger] s[i]) {
        None
    } else {
        match unsigned_of(s.skip(dot + 1), u32::MAX as nat) {
            Some(ordinal) => Some((s.subrange(1, dot), ordinal)),
            None => None,
        }
    }
}

/// Reads an outline's target as a node handle, `n<hex>.<ordinal>`.
pub fn parse_outline_node_target(s: &str) -> (r: Option<(String, u32)>)
    ensures
        (match r {
            Some(t) => node_target(s@) == Some((t.0@, t.1 as nat)),
            None => node_target(s@) is None,
        }),
{
    let c = chars_of(s);
    let slash: usize = find_char(&c, '/', 0);
    if slash < c.len() {
        assert(c@.contains('/'));
        return None;
    }
    proof {
        if c@.contains('/') {
            let k = choose|k: int| 0 <= k < c@.len() && c@[k] == '/';
        }
    }
    if c.len() == 0 || c[0] != 'n' {
        return None;
    }
    let dot: usize = find_char(&c, '.', 1);
    if dot >= c.len() || dot <= 1 {
        return None;
    }
    let mut i: usize = 1;
    while i < dot
        invariant
            1 <= i <= dot < c@.len(),
            c@ == s@,
            dot == index_of_char(s@, '.', 1),
            forall|k: int| 1 <= k < i ==> hex_digit(#[trigger] c@[k]),
        decreases dot - i,
    {
        let d = c[i];
        if !(('0' <= d && d <= '9') || ('a' <= d && d <= 'f') || ('A' <= d && d <= 'F')) {
            assert(!hex_digit(s@[i as int]));
            return None;
        }
        i += 1;
    }
    let hex = text_of(&c, 1, dot);
    let tail = text_of(&c, dot + 1, c.len());
    assert(hex@ =~= s@.subrange(1, dot as int));
    assert(tail@ =~= s@.skip(dot + 1));
    match parse_u32(tail.as_str()) {
        Some(ordinal) => Some((hex, ordinal)),
        None => None,
    }
}

// ───────────────────────────── the tree ─────────────────────────────

/// Whether row `a` is read before row `b`: it stands on an earlier line, or earlier in the table.
pub open spec fn row_precedes(seg: SegmentReader, a: int, b: int) -> bool {
    seg.rows@[a].line < seg.rows@[b].line || (seg.rows@[a].line == seg.rows@[b].line && a < b)
}

/// Which rows a list of rows is of.
pub enum RowsWanted {
    /// Those below the node with this number.
    Under(u32),
    /// Those below no node of the file.
    Top,
}

/// Whether a node of the file has a number.
pub open spec fn has_ordinal(seg: SegmentReader, o: u32) -> bool {
    exists|r: int| 0 <= r < seg.rows@.len() && (#[trigger] seg.rows@[r]).ordinal == Some(o)
}

/// Whether row `r` is wanted.
pub open spec fn wanted(seg: SegmentReader, want: RowsWanted, r: int) -> bool {
    let parent = seg.rows@[r].parent_ordinal;
    match want {
        RowsWanted::Under(o) => parent == o,
        RowsWanted::Top => parent == u32::MAX || !has_ordinal(seg, parent),
    }
}

/// Whether `s` lists the wanted rows, each once, in reading order.
pub open spec fn lists_rows(seg: SegmentReader, want: RowsWanted, s: Seq<int>) -> bool {
    &&& forall|a: int, b: int|
        #![trigger s[a], s[b]]
        0 <= a < b < s.len() ==> row_precedes(seg, s[a], s[b])
    &&& forall|a: int|
        0 <= a < s.len() ==> 0 <= (#[trigger] s[a]) < seg.rows@.len() && wanted(seg, want, s[a])
    &&& forall|r: int|
        0 <= r < seg.rows@.len() && #[trigger] wanted(seg, want, r) ==> s.contains(r)
}

/// The wanted rows, each once, in reading order.
pub open spec fn rows_wanted(seg: SegmentReader, want: RowsWanted) -> Seq<int> {
    choose|s: Seq<int>| #[trigger] lists_rows(seg, want, s)
}

/// A row of an outline, with how deep it stands.
pub struct OutlineItem {
    pub row: int,
    pub depth: nat,
}

/// The rows below row `r`, in reading order.
pub open spec fn kids_of(seg: SegmentReader, r: int) -> Seq<int> {
    match seg.rows@[r].ordinal {
        Some(o) => rows_wanted(seg, RowsWanted::Under(o)),
        None => seq![],
    }
}

/// Whether row `r` is shown.
pub open spec fn shown(seg: SegmentReader, all: bool, r: int) -> bool {
    all || structural(seg.rows@[r].fql_kind@)
}

/// How deep the rows below row `r` stand: a row that is not shown adds nothing.
pub open spec fn kids_depth(seg: SegmentReader, all: bool, r: int, depth: nat) -> nat {
    if shown(seg, all, r) {
        depth + 1
    } else {
        depth
    }
}

/// The outline of row `r` and what is below it, `levels` deep at most: the row, then each row below
/// it with what is below that.
pub open spec fn tree(seg: SegmentReader, all: bool, r: int, depth: nat, levels: nat) -> Seq<
    OutlineItem,
>
    decreases levels, 0int,
{
    if levels == 0 {
        seq![]
    } else {
        let below = forest(
            seg,
            all,
            kids_of(seg, r),
            0,
            kids_depth(seg, all, r, depth),
            (levels - 1) as nat,
        );
        if shown(seg, all, r) {
            seq![OutlineItem { row: r, depth }] + below
        } else {
            below
        }
    }
}

/// The outlines of the rows of a list from position `i` on, one after the other.
pub open spec fn forest(
    seg: SegmentReader,
    all: bool,
    rows: Seq<int>,
    i: int,
    depth: nat,
    levels: nat,
) -> Seq<OutlineItem>
    decreases levels, rows.len() - i + 1,
{
    if i < 0 || i >= rows.len() {
        seq![]
    } else {
        tree(seg, all, rows[i], depth, levels) + forest(seg, all, rows, i + 1, depth, levels)
    }
}

/// The first row at or after `i` that has a number; the row count where there is none.
pub open spec fn row_of_ordinal(seg: SegmentReader, o: u32, i: int) -> int
    decreases seg.rows@.len() - i,
{
    if i < 0 || i >= seg.rows@.len() {
        seg.rows@.len() as int
    } else if seg.rows@[i].ordinal == Some(o) {
        i
    } else {
        row_of_ordinal(seg, o, i + 1)
    }
}

/// The outline of a file, or of one node and what is below it.
///
/// No path down a tree is longer than the table, so nothing is cut off where the rows form trees.
pub open spec fn outline_items(seg: SegmentReader, all: bool, root: Option<u32>) -> Seq<
    OutlineItem,
> {
    let levels = seg.rows@.len();
    match root {
        Some(o) => {
            let r = row_of_ordinal(seg, o, 0);
            if r < seg.rows@.len() {
                tree(seg, all, r, 0, levels)
            } else {
                seq![]
            }
        },
        None => forest(seg, all, rows_wanted(seg, RowsWanted::Top), 0, 0, levels),
    }
}

// ───────────────────────────── listing rows ─────────────────────────────

proof fn lemma_lists_rows_unique(seg: SegmentReader, s: Seq<int>, t: Seq<int>)
    requires
        forall|a: int, b: int|
            #![trigger s[a], s[b]]
            0 <= a < b < s.len() ==> row_precedes(seg, s[a], s[b]),
        forall|a: int, b: int|
            #![trigger t[a], t[b]]
            0 <= a < b < t.len() ==> row_precedes(seg, t[a], t[b]),
        forall|r: int| #[trigger] s.contains(r) == t.contains(r),
    ensures
        s == t,
    decreases s.len(),
{
    if s.len() == 0 {
        if t.len() > 0 {
            assert(t.contains(t[0]));
            assert(s.contains(t[0]));
        }
        assert(s =~= t);
    } else {
        assert(s.contains(s[0]));
        let k = choose|k: int| 0 <= k < t.len() && t[k] == s[0];
        assert(t.contains(t[0]));
        assert(s.contains(t[0]));
        let j = choose|j: int| 0 <= j < s.len() && s[j] == t[0];
        if k > 0 {
            assert(row_precedes(seg, t[0], t[k]));
            if j > 0 {
                assert(row_precedes(seg, s[0], s[j]));
            }
        }
        assert(s[0] == t[0]);
        let s1 = s.drop_first();
        let t1 = t.drop_first();
        assert forall|r: int| #[trigger] s1.contains(r) == t1.contains(r) by {
            if s1.contains(r) {
                let a = choose|a: int| 0 <= a < s1.len() && s1[a] == r;
                assert(s[a + 1] == r);
                assert(row_precedes(seg, s[0], s[a + 1]));
                assert(s.contains(r));
                let b = choose|b: int| 0 <= b < t.len() && t[b] == r;
                assert(b > 0);
                assert(t1[b - 1] == r);
            }
            if t1.contains(r) {
                let a = choose|a: int| 0 <= a < t1.len() && t1[a] == r;
                assert(t[a + 1] == r);
                assert(row_precedes(seg, t[0], t[a + 1]));
                assert(t.contains(r));
                assert(s.contains(r));
                let b = choose|b: int| 0 <= b < s.len() && s[b] == r;
                assert(b > 0);
                assert(s1[b - 1] == r);
            }
        }
        assert forall|a: int, b: int|
            #![trigger s1[a], s1[b]]
            0 <= a < b < s1.len() implies row_precedes(seg, s1[a], s1[b]) by {
            assert(row_precedes(seg, s[a + 1], s[b + 1]));
        }
        assert forall|a: int, b: int|
            #![trigger t1[a], t1[b]]
            0 <= a < b < t1.len() implies row_precedes(seg, t1[a], t1[b]) by {
            assert(row_precedes(seg, t[a + 1], t[b + 1]));
        }
        lemma_lists_rows_unique(seg, s1, t1);
        assert(s =~= t) by {
            assert forall|i: int| 0 <= i < s.len() implies s[i] == t[i] by {
                if i > 0 {
                    assert(s1[i - 1] == t1[i - 1]);
                }
            }
            assert(s1.len() == t1.len());
        }
    }
}

proof fn lemma_rows_wanted(seg: SegmentReader, want: RowsWanted, s: Seq<int>)
    requires
        lists_rows(seg, want, s),
    ensures
        rows_wanted(seg, want) == s,
{
    let t = rows_wanted(seg, want);
    assert(lists_rows(seg, want, t));
    assert forall|r: int| #[trigger] s.contains(r) == t.contains(r) by {
        if s.contains(r) {
            let a = choose|a: int| 0 <= a < s.len() && s[a] == r;
            assert(wanted(seg, want, s[a]));
        }
        if t.contains(r) {
            let a = choose|a: int| 0 <= a < t.len() && t[a] == r;
            assert(wanted(seg, want, t[a]));
        }
    }
    lemma_lists_rows_unique(seg, s, t);
}

/// The rows of a segment, ranked by the number of the node above them and then by line.
struct NavTable<'a> {
    seg: &'a SegmentReader,
}

impl<'a> RankTable for NavTable<'a> {
    closed spec fn size(&self) -> nat {
        self.seg.rows@.len()
    }

    closed spec fn readable(&self) -> bool {
        true
    }

    closed spec fn ranks_before(&self, i: int, j: int) -> bool {
        let a = self.seg.rows@[i];
        let b = self.seg.rows@[j];
        a.parent_ordinal < b.parent_ordinal || (a.parent_ordinal == b.parent_ordinal && a.line
            < b.line)
    }

    proof fn strict_weak_order(&self, i: int, j: int, k: int) {
    }

    fn count(&self) -> (n: usize) {
        self.seg.rows.len()
    }

    fn is_before(&self, i: usize, j: usize) -> (r: bool) {
        let a = &self.seg.rows[i];
        let b = &self.seg.rows[j];
        a.parent_ordinal < b.parent_ordinal || (a.parent_ordinal == b.parent_ordinal && a.line
            < b.line)
    }
}

/// The rows of a segment, ranked by line.
struct LineTable<'a> {
    seg: &'a SegmentReader,
}

impl<'a> RankTable for LineTable<'a> {
    closed spec fn size(&self) -> nat {
        self.seg.rows@.len()
    }

    closed spec fn readable(&self) -> bool {
        true
    }

    closed spec fn ranks_before(&self, i: int, j: int) -> bool {
        self.seg.rows@[i].line < self.seg.rows@[j].line
    }

    proof fn strict_weak_order(&self, i: int, j: int, k: int) {
    }

    fn count(&self) -> (n: usize) {
        self.seg.rows.len()
    }

    fn is_before(&self, i: usize, j: usize) -> (r: bool) {
        self.seg.rows[i].line < self.seg.rows[j].line
    }
}

/// The rows of a list, as numbers.
spec fn as_rows(v: Seq<usize>) -> Seq<int> {
    v.map_values(|x: usize| x as int)
}

fn children_of(seg: &SegmentReader, nav: &Vec<usize>, o: u32) -> (out: Vec<usize>)
    requires
        is_sorted_order(&(NavTable { seg }), nav@),
    ensures
        as_rows(out@) == rows_wanted(*seg, RowsWanted::Under(o)),
        forall|a: int| 0 <= a < out@.len() ==> (#[trigger] out@[a]) < seg.rows@.len(),
{
    let ghost table = NavTable { seg };
    let n: usize = nav.len();
    let mut lo: usize = 0;
    let mut hi: usize = n;
    while lo < hi
        invariant
            is_sorted_order(&table, nav@),
            table == (NavTable { seg }),
            n == nav@.len() == seg.rows@.len(),
            lo <= hi <= n,
            forall|a: int|
                0 <= a < lo ==> seg.rows@[#[trigger] nav@[a] as int].parent_ordinal < o,
            forall|a: int|
                hi <= a < n ==> seg.rows@[#[trigger] nav@[a] as int].parent_ordinal >= o,
        decreases hi - lo,
    {
        let mid: usize = lo + (hi - lo) / 2;
        if seg.rows[nav[mid]].parent_ordinal < o {
            proof {
                assert forall|a: int| 0 <= a <= mid implies seg.rows@[#[trigger] nav@[a] as int].parent_ordinal
                    < o by {
                    if a < mid {
                        assert(sorts_before(&table, nav@[a] as int, nav@[mid as int] as int));
                    }
                }
            }
            lo = mid + 1;
        } else {
            proof {
                assert forall|a: int| mid <= a < n implies seg.rows@[#[trigger] nav@[a] as int].parent_ordinal
                    >= o by {
                    if a > mid {
                        assert(sorts_before(&table, nav@[mid as int] as int, nav@[a] as int));
                    }
                }
            }
            hi = mid;
        }
    }
    let mut out: Vec<usize> = Vec::new();
    let mut k: usize = lo;
    while k < n && seg.rows[nav[k]].parent_ordinal == o
        invariant
            is_sorted_order(&table, nav@),
            table == (NavTable { seg }),
            n == nav@.len() == seg.rows@.len(),
            lo <= k <= n,
            out@.len() == k - lo,
            forall|a: int| 0 <= a < out@.len() ==> #[trigger] out@[a] == nav@[lo + a],
            forall|a: int|
                lo <= a < k ==> seg.rows@[#[trigger] nav@[a] as int].parent_ordinal == o,
        decreases n - k,
    {
        out.push(nav[k]);
        k += 1;
    }
    proof {
        let s = as_rows(out@);
        let want = RowsWanted::Under(o);
        assert forall|a: int, b: int|
            #![trigger s[a], s[b]]
            0 <= a < b < s.len() implies row_precedes(*seg, s[a], s[b]) by {
            assert(out@[a] == nav@[lo + a] && out@[b] == nav@[lo + b]);
            assert(sorts_before(&table, nav@[lo + a] as int, nav@[lo + b] as int));
        }
        assert forall|a: int| 0 <= a < s.len() implies 0 <= (#[trigger] s[a]) < seg.rows@.len()
            && wanted(*seg, want, s[a]) by {
            assert(out@[a] == nav@[lo + a]);
        }
        assert forall|r: int|
            0 <= r < seg.rows@.len() && #[trigger] wanted(*seg, want, r) implies s.contains(r) by {
            assert(nav@.contains(r as usize));
            let a = choose|a: int| 0 <= a < nav@.len() && nav@[a] == r as usize;
            assert(a >= lo);
            if a >= k {
                assert(seg.rows@[nav@[k as int] as int].parent_ordinal >= o);
                if a > k {
                    assert(sorts_before(&table, nav@[k as int] as int, nav@[a] as int));
                }
                assert(false);
            }
            assert(out@[a - lo] == nav@[lo + (a - lo)]);
            assert(s[a - lo] == r);
        }
        lemma_rows_wanted(*seg, want, s);
        assert forall|a: int| 0 <= a < out@.len() implies (#[trigger] out@[a])
            < seg.rows@.len() by {
            assert(out@[a] == nav@[lo + a]);
        }
    }
    out
}

fn find_ordinal_row(seg: &SegmentReader, o: u32) -> (r: usize)
    ensures
        r == row_of_ordinal(*seg, o, 0),
        r <= seg.rows@.len(),
        r < seg.rows@.len() ==> seg.rows@[r as int].ordinal == Some(o),
        r == seg.rows@.len() ==> !has_ordinal(*seg, o),
{
    let mut r: usize = 0;
    while r < seg.rows.len()
        invariant
            r <= seg.rows@.len(),
            row_of_ordinal(*seg, o, 0) == row_of_ordinal(*seg, o, r as int),
            forall|k: int| 0 <= k < r ==> (#[trigger] seg.rows@[k]).ordinal != Some(o),
        decreases seg.rows.len() - r,
    {
        match seg.rows[r].ordinal {
            Some(x) => {
                if x == o {
                    return r;
                }
            },
            None => {},
        }
        r += 1;
    }
    r
}

/// The numbers of a segment's rows, ascending.
struct OrdinalTable<'a> {
    items: &'a Vec<u32>,
}

impl<'a> RankTable for OrdinalTable<'a> {
    closed spec fn size(&self) -> nat {
        self.items@.len()
    }

    closed spec fn readable(&self) -> bool {
        true
    }

    closed spec fn ranks_before(&self, i: int, j: int) -> bool {
        self.items@[i] < self.items@[j]
    }

    proof fn strict_weak_order(&self, i: int, j: int, k: int) {
    }

    fn count(&self) -> (n: usize) {
        self.items.len()
    }

    fn is_before(&self, i: usize, j: usize) -> (r: bool) {
        self.items[i] < self.items[j]
    }
}

/// Every number of a segment's rows, ascending.
fn sorted_ordinals(seg: &SegmentReader) -> (out: Vec<u32>)
    ensures
        forall|a: int, b: int|
            #![trigger out@[a], out@[b]]
            0 <= a < b < out@.len() ==> out@[a] <= out@[b],
        forall|o: u32| #[trigger] out@.contains(o) == has_ordinal(*seg, o),
{
    let mut all: Vec<u32> = Vec::new();
    let mut r: usize = 0;
    while r < seg.rows.len()
        invariant
            r <= seg.rows@.len(),
            forall|o: u32| #[trigger]
                all@.contains(o) == (exists|k: int|
                    0 <= k < r && (#[trigger] seg.rows@[k]).ordinal == Some(o)),
        decreases seg.rows.len() - r,
    {
        let ghost was = all@;
        match seg.rows[r].ordinal {
            Some(x) => {
                all.push(x);
            },
            None => {},
        }
        proof {
            assert forall|o: u32| #[trigger] all@.contains(o) == (exists|k: int|
                0 <= k < r + 1 && (#[trigger] seg.rows@[k]).ordinal == Some(o)) by {
                if all@.contains(o) {
                    let a = choose|a: int| 0 <= a < all@.len() && all@[a] == o;
                    if a < was.len() {
                        assert(was[a] == o);
                        assert(was.contains(o));
                        let k = choose|k: int|
                            0 <= k < r && (#[trigger] seg.rows@[k]).ordinal == Some(o);
                        assert(k < r + 1);
                    } else {
                        assert(seg.rows@[r as int].ordinal == Some(o));
                    }
                }
                if exists|k: int| 0 <= k < r + 1 && (#[trigger] seg.rows@[k]).ordinal == Some(o) {
                    let k = choose|k: int|
                        0 <= k < r + 1 && (#[trigger] seg.rows@[k]).ordinal == Some(o);
                    if k < r {
                        assert(was.contains(o));
                        let a = choose|a: int| 0 <= a < was.len() && was[a] == o;
                        assert(all@[a] == o);
                    } else {
                        assert(all@[was.len() as int] == o);
                    }
                }
            }
        }
        r += 1;
    }
    let table = OrdinalTable { items: &all };
    let order = sorted_order(&table);
    let mut out: Vec<u32> = Vec::new();
    let mut i: usize = 0;
    while i < order.len()
        invariant
            is_sorted_order(&table, order@),
            table.items == &all,
            i <= order@.len(),
            out@.len() == i,
            forall|a: int| 0 <= a < i ==> #[trigger] out@[a] == all@[order@[a] as int],
        decreases order.len() - i,
    {
        out.push(all[order[i]]);
        i += 1;
    }
    proof {
        assert forall|a: int, b: int|
            #![trigger out@[a], out@[b]]
            0 <= a < b < out@.len() implies out@[a] <= out@[b] by {
            assert(sorts_before(&table, order@[a] as int, order@[b] as int));
        }
        assert forall|o: u32| #[trigger] out@.contains(o) == has_ordinal(*seg, o) by {
            if out@.contains(o) {
                let a = choose|a: int| 0 <= a < out@.len() && out@[a] == o;
                assert(all@.contains(o));
            }
            if has_ordinal(*seg, o) {
                assert(all@.contains(o));
                let k = choose|k: int| 0 <= k < all@.len() && all@[k] == o;
                assert(order@.contains(k as usize));
                let a = choose|a: int| 0 <= a < order@.len() && order@[a] == k as usize;
                assert(out@[a] == o);
            }
        }
    }
    out
}

fn holds_ordinal(sorted: &Vec<u32>, o: u32) -> (r: bool)
    requires
        forall|a: int, b: int|
            #![trigger sorted@[a], sorted@[b]]
            0 <= a < b < sorted@.len() ==> sorted@[a] <= sorted@[b],
    ensures
        r == sorted@.contains(o),
{
    let mut lo: usize = 0;
    let mut hi: usize = sorted.len();
    while lo < hi
        invariant
            forall|a: int, b: int|
                #![trigger sorted@[a], sorted@[b]]
                0 <= a < b < sorted@.len() ==> sorted@[a] <= sorted@[b],
            lo <= hi <= sorted@.len(),
            forall|a: int| 0 <= a < lo ==> (#[trigger] sorted@[a]) < o,
            forall|a: int| hi <= a < sorted@.len() ==> (#[trigger] sorted@[a]) > o,
        decreases hi - lo,
    {
        let mid: usize = lo + (hi - lo) / 2;
        if sorted[mid] == o {
            assert(sorted@[mid as int] == o);
            return true;
        } else if sorted[mid] < o {
            lo = mid + 1;
        } else {
            hi = mid;
        }
    }
    false
}

fn top_rows(seg: &SegmentReader) -> (out: Vec<usize>)
    ensures
        as_rows(out@) == rows_wanted(*seg, RowsWanted::Top),
        forall|a: int| 0 <= a < out@.len() ==> (#[trigger] out@[a]) < seg.rows@.len(),
{
    let table = LineTable { seg };
    let order = sorted_order(&table);
    let ordinals = sorted_ordinals(seg);
    let mut out: Vec<usize> = Vec::new();
    let mut i: usize = 0;
    let ghost want = RowsWanted::Top;
    while i < order.len()
        invariant
            want == RowsWanted::Top,
            table == (LineTable { seg }),
            is_sorted_order(&table, order@),
            forall|a: int, b: int|
                #![trigger ordinals@[a], ordinals@[b]]
                0 <= a < b < ordinals@.len() ==> ordinals@[a] <= ordinals@[b],
            forall|o: u32| #[trigger] ordinals@.contains(o) == has_ordinal(*seg, o),
            i <= order@.len(),
            order@.len() == seg.rows@.len(),
            forall|a: int|
                0 <= a < out@.len() ==> (#[trigger] out@[a]) < seg.rows@.len() && wanted(
                    *seg,
                    want,
                    out@[a] as int,
                ),
            forall|a: int, b: int|
                #![trigger out@[a], out@[b]]
                0 <= a < b < out@.len() ==> row_precedes(*seg, out@[a] as int, out@[b] as int),
            forall|a: int, b: int|
                #![trigger out@[a], order@[b]]
                0 <= a < out@.len() && i <= b < order@.len() ==> row_precedes(
                    *seg,
                    out@[a] as int,
                    order@[b] as int,
                ),
            forall|b: int|
                0 <= b < i && wanted(*seg, want, order@[b] as int) ==> out@.contains(
                    #[trigger] order@[b],
                ),
        decreases order.len() - i,
    {
        let ghost was = out@;
        let r: usize = order[i];
        let parent: u32 = seg.rows[r].parent_ordinal;
        if parent == 0xffff_ffff || !holds_ordinal(&ordinals, parent) {
            out.push(r);
            assert(wanted(*seg, want, r as int));
            assert(out@[was.len() as int] == r);
        }
        proof {
            assert forall|a: int, b: int|
                #![trigger out@[a], order@[b]]
                0 <= a < out@.len() && i + 1 <= b < order@.len() implies row_precedes(
                *seg,
                out@[a] as int,
                order@[b] as int,
            ) by {
                if a < was.len() {
                    assert(was[a] == out@[a]);
                } else {
                    assert(sorts_before(&table, order@[i as int] as int, order@[b] as int));
                }
            }
            assert forall|a: int, b: int|
                #![trigger out@[a], out@[b]]
                0 <= a < b < out@.len() implies row_precedes(
                *seg,
                out@[a] as int,
                out@[b] as int,
            ) by {
                if b == was.len() {
                    assert(was[a] == out@[a]);
                    assert(out@[b] == order@[i as int]);
                } else {
                    assert(was[a] == out@[a] && was[b] == out@[b]);
                }
            }
            assert forall|b: int|
                0 <= b < i + 1 && wanted(*seg, want, order@[b] as int) implies out@.contains(
                #[trigger] order@[b],
            ) by {
                if b < i {
                    assert(was.contains(order@[b]));
                    let a = choose|a: int| 0 <= a < was.len() && was[a] == order@[b];
                    assert(out@[a] == order@[b]);
                }
            }
        }
        i += 1;
    }
    proof {
        let s = as_rows(out@);
        assert forall|a: int, b: int|
            #![trigger s[a], s[b]]
            0 <= a < b < s.len() implies row_precedes(*seg, s[a], s[b]) by {
            assert(s[a] == out@[a] && s[b] == out@[b]);
        }
        assert forall|a: int| 0 <= a < s.len() implies 0 <= (#[trigger] s[a]) < seg.rows@.len()
            && wanted(*seg, want, s[a]) by {
            assert(s[a] == out@[a]);
        }
        assert forall|r: int|
            0 <= r < seg.rows@.len() && #[trigger] wanted(*seg, want, r) implies s.contains(r) by {
            assert(order@.contains(r as usize));
            let b = choose|b: int| 0 <= b < order@.len() && order@[b] == r as usize;
            assert(out@.contains(order@[b]));
            let a = choose|a: int| 0 <= a < out@.len() && out@[a] == order@[b];
            assert(s[a] == r);
        }
        lemma_rows_wanted(*seg, want, s);
    }
    out
}


// ───────────────────────────── walking ─────────────────────────────

/// How many rows a walk down from row `r` visits.
spec fn tree_size(seg: SegmentReader, r: int, levels: nat) -> nat
    decreases levels, 0int,
{
    if levels == 0 {
        1
    } else {
        1 + forest_size(seg, kids_of(seg, r), 0, (levels - 1) as nat)
    }
}

spec fn forest_size(seg: SegmentReader, rows: Seq<int>, i: int, levels: nat) -> nat
    decreases levels, rows.len() - i + 1,
{
    if i < 0 || i >= rows.len() {
        0
    } else {
        tree_size(seg, rows[i], levels) + forest_size(seg, rows, i + 1, levels)
    }
}

/// What is left to walk, the next row last: each row with its depth and the levels below it.
struct Pending {
    row: usize,
    depth: usize,
    levels: usize,
}

spec fn pending_items(seg: SegmentReader, all: bool, stack: Seq<Pending>) -> Seq<OutlineItem>
    decreases stack.len(),
{
    if stack.len() == 0 {
        seq![]
    } else {
        let p = stack.last();
        tree(seg, all, p.row as int, p.depth as nat, p.levels as nat) + pending_items(
            seg,
            all,
            stack.drop_last(),
        )
    }
}

spec fn pending_size(seg: SegmentReader, stack: Seq<Pending>) -> nat
    decreases stack.len(),
{
    if stack.len() == 0 {
        0
    } else {
        let p = stack.last();
        tree_size(seg, p.row as int, p.levels as nat) + pending_size(seg, stack.drop_last())
    }
}

/// Puts rows on the stack so that the first is walked first.
fn push_rows(
    seg: &SegmentReader,
    Ghost(all): Ghost<bool>,
    stack: &mut Vec<Pending>,
    rows: &Vec<usize>,
    depth: usize,
    levels: usize,
)
    requires
        forall|a: int| 0 <= a < rows@.len() ==> (#[trigger] rows@[a]) < seg.rows@.len(),
        forall|a: int|
            0 <= a < old(stack)@.len() ==> in_bounds(*seg, #[trigger] old(stack)@[a]),
        depth + levels <= seg.rows@.len(),
    ensures
        forall|a: int|
            0 <= a < final(stack)@.len() ==> in_bounds(*seg, #[trigger] final(stack)@[a]),
        pending_items(*seg, all, final(stack)@) == forest(
            *seg,
            all,
            as_rows(rows@),
            0,
            depth as nat,
            levels as nat,
        ) + pending_items(*seg, all, old(stack)@),
        pending_size(*seg, final(stack)@) == forest_size(*seg, as_rows(rows@), 0, levels as nat)
            + pending_size(*seg, old(stack)@),
{
    let ghost start = stack@;
    let ghost list = as_rows(rows@);
    let mut i: usize = rows.len();
    assert(forest(*seg, all, list, i as int, depth as nat, levels as nat) + pending_items(
        *seg,
        all,
        start,
    ) =~= pending_items(*seg, all, start));
    while i > 0
        invariant
            i <= rows@.len(),
            list == as_rows(rows@),
            depth + levels <= seg.rows@.len(),
            forall|a: int| 0 <= a < rows@.len() ==> (#[trigger] rows@[a]) < seg.rows@.len(),
            forall|a: int|
                0 <= a < stack@.len() ==> in_bounds(*seg, #[trigger] stack@[a]),
            pending_items(*seg, all, stack@) == forest(
                *seg,
                all,
                list,
                i as int,
                depth as nat,
                levels as nat,
            ) + pending_items(*seg, all, start),
            pending_size(*seg, stack@) == forest_size(*seg, list, i as int, levels as nat)
                + pending_size(*seg, start),
        decreases i,
    {
        let ghost was = stack@;
        i -= 1;
        let p = Pending { row: rows[i], depth, levels };
        stack.push(p);
        proof {
            assert(stack@.drop_last() =~= was);
            assert(list[i as int] == rows@[i as int] as int);
            assert(pending_items(*seg, all, stack@) =~= forest(
                *seg,
                all,
                list,
                i as int,
                depth as nat,
                levels as nat,
            ) + pending_items(*seg, all, start));
        }
    }
}

spec fn in_bounds(seg: SegmentReader, p: Pending) -> bool {
    p.row < seg.rows@.len() && p.depth + p.levels <= seg.rows@.len()
}

spec fn as_items(v: Seq<(usize, usize)>) -> Seq<OutlineItem> {
    v.map_values(|x: (usize, usize)| OutlineItem { row: x.0 as int, depth: x.1 as nat })
}

fn walk(seg: &SegmentReader, all: bool, root: Option<u32>) -> (out: Vec<(usize, usize)>)
    ensures
        as_items(out@) == outline_items(*seg, all, root),
        forall|a: int| 0 <= a < out@.len() ==> (#[trigger] out@[a]).0 < seg.rows@.len(),
{
    let nav = sorted_order(&NavTable { seg });
    let levels: usize = seg.rows.len();
    let mut stack: Vec<Pending> = Vec::new();
    let ghost total = outline_items(*seg, all, root);
    match root {
        Some(o) => {
            let r: usize = find_ordinal_row(seg, o);
            if r < seg.rows.len() {
                let p = Pending { row: r, depth: 0, levels };
                stack.push(p);
                proof {
                    assert(stack@.drop_last() =~= seq![]);
                    assert(pending_items(*seg, all, stack@.drop_last()) =~= seq![]);
                    assert(stack@.last() == p);
                    assert(pending_items(*seg, all, stack@) =~= tree(
                        *seg,
                        all,
                        r as int,
                        0,
                        levels as nat,
                    ));
                }
            } else {
                assert(pending_items(*seg, all, stack@) =~= seq![]);
            }
        },
        None => {
            let tops = top_rows(seg);
            push_rows(seg, Ghost(all), &mut stack, &tops, 0, levels);
            proof {
                let f = forest(*seg, all, as_rows(tops@), 0, 0, levels as nat);
                assert(f + Seq::<OutlineItem>::empty() =~= f);
            }
        },
    }
    let mut out: Vec<(usize, usize)> = Vec::new();
    assert(as_items(out@) + pending_items(*seg, all, stack@) =~= total);
    while stack.len() > 0
        invariant
            is_sorted_order(&(NavTable { seg }), nav@),
            levels == seg.rows@.len(),
            forall|a: int|
                0 <= a < stack@.len() ==> in_bounds(*seg, #[trigger] stack@[a]),
            forall|a: int| 0 <= a < out@.len() ==> (#[trigger] out@[a]).0 < seg.rows@.len(),
            as_items(out@) + pending_items(*seg, all, stack@) == total,
        decreases pending_size(*seg, stack@),
    {
        let ghost was = stack@;
        let ghost before = out@;
        let ghost rest = was.drop_last();
        proof {
            assert(in_bounds(*seg, was[was.len() - 1]));
        }
        let top = stack.pop();
        match top {
            Some(p) => {
                assert(stack@ =~= rest);
                assert(p == was.last());
                if p.levels > 0 {
                    let r: usize = p.row;
                    let emit = all || outline_is_structural(seg.rows[r].fql_kind.as_str());
                    let depth: usize = if emit {
                        out.push((r, p.depth));
                        p.depth + 1
                    } else {
                        p.depth
                    };
                    let ghost below = forest(
                        *seg,
                        all,
                        kids_of(*seg, r as int),
                        0,
                        depth as nat,
                        (p.levels - 1) as nat,
                    );
                    let kids: Vec<usize> = match seg.rows[r].ordinal {
                        Some(o) => children_of(seg, &nav, o),
                        None => Vec::new(),
                    };
                    assert(as_rows(kids@) =~= kids_of(*seg, r as int));
                    proof {
                        assert forall|a: int| 0 <= a < stack@.len() implies in_bounds(
                            *seg,
                            #[trigger] stack@[a],
                        ) by {
                            assert(was[a] == stack@[a]);
                        }
                    }
                    push_rows(seg, Ghost(all), &mut stack, &kids, depth, p.levels - 1);
                    proof {
                        if emit {
                            let item = OutlineItem { row: r as int, depth: p.depth as nat };
                            assert(as_items(out@) =~= as_items(before).push(item));
                            assert(as_items(out@) + (below + pending_items(*seg, all, rest))
                                =~= as_items(before) + ((seq![item] + below) + pending_items(
                                *seg,
                                all,
                                rest,
                            )));
                        } else {
                            assert(as_items(out@) + (below + pending_items(*seg, all, rest))
                                =~= as_items(before) + (below + pending_items(*seg, all, rest)));
                        }
                    }
                } else {
                    proof {
                        assert(Seq::<OutlineItem>::empty() + pending_items(*seg, all, rest)
                            =~= pending_items(*seg, all, rest));
                        assert forall|a: int| 0 <= a < stack@.len() implies in_bounds(
                            *seg,
                            #[trigger] stack@[a],
                        ) by {
                            assert(was[a] == stack@[a]);
                        }
                    }
                }
            },
            None => {},
        }
    }
    assert(as_items(out@) =~= total);
    out
}

// ───────────────────────────── entries ─────────────────────────────

/// One line of an outline.
#[derive(Debug)]
pub struct OutlineEntry {
    pub name: String,
    pub fql_kind: String,
    pub path: String,
    pub line: usize,
    pub node_id: Option<String>,
    pub depth: usize,
}

/// The kind that an outline shows for a row.
pub open spec fn shown_kind(kind: Seq<char>) -> Seq<char> {
    if kind.len() == 0 {
        "unknown"@
    } else {
        kind
    }
}

/// Whether an entry is that of an outlined row.
pub open spec fn is_outline_entry(
    e: OutlineEntry,
    seg: SegmentReader,
    path: Seq<char>,
    handles: HandleSource,
    item: OutlineItem,
) -> bool {
    let row = seg.rows@[item.row];
    &&& e.name@ == row.name@
    &&& e.fql_kind@ == shown_kind(row.fql_kind@)
    &&& e.path@ == path
    &&& e.line == row.line
    &&& e.depth == item.depth
    &&& opt_string(e.node_id) == (match row.ordinal {
        Some(o) => Some(handles.text(o as nat)),
        None => None,
    })
}

/// Whether entries are those of the outline of a segment, or of one node and what is below it.
pub open spec fn outlines(
    entries: Seq<OutlineEntry>,
    seg: SegmentReader,
    path: Seq<char>,
    handles: HandleSource,
    all: bool,
    root: Option<u32>,
) -> bool {
    let items = outline_items(seg, all, root);
    entries.len() == items.len() && forall|i: int|
        0 <= i < entries.len() ==> is_outline_entry(
            #[trigger] entries[i],
            seg,
            path,
            handles,
            items[i],
        )
}

/// The outline of a segment, or of one node and what is below it.
///
/// Without `all` only declarations are shown, and depth counts declarations alone.
pub fn outline_tree(
    seg: &SegmentReader,
    path: &str,
    handles: Handles<'_>,
    all: bool,
    root: Option<u32>,
) -> (out: Vec<OutlineEntry>)
    ensures
        outlines(out@, *seg, path@, handles.source(), all, root),
{
    let items = walk(seg, all, root);
    let mut out: Vec<OutlineEntry> = Vec::new();
    let mut i: usize = 0;
    let ghost spec_items = outline_items(*seg, all, root);
    assert(as_items(items@).len() == items@.len());
    while i < items.len()
        invariant
            i <= items@.len(),
            out@.len() == i,
            as_items(items@) == spec_items,
            forall|a: int| 0 <= a < items@.len() ==> (#[trigger] items@[a]).0 < seg.rows@.len(),
            forall|k: int|
                0 <= k < i ==> is_outline_entry(
                    #[trigger] out@[k],
                    *seg,
                    path@,
                    handles.source(),
                    spec_items[k],
                ),
        decreases items.len() - i,
    {
        let r: usize = items[i].0;
        let kind = seg.rows[r].fql_kind.as_str();
        let fql_kind: String = if kind.unicode_len() == 0 {
            "unknown".to_owned()
        } else {
            kind.to_owned()
        };
        let node_id: Option<String> = match seg.rows[r].ordinal {
            Some(o) => Some(handles.id(o)),
            None => None,
        };
        assert(spec_items[i as int] == as_items(items@)[i as int]);
        out.push(
            OutlineEntry {
                name: seg.rows[r].name.clone(),
                fql_kind,
                path: path.to_owned(),
                line: seg.rows[r].line as usize,
                node_id,
                depth: items[i].1,
            },
        );
        i += 1;
    }
    out
}


// ───────────────────────────── files and nodes ─────────────────────────────

/// Where the rows of an outline come from.
pub enum OutlineSource {
    /// A segment of the overlay.
    Committed(int),
    /// A segment of the session.
    Session(int),
}

/// The path that an outline shows for a file of the workspace.
pub open spec fn shown_path(root: Seq<char>, source_path: Seq<char>) -> Seq<char> {
    relative_to(joined(root, source_path), root)
}

fn display_path(root: &str, source_path: &str) -> (s: String)
    ensures
        s@ == shown_path(root@, source_path@),
{
    let abs = join_path(root, source_path);
    segment_source_rel(abs.as_str(), root)
}

impl ColumnarStorage {
    /// Whether entries outline one source, or one node of it and what is below it.
    pub open spec fn outlines_source(
        &self,
        entries: Seq<OutlineEntry>,
        source: OutlineSource,
        ws_root: Seq<char>,
        all: bool,
        root: Option<u32>,
    ) -> bool {
        match source {
            OutlineSource::Committed(i) => {
                let meta = self.index().segments@[i];
                outlines(
                    entries,
                    self.seg(i),
                    shown_path(ws_root, meta.source_path@),
                    HandleSource::OfSegment(meta),
                    all,
                    root,
                )
            },
            OutlineSource::Session(j) => {
                let ds = self.dirty.added@[j];
                outlines(
                    entries,
                    *ds.reader,
                    shown_path(ws_root, ds.source_path@),
                    HandleSource::OfPath(ds.source_path@),
                    all,
                    root,
                )
            },
        }
    }

    /// The first segment of the session, at or after `j`, whose node `ordinal` has this handle.
    pub open spec fn session_node(&self, handle: Seq<char>, ordinal: u32, j: int) -> int
        decreases self.dirty.added@.len() - j,
    {
        if j < 0 || j >= self.dirty.added@.len() {
            self.dirty.added@.len() as int
        } else if path_node_id(self.dirty.added@[j].source_path@, ordinal as nat) == handle {
            j
        } else {
            self.session_node(handle, ordinal, j + 1)
        }
    }

    /// Whether no segment of the overlay has a fingerprint that starts with a prefix.
    pub open spec fn prefix_unknown(&self, hex: Seq<char>) -> bool {
        match hex_bytes(encode_utf8(hex)) {
            None => true,
            Some(head) => forall|j: int|
                0 <= j < self.index().segments@.len() ==> !#[trigger] self.index().digest_starts(
                    j,
                    head,
                ),
        }
    }

    /// Whether entries outline a node: that of the overlay, and else that of the session.
    pub open spec fn outlines_node(
        &self,
        entries: Seq<OutlineEntry>,
        handle: Seq<char>,
        hex: Seq<char>,
        ordinal: u32,
        ws_root: Seq<char>,
        all: bool,
    ) -> bool {
        if !self.prefix_unknown(hex) {
            exists|i: int| #[trigger]
                self.index().is_first_with_head(i, hex_bytes(encode_utf8(hex))->0)
                    && self.outlines_source(
                    entries,
                    OutlineSource::Committed(i),
                    ws_root,
                    all,
                    Some(ordinal),
                )
        } else {
            let j = self.session_node(handle, ordinal, 0);
            if j < self.dirty.added@.len() {
                self.outlines_source(
                    entries,
                    OutlineSource::Session(j),
                    ws_root,
                    all,
                    Some(ordinal),
                )
            } else {
                entries.len() == 0
            }
        }
    }

    /// The outline of a node and what is below it.
    pub fn outline_subtree(
        &self,
        ws_root: &str,
        handle: &str,
        hex: &str,
        ordinal: u32,
        all: bool,
    ) -> (out: Vec<OutlineEntry>)
        requires
            self.wf(),
        ensures
            self.outlines_node(out@, handle@, hex@, ordinal, ws_root@, all),
    {
        match self.shared.overlay.seg_idx_for_node_id_prefix(hex) {
            Some(at) => {
                let i: usize = at as usize;
                let meta = &self.shared.overlay.segments[i];
                let path = display_path(ws_root, meta.source_path.as_str());
                let out = outline_tree(
                    &*self.shared.segments[i],
                    path.as_str(),
                    Handles::OfSegment(meta),
                    all,
                    Some(ordinal),
                );
                proof {
                    let head = hex_bytes(encode_utf8(hex@))->0;
                    assert(self.index().is_first_with_head(i as int, head));
                    assert(self.index().digest_starts(i as int, head));
                    assert(self.outlines_source(
                        out@,
                        OutlineSource::Committed(i as int),
                        ws_root@,
                        all,
                        Some(ordinal),
                    ));
                }
                return out;
            },
            None => {},
        }
        assert(self.prefix_unknown(hex@));
        let mut j: usize = 0;
        while j < self.dirty.added.len()
            invariant
                self.wf(),
                self.prefix_unknown(hex@),
                j <= self.dirty.added@.len(),
                self.session_node(handle@, ordinal, 0) == self.session_node(
                    handle@,
                    ordinal,
                    j as int,
                ),
            decreases self.dirty.added.len() - j,
        {
            let ds = &self.dirty.added[j];
            let id = make_node_id(ds.source_path.as_str(), ordinal);
            if same_text(id.as_str(), handle) {
                let path = display_path(ws_root, ds.source_path.as_str());
                return outline_tree(
                    &*ds.reader,
                    path.as_str(),
                    Handles::OfPath(ds.source_path.as_str()),
                    all,
                    Some(ordinal),
                );
            }
            j += 1;
        }
        Vec::new()
    }

    /// Whether the session holds a segment of a file.
    pub open spec fn edited(&self, path: Seq<char>) -> bool {
        exists|k: int|
            0 <= k < self.dirty.added@.len() && same_path(
                (#[trigger] self.dirty.added@[k]).source_path@,
                path,
            )
    }

    /// The sources that a glob selects among the first `n` segments of the overlay: those whose
    /// files the session has not edited.
    pub open spec fn committed_sources(&self, glob: Seq<char>, n: int) -> Seq<OutlineSource>
        decreases n,
    {
        if n <= 0 {
            seq![]
        } else {
            let path = self.index().segments@[n - 1].source_path@;
            let rest = self.committed_sources(glob, n - 1);
            if glob_selects(path, glob) && !self.edited(path) {
                rest.push(OutlineSource::Committed(n - 1))
            } else {
                rest
            }
        }
    }

    /// The sources that a glob selects among the first `n` segments of the session.
    pub open spec fn session_sources(&self, glob: Seq<char>, n: int) -> Seq<OutlineSource>
        decreases n,
    {
        if n <= 0 {
            seq![]
        } else {
            let rest = self.session_sources(glob, n - 1);
            if glob_selects(self.dirty.added@[n - 1].source_path@, glob) {
                rest.push(OutlineSource::Session(n - 1))
            } else {
                rest
            }
        }
    }

    /// The sources that a glob selects: an edited file answers from the session alone.
    pub open spec fn glob_sources(&self, glob: Seq<char>) -> Seq<OutlineSource> {
        self.committed_sources(glob, self.seg_count() as int) + self.session_sources(
            glob,
            self.dirty.added@.len() as int,
        )
    }

    /// Whether entries are the outlines of some sources, one after the other.
    pub open spec fn outlines_sources(
        &self,
        parts: Seq<Seq<OutlineEntry>>,
        sources: Seq<OutlineSource>,
        ws_root: Seq<char>,
        all: bool,
    ) -> bool {
        parts.len() == sources.len() && forall|k: int|
            0 <= k < parts.len() ==> self.outlines_source(
                #[trigger] parts[k],
                sources[k],
                ws_root,
                all,
                None,
            )
    }

    /// The outlines of the files that a glob selects, one after the other.
    pub fn outline_glob(&self, ws_root: &str, glob: &str, all: bool) -> (out: Vec<OutlineEntry>)
        requires
            self.wf(),
        ensures
            exists|parts: Seq<Seq<OutlineEntry>>| #[trigger]
                self.outlines_sources(parts, self.glob_sources(glob@), ws_root@, all) && out@
                    == parts.flatten(),
    {
        let mut out: Vec<OutlineEntry> = Vec::new();
        let ghost mut parts: Seq<Seq<OutlineEntry>> = seq![];
        let mut i: usize = 0;
        assert(out@ =~= parts.flatten());
        while i < self.shared.segments.len()
            invariant
                self.wf(),
                i <= self.seg_count(),
                self.outlines_sources(
                    parts,
                    self.committed_sources(glob@, i as int),
                    ws_root@,
                    all,
                ),
                out@ == parts.flatten(),
            decreases self.shared.segments.len() - i,
        {
            let meta = &self.shared.overlay.segments[i];
            let found = self.dirty.find_path(meta.source_path.as_str());
            assert(found is None == !self.edited(meta.source_path@));
            if glob_matches(meta.source_path.as_str(), glob) && found.is_none() {
                let path = display_path(ws_root, meta.source_path.as_str());
                let mut more = outline_tree(
                    &*self.shared.segments[i],
                    path.as_str(),
                    Handles::OfSegment(meta),
                    all,
                    None,
                );
                proof {
                    lemma_flatten_push(parts, more@);
                    parts = parts.push(more@);
                }
                out.append(&mut more);
            }
            i += 1;
        }
        let ghost first = self.committed_sources(glob@, self.seg_count() as int);
        let mut j: usize = 0;
        assert(first + self.session_sources(glob@, 0) =~= first);
        while j < self.dirty.added.len()
            invariant
                self.wf(),
                j <= self.dirty.added@.len(),
                first == self.committed_sources(glob@, self.seg_count() as int),
                self.outlines_sources(
                    parts,
                    first + self.session_sources(glob@, j as int),
                    ws_root@,
                    all,
                ),
                out@ == parts.flatten(),
            decreases self.dirty.added.len() - j,
        {
            let ds = &self.dirty.added[j];
            if glob_matches(ds.source_path.as_str(), glob) {
                let path = display_path(ws_root, ds.source_path.as_str());
                let mut more = outline_tree(
                    &*ds.reader,
                    path.as_str(),
                    Handles::OfPath(ds.source_path.as_str()),
                    all,
                    None,
                );
                proof {
                    lemma_flatten_push(parts, more@);
                    parts = parts.push(more@);
                    assert(first + self.session_sources(glob@, j + 1) =~= (first
                        + self.session_sources(glob@, j as int)).push(
                        OutlineSource::Session(j as int),
                    ));
                }
                out.append(&mut more);
            }
            j += 1;
        }
        assert(self.outlines_sources(parts, self.glob_sources(glob@), ws_root@, all));
        out
    }

    /// Whether entries answer `SHOW outline`: the target is a node handle, or a path or glob.
    pub open spec fn answers_outline(
        &self,
        entries: Seq<OutlineEntry>,
        target: Seq<char>,
        ws_root: Seq<char>,
        all: bool,
    ) -> bool {
        match node_target(target) {
            Some(t) => self.outlines_node(entries, target, t.0, t.1 as u32, ws_root, all),
            None => exists|parts: Seq<Seq<OutlineEntry>>| #[trigger]
                self.outlines_sources(parts, self.glob_sources(target), ws_root, all) && entries
                    == parts.flatten(),
        }
    }

    /// `SHOW outline` of a node, a file or a glob.
    pub fn show_outline_for_file(&self, ws_root: &str, target: &str, all: bool) -> (out: Vec<
        OutlineEntry,
    >)
        requires
            self.wf(),
        ensures
            self.answers_outline(out@, target@, ws_root@, all),
    {
        match parse_outline_node_target(target) {
            Some((hex, ordinal)) => self.outline_subtree(
                ws_root,
                target,
                hex.as_str(),
                ordinal,
                all,
            ),
            None => self.outline_glob(ws_root, target, all),
        }
    }
}

proof fn lemma_committed_sources(s: ColumnarStorage, glob: Seq<char>, n: int)
    requires
        0 <= n <= s.index().segments@.len(),
    ensures
        forall|k: int|
            #![trigger s.committed_sources(glob, n)[k]]
            0 <= k < s.committed_sources(glob, n).len() ==> s.committed_sources(
                glob,
                n,
            )[k] is Committed && 0 <= s.committed_sources(glob, n)[k]->Committed_0 < n && !s.edited(
                s.index().segments@[s.committed_sources(glob, n)[k]->Committed_0].source_path@,
            ),
    decreases n,
{
    if n > 0 {
        lemma_committed_sources(s, glob, n - 1);
        let before = s.committed_sources(glob, n - 1);
        let now = s.committed_sources(glob, n);
        assert forall|k: int| #![trigger now[k]] 0 <= k < now.len() implies now[k] is Committed
            && 0 <= now[k]->Committed_0 < n && !s.edited(
            s.index().segments@[now[k]->Committed_0].source_path@,
        ) by {
            if k < before.len() {
                assert(now[k] == before[k]);
            }
        }
    }
}

/// A file edited in the session is outlined from the session alone: no stale segment of the
/// overlay answers for it.
pub proof fn lemma_edited_file_answers_from_session(s: ColumnarStorage, glob: Seq<char>, k: int)
    requires
        s.wf(),
        0 <= k < s.glob_sources(glob).len(),
        s.glob_sources(glob)[k] is Committed,
    ensures
        !s.edited(s.index().segments@[s.glob_sources(glob)[k]->Committed_0].source_path@),
{
    let n = s.seg_count() as int;
    let m = s.dirty.added@.len() as int;
    lemma_committed_sources(s, glob, n);
    lemma_session_sources(s, glob, m);
    let first = s.committed_sources(glob, n);
    if k < first.len() {
        assert(s.glob_sources(glob)[k] == first[k]);
    } else {
        assert(s.glob_sources(glob)[k] == s.session_sources(glob, m)[k - first.len()]);
    }
}

proof fn lemma_session_sources(s: ColumnarStorage, glob: Seq<char>, n: int)
    ensures
        forall|k: int|
            #![trigger s.session_sources(glob, n)[k]]
            0 <= k < s.session_sources(glob, n).len() ==> s.session_sources(
                glob,
                n,
            )[k] is Session,
    decreases n,
{
    if n > 0 {
        lemma_session_sources(s, glob, n - 1);
        let before = s.session_sources(glob, n - 1);
        let now = s.session_sources(glob, n);
        assert forall|k: int| #![trigger now[k]] 0 <= k < now.len() implies now[k] is Session by {
            if k < before.len() {
                assert(now[k] == before[k]);
            }
        }
    }
}

} // verus!
