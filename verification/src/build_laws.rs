//! What building and keeping segments promises: what was indexed is what is read, and nothing that a
//! session staged is lost.

use crate::bytes::{le16, le32};
use crate::columnar_storage::commit::PromoteStep;
use crate::delta_file::{orphans, DeltaFile};
use crate::segment::{extra_of, lists_text, SegmentReader};
use crate::segment_builder::{
    are_links, found_value, is_first_child, is_next, is_segment_of, last_value, NavLinks, NavNode,
    SegmentBuilder, TableRow,
};
use std::sync::Arc;
use vstd::prelude::*;
use vstd::string::*;

verus! {

// ───────────────────────────── rows ─────────────────────────────

proof fn lemma_last_value(fields: Seq<(String, String)>, field: Seq<char>, n: int, k: int)
    requires
        0 <= k < n <= fields.len(),
        fields[k].0@ == field,
        forall|j: int| k < j < n ==> (#[trigger] fields[j]).0@ != field,
    ensures
        last_value(fields, field, n) == Some(fields[k].1@),
    decreases n,
{
    if n - 1 > k {
        lemma_last_value(fields, field, n - 1, k);
    }
}

/// What was indexed is what a segment holds: row by row the name, the kind, the language, the place and the
/// number of a node, and under every field the value that it was given last.
pub proof fn lemma_a_segment_holds_what_was_indexed(
    b: SegmentBuilder,
    rows: Seq<TableRow>,
    start: int,
    i: int,
    k: int,
)
    requires
        is_segment_of(b, rows, start),
        0 <= start <= start + i < rows.len(),
        0 <= i,
    ensures
        b.rows@.len() == rows.len() - start,
        ({
            let (s, t) = (b.rows@[i], rows[start + i]);
            &&& s.name@ == t.name@
            &&& s.fql_kind@ == t.fql_kind@
            &&& s.language@ == t.language@
            &&& t.line <= u32::MAX ==> s.line == t.line
            &&& t.byte_start <= u32::MAX ==> s.byte_start == t.byte_start
            &&& t.byte_end <= u32::MAX ==> s.byte_end == t.byte_end
            &&& s.usages_count == t.usages_count
            &&& s.ordinal == t.ordinal
            &&& t.ordinal is Some ==> s.parent_ordinal == t.parent_ordinal && s.rev == t.rev
            &&& t.ordinal is None ==> s.parent_ordinal == u32::MAX
            &&& 0 <= k < t.fields@.len() && t.fields@[k].0@ != "parent_ordinal"@ && (forall|j: int|
                k < j < t.fields@.len() ==> (#[trigger] t.fields@[j]).0@ != t.fields@[k].0@)
                ==> extra_of(s.extra@, t.fields@[k].0@) == Some(t.fields@[k].1@)
        }),
{
    let (s, t) = (&b.rows@[i], &rows[start + i]);
    assert(crate::segment_builder::stores_row(*t, *s));
    if 0 <= k < t.fields@.len() && t.fields@[k].0@ != "parent_ordinal"@ && (forall|j: int|
        k < j < t.fields@.len() ==> (#[trigger] t.fields@[j]).0@ != t.fields@[k].0@) {
        let f = t.fields@[k].0@;
        lemma_last_value(t.fields@, f, t.fields@.len() as int, k);
        assert(extra_of(s.extra@, f) == found_value(t.fields@, f, t.fields@.len() as int));
    }
}

/// Whether node numbers are each given once.
pub open spec fn numbered_once(nodes: Seq<NavNode>) -> bool {
    forall|i: int, j: int|
        #![trigger nodes[i], nodes[j]]
        0 <= i < j < nodes.len() ==> nodes[i].ordinal != nodes[j].ordinal
}

/// The node beside another is the nearest: the next sibling has the same parent and a larger number, and
/// none of their parent has a number between them. A node has no next sibling only where it is the last of
/// its parent. The first child of a node has the smallest number of those below it.
pub proof fn lemma_links_lead_to_the_nearest_node(
    nodes: Seq<NavNode>,
    links: Seq<NavLinks>,
    a: int,
    c: int,
)
    requires
        are_links(nodes, links),
        numbered_once(nodes),
        0 <= a < nodes.len(),
        0 <= c < nodes.len(),
        forall|i: int| 0 <= i < nodes.len() ==> (#[trigger] nodes[i]).ordinal != u32::MAX,
    ensures
        nodes[c].parent == nodes[a].parent && nodes[c].ordinal > nodes[a].ordinal
            ==> links[a].next_sibling != u32::MAX && nodes[a].ordinal < links[a].next_sibling
            <= nodes[c].ordinal,
        nodes[c].parent == nodes[a].parent && nodes[c].ordinal < nodes[a].ordinal
            ==> links[a].prev_sibling != u32::MAX && nodes[c].ordinal <= links[a].prev_sibling
            < nodes[a].ordinal,
        nodes[c].parent == nodes[a].ordinal ==> links[a].first_child != u32::MAX
            && links[a].first_child <= nodes[c].ordinal,
{
    assert(links[a] == links[a]);
    if nodes[c].parent == nodes[a].parent && nodes[c].ordinal > nodes[a].ordinal {
        let b = lemma_a_next(nodes, a, c);
        assert(is_next(nodes, a, b));
        let d = choose|d: int| #[trigger]
            is_next(nodes, a, d) && links[a].next_sibling == nodes[d].ordinal;
        assert(crate::segment_builder::precedes(nodes, a, c));
        assert(d == c || crate::segment_builder::precedes(nodes, d, c));
    }
    if nodes[c].parent == nodes[a].parent && nodes[c].ordinal < nodes[a].ordinal {
        let b = lemma_a_previous(nodes, a, c);
        assert(is_next(nodes, b, a));
        let d = choose|d: int|
            0 <= d < nodes.len() && #[trigger] is_next(nodes, d, a) && links[a].prev_sibling
                == nodes[d].ordinal;
        assert(crate::segment_builder::precedes(nodes, d, a));
        if nodes[d].ordinal < nodes[c].ordinal {
            assert(crate::segment_builder::precedes(nodes, d, c));
            assert(crate::segment_builder::precedes(nodes, a, c));
        }
    }
    if nodes[c].parent == nodes[a].ordinal {
        let f = lemma_a_first(nodes, nodes[a].ordinal, c);
        assert(is_first_child(nodes, nodes[a].ordinal, f));
        assert(crate::segment_builder::owns_ordinal(nodes, a)) by {
            assert forall|q: int| a < q < nodes.len() implies (#[trigger] nodes[q]).ordinal
                != nodes[a].ordinal by {
                assert(nodes[a] == nodes[a]);
            }
        }
        let d = choose|d: int| #[trigger]
            is_first_child(nodes, nodes[a].ordinal, d) && links[a].first_child == nodes[d].ordinal;
        if d != c {
            assert(crate::segment_builder::precedes(nodes, d, c));
        }
    }
}

proof fn lemma_a_next(nodes: Seq<NavNode>, a: int, c: int) -> (b: int)
    requires
        numbered_once(nodes),
        0 <= a < nodes.len(),
        0 <= c < nodes.len(),
        nodes[c].parent == nodes[a].parent,
        nodes[c].ordinal > nodes[a].ordinal,
    ensures
        is_next(nodes, a, b),
    decreases nodes[c].ordinal,
{
    if exists|d: int|
        0 <= d < nodes.len() && (#[trigger] nodes[d]).parent == nodes[a].parent && nodes[a].ordinal
            < nodes[d].ordinal < nodes[c].ordinal {
        let d = choose|d: int|
            0 <= d < nodes.len() && (#[trigger] nodes[d]).parent == nodes[a].parent
                && nodes[a].ordinal < nodes[d].ordinal < nodes[c].ordinal;
        lemma_a_next(nodes, a, d)
    } else {
        assert forall|d: int|
            0 <= d < nodes.len() && #[trigger] crate::segment_builder::precedes(
                nodes,
                a,
                d,
            ) implies d == c || crate::segment_builder::precedes(nodes, c, d) by {
            lemma_apart(nodes, a, d);
            lemma_apart(nodes, c, d);
            assert(nodes[d].parent == nodes[a].parent);
        }
        c
    }
}

proof fn lemma_apart(nodes: Seq<NavNode>, i: int, j: int)
    requires
        numbered_once(nodes),
        0 <= i < nodes.len(),
        0 <= j < nodes.len(),
    ensures
        i != j ==> nodes[i].ordinal != nodes[j].ordinal,
{
    if i < j {
        assert(nodes[i].ordinal != nodes[j].ordinal);
    } else if j < i {
        assert(nodes[j].ordinal != nodes[i].ordinal);
    }
}

proof fn lemma_a_previous(nodes: Seq<NavNode>, a: int, c: int) -> (b: int)
    requires
        numbered_once(nodes),
        0 <= a < nodes.len(),
        0 <= c < nodes.len(),
        nodes[c].parent == nodes[a].parent,
        nodes[c].ordinal < nodes[a].ordinal,
    ensures
        0 <= b < nodes.len(),
        is_next(nodes, b, a),
    decreases u32::MAX - nodes[c].ordinal,
{
    if exists|d: int|
        0 <= d < nodes.len() && (#[trigger] nodes[d]).parent == nodes[a].parent && nodes[c].ordinal
            < nodes[d].ordinal < nodes[a].ordinal {
        let d = choose|d: int|
            0 <= d < nodes.len() && (#[trigger] nodes[d]).parent == nodes[a].parent
                && nodes[c].ordinal < nodes[d].ordinal < nodes[a].ordinal;
        lemma_a_previous(nodes, a, d)
    } else {
        assert forall|d: int|
            0 <= d < nodes.len() && #[trigger] crate::segment_builder::precedes(
                nodes,
                c,
                d,
            ) implies d == a || crate::segment_builder::precedes(nodes, a, d) by {
            lemma_apart(nodes, a, d);
            lemma_apart(nodes, c, d);
            assert(nodes[d].parent == nodes[a].parent);
        }
        c
    }
}

proof fn lemma_a_first(nodes: Seq<NavNode>, parent: u32, c: int) -> (f: int)
    requires
        numbered_once(nodes),
        0 <= c < nodes.len(),
        nodes[c].parent == parent,
    ensures
        is_first_child(nodes, parent, f),
    decreases nodes[c].ordinal,
{
    if exists|d: int|
        0 <= d < nodes.len() && (#[trigger] nodes[d]).parent == parent && nodes[d].ordinal
            < nodes[c].ordinal {
        let d = choose|d: int|
            0 <= d < nodes.len() && (#[trigger] nodes[d]).parent == parent && nodes[d].ordinal
                < nodes[c].ordinal;
        lemma_a_first(nodes, parent, d)
    } else {
        assert forall|d: int|
            0 <= d < nodes.len() && d != c && (#[trigger] nodes[d]).parent == parent implies crate::segment_builder::precedes(
            nodes,
            c,
            d,
        ) by {
            lemma_apart(nodes, c, d);
        }
        c
    }
}

// ───────────────────────────── what was staged ─────────────────────────────

impl DeltaFile {
    /// Nothing that was staged is lost: every staged file is restored with its reader, or is told as one
    /// to be indexed again.
    pub proof fn lemma_a_staged_file_is_restored_or_told(
        &self,
        opened: Seq<Option<Arc<SegmentReader>>>,
        n: int,
        i: int,
    )
        requires
            0 <= i < n <= opened.len(),
        ensures
            opened[i] is Some ==> self.restored(opened, n).contains(
                (opened[i]->0, self.staged@[i].source_path@, self.staged@[i].replaces_hex@),
            ),
            opened[i] is None ==> self.lost(opened, n).contains(self.staged@[i].source_path@),
            self.restored(opened, n).len() + self.lost(opened, n).len() == n,
        decreases n,
    {
        let (rs, ls) = (self.restored(opened, n), self.lost(opened, n));
        let (r, l) = (self.restored(opened, n - 1), self.lost(opened, n - 1));
        if i < n - 1 {
            self.lemma_a_staged_file_is_restored_or_told(opened, n - 1, i);
            if opened[i] is Some {
                let it = (
                    opened[i]->0,
                    self.staged@[i].source_path@,
                    self.staged@[i].replaces_hex@,
                );
                let k = choose|k: int| 0 <= k < r.len() && r[k] == it;
                assert(rs[k] == it);
            } else {
                let k = choose|k: int| 0 <= k < l.len() && l[k] == self.staged@[i].source_path@;
                assert(ls[k] == self.staged@[i].source_path@);
            }
        } else {
            self.lemma_all_told(opened, n - 1);
            if opened[i] is Some {
                assert(rs[r.len() as int] == (
                    opened[i]->0,
                    self.staged@[i].source_path@,
                    self.staged@[i].replaces_hex@,
                ));
            } else {
                assert(ls[l.len() as int] == self.staged@[i].source_path@);
            }
        }
    }

    proof fn lemma_all_told(&self, opened: Seq<Option<Arc<SegmentReader>>>, n: int)
        requires
            0 <= n <= opened.len(),
        ensures
            self.restored(opened, n).len() + self.lost(opened, n).len() == n,
        decreases n,
    {
        if n > 0 {
            self.lemma_all_told(opened, n - 1);
        }
    }
}

/// The files of a staging directory that may go are those that no record names, and no others.
pub proof fn lemma_only_unnamed_files_are_orphans(
    found: Seq<String>,
    valid: Seq<String>,
    n: int,
    name: Seq<char>,
)
    requires
        0 <= n <= found.len(),
    ensures
        orphans(found, valid, n).contains(name) <==> !lists_text(valid, name) && exists|k: int|
            0 <= k < n && (#[trigger] found[k])@ == name,
    decreases n,
{
    if n > 0 {
        lemma_only_unnamed_files_are_orphans(found, valid, n - 1, name);
        let all = orphans(found, valid, n);
        let rest = orphans(found, valid, n - 1);
        if rest.contains(name) {
            let k = choose|k: int| 0 <= k < rest.len() && rest[k] == name;
            assert(all[k] == name);
            let m = choose|m: int| 0 <= m < n - 1 && (#[trigger] found[m])@ == name;
            assert(found[m]@ == name);
        }
        if all.contains(name) && !rest.contains(name) {
            let k = choose|k: int| 0 <= k < all.len() && all[k] == name;
            if k < rest.len() {
                assert(rest[k] == name);
            }
            assert(found[n - 1]@ == name);
        }
        if found[n - 1]@ == name && !lists_text(valid, name) {
            assert(all[rest.len() as int] == name);
        }
    } else {
        assert(orphans(found, valid, n).len() == 0);
    }
}

// ───────────────────────────── promotions ─────────────────────────────

/// A promotion ends well only where a step put the file in its place or found it there, and badly only where
/// its directory cannot be made or the last step fails; it always ends.
pub proof fn lemma_a_promotion_ends_with_the_file_in_place(step: PromoteStep, held: bool)
    requires
        !(step is Done),
    ensures
        step.after(held) == PromoteStep::Done(true) ==> held && !(step is MakeParent),
        step.after(held) == PromoteStep::Done(false) ==> !held && (step is MakeParent
            || step is Copy),
        held && !(step is MakeParent) ==> step.after(held) == PromoteStep::Done(true),
        step.after(held).steps_left() < step.steps_left(),
{
}

// ───────────────────────────── numbers in files ─────────────────────────────

/// Numbers in files are written with the low byte first.
pub proof fn lemma_the_low_byte_comes_first(file: Seq<u8>, at: int)
    requires
        0 <= at,
        at + 4 <= file.len(),
    ensures
        le16(file, at) == file[at] + 0x100 * file[at + 1],
        le32(file, at) == file[at] + 0x100 * file[at + 1] + 0x1_0000 * file[at + 2] + 0x100_0000
            * file[at + 3],
{
}

} // verus!
