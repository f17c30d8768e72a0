//! The rows that match a query, before any of them is built.
//!
//! A hit is a row of a segment of the overlay. It reads as the result row that it builds, with the
//! usage count of the session stamped onto it. The answer of a query is made of the hits that match,
//! segment by segment in path order, each reported once.

use crate::clauses::{CompareOp, OrderBy, Predicate, PredicateValue};
use crate::collapse::{distinct_by, lemma_distinct_members};
use crate::columnar_storage::ColumnarStorage;
use crate::fields::{
    canonical_text, symbol_text_field, tie_breaker, view_cannot_answer, view_ranks,
};
use crate::filter::{
    delivers_before, first, is_top_k, lemma_row_before_weak, opt_text, orders_rows, predicate_holds,
    reader_of, reading, reading_before, reading_of, row_before, ties_before, ClauseTarget, Reading,
};
use crate::node_id::path_node_id;
use crate::order::{lemma_text_total, PathTable};
use crate::segment::{
    count_number, extra_of, number_in, unless_empty, view_answers, Accessor, RowView, SegmentRow,
    SymbolMatch,
};
use crate::sort::{is_sorted_order, picked};
use crate::top_k::{delivers, lemma_delivers, ordered, weak_order};
use vstd::prelude::*;
use vstd::string::*;

verus! {

/// A row of a segment of the overlay.
pub struct Hit {
    pub seg: int,
    pub row: int,
}

/// Whether a predicate is tested on a row: one on the size of a group is not.
pub open spec fn residual(p: Predicate) -> bool {
    p.field@ != "count"@
}

/// How a predicate reads its field.
pub open spec fn accessor_of(p: Predicate) -> Accessor {
    match p.value {
        PredicateValue::Number(_) => Accessor::Num,
        _ => Accessor::Str,
    }
}

/// Whether a predicate has to wait for a built row: it is a regular expression, or a view does not
/// answer its field. `has_path` says whether the view knows its file.
pub open spec fn waits_on(p: Predicate, has_path: bool) -> bool {
    p.op == CompareOp::Matches || p.op == CompareOp::NotMatches || !view_answers(
        canonical_text(p.field@),
        has_path,
        accessor_of(p),
    )
}

/// Whether a predicate has to wait for a built row, where the view knows its file.
pub open spec fn waits(p: Predicate) -> bool {
    waits_on(p, true)
}

impl ColumnarStorage {
    /// Whether a hit is a row of the overlay.
    pub open spec fn valid_hit(&self, h: Hit) -> bool {
        0 <= h.seg < self.seg_count() && 0 <= h.row < self.seg(h.seg).rows@.len()
    }

    /// The stored row of a hit.
    pub open spec fn hit_row(&self, h: Hit) -> SegmentRow {
        self.seg(h.seg).rows@[h.row]
    }

    /// The file of a hit.
    pub open spec fn hit_path(&self, h: Hit) -> Seq<char> {
        self.index().segments@[h.seg].source_path@
    }

    /// A field of a hit as text.
    pub open spec fn hit_text(&self, h: Hit, field: Seq<char>) -> Option<Seq<char>> {
        let row = self.hit_row(h);
        if field == "name"@ {
            Some(row.name@)
        } else if field == "node_kind"@ {
            None
        } else if field == "fql_kind"@ {
            unless_empty(row.fql_kind@)
        } else if field == "language"@ {
            unless_empty(row.language@)
        } else if field == "path"@ {
            Some(self.hit_path(h))
        } else if field == "node_id"@ {
            match row.ordinal {
                Some(o) => Some(path_node_id(self.hit_path(h), o as nat)),
                None => None,
            }
        } else {
            extra_of(row.extra@, field)
        }
    }

    /// A field of a hit as a number.
    pub open spec fn hit_number(&self, h: Hit, field: Seq<char>) -> Option<int> {
        let row = self.hit_row(h);
        if field == "line"@ {
            if row.line == 0 {
                None
            } else {
                Some(row.line as int)
            }
        } else if field == "usages"@ {
            count_number(Some(self.usages_now(row.name@)))
        } else if field == "count"@ {
            None
        } else {
            number_in(extra_of(row.extra@, field))
        }
    }

    /// How an ordering reads a hit.
    pub open spec fn hit_reader(&self, h: Hit) -> spec_fn(Seq<char>) -> Reading {
        |field: Seq<char>| reading(self.hit_text(h, field), self.hit_number(h, field), field)
    }

    /// How a query ranks hits.
    pub open spec fn hit_before(&self, order_by: Option<OrderBy>) -> spec_fn(Hit, Hit) -> bool {
        |a: Hit, b: Hit| row_before(self.hit_reader(a), self.hit_reader(b), order_by)
    }

    /// Whether a predicate holds of a hit.
    pub open spec fn hit_satisfies(&self, h: Hit, p: Predicate) -> bool {
        let f = canonical_text(p.field@);
        predicate_holds(self.hit_text(h, f), self.hit_number(h, f), p.op, p.value)
    }

    /// Whether the predicates of a query hold of a hit: those that are tested on a row.
    pub open spec fn hit_matches(&self, h: Hit, predicates: Seq<Predicate>) -> bool {
        forall|k: int|
            0 <= k < predicates.len() && residual(#[trigger] predicates[k]) ==> self.hit_satisfies(
                h,
                predicates[k],
            )
    }

    /// Whether the predicates of a query hold of a hit that a view can test.
    pub open spec fn hit_passes_early(&self, h: Hit, predicates: Seq<Predicate>) -> bool {
        forall|k: int|
            0 <= k < predicates.len() && residual(#[trigger] predicates[k]) && !waits(predicates[k])
                ==> self.hit_satisfies(h, predicates[k])
    }

    /// The hits among the first `n` rows of segment `s` that are candidates and match.
    pub open spec fn matched(
        &self,
        s: int,
        candidates: Set<u32>,
        predicates: Seq<Predicate>,
        n: int,
    ) -> Seq<Hit>
        decreases n,
    {
        if n <= 0 {
            seq![]
        } else {
            let rest = self.matched(s, candidates, predicates, n - 1);
            let h = Hit { seg: s, row: n - 1 };
            if candidates.contains((n - 1) as u32) && self.hit_matches(h, predicates) {
                rest.push(h)
            } else {
                rest
            }
        }
    }

    /// What two hits of one segment must share to report one thing.
    pub open spec fn hit_key(&self) -> spec_fn(Hit) -> (Seq<char>, Option<Seq<char>>, u32) {
        |h: Hit|
            (
                self.hit_row(h).name@,
                unless_empty(self.hit_row(h).fql_kind@),
                self.hit_row(h).line,
            )
    }

    /// The hits of segment `s` that match, each reported once.
    pub open spec fn segment_hits(&self, s: int, candidates: Set<u32>, predicates: Seq<Predicate>) -> Seq<
        Hit,
    > {
        let all = self.matched(s, candidates, predicates, self.seg(s).rows@.len() as int);
        distinct_by(all, self.hit_key(), all.len() as int)
    }

    /// The hits of the first `n` segments of an order that match, each reported once.
    pub open spec fn hits_upto(
        &self,
        order: Seq<usize>,
        by: Seq<Set<u32>>,
        predicates: Seq<Predicate>,
        n: int,
    ) -> Seq<Hit>
        decreases n,
    {
        if n <= 0 {
            seq![]
        } else {
            let s = order[n - 1] as int;
            self.hits_upto(order, by, predicates, n - 1) + self.segment_hits(s, by[s], predicates)
        }
    }

    /// Whether `order` lists the segments by path.
    pub open spec fn orders_segments(&self, order: Seq<usize>) -> bool {
        exists|paths: Vec<String>|
            #![trigger is_sorted_order(&(PathTable { items: &paths }), order)]
            is_sorted_order(&(PathTable { items: &paths }), order) && self.are_paths(paths@)
    }

    /// Whether a list holds the paths of the segments.
    pub open spec fn are_paths(&self, paths: Seq<String>) -> bool {
        paths.len() == self.index().segments@.len() && forall|i: int|
            0 <= i < paths.len() ==> (#[trigger] paths[i])@ == self.index().segments@[i].source_path@
    }

    // ───────────────────────────── rows and views ─────────────────────────────

    /// Whether `m` is the result row of a hit, with the usage count stamped onto it.
    pub open spec fn stands_for(&self, m: SymbolMatch, h: Hit) -> bool {
        &&& self.valid_hit(h)
        &&& self.seg(h.seg).builds(
            h.row,
            Some(self.hit_path(h)),
            (SymbolMatch {
                usages_count: Some(self.hit_row(h).usages_count as usize),
                ..m
            }),
        )
        &&& m.usages_count == Some(self.usages_now(self.hit_row(h).name@))
    }

    /// Whether `v` is a view of a hit.
    pub open spec fn is_view_of(&self, v: RowView<'_>, h: Hit) -> bool {
        &&& self.valid_hit(h)
        &&& v.wf()
        &&& *v.seg == self.seg(h.seg)
        &&& v.row == h.row
        &&& opt_text(v.source_path) == Some(self.hit_path(h))
    }

    /// Whether rows are the result rows of hits, one for each.
    pub open spec fn are_rows(&self, rows: Seq<SymbolMatch>, hits: Seq<Hit>) -> bool {
        rows.len() == hits.len() && forall|i: int|
            0 <= i < rows.len() ==> self.stands_for(#[trigger] rows[i], hits[i])
    }

    /// Whether views are those of hits, one for each.
    pub open spec fn are_views(&self, views: Seq<RowView<'_>>, hits: Seq<Hit>) -> bool {
        views.len() == hits.len() && forall|i: int|
            0 <= i < views.len() ==> self.is_view_of(#[trigger] views[i], hits[i])
    }

    /// A result row reads every field as its hit does.
    pub proof fn lemma_row_reads(&self, m: SymbolMatch, h: Hit, field: Seq<char>)
        requires
            self.stands_for(m, h),
        ensures
            m.text_of(field) == self.hit_text(h, field),
            m.number_of(field) == self.hit_number(h, field),
            reading_of(&m, field) == (self.hit_reader(h))(field),
    {
        let bare = SymbolMatch {
            usages_count: Some(self.hit_row(h).usages_count as usize),
            ..m
        };
        assert(bare.fields@ == self.hit_row(h).extra@);
        assert(bare.name@ == self.hit_row(h).name@);
    }

    /// A view reads every field as its hit does, but for those settled only on a built row.
    pub proof fn lemma_view_reads(&self, v: RowView<'_>, h: Hit, field: Seq<char>)
        requires
            self.is_view_of(v, h),
            !view_cannot_answer(field),
        ensures
            v.text_of(field) == self.hit_text(h, field),
            v.number_of(field) == self.hit_number(h, field),
            reading_of(&v, field) == (self.hit_reader(h))(field),
    {
    }

    /// Hits are ranked by a strict weak order.
    pub proof fn lemma_hits_weak(&self, order_by: Option<OrderBy>)
        ensures
            weak_order(self.hit_before(order_by)),
    {
        let before = self.hit_before(order_by);
        assert forall|a: Hit| !#[trigger] before(a, a) by {
            lemma_row_before_weak(
                self.hit_reader(a),
                self.hit_reader(a),
                self.hit_reader(a),
                order_by,
            );
        }
        assert forall|a: Hit, b: Hit, c: Hit|
            #![trigger before(a, b), before(b, c)]
            before(a, b) && before(b, c) implies before(a, c) by {
            lemma_row_before_weak(
                self.hit_reader(a),
                self.hit_reader(b),
                self.hit_reader(c),
                order_by,
            );
        }
        assert forall|a: Hit, b: Hit, c: Hit|
            #![trigger before(a, b), before(b, c)]
            !before(a, b) && !before(b, c) implies !before(a, c) by {
            lemma_row_before_weak(
                self.hit_reader(a),
                self.hit_reader(b),
                self.hit_reader(c),
                order_by,
            );
        }
    }

    /// Result rows rank as their hits do.
    pub proof fn lemma_rows_rank(
        &self,
        a: SymbolMatch,
        b: SymbolMatch,
        x: Hit,
        y: Hit,
        order_by: Option<OrderBy>,
    )
        requires
            self.stands_for(a, x),
            self.stands_for(b, y),
        ensures
            row_before(reader_of(&a), reader_of(&b), order_by) == (self.hit_before(order_by))(x, y),
    {
        assert forall|k: int| 0 <= k < 4 implies (reader_of(&a))(#[trigger] tie_breaker(k)) == (
        self.hit_reader(x))(tie_breaker(k)) && (reader_of(&b))(tie_breaker(k)) == (self.hit_reader(
            y,
        ))(tie_breaker(k)) by {
            self.lemma_row_reads(a, x, tie_breaker(k));
            self.lemma_row_reads(b, y, tie_breaker(k));
        }
        if order_by is Some {
            let f = canonical_text(order_by->0.field@);
            self.lemma_row_reads(a, x, f);
            self.lemma_row_reads(b, y, f);
        }
        lemma_rank_congruent(
            reader_of(&a),
            reader_of(&b),
            self.hit_reader(x),
            self.hit_reader(y),
            order_by,
        );
    }

    /// Views rank as their hits do, where the ordering reads no field settled on a built row.
    pub proof fn lemma_views_rank(
        &self,
        a: RowView<'_>,
        b: RowView<'_>,
        x: Hit,
        y: Hit,
        order_by: Option<OrderBy>,
    )
        requires
            self.is_view_of(a, x),
            self.is_view_of(b, y),
            travels(order_by),
        ensures
            row_before(reader_of(&a), reader_of(&b), order_by) == (self.hit_before(order_by))(x, y),
    {
        assert forall|k: int| 0 <= k < 4 implies (reader_of(&a))(#[trigger] tie_breaker(k)) == (
        self.hit_reader(x))(tie_breaker(k)) && (reader_of(&b))(tie_breaker(k)) == (self.hit_reader(
            y,
        ))(tie_breaker(k)) by {
            lemma_tie_breakers_rank(k);
            self.lemma_view_reads(a, x, tie_breaker(k));
            self.lemma_view_reads(b, y, tie_breaker(k));
        }
        if order_by is Some {
            let f = canonical_text(order_by->0.field@);
            self.lemma_view_reads(a, x, f);
            self.lemma_view_reads(b, y, f);
        }
        lemma_rank_congruent(
            reader_of(&a),
            reader_of(&b),
            self.hit_reader(x),
            self.hit_reader(y),
            order_by,
        );
    }

    /// Two hits on different paths never tie.
    pub proof fn lemma_paths_break_ties(&self, a: Hit, b: Hit, order_by: Option<OrderBy>)
        requires
            self.hit_path(a) != self.hit_path(b),
        ensures
            (self.hit_before(order_by))(a, b) || (self.hit_before(order_by))(b, a),
    {
        let x = self.hit_reader(a);
        let y = self.hit_reader(b);
        lemma_text_total(self.hit_path(a), self.hit_path(b));
        lemma_path_is_text();
        assert(reading_before(x("path"@), y("path"@)) || reading_before(y("path"@), x("path"@)));
        assert(tie_breaker(2) == "path"@);
        assert(ties_before(x, y, 2) || ties_before(y, x, 2));
        assert(ties_before(x, y, 1) || ties_before(y, x, 1));
        assert(ties_before(x, y, 0) || ties_before(y, x, 0));
    }

    // ───────────────────────────── members ─────────────────────────────

    /// Every matched hit is a row of its segment that matches.
    pub proof fn lemma_matched_members(
        &self,
        s: int,
        candidates: Set<u32>,
        predicates: Seq<Predicate>,
        n: int,
    )
        requires
            0 <= n,
        ensures
            self.matched(s, candidates, predicates, n).len() <= n,
            forall|i: int|
                0 <= i < self.matched(s, candidates, predicates, n).len() ==> {
                    let h = #[trigger] self.matched(s, candidates, predicates, n)[i];
                    h.seg == s && 0 <= h.row < n && self.hit_matches(h, predicates)
                },
        decreases n,
    {
        if n > 0 {
            self.lemma_matched_members(s, candidates, predicates, n - 1);
            let before = self.matched(s, candidates, predicates, n - 1);
            let now = self.matched(s, candidates, predicates, n);
            assert forall|i: int| 0 <= i < now.len() implies {
                let h = #[trigger] now[i];
                h.seg == s && 0 <= h.row < n && self.hit_matches(h, predicates)
            } by {
                if i < before.len() {
                    assert(now[i] == before[i]);
                }
            }
        }
    }

    /// Every hit of a segment's answer is a row of that segment.
    pub proof fn lemma_segment_hits_members(
        &self,
        s: int,
        candidates: Set<u32>,
        predicates: Seq<Predicate>,
    )
        ensures
            self.segment_hits(s, candidates, predicates).len() <= self.seg(s).rows@.len(),
            forall|i: int|
                0 <= i < self.segment_hits(s, candidates, predicates).len() ==> {
                    let h = #[trigger] self.segment_hits(s, candidates, predicates)[i];
                    h.seg == s && 0 <= h.row < self.seg(s).rows@.len()
                },
    {
        let n = self.seg(s).rows@.len() as int;
        let all = self.matched(s, candidates, predicates, n);
        self.lemma_matched_members(s, candidates, predicates, n);
        lemma_distinct_members(all, self.hit_key(), all.len() as int);
        let out = self.segment_hits(s, candidates, predicates);
        assert forall|i: int| 0 <= i < out.len() implies {
            let h = #[trigger] out[i];
            h.seg == s && 0 <= h.row < n
        } by {
            assert(all.contains(out[i]));
            let k = choose|k: int| 0 <= k < all.len() && all[k] == out[i];
            assert(all[k].seg == s);
        }
    }
}

/// Whether an ordering can be applied to views.
pub open spec fn travels(order_by: Option<OrderBy>) -> bool {
    order_by is Some ==> view_ranks(canonical_text(order_by->0.field@))
}

proof fn lemma_path_is_text()
    ensures
        symbol_text_field("path"@),
        "path"@ != "name"@,
        "path"@ != "node_kind"@,
        "path"@ != "fql_kind"@,
        "path"@ != "language"@,
        "path"@ != "line"@,
        "path"@ != "usages"@,
        "path"@ != "count"@,
{
    reveal_strlit("path");
    reveal_strlit("name");
    reveal_strlit("node_kind");
    reveal_strlit("fql_kind");
    reveal_strlit("language");
    reveal_strlit("line");
    reveal_strlit("usages");
    reveal_strlit("count");
    assert("path"@[0] == 'p' && "name"@[0] == 'n' && "line"@[0] == 'l');
}

/// Views rank by every tie-breaker as the rows they would build do.
pub proof fn lemma_tie_breakers_rank(k: int)
    ensures
        view_ranks(tie_breaker(k)),
{
    reveal_strlit("path");
    reveal_strlit("name");
    reveal_strlit("fql_kind");
    reveal_strlit("line");
    reveal_strlit("usages");
    reveal_strlit("count");
    reveal_strlit("node_id");
    reveal_strlit("body");
    reveal_strlit("role");
    assert("path"@[0] == 'p' && "name"@[0] == 'n' && "line"@[0] == 'l' && "body"@[0] == 'b'
        && "role"@[0] == 'r');
    assert("usages"@.len() == 6 && "count"@.len() == 5 && "node_id"@.len() == 7 && "fql_kind"@.len()
        == 8 && "body"@.len() == 4 && "role"@.len() == 4);
    assert(view_ranks("name"@));
    assert(view_ranks("line"@));
    assert(view_ranks("path"@));
    assert(view_ranks("fql_kind"@));
}

/// An ordering reads nothing but its field and the tie-breakers.
proof fn lemma_rank_congruent(
    a: spec_fn(Seq<char>) -> Reading,
    b: spec_fn(Seq<char>) -> Reading,
    x: spec_fn(Seq<char>) -> Reading,
    y: spec_fn(Seq<char>) -> Reading,
    order_by: Option<OrderBy>,
)
    requires
        forall|k: int|
            0 <= k < 4 ==> a(#[trigger] tie_breaker(k)) == x(tie_breaker(k)) && b(tie_breaker(k))
                == y(tie_breaker(k)),
        order_by is Some ==> a(canonical_text(order_by->0.field@)) == x(
            canonical_text(order_by->0.field@),
        ) && b(canonical_text(order_by->0.field@)) == y(canonical_text(order_by->0.field@)),
    ensures
        row_before(a, b, order_by) == row_before(x, y, order_by),
        row_before(b, a, order_by) == row_before(y, x, order_by),
{
    lemma_ties_congruent(a, b, x, y, 0);
    lemma_ties_congruent(b, a, y, x, 0);
}

proof fn lemma_ties_congruent(
    a: spec_fn(Seq<char>) -> Reading,
    b: spec_fn(Seq<char>) -> Reading,
    x: spec_fn(Seq<char>) -> Reading,
    y: spec_fn(Seq<char>) -> Reading,
    k: int,
)
    requires
        0 <= k <= 4,
        forall|k: int|
            0 <= k < 4 ==> a(#[trigger] tie_breaker(k)) == x(tie_breaker(k)) && b(tie_breaker(k))
                == y(tie_breaker(k)),
    ensures
        ties_before(a, b, k) == ties_before(x, y, k),
    decreases 4 - k,
{
    if k < 4 {
        assert(a(tie_breaker(k)) == x(tie_breaker(k)));
        lemma_ties_congruent(a, b, x, y, k + 1);
    }
}

/// The best rows of a list are those of its best hits, where the rows rank as the hits do.
pub proof fn lemma_top_k_follows<T: ClauseTarget>(
    rows: Seq<T>,
    hits: Seq<Hit>,
    order_by: Option<OrderBy>,
    k: nat,
    out: Seq<T>,
    before: spec_fn(Hit, Hit) -> bool,
    stands: spec_fn(T, Hit) -> bool,
)
    requires
        is_top_k(rows, order_by, k, out),
        weak_order(before),
        rows.len() == hits.len(),
        rows.len() <= usize::MAX,
        forall|i: int| 0 <= i < rows.len() ==> stands(#[trigger] rows[i], hits[i]),
        forall|i: int, j: int|
            #![trigger rows[i], rows[j]]
            0 <= i < rows.len() && 0 <= j < rows.len() ==> row_before(
                reader_of(&rows[i]),
                reader_of(&rows[j]),
                order_by,
            ) == before(hits[i], hits[j]),
    ensures
        out.len() == first(ordered(hits, before), k).len(),
        forall|i: int|
            0 <= i < out.len() ==> stands(
                #[trigger] out[i],
                first(ordered(hits, before), k)[i],
            ),
{
    let order = choose|order: Seq<usize>| #[trigger]
        orders_rows(rows, order_by, order) && out == picked(rows, first(order, k));
    assert(delivers(hits, before, order)) by {
        assert forall|a: int, b: int|
            #![trigger order[a], order[b]]
            0 <= a < b < order.len() implies before(hits[order[a] as int], hits[order[b] as int])
            || (!before(hits[order[b] as int], hits[order[a] as int]) && order[a] < order[b]) by {
            assert(delivers_before(rows, order_by, order[a] as int, order[b] as int));
            let (i, j) = (order[a] as int, order[b] as int);
            assert(rows[i] == rows[i] && rows[j] == rows[j]);
        }
    }
    lemma_delivers(hits, before, order);
    let best = first(ordered(hits, before), k);
    assert(ordered(hits, before).len() == order.len());
    assert forall|i: int| 0 <= i < out.len() implies stands(#[trigger] out[i], best[i]) by {
        assert(first(order, k)[i] == order[i]);
        assert(out[i] == rows[order[i] as int]);
        assert(picked(hits, order)[i] == hits[order[i] as int]);
    }
}

} // verus!
