//! The first stage of a query: the rows that the indexed predicates leave.

use crate::bytes::{utf8_of, utf8_text};
use crate::clauses::{Clauses, CompareOp, Predicate, PredicateValue};
use crate::columnar_storage::literals::{
    literal_runs, pattern_as_prefix, pattern_literals, short_prefix, PatternKind,
};
use crate::columnar_storage::ColumnarStorage;
use crate::fields::{
    canonical, canonical_text, core_field, is_core_field, is_posting_field, posting_field,
};
use crate::filter::{bool_text, like_accepts, like_match, text_holds};
use crate::overlay::lookup::{opt_rows, text_views};
use crate::overlay::parse::segment_start;
use crate::pattern::{compile_regex, regex_accepts, regex_compiles, regex_matches, regex_source};
use crate::rows::{
    collect_rows, copy_rows, insert_span, row_span, rows_ascending, rows_in_both, rows_in_either,
    rows_in_first_only, rows_of, span_rows,
};
use crate::segment::{NamePrefixIndex, SegmentReader};
use crate::text::{same_bytes, same_text};
use regex::Regex;
use roaring::RoaringBitmap;
use vstd::prelude::*;
use vstd::string::*;
use vstd::utf8::*;

verus! {

// ───────────────────────────── patterns ─────────────────────────────

/// Whether a pattern accepts a text: a regular expression, or a `LIKE` pattern.
pub open spec fn pattern_accepts(is_regex: bool, pattern: Seq<char>, text: Seq<char>) -> bool {
    if is_regex {
        regex_accepts(pattern, text)
    } else {
        like_accepts(text, pattern)
    }
}

/// A pattern, compiled once.
pub struct Matcher {
    pub pattern: String,
    pub re: Option<Regex>,
}

impl Matcher {
    /// A compiled expression is that of the pattern.
    pub open spec fn wf(&self) -> bool {
        self.re is Some ==> regex_source(self.re->0) == self.pattern@ && regex_compiles(
            self.pattern@,
        )
    }

    /// Compiles a pattern; nothing where it is a regular expression that does not compile.
    pub fn new(is_regex: bool, pattern: &str) -> (r: Option<Matcher>)
        ensures
            (match r {
                Some(m) => m.wf() && m.pattern@ == pattern@ && (m.re is Some) == is_regex,
                None => is_regex && !regex_compiles(pattern@),
            }),
            is_regex && !regex_compiles(pattern@) ==> r is None,
    {
        if is_regex {
            match compile_regex(pattern) {
                Some(re) => Some(Matcher { pattern: pattern.to_owned(), re: Some(re) }),
                None => None,
            }
        } else {
            Some(Matcher { pattern: pattern.to_owned(), re: None })
        }
    }

    /// Whether the pattern accepts a text.
    pub fn accepts(&self, text: &str) -> (r: bool)
        requires
            self.wf(),
        ensures
            r == pattern_accepts(self.re is Some, self.pattern@, text@),
    {
        match &self.re {
            Some(re) => regex_matches(re, text),
            None => like_match(text, self.pattern.as_str()),
        }
    }
}

/// Whether an operator negates its pattern.
pub open spec fn is_negated(op: CompareOp) -> bool {
    op == CompareOp::NotEq || op == CompareOp::NotLike || op == CompareOp::NotMatches
}

/// Whether an operator takes a regular expression.
pub open spec fn takes_regex(op: CompareOp) -> bool {
    op == CompareOp::Matches || op == CompareOp::NotMatches
}

// ───────────────────────────── global rows ─────────────────────────────

impl ColumnarStorage {
    /// The first global row of segment `i`.
    pub open spec fn seg_base(&self, i: int) -> u32 {
        segment_start(self.index().segments@, i)
    }

    /// The global rows of the local rows of segment `i`.
    pub open spec fn globals(&self, i: int, locals: Set<u32>) -> Set<u32> {
        Set::new(
            |g: u32| g >= self.seg_base(i) && locals.contains((g - self.seg_base(i)) as u32),
        )
    }

    /// The global rows of segment `i`.
    pub open spec fn seg_rows(&self, i: int) -> Set<u32> {
        row_span(self.seg_base(i), self.seg_base(i + 1))
    }

    /// Adds the global rows of local rows of a segment.
    fn add_globals(&self, acc: &mut RoaringBitmap, seg: usize, locals: &RoaringBitmap)
        requires
            self.wf(),
            seg < self.seg_count(),
        ensures
            rows_of(*final(acc)) == rows_of(*old(acc)).union(
                self.globals(seg as int, rows_of(*locals)),
            ),
    {
        let base: u32 = self.shared.overlay.segment_offsets[seg];
        let list = rows_ascending(locals);
        let ghost was = rows_of(*acc);
        let mut k: usize = 0;
        while k < list.len()
            invariant
                base == self.seg_base(seg as int),
                list@.to_set() == rows_of(*locals),
                k <= list@.len(),
                forall|g: u32| #[trigger]
                    rows_of(*acc).contains(g) == (was.contains(g) || (g >= base && list@.take(
                        k as int,
                    ).contains((g - base) as u32))),
            decreases list.len() - k,
        {
            let ghost now = rows_of(*acc);
            let r: u32 = list[k];
            assert(list@.take(k as int + 1) =~= list@.take(k as int).push(r));
            match base.checked_add(r) {
                Some(g) => {
                    let _ = acc.insert(g);
                },
                None => {},
            }
            assert forall|g: u32| #[trigger] rows_of(*acc).contains(g) == (was.contains(g) || (g
                >= base && list@.take(k as int + 1).contains((g - base) as u32))) by {
                assert(now.contains(g) == (was.contains(g) || (g >= base && list@.take(
                    k as int,
                ).contains((g - base) as u32))));
                lemma_contains_push(list@.take(k as int), r, (g - base) as u32);
            }
            k += 1;
        }
        assert(list@.take(list@.len() as int) =~= list@);
        assert(rows_of(*acc) =~= was.union(self.globals(seg as int, rows_of(*locals)))) by {
            assert forall|g: u32| rows_of(*acc).contains(g) == was.union(
                self.globals(seg as int, rows_of(*locals)),
            ).contains(g) by {
                if g >= base {
                    assert(list@.contains((g - base) as u32) == list@.to_set().contains(
                        (g - base) as u32,
                    ));
                }
            }
        }
    }
}

proof fn lemma_contains_push(s: Seq<u32>, r: u32, x: u32)
    ensures
        s.push(r).contains(x) == (s.contains(x) || x == r),
{
    if s.contains(x) {
        let k = choose|k: int| 0 <= k < s.len() && s[k] == x;
        assert(s.push(r)[k] == x);
    }
    if x == r {
        assert(s.push(r)[s.len() as int] == x);
    }
    if s.push(r).contains(x) {
        let k = choose|k: int| 0 <= k < s.push(r).len() && s.push(r)[k] == x;
        if k < s.len() {
            assert(s[k] == x);
        }
    }
}

// ───────────────────────────── enrichment ─────────────────────────────

/// Whether a segment stores a column without posting it: its rows carry values that no key of
/// the overlay counts.
pub open spec fn posts_partially(seg: SegmentReader, field: Seq<char>) -> bool {
    !seg.posts(field) && seg.stores(field)
}

/// Whether a segment stores a column without posting it.
pub fn segment_posts_partially(seg: &SegmentReader, field: &str) -> (r: bool)
    ensures
        r == posts_partially(*seg, field@),
{
    !seg.posts_field(field) && seg.has_extra_col(field)
}

/// Whether a segment shows that none of its rows carries a value: it does not store the column,
/// or it posts the column and no row has the value.
pub open spec fn proves_absent(seg: SegmentReader, field: Seq<char>, value: Seq<char>) -> bool {
    !seg.stores(field) || (seg.posts(field) && forall|r: int|
        0 <= r < seg.rows@.len() ==> #[trigger] seg.extra(field, r) != Some(value))
}

fn segment_proves_absent(seg: &SegmentReader, field: &str, value: &str) -> (r: bool)
    requires
        seg.wf(),
    ensures
        r == proves_absent(*seg, field@, value@),
{
    if !seg.has_extra_col(field) {
        return true;
    }
    if !seg.posts_field(field) {
        return false;
    }
    let n: u32 = seg.row_count();
    let mut r: u32 = 0;
    while r < n
        invariant
            n == seg.rows@.len(),
            r <= n,
            seg.stores(field@),
            seg.posts(field@),
            forall|q: int| 0 <= q < r ==> #[trigger] seg.extra(field@, q) != Some(value@),
        decreases n - r,
    {
        match seg.extra_field_str(field, r) {
            Some(v) => {
                if same_text(v, value) {
                    assert(seg.extra(field@, r as int) == Some(value@));
                    return false;
                }
            },
            None => {},
        }
        r += 1;
    }
    true
}

impl ColumnarStorage {
    /// The rows that the overlay's per-value keys of a field cannot speak for: those of the
    /// segments that store a posting field without posting it.
    pub open spec fn missing_rows(&self, field: Seq<char>, n: int) -> Set<u32> {
        Set::new(
            |g: u32|
                posting_field(field) && exists|i: int|
                    0 <= i < n && #[trigger] posts_partially(self.seg(i), field) && self.seg_rows(
                        i,
                    ).contains(g),
        )
    }

    /// The rows that the overlay's per-value keys of a field cannot speak for.
    pub fn rows_missing_field_postings(&self, field: &str) -> (b: RoaringBitmap)
        requires
            self.wf(),
        ensures
            rows_of(b) == self.missing_rows(field@, self.seg_count() as int),
    {
        let mut b = RoaringBitmap::new();
        if !is_posting_field(field) {
            assert(rows_of(b) =~= self.missing_rows(field@, self.seg_count() as int));
            return b;
        }
        let mut i: usize = 0;
        assert(rows_of(b) =~= self.missing_rows(field@, 0));
        while i < self.shared.segments.len()
            invariant
                self.wf(),
                posting_field(field@),
                i <= self.seg_count(),
                rows_of(b) == self.missing_rows(field@, i as int),
            decreases self.shared.segments.len() - i,
        {
            let ghost was = rows_of(b);
            if segment_posts_partially(&*self.shared.segments[i], field) {
                let range = self.shared.overlay.segment_row_range(i);
                insert_span(&mut b, range.start, range.end);
            }
            assert(rows_of(b) =~= self.missing_rows(field@, i + 1)) by {
                assert forall|g: u32| rows_of(b).contains(g) == self.missing_rows(
                    field@,
                    i + 1,
                ).contains(g) by {
                    assert(was.contains(g) == self.missing_rows(field@, i as int).contains(g));
                    if was.contains(g) {
                        let k = choose|k: int|
                            0 <= k < i && #[trigger] posts_partially(self.seg(k), field@)
                                && self.seg_rows(k).contains(g);
                        assert(k < i + 1);
                    }
                    if posts_partially(self.seg(i as int), field@) && self.seg_rows(
                        i as int,
                    ).contains(g) {
                        assert(self.missing_rows(field@, i + 1).contains(g));
                    }
                    if self.missing_rows(field@, i + 1).contains(g) {
                        let k = choose|k: int|
                            0 <= k < i + 1 && #[trigger] posts_partially(self.seg(k), field@)
                                && self.seg_rows(k).contains(g);
                        if k < i {
                            assert(was.contains(g));
                        }
                    }
                }
            }
            i += 1;
        }
        b
    }

    /// Whether the enrichment tier serves a field at all.
    pub open spec fn enrichment_field(&self, field: Seq<char>) -> bool {
        (exists|i: int| #[trigger] self.index().enrich_of_field(i, field)) || exists|i: int|
            0 <= i < self.seg_count() && (#[trigger] self.seg(i)).stores(field)
    }

    /// Whether some segment stores a column.
    pub open spec fn any_stores(&self, field: Seq<char>) -> bool {
        exists|i: int| 0 <= i < self.seg_count() && (#[trigger] self.seg(i)).stores(field)
    }

    /// Whether some segment stores a column.
    pub fn any_segment_stores(&self, field: &str) -> (r: bool)
        ensures
            r == self.any_stores(field@),
    {
        let mut i: usize = 0;
        while i < self.shared.segments.len()
            invariant
                i <= self.seg_count(),
                forall|k: int| 0 <= k < i ==> !(#[trigger] self.seg(k)).stores(field@),
            decreases self.shared.segments.len() - i,
        {
            if self.shared.segments[i].has_extra_col(field) {
                assert(self.seg(i as int).stores(field@));
                return true;
            }
            i += 1;
        }
        false
    }

    /// Whether the enrichment tier serves a field at all.
    pub fn is_enrichment_field(&self, field: &str) -> (r: bool)
        requires
            self.wf(),
        ensures
            r == self.enrichment_field(field@),
    {
        self.shared.overlay.has_enrichment_field(field) || self.any_segment_stores(field)
    }

    /// Whether every segment shows that none of its rows carries a value.
    pub open spec fn value_absent(&self, field: Seq<char>, value: Seq<char>) -> bool {
        forall|i: int|
            0 <= i < self.seg_count() ==> proves_absent(#[trigger] self.seg(i), field, value)
    }

    fn no_segment_carries_enrichment_value(&self, field: &str, value: &str) -> (r: bool)
        requires
            self.wf(),
        ensures
            r == self.value_absent(field@, value@),
    {
        let mut i: usize = 0;
        while i < self.shared.segments.len()
            invariant
                self.wf(),
                i <= self.seg_count(),
                forall|k: int|
                    0 <= k < i ==> proves_absent(#[trigger] self.seg(k), field@, value@),
            decreases self.shared.segments.len() - i,
        {
            assert(self.shared.segments@[i as int].wf());
            if !segment_proves_absent(&*self.shared.segments[i], field, value) {
                assert(!proves_absent(self.seg(i as int), field@, value@));
                return false;
            }
            i += 1;
        }
        true
    }

    /// The candidates of `field = value` on an enrichment field.
    ///
    /// A posting proposes its rows and those it cannot speak for. Without one, no row is a
    /// candidate only where the segments show that the value does not occur; core fields are
    /// never answered from the silence of the enrichment tier.
    pub open spec fn eq_candidates(&self, field: Seq<char>, value: Seq<char>) -> Option<Set<u32>> {
        match self.index().enrich_eq_rows(field, value) {
            Some(rows) => Some(rows.union(self.missing_rows(field, self.seg_count() as int))),
            None => if core_field(field) || !self.enrichment_field(field) || !self.value_absent(
                field,
                value,
            ) {
                None
            } else {
                Some(Set::empty())
            },
        }
    }

    /// The candidates of `field = value` on an enrichment field.
    pub fn enrichment_eq_bitmap(&self, field: &str, value: &str) -> (r: Option<RoaringBitmap>)
        requires
            self.wf(),
        ensures
            opt_rows(r) == self.eq_candidates(field@, value@),
    {
        match self.shared.overlay.prefilter_enrichment_eq(field, value) {
            Some(rows) => {
                let missing = self.rows_missing_field_postings(field);
                Some(rows_in_either(&rows, &missing))
            },
            None => {
                if is_core_field(field) || !self.is_enrichment_field(field)
                    || !self.no_segment_carries_enrichment_value(field, value) {
                    None
                } else {
                    Some(RoaringBitmap::new())
                }
            },
        }
    }

    /// Whether the values of a field can be read, all of them text.
    pub open spec fn values_readable(&self, field: Seq<char>) -> bool {
        (exists|i: int| #[trigger] self.index().enrich_of_field(i, field)) && forall|i: int|
            #[trigger] self.index().enrich_of_field(i, field) ==> self.index().enrich_value(
                i,
                field,
            ) is Some
    }

    /// Whether entry `i` of the enrichment index is one of `field` whose value a pattern accepts.
    pub open spec fn accepted_entry(&self, field: Seq<char>, is_regex: bool, pattern: Seq<char>, i: int) -> bool {
        self.index().enrich_of_field(i, field) && pattern_accepts(
            is_regex,
            pattern,
            self.index().enrich_value(i, field)->0,
        )
    }

    /// The rows of the values of `field` that a pattern accepts; nothing where the posting of
    /// one of them cannot be read.
    pub open spec fn accepted_rows(&self, field: Seq<char>, is_regex: bool, pattern: Seq<char>) -> Option<
        Set<u32>,
    > {
        if exists|i: int|
            #[trigger] self.accepted_entry(field, is_regex, pattern, i) && self.index().enrich_bitmap(
                i,
            ) is None {
            None
        } else {
            Some(
                Set::new(
                    |g: u32|
                        exists|i: int| #[trigger]
                            self.accepted_entry(field, is_regex, pattern, i)
                                && self.index().enrich_bitmap(i)->0.contains(g),
                ),
            )
        }
    }

    /// The candidates of a pattern on an enrichment field, from the field's distinct values.
    ///
    /// An empty value is never keyed, so a pattern that accepts one is not answered here; what a
    /// negated pattern leaves is everything but the accepted rows.
    pub open spec fn pattern_candidates(&self, field: Seq<char>, op: CompareOp, pattern: Seq<char>) -> Option<
        Set<u32>,
    > {
        let re = takes_regex(op);
        if core_field(field) || (re && !regex_compiles(pattern)) || (!is_negated(op)
            && pattern_accepts(re, pattern, Seq::empty())) || !self.values_readable(field) {
            None
        } else {
            match self.accepted_rows(field, re, pattern) {
                None => None,
                Some(rows) => if is_negated(op) {
                    Some(row_span(0, self.index().row_count).difference(rows))
                } else {
                    Some(rows.union(self.missing_rows(field, self.seg_count() as int)))
                },
            }
        }
    }

    /// The candidates of a pattern on an enrichment field.
    pub fn enrichment_pattern_bitmap(&self, field: &str, op: CompareOp, pattern: &str) -> (r: Option<
        RoaringBitmap,
    >)
        requires
            self.wf(),
        ensures
            opt_rows(r) == self.pattern_candidates(field@, op, pattern@),
    {
        if is_core_field(field) {
            return None;
        }
        let negated = op == CompareOp::NotEq || op == CompareOp::NotLike || op
            == CompareOp::NotMatches;
        let is_regex = op == CompareOp::Matches || op == CompareOp::NotMatches;
        let matcher = match Matcher::new(is_regex, pattern) {
            Some(m) => m,
            None => {
                return None;
            },
        };
        let empty = String::new();
        assert(empty@ =~= Seq::<char>::empty());
        if !negated && matcher.accepts(empty.as_str()) {
            return None;
        }
        let values = match self.shared.overlay.enrichment_values(field) {
            Some(values) => values,
            None => {
                return None;
            },
        };
        assert(self.values_readable(field@)) by {
            assert(self.index().enrich_of_field(values@[0].0 as int, field@));
            assert forall|i: int| #[trigger] self.index().enrich_of_field(i, field@) implies
                self.index().enrich_value(i, field@) is Some by {
                let k = i - values@[0].0;
                assert(values@[k].0 == i);
            }
        }
        let mut chosen: Vec<bool> = Vec::new();
        let mut k: usize = 0;
        while k < values.len()
            invariant
                matcher.wf(),
                matcher.pattern@ == pattern@,
                (matcher.re is Some) == is_regex,
                k <= values@.len(),
                chosen@.len() == k,
                forall|j: int|
                    0 <= j < k ==> #[trigger] chosen@[j] == pattern_accepts(
                        is_regex,
                        pattern@,
                        values@[j].1@,
                    ),
            decreases values.len() - k,
        {
            chosen.push(matcher.accepts(values[k].1.as_str()));
            k += 1;
        }
        assert forall|j: int| 0 <= j < values@.len() implies (#[trigger] values@[j]).0
            < self.index().enrich_len() by {
            assert(self.index().enrich_of_field(values@[j].0 as int, field@));
        }
        let united = self.shared.overlay.unite_chosen(&values, &chosen);
        proof {
            self.lemma_chosen_rows(field@, is_regex, pattern@, values@, chosen@, values@.len() as int);
        }
        match united {
            None => None,
            Some(rows) => {
                if negated {
                    let all = span_rows(0, self.shared.overlay.row_count);
                    Some(rows_in_first_only(&all, &rows))
                } else {
                    let missing = self.rows_missing_field_postings(field);
                    Some(rows_in_either(&rows, &missing))
                }
            },
        }
    }

    /// Uniting the postings of the accepted values gives the accepted rows.
    proof fn lemma_chosen_rows(
        &self,
        field: Seq<char>,
        is_regex: bool,
        pattern: Seq<char>,
        values: Seq<(usize, String)>,
        chosen: Seq<bool>,
        n: int,
    )
        requires
            n == values.len(),
            values.len() > 0,
            chosen.len() == values.len(),
            forall|k: int|
                #![trigger values[k]]
                0 <= k < values.len() ==> self.index().enrich_of_field(values[k].0 as int, field)
                    && self.index().enrich_value(values[k].0 as int, field) == Some(values[k].1@)
                    && values[k].0 == values[0].0 + k,
            forall|i: int|
                #![trigger self.index().enrich_of_field(i, field)]
                self.index().enrich_of_field(i, field) ==> values[0].0 <= i < values[0].0
                    + values.len(),
            forall|j: int|
                0 <= j < values.len() ==> #[trigger] chosen[j] == pattern_accepts(
                    is_regex,
                    pattern,
                    values[j].1@,
                ),
        ensures
            self.index().chosen_rows(values, chosen, n) == self.accepted_rows(
                field,
                is_regex,
                pattern,
            ),
    {
        let overlay = self.index();
        self.lemma_chosen_upto(values, chosen, n);
        assert forall|i: int| #[trigger]
            self.accepted_entry(field, is_regex, pattern, i) implies exists|k: int|
            0 <= k < n && chosen[k] && #[trigger] values[k].0 == i by {
            let k = i - values[0].0;
            assert(values[k].0 == i);
            assert(chosen[k]);
        }
        assert forall|k: int| 0 <= k < n && #[trigger] chosen[k] implies self.accepted_entry(
            field,
            is_regex,
            pattern,
            values[k].0 as int,
        ) by {
            assert(values[k].0 == values[0].0 + k);
        }
        let rows = overlay.chosen_rows(values, chosen, n);
        if rows is None {
            let k = choose|k: int|
                0 <= k < n && #[trigger] chosen[k] && overlay.enrich_bitmap(
                    values[k].0 as int,
                ) is None;
            assert(self.accepted_entry(field, is_regex, pattern, values[k].0 as int));
        } else {
            assert forall|i: int| #[trigger]
                self.accepted_entry(field, is_regex, pattern, i) implies overlay.enrich_bitmap(
                i,
            ) is Some by {
                let k = choose|k: int| 0 <= k < n && chosen[k] && #[trigger] values[k].0 == i;
                assert(chosen[k]);
            }
            let want = self.accepted_rows(field, is_regex, pattern)->0;
            assert forall|g: u32| rows->0.contains(g) == want.contains(g) by {
                if rows->0.contains(g) {
                    let k = choose|k: int|
                        0 <= k < n && #[trigger] chosen[k] && overlay.enrich_bitmap(
                            values[k].0 as int,
                        )->0.contains(g);
                    assert(self.accepted_entry(field, is_regex, pattern, values[k].0 as int));
                }
                if want.contains(g) {
                    let i = choose|i: int| #[trigger]
                        self.accepted_entry(field, is_regex, pattern, i) && overlay.enrich_bitmap(
                            i,
                        )->0.contains(g);
                    let k = choose|k: int| 0 <= k < n && chosen[k] && #[trigger] values[k].0 == i;
                    assert(chosen[k]);
                }
            }
            assert(rows->0 =~= want);
        }
    }

    proof fn lemma_chosen_upto(&self, values: Seq<(usize, String)>, chosen: Seq<bool>, n: int)
        requires
            0 <= n <= values.len(),
            chosen.len() == values.len(),
        ensures
            (match self.index().chosen_rows(values, chosen, n) {
                None => exists|k: int|
                    0 <= k < n && #[trigger] chosen[k] && self.index().enrich_bitmap(
                        values[k].0 as int,
                    ) is None,
                Some(rows) => (forall|k: int|
                    0 <= k < n && #[trigger] chosen[k] ==> self.index().enrich_bitmap(
                        values[k].0 as int,
                    ) is Some) && (forall|g: u32| #[trigger]
                    rows.contains(g) <==> exists|k: int|
                        0 <= k < n && #[trigger] chosen[k] && self.index().enrich_bitmap(
                            values[k].0 as int,
                        )->0.contains(g)),
            }),
        decreases n,
    {
        if n > 0 {
            self.lemma_chosen_upto(values, chosen, n - 1);
            let overlay = self.index();
            match overlay.chosen_rows(values, chosen, n - 1) {
                None => {
                    let k = choose|k: int|
                        0 <= k < n - 1 && #[trigger] chosen[k] && overlay.enrich_bitmap(
                            values[k].0 as int,
                        ) is None;
                    assert(k < n);
                },
                Some(before) => {
                    if chosen[n - 1] && overlay.enrich_bitmap(values[n - 1].0 as int) is None {
                        assert(chosen[n - 1]);
                    } else {
                        let rows = overlay.chosen_rows(values, chosen, n)->0;
                        assert forall|g: u32| #[trigger] rows.contains(g) <==> exists|k: int|
                            0 <= k < n && #[trigger] chosen[k] && overlay.enrich_bitmap(
                                values[k].0 as int,
                            )->0.contains(g) by {
                            if before.contains(g) {
                                let k = choose|k: int|
                                    0 <= k < n - 1 && #[trigger] chosen[k] && overlay.enrich_bitmap(
                                        values[k].0 as int,
                                    )->0.contains(g);
                                assert(k < n);
                            }
                            if exists|k: int|
                                0 <= k < n && #[trigger] chosen[k] && overlay.enrich_bitmap(
                                    values[k].0 as int,
                                )->0.contains(g) {
                                let k = choose|k: int|
                                    0 <= k < n && #[trigger] chosen[k] && overlay.enrich_bitmap(
                                        values[k].0 as int,
                                    )->0.contains(g);
                                if k < n - 1 {
                                    assert(before.contains(g));
                                }
                            }
                            if chosen[n - 1] && overlay.enrich_bitmap(
                                values[n - 1].0 as int,
                            )->0.contains(g) {
                                assert(rows.contains(g));
                            }
                        }
                    }
                },
            }
        }
    }
}

// ───────────────────────────── language ─────────────────────────────

/// Whether an operator can be decided from a stored text.
pub open spec fn text_operator(op: CompareOp) -> bool {
    match op {
        CompareOp::Eq | CompareOp::NotEq | CompareOp::Like | CompareOp::NotLike
        | CompareOp::Matches | CompareOp::NotMatches => true,
        CompareOp::Gt | CompareOp::Gte | CompareOp::Lt | CompareOp::Lte => false,
    }
}

/// The rows of a segment whose language satisfies a predicate; a row without one never does.
pub open spec fn language_locals(seg: SegmentReader, op: CompareOp, value: Seq<char>) -> Set<u32> {
    Set::new(
        |r: u32|
            r < seg.rows@.len() && seg.rows@[r as int].language@.len() > 0 && text_holds(
                op,
                seg.rows@[r as int].language@,
                value,
            ),
    )
}

fn rows_with_language(seg: &SegmentReader, op: CompareOp, value: &str, matcher: &Option<Matcher>) -> (b:
    RoaringBitmap)
    requires
        seg.wf(),
        text_operator(op),
        matcher is Some == (op != CompareOp::Eq && op != CompareOp::NotEq),
        matcher is Some ==> matcher->0.wf() && matcher->0.pattern@ == value@ && (
        matcher->0.re is Some) == takes_regex(op),
        takes_regex(op) ==> regex_compiles(value@),
    ensures
        rows_of(b) == language_locals(*seg, op, value@),
{
    let n: u32 = seg.row_count();
    let mut b = RoaringBitmap::new();
    let mut r: u32 = 0;
    while r < n
        invariant
            seg.wf(),
            n == seg.rows@.len(),
            r <= n,
            text_operator(op),
            matcher is Some == (op != CompareOp::Eq && op != CompareOp::NotEq),
            matcher is Some ==> matcher->0.wf() && matcher->0.pattern@ == value@ && (
            matcher->0.re is Some) == takes_regex(op),
            takes_regex(op) ==> regex_compiles(value@),
            forall|q: u32| #[trigger]
                rows_of(b).contains(q) == (q < r && language_locals(*seg, op, value@).contains(q)),
        decreases n - r,
    {
        let language = seg.rows[r as usize].language.as_str();
        let ghost was = rows_of(b);
        let hit = if language.is_empty() {
            false
        } else {
            let plain = match matcher {
                Some(m) => m.accepts(language),
                None => same_text(language, value),
            };
            let negated = op == CompareOp::NotEq || op == CompareOp::NotLike || op
                == CompareOp::NotMatches;
            plain != negated
        };
        assert(hit == language_locals(*seg, op, value@).contains(r));
        if hit {
            let _ = b.insert(r);
        }
        assert forall|q: u32| #[trigger] rows_of(b).contains(q) == (q < r + 1 && language_locals(
            *seg,
            op,
            value@,
        ).contains(q)) by {
            assert(was.contains(q) == (q < r && language_locals(*seg, op, value@).contains(q)));
        }
        r += 1;
    }
    assert(rows_of(b) =~= language_locals(*seg, op, value@));
    b
}

impl ColumnarStorage {
    /// The rows of the segments before `n` whose language satisfies a predicate.
    pub open spec fn language_rows(&self, op: CompareOp, value: Seq<char>, n: int) -> Set<u32> {
        Set::new(
            |g: u32|
                exists|i: int|
                    0 <= i < n && #[trigger] self.globals(
                        i,
                        language_locals(self.seg(i), op, value),
                    ).contains(g),
        )
    }

    /// The rows whose language satisfies a predicate, exactly; nothing where the operator cannot
    /// be decided from text.
    pub open spec fn language_candidates(&self, op: CompareOp, value: Seq<char>) -> Option<Set<u32>> {
        if !text_operator(op) || (takes_regex(op) && !regex_compiles(value)) {
            None
        } else {
            Some(self.language_rows(op, value, self.seg_count() as int))
        }
    }

    /// The rows whose language satisfies a predicate, read from the stored column.
    pub fn core_language_bitmap(&self, op: CompareOp, value: &str) -> (r: Option<RoaringBitmap>)
        requires
            self.wf(),
        ensures
            opt_rows(r) == self.language_candidates(op, value@),
    {
        match op {
            CompareOp::Gt | CompareOp::Gte | CompareOp::Lt | CompareOp::Lte => {
                return None;
            },
            _ => {},
        }
        let is_regex = op == CompareOp::Matches || op == CompareOp::NotMatches;
        let matcher = if op == CompareOp::Eq || op == CompareOp::NotEq {
            None
        } else {
            match Matcher::new(is_regex, value) {
                Some(m) => Some(m),
                None => {
                    return None;
                },
            }
        };
        let mut b = RoaringBitmap::new();
        let mut i: usize = 0;
        assert(rows_of(b) =~= self.language_rows(op, value@, 0));
        while i < self.shared.segments.len()
            invariant
                self.wf(),
                i <= self.seg_count(),
                text_operator(op),
                matcher is Some == (op != CompareOp::Eq && op != CompareOp::NotEq),
                matcher is Some ==> matcher->0.wf() && matcher->0.pattern@ == value@ && (
                matcher->0.re is Some) == takes_regex(op),
                takes_regex(op) ==> regex_compiles(value@),
                rows_of(b) == self.language_rows(op, value@, i as int),
            decreases self.shared.segments.len() - i,
        {
            assert(self.shared.segments@[i as int].wf());
            let local = rows_with_language(&*self.shared.segments[i], op, value, &matcher);
            let ghost was = rows_of(b);
            self.add_globals(&mut b, i, &local);
            assert(rows_of(b) =~= self.language_rows(op, value@, i + 1)) by {
                assert forall|g: u32| rows_of(b).contains(g) == self.language_rows(
                    op,
                    value@,
                    i + 1,
                ).contains(g) by {
                    let here = self.globals(
                        i as int,
                        language_locals(self.seg(i as int), op, value@),
                    );
                    assert(rows_of(b).contains(g) == (was.contains(g) || here.contains(g)));
                    if was.contains(g) {
                        let k = choose|k: int|
                            0 <= k < i && #[trigger] self.globals(
                                k,
                                language_locals(self.seg(k), op, value@),
                            ).contains(g);
                        assert(k < i + 1);
                    }
                    if self.language_rows(op, value@, i + 1).contains(g) {
                        let k = choose|k: int|
                            0 <= k < i + 1 && #[trigger] self.globals(
                                k,
                                language_locals(self.seg(k), op, value@),
                            ).contains(g);
                        if k < i {
                            assert(was.contains(g));
                        }
                    }
                }
            }
            i += 1;
        }
        Some(b)
    }
}

// ───────────────────────────── names ─────────────────────────────

impl ColumnarStorage {
    /// Whether the name index has a name that a regular expression accepts, and it posts a row.
    pub open spec fn name_accepted(&self, pattern: Seq<char>, name: Seq<u8>, g: u32) -> bool {
        &&& self.index().name_index@.contains_key(name)
        &&& utf8_of(name) is Some
        &&& regex_accepts(pattern, utf8_of(name)->0)
        &&& self.index().postings(self.index().name_index@[name]).contains(g)
    }

    /// The candidates of `name MATCHES`, from the distinct names; nothing where the expression
    /// does not compile or accepts the empty name, which is no key.
    pub open spec fn name_regex_candidates(&self, pattern: Seq<char>) -> Option<Set<u32>> {
        if !regex_compiles(pattern) || regex_accepts(pattern, Seq::empty()) {
            None
        } else {
            Some(
                Set::new(|g: u32| exists|name: Seq<u8>| #[trigger] self.name_accepted(pattern, name, g)),
            )
        }
    }

    /// The candidates of `name MATCHES`, from the distinct names.
    pub fn name_regex_bitmap(&self, pattern: &str) -> (r: Option<RoaringBitmap>)
        requires
            self.wf(),
        ensures
            opt_rows(r) == self.name_regex_candidates(pattern@),
    {
        let re = match compile_regex(pattern) {
            Some(re) => re,
            None => {
                return None;
            },
        };
        let empty = String::new();
        assert(empty@ =~= Seq::<char>::empty());
        if regex_matches(&re, empty.as_str()) {
            return None;
        }
        let entries = self.shared.overlay.name_index.entries();
        let mut b = RoaringBitmap::new();
        let mut k: usize = 0;
        while k < entries.len()
            invariant
                self.wf(),
                regex_source(re) == pattern@,
                crate::name_index::lists_entries(entries@, self.index().name_index@),
                k <= entries@.len(),
                forall|g: u32| #[trigger]
                    rows_of(b).contains(g) <==> exists|j: int|
                        0 <= j < k && self.name_accepted(pattern@, (#[trigger] entries@[j]).0@, g),
            decreases entries.len() - k,
        {
            let ghost was = rows_of(b);
            let ghost name = entries@[k as int].0@;
            assert(self.index().name_index@[name] == entries@[k as int].1);
            let hit = match utf8_text(entries[k].0.as_slice()) {
                Some(text) => regex_matches(&re, text.as_str()),
                None => false,
            };
            if hit {
                let rows = self.shared.overlay.decode_postings(entries[k].1);
                let posted = collect_rows(&rows);
                b = rows_in_either(&b, &posted);
                assert forall|g: u32| rows_of(posted).contains(g) == self.name_accepted(
                    pattern@,
                    name,
                    g,
                ) by {
                    assert(rows@.to_set().contains(g) == rows@.contains(g));
                }
            }
            assert forall|g: u32| #[trigger] rows_of(b).contains(g) <==> exists|j: int|
                0 <= j < k + 1 && self.name_accepted(
                    pattern@,
                    (#[trigger] entries@[j]).0@,
                    g,
                ) by {
                assert(rows_of(b).contains(g) == (was.contains(g) || self.name_accepted(
                    pattern@,
                    name,
                    g,
                )));
                if was.contains(g) {
                    let j = choose|j: int|
                        0 <= j < k && self.name_accepted(
                            pattern@,
                            (#[trigger] entries@[j]).0@,
                            g,
                        );
                    assert(j < k + 1);
                }
                if exists|j: int|
                    0 <= j < k + 1 && self.name_accepted(
                        pattern@,
                        (#[trigger] entries@[j]).0@,
                        g,
                    ) {
                    let j = choose|j: int|
                        0 <= j < k + 1 && self.name_accepted(
                            pattern@,
                            (#[trigger] entries@[j]).0@,
                            g,
                        );
                    if j < k {
                        assert(was.contains(g));
                    }
                }
            }
            k += 1;
        }
        proof {
            let want = self.name_regex_candidates(pattern@)->0;
            assert forall|g: u32| rows_of(b).contains(g) == want.contains(g) by {
                if want.contains(g) {
                    let name = choose|name: Seq<u8>| #[trigger]
                        self.name_accepted(pattern@, name, g);
                    assert(self.index().name_index@.contains_key(name));
                    let j = choose|j: int|
                        0 <= j < entries@.len() && (#[trigger] entries@[j]).0@ == name;
                    assert(self.name_accepted(pattern@, entries@[j].0@, g));
                }
            }
            assert(rows_of(b) =~= want);
        }
        Some(b)
    }

    /// The candidates that the trigrams of the first `n` literals leave; literals shorter than a
    /// trigram and those the trigram index cannot answer leave everything.
    pub open spec fn trigram_candidates(&self, literals: Seq<Seq<char>>, n: int) -> Option<Set<u32>>
        decreases n,
    {
        if n <= 0 {
            None
        } else {
            let before = self.trigram_candidates(literals, n - 1);
            match self.index().substring_candidates(encode_utf8(literals[n - 1])) {
                None => before,
                Some(rows) => match before {
                    Some(prev) => Some(prev.intersect(rows)),
                    None => Some(rows),
                },
            }
        }
    }

    /// Intersects the trigram candidates of the literals of a pattern.
    pub fn intersect_literal_trigrams(&self, literals: &Vec<String>) -> (r: Option<RoaringBitmap>)
        requires
            self.wf(),
        ensures
            self.index().trigrams_sorted() ==> opt_rows(r) == self.trigram_candidates(
                text_views(literals@),
                literals@.len() as int,
            ),
    {
        let ghost views = text_views(literals@);
        let ghost sorted = self.index().trigrams_sorted();
        let mut acc: Option<RoaringBitmap> = None;
        let mut k: usize = 0;
        while k < literals.len()
            invariant
                self.wf(),
                views == text_views(literals@),
                sorted == self.index().trigrams_sorted(),
                k <= literals@.len(),
                sorted ==> opt_rows(acc) == self.trigram_candidates(views, k as int),
            decreases literals.len() - k,
        {
            assert(views[k as int] == literals@[k as int]@);
            match self.shared.overlay.name_substring_candidates(literals[k].as_str()) {
                Some(rows) => {
                    let next = match &acc {
                        Some(prev) => rows_in_both(prev, &rows),
                        None => copy_rows(&rows),
                    };
                    acc = Some(next);
                },
                None => {},
            }
            k += 1;
        }
        acc
    }

    /// The candidates of a `LIKE` pattern on names, by trigrams.
    pub fn trigram_prefilter_for_pattern(&self, pattern: &str) -> (r: Option<RoaringBitmap>)
        requires
            self.wf(),
        ensures
            self.index().trigrams_sorted() ==> opt_rows(r) == self.trigram_candidates(
                literal_runs(PatternKind::Like, pattern@),
                literal_runs(PatternKind::Like, pattern@).len() as int,
            ),
    {
        let literals = pattern_literals(PatternKind::Like, pattern);
        self.intersect_literal_trigrams(&literals)
    }

    /// The candidates of a regular expression on names, by trigrams. With an alternation a match
    /// needs the literals of one branch only, so nothing is proposed.
    pub open spec fn regex_trigram_candidates(&self, pattern: Seq<char>) -> Option<Set<u32>> {
        if pattern.contains('|') {
            None
        } else {
            self.trigram_candidates(
                literal_runs(PatternKind::Regex, pattern),
                literal_runs(PatternKind::Regex, pattern).len() as int,
            )
        }
    }

    /// The candidates of a regular expression on names, by trigrams.
    pub fn trigram_prefilter_for_regex(&self, pattern: &str) -> (r: Option<RoaringBitmap>)
        requires
            self.wf(),
        ensures
            self.index().trigrams_sorted() ==> opt_rows(r) == self.regex_trigram_candidates(
                pattern@,
            ),
    {
        let chars = crate::text::chars_of(pattern);
        let bar: usize = crate::node_id::find_char(&chars, '|', 0);
        if bar < chars.len() {
            assert(chars@[bar as int] == '|');
            return None;
        }
        let literals = pattern_literals(PatternKind::Regex, pattern);
        self.intersect_literal_trigrams(&literals)
    }
}

// ───────────────────────────── short prefixes ─────────────────────────────

/// Whether the entries of a prefix index list a row under a prefix.
pub open spec fn prefix_lists(entries: Seq<(Vec<u8>, Vec<u32>)>, prefix: Seq<u8>, r: u32) -> bool {
    exists|k: int|
        0 <= k < entries.len() && (#[trigger] entries[k]).0@ == prefix && entries[k].1@.contains(r)
}

/// The rows of a segment that may start with a prefix: those its index lists, or all of them
/// where it has no index that can be read.
pub open spec fn prefix_locals(seg: SegmentReader, rows: u32, prefix: Seq<u8>) -> Set<u32> {
    match seg.name_prefix {
        NamePrefixIndex::Entries(entries) => Set::new(
            |r: u32| prefix_lists(entries@, prefix, r),
        ),
        _ => row_span(0, rows),
    }
}

fn listed_under(entries: &Vec<(Vec<u8>, Vec<u32>)>, prefix: &Vec<u8>) -> (b: RoaringBitmap)
    ensures
        rows_of(b) == Set::<u32>::new(|r: u32| prefix_lists(entries@, prefix@, r)),
{
    let mut b = RoaringBitmap::new();
    let mut k: usize = 0;
    while k < entries.len()
        invariant
            k <= entries@.len(),
            forall|r: u32| #[trigger]
                rows_of(b).contains(r) <==> exists|j: int|
                    0 <= j < k && (#[trigger] entries@[j]).0@ == prefix@
                        && entries@[j].1@.contains(r),
        decreases entries.len() - k,
    {
        let ghost was = rows_of(b);
        let same = same_bytes(entries[k].0.as_slice(), prefix.as_slice());
        if same {
            let rows = collect_rows(&entries[k].1);
            b = rows_in_either(&b, &rows);
        }
        assert forall|r: u32| #[trigger] rows_of(b).contains(r) <==> exists|j: int|
            0 <= j < k + 1 && (#[trigger] entries@[j]).0@ == prefix@ && entries@[j].1@.contains(
                r,
            ) by {
            assert(rows_of(b).contains(r) == (was.contains(r) || (same
                && entries@[k as int].1@.contains(r)))) by {
                assert(entries@[k as int].1@.to_set().contains(r)
                    == entries@[k as int].1@.contains(r));
            }
            if was.contains(r) {
                let j = choose|j: int|
                    0 <= j < k && (#[trigger] entries@[j]).0@ == prefix@
                        && entries@[j].1@.contains(r);
                assert(j < k + 1);
            }
            if exists|j: int|
                0 <= j < k + 1 && (#[trigger] entries@[j]).0@ == prefix@
                    && entries@[j].1@.contains(r) {
                let j = choose|j: int|
                    0 <= j < k + 1 && (#[trigger] entries@[j]).0@ == prefix@
                        && entries@[j].1@.contains(r);
                if j < k {
                    assert(was.contains(r));
                }
            }
        }
        k += 1;
    }
    assert(rows_of(b) =~= Set::<u32>::new(|r: u32| prefix_lists(entries@, prefix@, r)));
    b
}

impl ColumnarStorage {
    /// Whether a segment stores a short-prefix index, readable or not.
    pub open spec fn has_prefix_index(&self, i: int) -> bool {
        !(self.seg(i).name_prefix is Missing)
    }

    /// The rows of the segments before `n` that may start with a prefix.
    pub open spec fn prefix_rows(&self, prefix: Seq<u8>, n: int) -> Set<u32> {
        Set::new(
            |g: u32|
                exists|i: int|
                    0 <= i < n && #[trigger] self.globals(
                        i,
                        prefix_locals(
                            self.seg(i),
                            self.index().segments@[i].row_count,
                            prefix,
                        ),
                    ).contains(g),
        )
    }

    /// The rows that may start with a short prefix; nothing where no segment has an index of
    /// short prefixes.
    pub open spec fn prefix_candidates(&self, prefix: Seq<u8>) -> Option<Set<u32>> {
        if exists|i: int| 0 <= i < self.seg_count() && #[trigger] self.has_prefix_index(i) {
            Some(self.prefix_rows(prefix, self.seg_count() as int))
        } else {
            None
        }
    }

    /// The rows that may start with a short prefix.
    pub fn short_prefix_global_bitmap(&self, prefix: &Vec<u8>) -> (r: Option<RoaringBitmap>)
        requires
            self.wf(),
        ensures
            opt_rows(r) == self.prefix_candidates(prefix@),
    {
        let mut b = RoaringBitmap::new();
        let mut any = false;
        let mut i: usize = 0;
        assert(rows_of(b) =~= self.prefix_rows(prefix@, 0));
        while i < self.shared.segments.len()
            invariant
                self.wf(),
                i <= self.seg_count(),
                any == (exists|k: int| 0 <= k < i && #[trigger] self.has_prefix_index(k)),
                rows_of(b) == self.prefix_rows(prefix@, i as int),
            decreases self.shared.segments.len() - i,
        {
            let seg = &*self.shared.segments[i];
            let count: u32 = self.shared.overlay.segments[i].row_count;
            let local = match &seg.name_prefix {
                NamePrefixIndex::Entries(entries) => {
                    assert(self.has_prefix_index(i as int));
                    any = true;
                    listed_under(entries, prefix)
                },
                NamePrefixIndex::Unreadable => {
                    assert(self.has_prefix_index(i as int));
                    any = true;
                    span_rows(0, count)
                },
                NamePrefixIndex::Missing => span_rows(0, count),
            };
            let ghost was = rows_of(b);
            let ghost here = self.globals(
                i as int,
                prefix_locals(self.seg(i as int), count, prefix@),
            );
            self.add_globals(&mut b, i, &local);
            assert(rows_of(b) =~= self.prefix_rows(prefix@, i + 1)) by {
                assert forall|g: u32| rows_of(b).contains(g) == self.prefix_rows(
                    prefix@,
                    i + 1,
                ).contains(g) by {
                    assert(rows_of(b).contains(g) == (was.contains(g) || here.contains(g)));
                    if was.contains(g) {
                        let k = choose|k: int|
                            0 <= k < i && #[trigger] self.globals(
                                k,
                                prefix_locals(
                                    self.seg(k),
                                    self.index().segments@[k].row_count,
                                    prefix@,
                                ),
                            ).contains(g);
                        assert(k < i + 1);
                    }
                    if self.prefix_rows(prefix@, i + 1).contains(g) {
                        let k = choose|k: int|
                            0 <= k < i + 1 && #[trigger] self.globals(
                                k,
                                prefix_locals(
                                    self.seg(k),
                                    self.index().segments@[k].row_count,
                                    prefix@,
                                ),
                            ).contains(g);
                        if k < i {
                            assert(was.contains(g));
                        }
                    }
                }
            }
            i += 1;
        }
        if any {
            Some(b)
        } else {
            None
        }
    }
}

// ───────────────────────────── the whole stage ─────────────────────────────

/// Whether a predicate asks for one kind.
pub open spec fn asks_kind(p: Predicate) -> bool {
    p.value is String && canonical_text(p.field@) == "fql_kind"@ && p.op == CompareOp::Eq
}

impl ColumnarStorage {
    /// The candidates that the index proposes for one predicate; nothing where no index serves
    /// it.
    pub open spec fn proposed(&self, p: Predicate) -> Option<Set<u32>> {
        let field = canonical_text(p.field@);
        match p.value {
            PredicateValue::String(v) => if field == "fql_kind"@ && p.op == CompareOp::Eq {
                match self.index().kind_rows(v@) {
                    Some(rows) => Some(rows),
                    None => Some(Set::empty()),
                }
            } else if field == "name"@ && p.op == CompareOp::Eq {
                Some(self.index().name_rows(v@))
            } else if field == "name"@ && p.op == CompareOp::Like {
                match short_prefix(v@) {
                    Some(prefix) => self.prefix_candidates(prefix),
                    None => self.trigram_candidates(
                        literal_runs(PatternKind::Like, v@),
                        literal_runs(PatternKind::Like, v@).len() as int,
                    ),
                }
            } else if field == "name"@ && p.op == CompareOp::Matches {
                if regex_compiles(v@) {
                    self.name_regex_candidates(v@)
                } else {
                    self.regex_trigram_candidates(v@)
                }
            } else if field == "language"@ {
                self.language_candidates(p.op, v@)
            } else if p.op == CompareOp::Eq {
                self.eq_candidates(field, v@)
            } else if p.op == CompareOp::Like || p.op == CompareOp::Matches || p.op
                == CompareOp::NotLike || p.op == CompareOp::NotMatches {
                self.pattern_candidates(field, p.op, v@)
            } else {
                None
            },
            PredicateValue::Bool(b) => if p.op == CompareOp::Eq {
                self.eq_candidates(field, bool_text(b))
            } else {
                None
            },
            PredicateValue::Number(v) => match p.op {
                CompareOp::Gte => self.range_candidates(field, Some(v), None),
                CompareOp::Lte => self.range_candidates(field, None, Some(v)),
                CompareOp::Gt => if v == i64::MAX {
                    None
                } else {
                    self.range_candidates(field, Some((v + 1) as i64), None)
                },
                CompareOp::Lt => if v == i64::MIN {
                    None
                } else {
                    self.range_candidates(field, None, Some((v - 1) as i64))
                },
                _ => None,
            },
        }
    }

    /// The candidates of a numeric range on an enrichment field.
    pub open spec fn range_candidates(&self, field: Seq<char>, low: Option<i64>, high: Option<i64>) -> Option<
        Set<u32>,
    > {
        match self.index().enrich_union(
            |i: int| self.index().numeric_entry(i, field, low, high),
        ) {
            Some(rows) => Some(rows.union(self.missing_rows(field, self.seg_count() as int))),
            None => None,
        }
    }

    fn range_bitmap(&self, field: &str, low: Option<i64>, high: Option<i64>) -> (r: Option<
        RoaringBitmap,
    >)
        requires
            self.wf(),
        ensures
            opt_rows(r) == self.range_candidates(field@, low, high),
    {
        match self.shared.overlay.prefilter_enrichment_between(field, low, high) {
            Some(rows) => {
                let missing = self.rows_missing_field_postings(field);
                Some(rows_in_either(&rows, &missing))
            },
            None => None,
        }
    }

    /// Whether the sorted indexes of the overlay are sorted.
    pub open spec fn sorted(&self) -> bool {
        self.index().kinds_sorted() && self.index().trigrams_sorted()
    }

    /// Whether the candidates of a predicate are read from a table that is searched by halving.
    pub open spec fn halves(&self, p: Predicate) -> bool {
        let field = canonical_text(p.field@);
        p.value is String && ((field == "fql_kind"@ && p.op == CompareOp::Eq) || (field == "name"@
            && (p.op == CompareOp::Like || p.op == CompareOp::Matches)))
    }

    /// The candidates of one predicate. What halving a table that is not sorted finds is not said.
    pub fn propose(&self, p: &Predicate) -> (r: Option<RoaringBitmap>)
        requires
            self.wf(),
        ensures
            self.sorted() || !self.halves(*p) ==> opt_rows(r) == self.proposed(*p),
            asks_kind(*p) ==> r is Some && forall|g: u32| #[trigger]
                rows_of(r->0).contains(g) ==> self.index().posted_for_kind(
                    p.value->String_0@,
                    g,
                ),
    {
        let field = canonical(p.field.as_str());
        match &p.value {
            PredicateValue::String(v) => {
                let v = v.as_str();
                if same_text(field, "fql_kind") && p.op == CompareOp::Eq {
                    match self.shared.overlay.prefilter_kind(v) {
                        Some(rows) => Some(rows),
                        None => Some(RoaringBitmap::new()),
                    }
                } else if same_text(field, "name") && p.op == CompareOp::Eq {
                    Some(self.shared.overlay.lookup_name_bitmap(v))
                } else if same_text(field, "name") && p.op == CompareOp::Like {
                    match pattern_as_prefix(v) {
                        Some(prefix) => self.short_prefix_global_bitmap(&prefix),
                        None => self.trigram_prefilter_for_pattern(v),
                    }
                } else if same_text(field, "name") && p.op == CompareOp::Matches {
                    if compile_regex(v).is_some() {
                        self.name_regex_bitmap(v)
                    } else {
                        self.trigram_prefilter_for_regex(v)
                    }
                } else if same_text(field, "language") {
                    self.core_language_bitmap(p.op, v)
                } else if p.op == CompareOp::Eq {
                    self.enrichment_eq_bitmap(field, v)
                } else if p.op == CompareOp::Like || p.op == CompareOp::Matches || p.op
                    == CompareOp::NotLike || p.op == CompareOp::NotMatches {
                    self.enrichment_pattern_bitmap(field, p.op, v)
                } else {
                    None
                }
            },
            PredicateValue::Bool(b) => {
                if p.op == CompareOp::Eq {
                    self.enrichment_eq_bitmap(
                        field,
                        if *b {
                            "true"
                        } else {
                            "false"
                        },
                    )
                } else {
                    None
                }
            },
            PredicateValue::Number(v) => match p.op {
                CompareOp::Gte => self.range_bitmap(field, Some(*v), None),
                CompareOp::Lte => self.range_bitmap(field, None, Some(*v)),
                CompareOp::Gt => if *v == i64::MAX {
                    None
                } else {
                    self.range_bitmap(field, Some(*v + 1), None)
                },
                CompareOp::Lt => if *v == i64::MIN {
                    None
                } else {
                    self.range_bitmap(field, None, Some(*v - 1))
                },
                _ => None,
            },
        }
    }

    /// What the first `n` predicates leave of a floor, where they or the floor leave anything to
    /// go by.
    pub open spec fn narrowed(&self, predicates: Seq<Predicate>, floor: Option<Set<u32>>, n: int) -> Option<
        Set<u32>,
    >
        decreases n,
    {
        if n <= 0 {
            floor
        } else {
            let before = self.narrowed(predicates, floor, n - 1);
            match self.proposed(predicates[n - 1]) {
                None => before,
                Some(rows) => match before {
                    Some(prev) => Some(prev.intersect(rows)),
                    None => Some(rows),
                },
            }
        }
    }

    /// The candidate rows of a query: the floor and every proposal intersected, or every row
    /// where there is neither.
    pub open spec fn candidates(&self, predicates: Seq<Predicate>, floor: Option<Set<u32>>) -> Set<
        u32,
    > {
        match self.narrowed(predicates, floor, predicates.len() as int) {
            Some(rows) => rows,
            None => row_span(0, self.index().row_count),
        }
    }

    /// Whether rows are what the indexes leave of a floor: the candidates, where the tables that
    /// are searched by halving are sorted. Where they are not, rows of the floor all the same, of
    /// what every predicate proposes that no such table serves, and posted for the kinds asked for.
    pub open spec fn leaves(
        &self,
        predicates: Seq<Predicate>,
        floor: Option<Set<u32>>,
        rows: Set<u32>,
    ) -> bool {
        &&& self.sorted() ==> rows == self.candidates(predicates, floor)
        &&& floor is Some ==> rows.subset_of(floor->0)
        &&& forall|k: int|
            #![trigger predicates[k]]
            0 <= k < predicates.len() && !self.halves(predicates[k]) && self.proposed(
                predicates[k],
            ) is Some ==> rows.subset_of(self.proposed(predicates[k])->0)
        &&& forall|k: int, g: u32|
            #![trigger predicates[k], rows.contains(g)]
            0 <= k < predicates.len() && asks_kind(predicates[k]) && rows.contains(g)
                ==> self.index().posted_for_kind(predicates[k].value->String_0@, g)
    }

    /// The candidate rows of a query, by the indexed predicates.
    ///
    /// `floor` is a range of rows that the query is known to keep to. A predicate that no index
    /// serves is left to the later stages.
    pub fn prefilter_global(&self, clauses: &Clauses, floor: Option<RoaringBitmap>) -> (r:
        RoaringBitmap)
        requires
            self.wf(),
        ensures
            self.leaves(clauses.where_predicates@, opt_rows(floor), rows_of(r)),
    {
        let ghost preds = clauses.where_predicates@;
        let ghost start = opt_rows(floor);
        let ghost sorted = self.sorted();
        let mut acc: Option<RoaringBitmap> = floor;
        let mut k: usize = 0;
        while k < clauses.where_predicates.len()
            invariant
                self.wf(),
                preds == clauses.where_predicates@,
                sorted == self.sorted(),
                k <= preds.len(),
                sorted ==> opt_rows(acc) == self.narrowed(preds, start, k as int),
                start is Some ==> acc is Some && rows_of(acc->0).subset_of(start->0),
                forall|j: int|
                    #![trigger preds[j]]
                    0 <= j < k && !self.halves(preds[j]) && self.proposed(preds[j]) is Some
                        ==> acc is Some && rows_of(acc->0).subset_of(self.proposed(preds[j])->0),
                forall|j: int|
                    #![trigger preds[j]]
                    0 <= j < k && asks_kind(preds[j]) ==> acc is Some && forall|g: u32| #[trigger]
                        rows_of(acc->0).contains(g) ==> self.index().posted_for_kind(
                            preds[j].value->String_0@,
                            g,
                        ),
            decreases clauses.where_predicates.len() - k,
        {
            match self.propose(&clauses.where_predicates[k]) {
                Some(rows) => {
                    let next = match &acc {
                        Some(prev) => rows_in_both(prev, &rows),
                        None => copy_rows(&rows),
                    };
                    acc = Some(next);
                },
                None => {},
            }
            k += 1;
        }
        match acc {
            Some(rows) => rows,
            None => span_rows(0, self.shared.overlay.row_count),
        }
    }
}

} // verus!
