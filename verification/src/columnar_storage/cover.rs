//! What the indexes propose loses no row: where the index knows of a row that matches a query, a
//! scan looks at it.

use crate::bytes::{utf8_lossy, utf8_of};
use crate::clauses::{Clauses, CompareOp, Predicate, PredicateValue};
use crate::columnar_storage::candidates::zone_admits;
use crate::columnar_storage::hits::{residual, Hit};
use crate::columnar_storage::literals::{
    lemma_like_literals_occur, literal_lead, literal_runs, lowercase, occurs_at, short_prefix,
    like_wildcard, PatternKind,
};
use crate::columnar_storage::prefilter::{
    is_negated, language_locals, pattern_accepts, posts_partially, prefix_lists, prefix_locals,
    takes_regex,
};
use crate::columnar_storage::ColumnarStorage;
use crate::fields::{canonical_text, core_field, posting_field};
use crate::filter::{bool_text, like_accepts, like_at};
use crate::name_index::lists_entries;
use crate::order::bytes_before;
use crate::overlay::enrich::{field_key, field_prefix};
use crate::overlay::format::RowPtr;
use crate::overlay::lookup::starts_with;
use crate::overlay::postings::holds_at;
use crate::paths::{lemma_glob_prefix_sound, literal_prefix, scope_selects};
use crate::rows::row_span;
use crate::segment::{lists_text, NamePrefixIndex};
use crate::text::signed_of;
use vstd::prelude::*;
use vstd::string::*;
use vstd::utf8::*;

verus! {

// ───────────────────────────── what the index knows ─────────────────────────────

impl ColumnarStorage {
    /// The global row of a hit.
    pub open spec fn global_of(&self, h: Hit) -> u32 {
        (self.seg_base(h.seg) + h.row) as u32
    }

    /// Whether the row table holds a row in its place.
    pub open spec fn in_table(&self, h: Hit) -> bool {
        &&& self.valid_hit(h)
        &&& self.seg_base(h.seg) + h.row < self.seg_base(h.seg + 1)
        &&& h.row < self.index().segments@[h.seg].row_count
        &&& self.index().row_at(self.global_of(h)) == Some(
            RowPtr { segment_idx: h.seg as u32, local_row_idx: h.row as u32 },
        )
    }

    /// Whether a row's kind is posted, where it has one.
    pub open spec fn posts_kind(&self, h: Hit) -> bool {
        let kind = self.hit_row(h).fql_kind@;
        kind.len() > 0 ==> self.index().kind_rows(kind) is Some && self.index().kind_rows(
            kind,
        )->0.contains(self.global_of(h))
    }

    /// Whether a row's name is posted, with its trigrams and its short prefixes.
    pub open spec fn posts_name(&self, h: Hit) -> bool {
        let name = self.hit_row(h).name@;
        let g = self.global_of(h);
        &&& self.index().name_index@.contains_key(encode_utf8(name))
        &&& self.index().postings(self.index().name_index@[encode_utf8(name)]).contains(g)
        &&& self.index().posts_trigrams(encode_utf8(name), g)
        &&& match self.seg(h.seg).name_prefix {
            NamePrefixIndex::Entries(entries) => {
                &&& name.len() >= 1 ==> prefix_lists(
                    entries@,
                    encode_utf8(lowercase(name[0])),
                    h.row as u32,
                )
                &&& name.len() >= 2 ==> prefix_lists(
                    entries@,
                    encode_utf8(lowercase(name[0]) + lowercase(name[1])),
                    h.row as u32,
                )
            },
            _ => true,
        }
    }

    /// Whether the keys of a field speak for a row: its segment posts the field, or does not store
    /// it.
    pub open spec fn speaks_for(&self, h: Hit, field: Seq<char>) -> bool {
        !(posting_field(field) && posts_partially(self.seg(h.seg), field))
    }

    /// Whether entry `i` of the enrichment index is right about a row: it posts the row where the
    /// row has its value, and only there.
    pub open spec fn right_about(&self, h: Hit, field: Seq<char>, i: int) -> bool {
        let value = self.seg(h.seg).extra(field, h.row);
        let rows = self.index().enrich_bitmap(i);
        &&& value is Some && self.index().enrich_value(i, field) == value && self.speaks_for(
            h,
            field,
        ) ==> rows is Some && rows->0.contains(self.global_of(h))
        &&& rows is Some && rows->0.contains(self.global_of(h)) ==> self.index().enrich_value(
            i,
            field,
        ) == value
    }

    /// Whether the value that a row has of a field has an entry.
    pub open spec fn has_entry(&self, h: Hit, field: Seq<char>) -> bool {
        exists|i: int| #[trigger]
            self.index().enrich_of_field(i, field) && self.index().enrich_value(i, field)
                == self.seg(h.seg).extra(field, h.row)
    }

    /// Whether the enrichment index is right about a row: in every entry, and every value but the
    /// empty one has an entry, of a field the index keeps.
    pub open spec fn posts_values(&self, h: Hit) -> bool {
        &&& forall|field: Seq<char>, i: int|
            !core_field(field) && #[trigger] self.index().enrich_of_field(i, field)
                ==> self.right_about(h, field, i)
        &&& forall|field: Seq<char>|
            !core_field(field) && (exists|i: int| #[trigger]
                self.index().enrich_of_field(i, field)) && (#[trigger] self.seg(h.seg).extra(
                field,
                h.row,
            )) is Some && self.seg(h.seg).extra(field, h.row)->0.len() > 0 && self.speaks_for(
                h,
                field,
            ) ==> self.has_entry(h, field)
    }

    /// Whether the index knows of a row.
    pub open spec fn indexed(&self, h: Hit) -> bool {
        &&& self.in_table(h)
        &&& self.posts_kind(h)
        &&& self.posts_name(h)
        &&& self.posts_values(h)
    }

    /// Whether what the indexes propose for a predicate is told by what they know of rows.
    ///
    /// Not where the index keeps values of a field under the name of a core one.
    pub open spec fn tells(&self, p: Predicate) -> bool {
        let f = canonical_text(p.field@);
        core_field(f) ==> !exists|i: int| #[trigger] self.index().enrich_of_field(i, f)
    }
}

// ───────────────────────────── streams ─────────────────────────────

impl ColumnarStorage {
    proof fn lemma_posted_holds(
        &self,
        name: Seq<char>,
        ids: Seq<u32>,
        want: Option<Set<u32>>,
        n: int,
        k: int,
        hit: Hit,
    )
        requires
            0 <= k < n <= ids.len(),
            self.streamed_hit(ids[k], want) == Some(hit),
        ensures
            exists|i: int|
                0 <= i < self.posted_hits(name, ids, want, n).len() && (#[trigger] self.posted_hits(
                    name,
                    ids,
                    want,
                    n,
                )[i]).hit == hit,
        decreases n,
    {
        let now = self.posted_hits(name, ids, want, n);
        if k == n - 1 {
            assert(now[now.len() - 1].hit == hit);
        } else {
            self.lemma_posted_holds(name, ids, want, n - 1, k, hit);
            let before = self.posted_hits(name, ids, want, n - 1);
            let i = choose|i: int| 0 <= i < before.len() && (#[trigger] before[i]).hit == hit;
            assert(now[i] == before[i]);
        }
    }

    proof fn lemma_streamed_holds(
        &self,
        entries: Seq<(Vec<u8>, u64)>,
        want: Option<Set<u32>>,
        n: int,
        j: int,
        k: int,
        hit: Hit,
    )
        requires
            0 <= j < n <= entries.len(),
            0 <= k < self.index().postings(entries[j].1).len(),
            self.streamed_hit(self.index().postings(entries[j].1)[k], want) == Some(hit),
        ensures
            exists|i: int|
                0 <= i < self.streamed(entries, want, n).len() && (#[trigger] self.streamed(
                    entries,
                    want,
                    n,
                )[i]).hit == hit,
        decreases n,
    {
        let now = self.streamed(entries, want, n);
        let before = self.streamed(entries, want, n - 1);
        let ids = self.index().postings(entries[n - 1].1);
        let name = utf8_lossy(entries[n - 1].0@);
        let more = self.posted_hits(name, ids, want, ids.len() as int);
        assert(now == before + more);
        if j == n - 1 {
            self.lemma_posted_holds(name, ids, want, ids.len() as int, k, hit);
            let i = choose|i: int| 0 <= i < more.len() && (#[trigger] more[i]).hit == hit;
            assert(now[before.len() + i] == more[i]);
        } else {
            self.lemma_streamed_holds(entries, want, n - 1, j, k, hit);
            let i = choose|i: int| 0 <= i < before.len() && (#[trigger] before[i]).hit == hit;
            assert(now[i] == before[i]);
        }
    }

    /// A stream in the order of names leaves out only what comes later: where it leaves out a row
    /// that the index knows of and the query wants, it holds as many rows as were needed, all of
    /// them under names before the name of that row.
    pub proof fn lemma_stream_leaves_out_later_names(
        &self,
        entries: Seq<(Vec<u8>, u64)>,
        want: Option<Set<u32>>,
        need: usize,
        m: int,
        h: Hit,
    )
        requires
            self.wf(),
            lists_entries(entries, self.index().name_index@),
            self.stream_stops(entries, want, need, m),
            self.indexed(h),
            want is None || want->0.contains(self.global_of(h)),
            forall|i: int|
                0 <= i < self.streamed(entries, want, m).len() ==> (#[trigger] self.streamed(
                    entries,
                    want,
                    m,
                )[i]).hit != h,
        ensures
            self.streamed(entries, want, m).len() >= need,
            forall|i: int|
                0 <= i < m ==> bytes_before(
                    (#[trigger] entries[i]).0@,
                    encode_utf8(self.hit_row(h).name@),
                ),
    {
        let key = encode_utf8(self.hit_row(h).name@);
        let g = self.global_of(h);
        let j = choose|j: int| 0 <= j < entries.len() && (#[trigger] entries[j]).0@ == key;
        let ids = self.index().postings(entries[j].1);
        assert(ids.contains(g));
        let k = choose|k: int| 0 <= k < ids.len() && ids[k] == g;
        assert(self.streamed_hit(g, want) == Some(h));
        if j < m {
            self.lemma_streamed_holds(entries, want, m, j, k, h);
        }
        assert forall|i: int| 0 <= i < m implies bytes_before((#[trigger] entries[i]).0@, key) by {
            assert(entries[j].0@ == key);
        }
    }
}

// ───────────────────────────── text and bytes ─────────────────────────────

proof fn lemma_encode_concat(a: Seq<char>, b: Seq<char>)
    ensures
        encode_utf8(a + b) == encode_utf8(a) + encode_utf8(b),
    decreases a.len(),
{
    if a.len() == 0 {
        assert(a + b =~= b);
        assert(encode_utf8(a) + encode_utf8(b) =~= encode_utf8(b));
    } else {
        lemma_encode_concat(a.drop_first(), b);
        assert((a + b).drop_first() =~= a.drop_first() + b);
        assert((a + b)[0] == a[0]);
        assert(encode_utf8(a + b) =~= encode_utf8(a) + encode_utf8(b));
    }
}

proof fn lemma_occurs_in_bytes(text: Seq<char>, run: Seq<char>, at: int)
    requires
        occurs_at(text, run, at),
    ensures
        holds_at(encode_utf8(text), encode_utf8(run), encode_utf8(text.take(at)).len() as int),
{
    let head = text.take(at);
    let tail = text.skip(at + run.len());
    assert(text =~= head + run + tail);
    lemma_encode_concat(head, run);
    lemma_encode_concat(head + run, tail);
    let whole = encode_utf8(text);
    let off = encode_utf8(head).len() as int;
    let mid = encode_utf8(run);
    assert(whole == encode_utf8(head) + mid + encode_utf8(tail));
    assert forall|j: int| 0 <= j < mid.len() implies whole[off + j] == #[trigger] mid[j] by {}
}

proof fn lemma_like_lead(t: Seq<char>, p: Seq<char>, i: int)
    requires
        like_at(t, i, p, i),
        0 <= i < p.len(),
        !like_wildcard(p[i]),
    ensures
        i < t.len(),
        t[i] == p[i],
        like_at(t, i + 1, p, i + 1),
{
}

proof fn lemma_text_of_encoding(v: Seq<char>)
    ensures
        utf8_of(encode_utf8(v)) == Some(v),
{
    encode_utf8_valid_utf8(v);
    encode_utf8_decode_utf8(v);
}

// ───────────────────────────── each index ─────────────────────────────

impl ColumnarStorage {
    proof fn lemma_globals_hold(&self, h: Hit, locals: Set<u32>)
        requires
            self.in_table(h),
            locals.contains(h.row as u32),
        ensures
            self.globals(h.seg, locals).contains(self.global_of(h)),
            self.seg_rows(h.seg).contains(self.global_of(h)),
    {
        let g = self.global_of(h);
        assert((g - self.seg_base(h.seg)) as u32 == h.row as u32);
    }

    proof fn lemma_trigrams_cover(&self, h: Hit, pattern: Seq<char>, n: int)
        requires
            self.indexed(h),
            self.index().trigrams_sorted(),
            like_accepts(self.hit_row(h).name@, pattern),
            0 <= n <= literal_runs(PatternKind::Like, pattern).len(),
            self.trigram_candidates(literal_runs(PatternKind::Like, pattern), n) is Some,
        ensures
            self.trigram_candidates(
                literal_runs(PatternKind::Like, pattern),
                n,
            )->0.contains(self.global_of(h)),
        decreases n,
    {
        let runs = literal_runs(PatternKind::Like, pattern);
        let name = self.hit_row(h).name@;
        if n > 0 {
            if self.trigram_candidates(runs, n - 1) is Some {
                self.lemma_trigrams_cover(h, pattern, n - 1);
            }
            let run = runs[n - 1];
            lemma_like_literals_occur(name, pattern, n - 1);
            let at = choose|at: int| #[trigger] occurs_at(name, run, at);
            lemma_occurs_in_bytes(name, run, at);
            if self.index().substring_candidates(encode_utf8(run)) is Some {
                self.index().lemma_substring_candidates_cover(
                    encode_utf8(name),
                    self.global_of(h),
                    encode_utf8(run),
                    encode_utf8(name.take(at)).len() as int,
                );
            }
        }
    }

    proof fn lemma_prefixes_cover(&self, h: Hit, pattern: Seq<char>)
        requires
            self.wf(),
            self.indexed(h),
            like_accepts(self.hit_row(h).name@, pattern),
            short_prefix(pattern) is Some,
            self.prefix_candidates(short_prefix(pattern)->0) is Some,
        ensures
            self.prefix_candidates(short_prefix(pattern)->0)->0.contains(self.global_of(h)),
    {
        let name = self.hit_row(h).name@;
        let prefix = short_prefix(pattern)->0;
        let n = literal_lead(pattern, 0);
        lemma_like_lead(name, pattern, 0);
        if n == 2 {
            assert(literal_lead(pattern, 1) == 1);
            lemma_like_lead(name, pattern, 1);
        }
        let locals = prefix_locals(
            self.seg(h.seg),
            self.index().segments@[h.seg].row_count,
            prefix,
        );
        assert(locals.contains(h.row as u32));
        self.lemma_globals_hold(h, locals);
    }

    proof fn lemma_regex_covers(&self, h: Hit, pattern: Seq<char>)
        requires
            self.indexed(h),
            crate::pattern::regex_compiles(pattern),
            crate::pattern::regex_accepts(pattern, self.hit_row(h).name@),
            self.name_regex_candidates(pattern) is Some,
        ensures
            self.name_regex_candidates(pattern)->0.contains(self.global_of(h)),
    {
        let name = self.hit_row(h).name@;
        lemma_text_of_encoding(name);
        assert(self.name_accepted(pattern, encode_utf8(name), self.global_of(h)));
    }

    proof fn lemma_missing_covers(&self, h: Hit, field: Seq<char>)
        requires
            self.in_table(h),
            !self.speaks_for(h, field),
        ensures
            self.missing_rows(field, self.seg_count() as int).contains(self.global_of(h)),
    {
        assert(posts_partially(self.seg(h.seg), field));
        assert(self.seg_rows(h.seg).contains(self.global_of(h)));
    }

    proof fn lemma_find_enrich_key(&self, key: Seq<u8>, i: int)
        requires
            0 <= i,
            self.index().find_enrich(key, i) is Some,
        ensures
            i <= self.index().find_enrich(key, i)->0 < self.index().enrich_len(),
            self.index().enrich_key(self.index().find_enrich(key, i)->0) == key,
        decreases self.index().enrich_len() - i,
    {
        if i < self.index().enrich_len() && self.index().enrich_key(i) != key {
            self.lemma_find_enrich_key(key, i + 1);
        }
    }

    proof fn lemma_equality_covers(&self, h: Hit, field: Seq<char>, value: Seq<char>)
        requires
            self.wf(),
            self.indexed(h),
            !core_field(field),
            self.seg(h.seg).extra(field, h.row) == Some(value),
            self.eq_candidates(field, value) is Some,
        ensures
            self.eq_candidates(field, value)->0.contains(self.global_of(h)),
    {
        let key = field_key(field, value);
        if !self.speaks_for(h, field) {
            self.lemma_missing_covers(h, field);
        }
        match self.index().enrich_eq_rows(field, value) {
            Some(rows) => {
                self.lemma_find_enrich_key(key, 0);
                let i = self.index().find_enrich(key, 0)->0;
                self.lemma_entry_of_key(field, value, i);
                assert(self.right_about(h, field, i));
            },
            None => {
                let seg = self.seg(h.seg);
                assert(seg.wf()) by {
                    assert(self.shared.segments@[h.seg].wf());
                }
                lemma_extra_stored(seg.rows@[h.row].extra@, field, 0);
                let k = choose|k: int|
                    0 <= k < seg.rows@[h.row].extra@.len() && (
                    #[trigger] seg.rows@[h.row].extra@[k]).0@ == field;
                assert(lists_text(seg.columns@, seg.rows@[h.row].extra@[k].0@));
                assert(seg.stores(field));
                assert(crate::columnar_storage::prefilter::proves_absent(
                    self.seg(h.seg),
                    field,
                    value,
                ));
            },
        }
    }

    proof fn lemma_entry_of_key(&self, field: Seq<char>, value: Seq<char>, i: int)
        requires
            0 <= i < self.index().enrich_len(),
            self.index().enrich_key(i) == field_key(field, value),
        ensures
            self.index().enrich_of_field(i, field),
            self.index().enrich_value(i, field) == Some(value),
    {
        let head = field_prefix(field);
        let key = field_key(field, value);
        assert(key.take(head.len() as int) =~= head);
        assert(key.skip(head.len() as int) =~= encode_utf8(value));
        lemma_text_of_encoding(value);
    }

    proof fn lemma_pattern_covers(&self, h: Hit, field: Seq<char>, op: CompareOp, pattern: Seq<char>, value: Seq<char>)
        requires
            self.indexed(h),
            self.seg(h.seg).extra(field, h.row) == Some(value),
            takes_regex(op) ==> crate::pattern::regex_compiles(pattern),
            is_negated(op) != pattern_accepts(takes_regex(op), pattern, value),
            self.pattern_candidates(field, op, pattern) is Some,
        ensures
            self.pattern_candidates(field, op, pattern)->0.contains(self.global_of(h)),
    {
        let re = takes_regex(op);
        let g = self.global_of(h);
        if is_negated(op) {
            assert(g < self.index().row_count);
            assert(row_span(0, self.index().row_count).contains(g));
            if self.accepted_rows(field, re, pattern)->0.contains(g) {
                let i = choose|i: int| #[trigger]
                    self.accepted_entry(field, re, pattern, i)
                        && self.index().enrich_bitmap(i)->0.contains(g);
                assert(self.index().enrich_of_field(i, field));
                assert(self.right_about(h, field, i));
            }
        } else if !self.speaks_for(h, field) {
            self.lemma_missing_covers(h, field);
        } else {
            if value.len() == 0 {
                assert(value =~= Seq::<char>::empty());
            }
            assert(self.has_entry(h, field));
            let i = choose|i: int| #[trigger]
                self.index().enrich_of_field(i, field) && self.index().enrich_value(i, field)
                    == self.seg(h.seg).extra(field, h.row);
            assert(self.right_about(h, field, i));
            assert(self.accepted_entry(field, re, pattern, i));
        }
    }

    proof fn lemma_range_covers(
        &self,
        h: Hit,
        field: Seq<char>,
        value: Seq<char>,
        low: Option<i64>,
        high: Option<i64>,
    )
        requires
            self.indexed(h),
            !core_field(field),
            self.seg(h.seg).extra(field, h.row) == Some(value),
            signed_of(value) is Some,
            crate::overlay::enrich::in_bounds(signed_of(value)->0, low, high),
            self.range_candidates(field, low, high) is Some,
        ensures
            self.range_candidates(field, low, high)->0.contains(self.global_of(h)),
    {
        let pick = |i: int| self.index().numeric_entry(i, field, low, high);
        if !self.speaks_for(h, field) {
            self.lemma_missing_covers(h, field);
        } else {
            if value.len() == 0 {
                assert(value =~= Seq::<char>::empty());
                lemma_no_number_in_nothing();
            }
            let any = choose|i: int| self.index().picked(pick, i);
            assert(self.index().enrich_of_field(any, field));
            assert(self.has_entry(h, field));
            let i = choose|i: int| #[trigger]
                self.index().enrich_of_field(i, field) && self.index().enrich_value(i, field)
                    == self.seg(h.seg).extra(field, h.row);
            assert(self.right_about(h, field, i));
            assert(self.index().picked(pick, i));
            assert(self.index().picked_rows(pick, self.index().enrich_len()).contains(
                self.global_of(h),
            ));
        }
    }
}

proof fn lemma_no_number_in_nothing()
    ensures
        signed_of(Seq::<char>::empty()) is None,
{
}

proof fn lemma_extra_stored(extra: Seq<(String, String)>, field: Seq<char>, i: int)
    requires
        0 <= i,
        crate::segment::extra_from(extra, field, i) is Some,
    ensures
        exists|k: int| 0 <= k < extra.len() && (#[trigger] extra[k]).0@ == field,
    decreases extra.len() - i,
{
    if i < extra.len() && extra[i].0@ != field {
        lemma_extra_stored(extra, field, i + 1);
    }
}


// ───────────────────────────── the law ─────────────────────────────

proof fn lemma_core_names()
    ensures
        core_field("name"@),
        core_field("fql_kind"@),
        core_field("language"@),
        core_field("path"@),
        core_field("node_kind"@),
        core_field("node_id"@),
        core_field("line"@),
        core_field("usages"@),
        core_field("count"@),
{
}

impl ColumnarStorage {
    /// A field that is no core one is read from the enrichment of a row.
    proof fn lemma_enrichment_reads(&self, h: Hit, field: Seq<char>)
        requires
            !core_field(field),
        ensures
            self.hit_text(h, field) == self.seg(h.seg).extra(field, h.row),
            self.hit_number(h, field) == crate::segment::number_in(
                self.seg(h.seg).extra(field, h.row),
            ),
    {
        lemma_core_names();
    }

    /// The index keeps no values of a core field, so nothing is proposed from them.
    proof fn lemma_core_proposes_nothing(
        &self,
        field: Seq<char>,
        value: Seq<char>,
        low: Option<i64>,
        high: Option<i64>,
    )
        requires
            core_field(field),
            !exists|i: int| #[trigger] self.index().enrich_of_field(i, field),
        ensures
            self.eq_candidates(field, value) is None,
            self.range_candidates(field, low, high) is None,
    {
        if self.index().find_enrich(field_key(field, value), 0) is Some {
            self.lemma_find_enrich_key(field_key(field, value), 0);
            let i = self.index().find_enrich(field_key(field, value), 0)->0;
            self.lemma_entry_of_key(field, value, i);
        }
        let pick = |i: int| self.index().numeric_entry(i, field, low, high);
        if exists|i: int| self.index().picked(pick, i) {
            let i = choose|i: int| self.index().picked(pick, i);
            assert(self.index().enrich_of_field(i, field));
        }
    }

    proof fn lemma_text_proposals_cover(&self, h: Hit, p: Predicate, v: Seq<char>)
        requires
            self.wf(),
            self.sorted(),
            p.value is String,
            v == p.value->String_0@,
            self.indexed(h),
            self.tells(p),
            self.hit_satisfies(h, p),
            self.proposed(p) is Some,
        ensures
            self.proposed(p)->0.contains(self.global_of(h)),
    {
        let f = canonical_text(p.field@);
        lemma_core_names();
        lemma_different_names();
        if f == "fql_kind"@ && p.op == CompareOp::Eq {
            assert(self.hit_row(h).fql_kind@ == v);
        } else if f == "name"@ && p.op == CompareOp::Eq {
            assert(self.hit_row(h).name@ == v);
        } else if f == "name"@ && p.op == CompareOp::Like {
            if short_prefix(v) is Some {
                self.lemma_prefixes_cover(h, v);
            } else {
                self.lemma_trigrams_cover(
                    h,
                    v,
                    literal_runs(PatternKind::Like, v).len() as int,
                );
            }
        } else if f == "name"@ && p.op == CompareOp::Matches {
            self.lemma_regex_covers(h, v);
        } else if f == "language"@ {
            let locals = language_locals(self.seg(h.seg), p.op, v);
            assert(locals.contains(h.row as u32));
            self.lemma_globals_hold(h, locals);
        } else if p.op == CompareOp::Eq {
            if core_field(f) {
                self.lemma_core_proposes_nothing(f, v, None, None);
            } else {
                self.lemma_enrichment_reads(h, f);
                self.lemma_equality_covers(h, f, v);
            }
        } else {
            assert(!core_field(f));
            self.lemma_enrichment_reads(h, f);
            let value = self.hit_text(h, f)->0;
            self.lemma_pattern_covers(h, f, p.op, v, value);
        }
    }

    /// What an index proposes for a predicate holds every row it knows of that satisfies it.
    pub proof fn lemma_proposals_cover(&self, h: Hit, p: Predicate)
        requires
            self.wf(),
            self.sorted(),
            self.indexed(h),
            self.tells(p),
            self.hit_satisfies(h, p),
            self.proposed(p) is Some,
        ensures
            self.proposed(p)->0.contains(self.global_of(h)),
    {
        let f = canonical_text(p.field@);
        match p.value {
            PredicateValue::String(v) => {
                self.lemma_text_proposals_cover(h, p, v@);
            },
            PredicateValue::Bool(b) => {
                if core_field(f) {
                    self.lemma_core_proposes_nothing(f, bool_text(b), None, None);
                } else {
                    self.lemma_enrichment_reads(h, f);
                    self.lemma_equality_covers(h, f, bool_text(b));
                }
            },
            PredicateValue::Number(v) => {
                let (low, high): (Option<i64>, Option<i64>) = match p.op {
                    CompareOp::Gte => (Some(v), None),
                    CompareOp::Lte => (None, Some(v)),
                    CompareOp::Gt => (Some((v + 1) as i64), None),
                    _ => (None, Some((v - 1) as i64)),
                };
                if core_field(f) {
                    self.lemma_core_proposes_nothing(f, seq![], low, high);
                } else {
                    self.lemma_enrichment_reads(h, f);
                    let value = self.seg(h.seg).extra(f, h.row)->0;
                    self.lemma_range_covers(h, f, value, low, high);
                }
            },
        }
    }

    /// A predicate on the size of a group proposes nothing.
    proof fn lemma_group_size_proposes_nothing(&self, p: Predicate)
        requires
            !residual(p),
            self.tells(p),
        ensures
            self.proposed(p) is None,
    {
        lemma_core_names();
        lemma_different_names();
        let f = canonical_text(p.field@);
        assert(f == "count"@);
        match p.value {
            PredicateValue::String(v) => {
                self.lemma_core_proposes_nothing(f, v@, None, None);
            },
            PredicateValue::Bool(b) => {
                self.lemma_core_proposes_nothing(f, bool_text(b), None, None);
            },
            PredicateValue::Number(v) => {
                self.lemma_core_proposes_nothing(f, seq![], Some(v), None);
                self.lemma_core_proposes_nothing(f, seq![], None, Some(v));
                self.lemma_core_proposes_nothing(f, seq![], Some((v + 1) as i64), None);
                self.lemma_core_proposes_nothing(f, seq![], None, Some((v - 1) as i64));
            },
        }
    }

    proof fn lemma_narrowing_covers(&self, h: Hit, preds: Seq<Predicate>, floor: Option<Set<u32>>, n: int)
        requires
            self.wf(),
            self.sorted(),
            self.indexed(h),
            self.hit_matches(h, preds),
            forall|k: int| 0 <= k < preds.len() ==> self.tells(#[trigger] preds[k]),
            floor is Some ==> floor->0.contains(self.global_of(h)),
            0 <= n <= preds.len(),
        ensures
            self.narrowed(preds, floor, n) is Some ==> self.narrowed(
                preds,
                floor,
                n,
            )->0.contains(self.global_of(h)),
        decreases n,
    {
        if n > 0 {
            self.lemma_narrowing_covers(h, preds, floor, n - 1);
            let p = preds[n - 1];
            if residual(p) {
                if self.proposed(p) is Some {
                    self.lemma_proposals_cover(h, p);
                }
            } else {
                self.lemma_group_size_proposes_nothing(p);
            }
        }
    }

    proof fn lemma_floor_covers(&self, h: Hit, clauses: Clauses)
        requires
            self.wf(),
            self.in_table(h),
            scope_selects(self.hit_path(h), clauses),
        ensures
            self.path_floor(clauses) is Some ==> self.path_floor(clauses)->0.contains(
                self.global_of(h),
            ),
    {
        if self.path_floor(clauses) is Some {
            let glob = clauses.in_glob->0@;
            let prefix = literal_prefix(glob)->0;
            let path = self.hit_path(h);
            lemma_glob_prefix_sound(path, glob);
            let rest = path.skip(prefix.len() as int);
            assert(path =~= prefix + rest);
            lemma_encode_concat(prefix, rest);
            let whole = encode_utf8(path);
            assert(whole.take(encode_utf8(prefix).len() as int) =~= encode_utf8(prefix));
            assert(starts_with(whole, encode_utf8(prefix)));
            assert(self.index().path_starts(h.seg, prefix));
            assert(self.seg_rows(h.seg).contains(self.global_of(h)));
            assert(self.under_prefix(prefix, self.global_of(h)));
        }
    }

    /// A scan looks at every row that answers: a row that the index knows of, in the query's scope
    /// and in a segment the session does not hide, of which every predicate holds, is among the
    /// candidates of its segment.
    pub proof fn lemma_scan_looks_at_every_match(&self, h: Hit, clauses: Clauses)
        requires
            self.wf(),
            self.sorted(),
            self.indexed(h),
            self.ranges_hold(h.seg),
            !self.dirty.hides(self.index().segments@[h.seg]),
            scope_selects(self.hit_path(h), clauses),
            self.hit_matches(h, clauses.where_predicates@),
            forall|k: int|
                0 <= k < clauses.where_predicates@.len() ==> self.tells(
                    #[trigger] clauses.where_predicates@[k],
                ),
        ensures
            self.scan_candidates(clauses, self.exact_rows(clauses))[h.seg].contains(h.row as u32),
    {
        let preds = clauses.where_predicates@;
        assert(self.worth_reading(clauses, h.seg)) by {
            assert forall|k: int| 0 <= k < preds.len() implies zone_admits(
                self.seg(h.seg),
                #[trigger] preds[k],
            ) by {
                if residual(preds[k]) {
                    self.lemma_zone_pruning_keeps_matches(h, preds[k]);
                } else {
                    self.lemma_group_size_prunes_nothing(h.seg, preds[k]);
                }
            }
        }
        if !self.scope_alone(clauses) {
            self.lemma_floor_covers(h, clauses);
            let floor = self.path_floor(clauses);
            self.lemma_narrowing_covers(h, preds, floor, preds.len() as int);
            let ids = self.candidates(preds, floor);
            let g = self.global_of(h);
            assert(g < self.index().row_count);
            assert(ids.contains(g));
            assert(self.locals_of(ids, h.seg).contains(h.row as u32));
        }
    }
}

proof fn lemma_different_names()
    ensures
        "fql_kind"@ != "name"@,
        "fql_kind"@ != "language"@,
        "name"@ != "language"@,
        "count"@ != "name"@,
        "count"@ != "language"@,
        "count"@ != "fql_kind"@,
        canonical_text("count"@) == "count"@,
{
    reveal_strlit("fql_kind");
    reveal_strlit("name");
    reveal_strlit("language");
    reveal_strlit("count");
    reveal_strlit("kind");
    reveal_strlit("file");
    reveal_strlit("lang");
    assert("fql_kind"@[0] == 'f' && "language"@[0] == 'l');
    assert("count"@.len() == 5 && "kind"@.len() == 4 && "file"@.len() == 4 && "lang"@.len() == 4
        && "name"@.len() == 4 && "language"@.len() == 8 && "fql_kind"@.len() == 8);
}

} // verus!
