//! What a session promises: what it hides, what it holds against, and what it refuses.

use crate::clauses::{Clauses, CompareOp};
use crate::build_context::{path_key_text, segment_rel_text};
use crate::columnar_storage::budgets::{
    before_white, bound_of, past_white, trimmed, white_space,
};
use crate::columnar_storage::delivery::{retained, rows_where, FindPage};
use crate::columnar_storage::delivery_laws::lemma_a_page_is_filled_in_order;
use crate::columnar_storage::gates::{counted_field, counts_files, counts_kinds, exact};
use crate::columnar_storage::groups::is_group_page;
use crate::columnar_storage::handles_laws::lemma_a_numeral_reads_back;
use crate::columnar_storage::outline::structural;
use crate::columnar_storage::refusals::FieldRefusal;
use crate::columnar_storage::resolve_laws::is_type;
use crate::columnar_storage::ColumnarStorage;
use crate::digest::git_blob_hex;
use crate::fields::canonical_text;
use crate::filter::row_satisfies;
use crate::overlay::format::SegmentMeta;
use crate::path_parts::{lists_path, same_path};
use crate::paths::scope_selects;
use crate::segment::{lists_text, SymbolMatch};
use crate::text::decimal;
use vstd::prelude::*;
use vstd::string::*;

verus! {

// ───────────────────────────── hiding ─────────────────────────────

impl ColumnarStorage {
    proof fn lemma_seg_position(&self, path: Seq<char>, i: int)
        requires
            0 <= i <= self.index().segments@.len(),
        ensures
            ({
                let at = self.seg_position(path, i);
                &&& i <= at <= self.index().segments@.len()
                &&& at < self.index().segments@.len() ==> same_path(
                    self.index().segments@[at].source_path@,
                    path,
                )
                &&& forall|k: int|
                    i <= k < at ==> !same_path(
                        (#[trigger] self.index().segments@[k]).source_path@,
                        path,
                    )
            }),
        decreases self.index().segments@.len() - i,
    {
        if i < self.index().segments@.len() && !same_path(
            self.index().segments@[i].source_path@,
            path,
        ) {
            self.lemma_seg_position(path, i + 1);
        }
    }

    /// A file that is indexed again, or dropped, no longer answers from the overlay: every segment of it
    /// is hidden from then on, and a segment of another file as hidden as it was.
    pub proof fn lemma_an_edited_file_is_hidden(
        &self,
        after: ColumnarStorage,
        rel: Seq<char>,
        i: int,
    )
        requires
            0 <= i < self.index().segments@.len(),
            after.dirty.removed_hex_ids@ == self.dirty.removed_hex_ids@,
            forall|p: Seq<char>| #[trigger]
                lists_path(after.dirty.removed_paths@, p) == (lists_path(
                    self.dirty.removed_paths@,
                    p,
                ) || (same_path(p, rel) && self.stored_hex(rel) is Some)),
        ensures
            same_path(self.index().segments@[i].source_path@, rel) ==> after.dirty.hides(
                self.index().segments@[i],
            ),
            !same_path(self.index().segments@[i].source_path@, rel) ==> after.dirty.hides(
                self.index().segments@[i],
            ) == self.dirty.hides(self.index().segments@[i]),
    {
        self.lemma_seg_position(rel, 0);
    }

    /// What a session hides stays hidden while it hides more.
    pub proof fn lemma_hiding_only_grows(
        &self,
        after: ColumnarStorage,
        meta: SegmentMeta,
    )
        requires
            forall|p: Seq<char>| #[trigger]
                lists_path(self.dirty.removed_paths@, p) ==> lists_path(
                    after.dirty.removed_paths@,
                    p,
                ),
            forall|h: Seq<char>| #[trigger]
                lists_text(self.dirty.removed_hex_ids@, h) ==> lists_text(
                    after.dirty.removed_hex_ids@,
                    h,
                ),
            self.dirty.hides(meta),
        ensures
            after.dirty.hides(meta),
    {
    }

    /// Without edits nothing is hidden.
    pub proof fn lemma_nothing_is_hidden_without_edits(&self, meta: SegmentMeta)
        requires
            self.dirty.nothing(),
        ensures
            !self.dirty.hides(meta),
    {
    }

    /// A file is fresh where the session holds it, where the overlay has none of it, or where what it
    /// holds has the content id that the overlay has; else it is stale.
    pub proof fn lemma_a_changed_file_is_stale(&self, path: Seq<char>, bytes: Seq<u8>)
        ensures
            self.fresh(path, Some(bytes)) <==> {
                ||| exists|j: int|
                    0 <= j < self.dirty.added@.len() && same_path(
                        (#[trigger] self.dirty.added@[j]).source_path@,
                        path,
                    )
                ||| forall|i: int|
                    0 <= i < self.index().segments@.len() ==> !same_path(
                        (#[trigger] self.index().segments@[i]).source_path@,
                        path,
                    )
                ||| exists|i: int| #[trigger]
                    self.is_first_segment(path, i) && self.index().segments@[i].hex_content_id@
                        == git_blob_hex(bytes)
            },
    {
        self.lemma_seg_position(path, 0);
        self.lemma_position_of(path, 0);
        let at = self.seg_position(path, 0);
        if at < self.index().segments@.len() {
            assert(self.is_first_segment(path, at));
        }
        assert forall|i: int| #[trigger] self.is_first_segment(path, i) implies i == at by {
            if i < at {
                assert(!same_path(self.index().segments@[i].source_path@, path));
            }
        }
        let d = self.dirty.position_of(path, 0);
        if d < self.dirty.added@.len() {
            assert(same_path(self.dirty.added@[d].source_path@, path));
        }
    }

    /// Whether segment `i` is the first of a path.
    pub open spec fn is_first_segment(&self, path: Seq<char>, i: int) -> bool {
        &&& 0 <= i < self.index().segments@.len()
        &&& same_path(self.index().segments@[i].source_path@, path)
        &&& forall|k: int|
            0 <= k < i ==> !same_path((#[trigger] self.index().segments@[k]).source_path@, path)
    }

    proof fn lemma_position_of(&self, path: Seq<char>, i: int)
        requires
            0 <= i <= self.dirty.added@.len(),
        ensures
            ({
                let at = self.dirty.position_of(path, i);
                &&& i <= at <= self.dirty.added@.len()
                &&& at < self.dirty.added@.len() ==> same_path(
                    self.dirty.added@[at].source_path@,
                    path,
                )
                &&& forall|k: int|
                    i <= k < at ==> !same_path((#[trigger] self.dirty.added@[k]).source_path@, path)
            }),
        decreases self.dirty.added@.len() - i,
    {
        if i < self.dirty.added@.len() && !same_path(self.dirty.added@[i].source_path@, path) {
            self.lemma_position_of(path, i + 1);
        }
    }

    /// A commit is refused where a segment is gone that the session does not hide, and nowhere else;
    /// the files that it names are those of such segments.
    pub proof fn lemma_vanished_segments_are_told(&self, present: Seq<bool>, n: int)
        requires
            0 <= n <= self.index().segments@.len(),
        ensures
            self.vanished(present, n).len() == 0 <==> forall|i: int|
                0 <= i < n ==> present[i] || lists_path(
                    self.dirty.removed_paths@,
                    (#[trigger] self.index().segments@[i]).source_path@,
                ),
            forall|k: int|
                0 <= k < self.vanished(present, n).len() ==> exists|i: int|
                    0 <= i < n && !present[i] && (#[trigger] self.index().segments@[i]).source_path@
                        == #[trigger] self.vanished(present, n)[k],
        decreases n,
    {
        if n > 0 {
            self.lemma_vanished_segments_are_told(present, n - 1);
            let all = self.vanished(present, n);
            let rest = self.vanished(present, n - 1);
            assert(self.index().segments@[n - 1] == self.index().segments@[n - 1]);
            assert forall|k: int| 0 <= k < all.len() implies exists|i: int|
                0 <= i < n && !present[i] && (#[trigger] self.index().segments@[i]).source_path@
                    == #[trigger] all[k] by {
                if k < rest.len() {
                    assert(all[k] == rest[k]);
                    let i = choose|i: int|
                        0 <= i < n - 1 && !present[i] && (
                        #[trigger] self.index().segments@[i]).source_path@ == rest[k];
                    assert(self.index().segments@[i].source_path@ == all[k]);
                } else {
                    assert(self.index().segments@[n - 1].source_path@ == all[k]);
                }
            }
        }
    }

    // ───────────────────────────── refusals ─────────────────────────────

    proof fn lemma_unanswered(&self, clauses: Clauses, known: Seq<String>, i: int)
        requires
            0 <= i <= clauses.where_predicates@.len(),
        ensures
            (match self.unanswered_from(clauses.where_predicates@, known, i) {
                Some(field) => exists|k: int|
                    i <= k < clauses.where_predicates@.len() && canonical_text(
                        (#[trigger] clauses.where_predicates@[k]).field@,
                    ) == field && !self.answers(clauses.where_predicates@[k].field@, known),
                None => forall|k: int|
                    i <= k < clauses.where_predicates@.len() ==> self.answers(
                        (#[trigger] clauses.where_predicates@[k]).field@,
                        known,
                    ),
            }),
        decreases clauses.where_predicates@.len() - i,
    {
        let preds = clauses.where_predicates@;
        if i < preds.len() {
            if self.answers(preds[i].field@, known) {
                self.lemma_unanswered(clauses, known, i + 1);
                match self.unanswered_from(preds, known, i + 1) {
                    Some(field) => {
                        let k = choose|k: int|
                            i + 1 <= k < preds.len() && canonical_text((#[trigger] preds[k]).field@)
                                == field && !self.answers(preds[k].field@, known);
                        assert(canonical_text(preds[k].field@) == field);
                    },
                    None => {},
                }
            } else {
                assert(canonical_text(preds[i].field@) == canonical_text(preds[i].field@));
            }
        }
    }

    /// Whether a symbol row can be read under a name: as one of its own fields, as an enrichment that a
    /// language knows, or as a column that a segment of the overlay or of the session stores.
    pub open spec fn can_be_read(&self, field: Seq<char>, known: Seq<String>) -> bool {
        ||| crate::segment_laws::is_own_field(field)
        ||| lists_text(known, field)
        ||| exists|i: int|
            0 <= i < self.seg_count() && lists_text((#[trigger] self.seg(i)).columns@, field)
        ||| exists|j: int|
            0 <= j < self.dirty.added@.len() && lists_text(
                (#[trigger] self.dirty.added@[j]).reader.columns@,
                field,
            )
    }

    /// A field is answered exactly where a symbol row can be read under its name, so that a query is
    /// refused for a predicate exactly where one of them names a field that no row can be read under;
    /// the refusal names it.
    pub proof fn lemma_only_unreadable_fields_are_refused(
        &self,
        clauses: Clauses,
        known: Seq<String>,
        e: FieldRefusal,
    )
        ensures
            (exists|k: int|
                0 <= k < clauses.where_predicates@.len() && !self.can_be_read(
                    canonical_text((#[trigger] clauses.where_predicates@[k]).field@),
                    known,
                )) ==> !self.answerable(clauses, known) && (self.refuses(clauses, known, e)
                ==> e is Where && !self.can_be_read(e->Where_0@, known)),
            clauses.order_by is Some && !self.can_be_read(
                canonical_text(clauses.order_by->0.field@),
                known,
            ) ==> !self.answerable(clauses, known),
            (forall|k: int|
                0 <= k < clauses.where_predicates@.len() ==> self.can_be_read(
                    canonical_text((#[trigger] clauses.where_predicates@[k]).field@),
                    known,
                )) && (clauses.order_by is Some ==> self.can_be_read(
                canonical_text(clauses.order_by->0.field@),
                known,
            )) && clauses.group_by is None ==> self.answerable(clauses, known),
    {
        assert forall|f: Seq<char>| #[trigger] self.answers(f, known) == self.can_be_read(
            canonical_text(f),
            known,
        ) by {
            self.lemma_answers(f, known);
        }
        self.lemma_unanswered(clauses, known, 0);
        match self.unanswered_from(clauses.where_predicates@, known, 0) {
            Some(field) => {
                let k = choose|k: int|
                    0 <= k < clauses.where_predicates@.len() && canonical_text(
                        (#[trigger] clauses.where_predicates@[k]).field@,
                    ) == field && !self.answers(clauses.where_predicates@[k].field@, known);
                assert(!self.can_be_read(
                    canonical_text(clauses.where_predicates@[k].field@),
                    known,
                ));
            },
            None => {},
        }
    }

    proof fn lemma_answers(&self, f: Seq<char>, known: Seq<String>)
        ensures
            self.answers(f, known) == self.can_be_read(canonical_text(f), known),
    {
        let c = canonical_text(f);
        crate::filter_laws::lemma_own_fields(c);
        assert(self.stores_column(c) <==> (exists|i: int|
            0 <= i < self.seg_count() && lists_text((#[trigger] self.seg(i)).columns@, c)) || (
        exists|j: int|
            0 <= j < self.dirty.added@.len() && lists_text(
                (#[trigger] self.dirty.added@[j]).reader.columns@,
                c,
            ))) by {
            if exists|i: int|
                0 <= i < self.seg_count() && lists_text((#[trigger] self.seg(i)).columns@, c) {
                let i = choose|i: int|
                    0 <= i < self.seg_count() && lists_text((#[trigger] self.seg(i)).columns@, c);
                assert(self.seg(i).stores(c));
            }
            if exists|j: int|
                0 <= j < self.dirty.added@.len() && lists_text(
                    (#[trigger] self.dirty.added@[j]).reader.columns@,
                    c,
                ) {
                let j = choose|j: int|
                    0 <= j < self.dirty.added@.len() && lists_text(
                        (#[trigger] self.dirty.added@[j]).reader.columns@,
                        c,
                    );
                assert(self.dirty.added@[j].reader.stores(c));
            }
        }
    }

    // ───────────────────────────── counting routes ─────────────────────────────

    /// The rows in scope are those of the segments in scope.
    pub proof fn lemma_scope_rows_are_of_segments_in_scope(&self, clauses: Clauses, n: int, g: u32)
        requires
            0 <= n,
        ensures
            self.scope_rows(clauses, n).contains(g) <==> exists|i: int|
                0 <= i < n && scope_selects(
                    (#[trigger] self.index().segments@[i]).source_path@,
                    clauses,
                ) && self.seg_rows(i).contains(g),
        decreases n,
    {
        if n > 0 {
            self.lemma_scope_rows_are_of_segments_in_scope(clauses, n - 1, g);
            if self.scope_rows(clauses, n - 1).contains(g) {
                let i = choose|i: int|
                    0 <= i < n - 1 && scope_selects(
                        (#[trigger] self.index().segments@[i]).source_path@,
                        clauses,
                    ) && self.seg_rows(i).contains(g);
                assert(scope_selects(self.index().segments@[i].source_path@, clauses));
            }
            if self.scope_rows(clauses, n).contains(g) && !self.scope_rows(clauses, n - 1).contains(
                g,
            ) {
                assert(scope_selects(self.index().segments@[n - 1].source_path@, clauses));
            }
        }
    }
}

/// Groups are counted from the index only without edits, and only where every predicate is one that a
/// posting settles: none at all for kinds and values, and for files an equality of name or kind.
pub proof fn lemma_groups_are_counted_only_where_exact(clauses: Clauses, quiet: bool, k: int)
    ensures
        counts_kinds(clauses, quiet) || counts_files(clauses, quiet) || counted_field(
            clauses,
            quiet,
        ) is Some ==> quiet && clauses.group_by is Some,
        counts_kinds(clauses, quiet) || counted_field(clauses, quiet) is Some
            ==> clauses.where_predicates@.len() == 0,
        counts_files(clauses, quiet) && 0 <= k < clauses.where_predicates@.len() ==> {
            let p = clauses.where_predicates@[k];
            &&& p.op == CompareOp::Eq
            &&& p.value is String
            &&& canonical_text(p.field@) == seq!['n', 'a', 'm', 'e'] || canonical_text(p.field@)
                == seq!['f', 'q', 'l', '_', 'k', 'i', 'n', 'd']
        },
{
    reveal_strlit("name");
    reveal_strlit("fql_kind");
    assert("name"@ =~= seq!['n', 'a', 'm', 'e']);
    assert("fql_kind"@ =~= seq!['f', 'q', 'l', '_', 'k', 'i', 'n', 'd']);
    if counts_files(clauses, quiet) && 0 <= k < clauses.where_predicates@.len() {
        assert(exact(clauses.where_predicates@[k]));
    }
}

/// Of counted groups a page holds only those of which every `HAVING` holds.
pub proof fn lemma_counted_groups_satisfy_having(
    groups: Seq<SymbolMatch>,
    clauses: Clauses,
    page: FindPage,
    a: int,
    k: int,
)
    requires
        groups.len() <= usize::MAX,
        is_group_page(groups, clauses, page),
        0 <= a < page.rows@.len(),
        0 <= k < clauses.having_predicates@.len(),
    ensures
        groups.contains(page.rows@[a]),
        row_satisfies(&page.rows@[a], clauses.having_predicates@[k]),
{
    let keep = |i: int| retained(groups[i], clauses);
    let kept = rows_where(groups, keep);
    lemma_a_page_is_filled_in_order(kept, clauses, page);
    assert(kept.contains(page.rows@[a]));
    crate::columnar_storage::delivery_laws::lemma_where(groups, keep, page.rows@[a]);
    let g = choose|g: int| 0 <= g < groups.len() && #[trigger] groups[g] == page.rows@[a] && keep(g);
    assert(retained(groups[g], clauses));
}

// ───────────────────────────── kinds ─────────────────────────────

/// What an outline of declarations shows: types, functions, what holds them, macros, and the containers of
/// data files; nothing else, and no row without a kind.
pub proof fn lemma_declarations_are_types_functions_and_containers(kind: Seq<char>)
    ensures
        structural(kind) <==> is_type(kind) || kind == "function"@ || kind == "namespace"@ || kind
            == "module"@ || kind == "macro"@ || kind == "object"@ || kind == "array"@,
        structural(kind) ==> kind.len() > 0,
{
    reveal_strlit("function");
    reveal_strlit("class");
    reveal_strlit("struct");
    reveal_strlit("enum");
    reveal_strlit("interface");
    reveal_strlit("trait");
    reveal_strlit("union");
    reveal_strlit("namespace");
    reveal_strlit("module");
    reveal_strlit("type_alias");
    reveal_strlit("macro");
    reveal_strlit("object");
    reveal_strlit("array");
}

// ───────────────────────────── settings ─────────────────────────────

/// A setting that writes a number is that bound, nought is none at all, and without a number the default
/// holds.
pub proof fn lemma_a_setting_is_its_number(n: usize, default: usize, text: Seq<char>)
    ensures
        n > 0 && trimmed(text) == decimal(n as nat) ==> bound_of(Some(text), default) == n,
        trimmed(text) == decimal(0) ==> bound_of(Some(text), default) == usize::MAX,
        bound_of(None, default) == default,
        trimmed(text).len() == 0 ==> bound_of(Some(text), default) == default,
{
    lemma_a_numeral_reads_back(n as nat, 0, usize::MAX as nat);
    lemma_a_numeral_reads_back(0, 0, usize::MAX as nat);
}

/// White space around a setting does not count.
pub proof fn lemma_white_space_around_a_setting_does_not_count(
    before: Seq<char>,
    body: Seq<char>,
    after: Seq<char>,
)
    requires
        forall|i: int| 0 <= i < before.len() ==> white_space(#[trigger] before[i]),
        forall|i: int| 0 <= i < after.len() ==> white_space(#[trigger] after[i]),
        body.len() > 0,
        !white_space(body[0]),
        !white_space(body.last()),
    ensures
        trimmed(before + body + after) == body,
{
    let s = before + body + after;
    let (from, to) = (before.len() as int, (before.len() + body.len()) as int);
    assert forall|i: int| 0 <= i < from implies white_space(#[trigger] s[i]) by {
        assert(s[i] == before[i]);
    }
    assert(s[from] == body[0]);
    assert(s[to - 1] == body.last());
    assert forall|i: int| to <= i < s.len() implies white_space(#[trigger] s[i]) by {
        assert(s[i] == after[i - to]);
    }
    lemma_past_white(s, 0, from);
    lemma_before_white(s, from, s.len() as int, to);
    assert(s.subrange(from, to) =~= body);
}

proof fn lemma_past_white(s: Seq<char>, i: int, from: int)
    requires
        0 <= i <= from < s.len(),
        forall|k: int| i <= k < from ==> white_space(#[trigger] s[k]),
        !white_space(s[from]),
    ensures
        past_white(s, i) == from,
    decreases from - i,
{
    if i < from {
        lemma_past_white(s, i + 1, from);
    }
}

proof fn lemma_before_white(s: Seq<char>, start: int, n: int, to: int)
    requires
        start < to <= n <= s.len(),
        0 < to,
        forall|k: int| to <= k < n ==> white_space(#[trigger] s[k]),
        !white_space(s[to - 1]),
    ensures
        before_white(s, start, n) == to,
    decreases n,
{
    if n > to {
        assert(white_space(s[n - 1]));
        lemma_before_white(s, start, n - 1, to);
    }
}

// ───────────────────────────── where segments are kept ─────────────────────────────

/// Segments are kept apart by content and by path: two that are kept in one place have the same content
/// and paths with the same fingerprint.
pub proof fn lemma_segments_are_kept_apart(
    path: Seq<char>,
    hex: Seq<char>,
    other_path: Seq<char>,
    other_hex: Seq<char>,
)
    requires
        hex.len() == other_hex.len(),
        hex.len() >= 2,
        segment_rel_text(path, hex) == segment_rel_text(other_path, other_hex),
    ensures
        hex == other_hex,
        path_key_text(path) == path_key_text(other_path),
{
    let n = hex.len() as int;
    let (a, b) = (segment_rel_text(path, hex), segment_rel_text(other_path, other_hex));
    let (x, y) = (path_key_text(path), path_key_text(other_path));
    let end = ".fqsf"@;
    assert forall|i: int| 0 <= i < n implies hex[i] == other_hex[i] by {
        if i < 2 {
            assert(a[i] == hex[i] && b[i] == other_hex[i]);
        } else {
            assert(a[i + 1] == hex[i] && b[i + 1] == other_hex[i]);
        }
    }
    assert(hex =~= other_hex);
    assert(a.len() == n + 2 + x.len() + end.len());
    assert(b.len() == n + 2 + y.len() + end.len());
    assert(x =~= y) by {
        assert forall|i: int| 0 <= i < x.len() implies x[i] == y[i] by {
            assert(a[n + 2 + i] == x[i] && b[n + 2 + i] == y[i]);
        }
    }
}

} // verus!
