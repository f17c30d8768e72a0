//! What counted groups promise: what is counted where, and that nothing is lost.

use crate::clauses::Clauses;
use crate::columnar_storage::groups::{
    are_value_groups, count_more, place_of, sum_of, Grouped,
};
use crate::columnar_storage::ColumnarStorage;
use crate::overlay::postings::masked_len;
use crate::path_parts::same_path;
use crate::paths::scope_selects;
use crate::segment::SymbolMatch;
use vstd::prelude::*;

verus! {

// ───────────────────────────── values ─────────────────────────────

/// How many rows the first `n` groups count.
pub open spec fn counted_rows(groups: Seq<SymbolMatch>, n: int) -> nat
    decreases n,
{
    if n <= 0 {
        0
    } else {
        counted_rows(groups, n - 1) + (match groups[n - 1].count {
            Some(c) => c as nat,
            None => 0,
        })
    }
}

proof fn lemma_counted(
    groups: Seq<SymbolMatch>,
    of: Grouped,
    counts: Seq<(Seq<char>, nat)>,
    rest: nat,
    n: int,
)
    requires
        are_value_groups(groups, of, counts, rest),
        0 <= n <= counts.len(),
        sum_of(counts, n) <= usize::MAX,
    ensures
        counted_rows(groups, n) == sum_of(counts, n),
    decreases n,
{
    if n > 0 {
        lemma_counted(groups, of, counts, rest, n - 1);
        assert(crate::columnar_storage::groups::is_value_group(
            groups[n - 1],
            of,
            counts[n - 1].0,
            counts[n - 1].1,
        ));
    }
}

/// Groups of values lose no row: together with the group of rows without a value they count every row
/// in scope.
pub proof fn lemma_groups_count_every_row(
    groups: Seq<SymbolMatch>,
    of: Grouped,
    counts: Seq<(Seq<char>, nat)>,
    total: usize,
)
    requires
        sum_of(counts, counts.len() as int) <= total,
        are_value_groups(
            groups,
            of,
            counts,
            (total - sum_of(counts, counts.len() as int)) as nat,
        ),
    ensures
        counted_rows(groups, groups.len() as int) == total,
{
    let n = counts.len() as int;
    let rest = (total - sum_of(counts, n)) as nat;
    lemma_counted(groups, of, counts, rest, n);
    if rest > 0 {
        assert(crate::columnar_storage::groups::is_empty_group(groups[n], rest));
        assert(groups[n].count == Some(rest as usize));
    }
}

impl ColumnarStorage {
    /// A counted kind is one of the index: each group names a kind and counts the rows posted for it
    /// that are in scope, and every kind with such rows has its group.
    pub proof fn lemma_kinds_are_counted_by_their_postings(
        &self,
        clauses: Clauses,
        counts: Seq<(Seq<char>, nat)>,
        i: int,
        k: int,
    )
        requires
            self.kind_counts(clauses) == Some(counts),
            0 <= i < self.index().kind_len(),
            0 <= k < counts.len(),
        ensures
            self.index().kind_name(i) is Some,
            self.index().kind_bitmap(i) is Some,
            ({
                let rows = match self.scope_mask(clauses) {
                    Some(mask) => self.index().kind_bitmap(i)->0.intersect(mask),
                    None => self.index().kind_bitmap(i)->0,
                };
                rows.len() > 0 ==> counts.contains(
                    (crate::bytes::utf8_of(self.index().kind_name(i)->0)->0, rows.len()),
                )
            }),
            exists|j: int|
                0 <= j < self.index().kind_len() && counts[k].1 == (match self.scope_mask(clauses) {
                    Some(mask) => self.index().kind_bitmap(j)->0.intersect(mask).len(),
                    None => self.index().kind_bitmap(j)->0.len(),
                }) && counts[k].0 == crate::bytes::utf8_of(
                    (#[trigger] self.index().kind_name(j))->0,
                )->0,
    {
        self.lemma_kind_entry(self.scope_mask(clauses), 0, i);
        self.lemma_kind_source(self.scope_mask(clauses), 0, k);
    }

    proof fn lemma_kind_entry(&self, mask: Option<Set<u32>>, from: int, i: int)
        requires
            0 <= from <= i < self.index().kind_len(),
            self.index().kind_counts_from(mask, from) is Some,
        ensures
            self.index().kind_name(i) is Some,
            self.index().kind_bitmap(i) is Some,
            masked_len(self.index().kind_bitmap(i)->0, mask) > 0
                ==> self.index().kind_counts_from(mask, from)->0.contains(
                (
                    crate::bytes::utf8_of(self.index().kind_name(i)->0)->0,
                    masked_len(self.index().kind_bitmap(i)->0, mask),
                ),
            ),
        decreases i - from,
    {
        let all = self.index().kind_counts_from(mask, from)->0;
        if from < i {
            self.lemma_kind_entry(mask, from + 1, i);
            let rest = self.index().kind_counts_from(mask, from + 1)->0;
            let it = (
                crate::bytes::utf8_of(self.index().kind_name(i)->0)->0,
                masked_len(self.index().kind_bitmap(i)->0, mask),
            );
            if masked_len(self.index().kind_bitmap(i)->0, mask) > 0 {
                let k = choose|k: int| 0 <= k < rest.len() && rest[k] == it;
                if all.len() > rest.len() {
                    assert(all[k + 1] == it);
                } else {
                    assert(all[k] == it);
                }
            }
        } else if masked_len(self.index().kind_bitmap(i)->0, mask) > 0 {
            assert(all[0] == (
                crate::bytes::utf8_of(self.index().kind_name(i)->0)->0,
                masked_len(self.index().kind_bitmap(i)->0, mask),
            ));
        }
    }

    proof fn lemma_kind_source(&self, mask: Option<Set<u32>>, from: int, k: int)
        requires
            0 <= from,
            self.index().kind_counts_from(mask, from) is Some,
            0 <= k < self.index().kind_counts_from(mask, from)->0.len(),
        ensures
            exists|j: int|
                from <= j < self.index().kind_len() && self.index().kind_counts_from(
                    mask,
                    from,
                )->0[k] == (
                    crate::bytes::utf8_of((#[trigger] self.index().kind_name(j))->0)->0,
                    masked_len(self.index().kind_bitmap(j)->0, mask),
                ),
        decreases self.index().kind_len() - from,
    {
        let all = self.index().kind_counts_from(mask, from)->0;
        if from < self.index().kind_len() {
            let rest = self.index().kind_counts_from(mask, from + 1)->0;
            let n = masked_len(self.index().kind_bitmap(from)->0, mask);
            if n > 0 && k == 0 {
                assert(all[0] == (
                    crate::bytes::utf8_of(self.index().kind_name(from)->0)->0,
                    n,
                ));
            } else {
                let m = if n > 0 {
                    k - 1
                } else {
                    k
                };
                self.lemma_kind_source(mask, from + 1, m);
                assert(all[k] == rest[m]);
                let j = choose|j: int|
                    from + 1 <= j < self.index().kind_len() && rest[m] == (
                        crate::bytes::utf8_of((#[trigger] self.index().kind_name(j))->0)->0,
                        masked_len(self.index().kind_bitmap(j)->0, mask),
                    );
                assert(from <= j < self.index().kind_len());
                assert(self.index().kind_name(j) == self.index().kind_name(j));
            }
        }
    }
}

// ───────────────────────────── files ─────────────────────────────

/// The count of a path; nought where it has none.
pub open spec fn count_of(counts: Seq<(Seq<char>, nat)>, path: Seq<char>) -> nat {
    if place_of(counts, path, 0) < counts.len() {
        counts[place_of(counts, path, 0)].1
    } else {
        0
    }
}

proof fn lemma_place_of(counts: Seq<(Seq<char>, nat)>, path: Seq<char>, i: int)
    requires
        0 <= i <= counts.len(),
    ensures
        ({
            let at = place_of(counts, path, i);
            &&& i <= at <= counts.len()
            &&& at < counts.len() ==> same_path(counts[at].0, path)
            &&& forall|k: int| i <= k < at ==> !same_path((#[trigger] counts[k]).0, path)
        }),
    decreases counts.len() - i,
{
    if i < counts.len() && !same_path(counts[i].0, path) {
        lemma_place_of(counts, path, i + 1);
    }
}

proof fn lemma_place_is(counts: Seq<(Seq<char>, nat)>, path: Seq<char>, i: int, at: int)
    requires
        0 <= i <= at <= counts.len(),
        at < counts.len() ==> same_path(counts[at].0, path),
        forall|k: int| i <= k < at ==> !same_path((#[trigger] counts[k]).0, path),
    ensures
        place_of(counts, path, i) == at,
    decreases at - i,
{
    if i < at {
        lemma_place_is(counts, path, i + 1, at);
    }
}

proof fn lemma_more(counts: Seq<(Seq<char>, nat)>, path: Seq<char>, more: nat, other: Seq<char>)
    ensures
        count_of(count_more(counts, path, more), other) == count_of(counts, other) + (if same_path(
            path,
            other,
        ) {
            more
        } else {
            0
        }),
{
    let now = count_more(counts, path, more);
    lemma_place_of(counts, path, 0);
    lemma_place_of(counts, other, 0);
    let (at, to) = (place_of(counts, path, 0), place_of(counts, other, 0));
    if same_path(path, other) {
        lemma_place_is(counts, other, 0, at);
        lemma_place_is(now, other, 0, at);
    } else if to < counts.len() {
        assert forall|k: int| 0 <= k < to implies !same_path((#[trigger] now[k]).0, other) by {
            assert(now[k].0 == counts[k].0);
        }
        assert(now[to].0 == counts[to].0);
        lemma_place_is(now, other, 0, to);
        assert(to != at);
    } else {
        assert forall|k: int| 0 <= k < now.len() implies !same_path((#[trigger] now[k]).0, other) by {
            if k < counts.len() {
                assert(now[k].0 == counts[k].0);
            }
        }
        lemma_place_is(now, other, 0, now.len() as int);
    }
}

impl ColumnarStorage {
    /// How many rows the segments of a file among the first `n` that are in scope hold, counted each as
    /// the query counts them.
    pub open spec fn rows_of_file(
        &self,
        clauses: Clauses,
        left: Set<u32>,
        path: Seq<char>,
        n: int,
    ) -> nat
        decreases n,
    {
        if n <= 0 {
            0
        } else {
            let here = self.index().segments@[n - 1].source_path@;
            self.rows_of_file(clauses, left, path, n - 1) + if same_path(here, path)
                && scope_selects(here, clauses) {
                if clauses.where_predicates@.len() == 0 {
                    self.index().segments@[n - 1].dedup_row_count as nat
                } else {
                    left.intersect(self.seg_rows(n - 1)).len()
                }
            } else {
                0nat
            }
        }
    }

    /// A file's group counts the rows of all its segments in scope, however its path is spelled; a file
    /// out of scope, or without such rows, has no count.
    pub proof fn lemma_a_file_is_counted_whole(
        &self,
        clauses: Clauses,
        left: Set<u32>,
        path: Seq<char>,
        n: int,
    )
        requires
            0 <= n <= self.index().segments@.len(),
        ensures
            count_of(self.file_counts(clauses, left, n), path) == self.rows_of_file(
                clauses,
                left,
                path,
                n,
            ),
        decreases n,
    {
        if n > 0 {
            self.lemma_a_file_is_counted_whole(clauses, left, path, n - 1);
            let here = self.index().segments@[n - 1].source_path@;
            let count = self.file_count(clauses, left, n - 1);
            lemma_more(self.file_counts(clauses, left, n - 1), here, count, path);
        }
    }
}

} // verus!
