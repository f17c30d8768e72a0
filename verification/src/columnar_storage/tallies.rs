//! What a count read off postings says of the rows: as many as a scan reports.

use crate::clauses::Clauses;
use crate::collapse::distinct_by;
use crate::columnar_storage::candidates::lemma_starts_ascend;
use crate::columnar_storage::hits::Hit;
use crate::columnar_storage::ColumnarStorage;
use crate::overlay::postings::masked_len;
use crate::paths::scope_selects;
use crate::rows::lemma_rows_finite;
use vstd::prelude::*;

verus! {

/// What is left of items is told apart by the key.
proof fn lemma_distinct_apart<U, K>(items: Seq<U>, key: spec_fn(U) -> K, n: int)
    requires
        0 <= n <= items.len(),
    ensures
        forall|i: int, j: int|
            #![trigger distinct_by(items, key, n)[i], distinct_by(items, key, n)[j]]
            0 <= i < j < distinct_by(items, key, n).len() ==> key(distinct_by(items, key, n)[i])
                != key(distinct_by(items, key, n)[j]),
        forall|i: int|
            0 <= i < distinct_by(items, key, n).len() ==> exists|k: int|
                0 <= k < n && items[k] == #[trigger] distinct_by(items, key, n)[i],
    decreases n,
{
    if n > 0 {
        lemma_distinct_apart(items, key, n - 1);
        let before = distinct_by(items, key, n - 1);
        let now = distinct_by(items, key, n);
        assert forall|i: int| 0 <= i < now.len() implies exists|k: int|
            0 <= k < n && items[k] == #[trigger] now[i] by {
            if i < before.len() {
                assert(now[i] == before[i]);
                let k = choose|k: int| 0 <= k < n - 1 && items[k] == before[i];
                assert(items[k] == now[i]);
            } else {
                assert(items[n - 1] == now[i]);
            }
        }
        assert forall|i: int, j: int|
            #![trigger now[i], now[j]]
            0 <= i < j < now.len() implies key(now[i]) != key(now[j]) by {
            assert(now[i] == before[i]);
            if j < before.len() {
                assert(now[j] == before[j]);
            } else {
                let k = choose|k: int| 0 <= k < n - 1 && items[k] == before[i];
                assert(key(items[k]) != key(items[n - 1]));
            }
        }
    }
}

impl ColumnarStorage {
    /// What a scan reports of the rows of segment `s` that are chosen.
    pub open spec fn reported(&self, chosen: spec_fn(int) -> Set<u32>, s: int) -> Seq<Hit> {
        self.segment_hits(s, chosen(s), seq![])
    }

    /// Whether a posting holds one row for each thing that a scan of the chosen rows reports, and no
    /// other.
    pub open spec fn tallies(&self, posting: Set<u32>, chosen: spec_fn(int) -> Set<u32>) -> bool {
        &&& forall|s: int, i: int|
            #![trigger self.reported(chosen, s)[i]]
            0 <= s < self.seg_count() && 0 <= i < self.reported(chosen, s).len() ==> self.in_table(
                self.reported(chosen, s)[i],
            ) && posting.contains(self.global_of(self.reported(chosen, s)[i]))
        &&& forall|g: u32| #[trigger]
            posting.contains(g) ==> exists|s: int, i: int|
                0 <= s < self.seg_count() && 0 <= i < self.reported(chosen, s).len() && g
                    == self.global_of(#[trigger] self.reported(chosen, s)[i])
    }

    /// How many things a scan of the chosen rows reports of the in-scope ones among the first `n`
    /// segments.
    pub open spec fn reported_in(
        &self,
        chosen: spec_fn(int) -> Set<u32>,
        clauses: Clauses,
        n: int,
    ) -> nat
        decreases n,
    {
        if n <= 0 {
            0
        } else {
            self.reported_in(chosen, clauses, n - 1) + if scope_selects(
                self.index().segments@[n - 1].source_path@,
                clauses,
            ) {
                self.reported(chosen, n - 1).len()
            } else {
                0nat
            }
        }
    }

    proof fn lemma_reported_place(&self, chosen: spec_fn(int) -> Set<u32>, s: int, i: int)
        requires
            0 <= i < self.reported(chosen, s).len(),
        ensures
            self.reported(chosen, s)[i].seg == s,
            forall|j: int|
                0 <= j < self.reported(chosen, s).len() && j != i ==> self.reported(chosen, s)[i]
                    != #[trigger] self.reported(chosen, s)[j],
    {
        let size = self.seg(s).rows@.len() as int;
        let all = self.matched(s, chosen(s), seq![], size);
        self.lemma_matched_members(s, chosen(s), seq![], size);
        lemma_distinct_apart(all, self.hit_key(), all.len() as int);
        let left = distinct_by(all, self.hit_key(), all.len() as int);
        assert(left == self.reported(chosen, s));
        let k = choose|k: int| 0 <= k < all.len() && all[k] == left[i];
        assert(all[k].seg == s);
        assert forall|j: int| 0 <= j < left.len() && j != i implies left[i] != #[trigger] left[j] by {
            if i < j {
                assert((self.hit_key())(left[i]) != (self.hit_key())(left[j]));
            } else {
                assert((self.hit_key())(left[j]) != (self.hit_key())(left[i]));
            }
        }
    }

    /// The part of a posting that lies in one segment counts what a scan reports of it.
    proof fn lemma_segment_tally(
        &self,
        posting: Set<u32>,
        chosen: spec_fn(int) -> Set<u32>,
        s: int,
    )
        requires
            self.wf(),
            self.tallies(posting, chosen),
            0 <= s < self.seg_count(),
        ensures
            posting.intersect(self.seg_rows(s)).len() == self.reported(chosen, s).len(),
    {
        let hits = self.reported(chosen, s);
        let ids = Seq::new(hits.len(), |i: int| self.global_of(hits[i]));
        assert(ids.no_duplicates()) by {
            assert forall|i: int, j: int|
                0 <= i < ids.len() && 0 <= j < ids.len() && i != j implies ids[i] != ids[j] by {
                self.lemma_reported_place(chosen, s, i);
                self.lemma_reported_place(chosen, s, j);
                assert(self.in_table(self.reported(chosen, s)[i]));
                assert(self.in_table(self.reported(chosen, s)[j]));
                assert(hits[i] != hits[j]);
                assert(hits[i].row != hits[j].row) by {
                    if hits[i].row == hits[j].row {
                        assert(hits[i] == hits[j]);
                    }
                }
            }
        }
        ids.unique_seq_to_set();
        let here = posting.intersect(self.seg_rows(s));
        assert forall|g: u32| ids.to_set().contains(g) == here.contains(g) by {
            if ids.to_set().contains(g) {
                let i = choose|i: int| 0 <= i < ids.len() && ids[i] == g;
                self.lemma_reported_place(chosen, s, i);
                assert(self.in_table(self.reported(chosen, s)[i]));
            }
            if here.contains(g) {
                let (t, i) = choose|t: int, i: int|
                    0 <= t < self.seg_count() && 0 <= i < self.reported(chosen, t).len() && g
                        == self.global_of(#[trigger] self.reported(chosen, t)[i]);
                self.lemma_reported_place(chosen, t, i);
                assert(self.in_table(self.reported(chosen, t)[i]));
                if t < s {
                    lemma_starts_ascend(self.index().segments@, t + 1, s);
                } else if s < t {
                    lemma_starts_ascend(self.index().segments@, s + 1, t);
                }
                assert(t == s);
                assert(ids[i] == g);
            }
        }
        assert(ids.to_set() =~= here);
    }

    proof fn lemma_scope_tally(
        &self,
        posting: Set<u32>,
        chosen: spec_fn(int) -> Set<u32>,
        clauses: Clauses,
        n: int,
    )
        requires
            self.wf(),
            self.tallies(posting, chosen),
            0 <= n <= self.seg_count(),
        ensures
            posting.intersect(self.scope_rows(clauses, n)).len() == self.reported_in(
                chosen,
                clauses,
                n,
            ),
            forall|g: u32| #[trigger]
                self.scope_rows(clauses, n).contains(g) ==> g < self.seg_base(n),
        decreases n,
    {
        broadcast use lemma_rows_finite;

        if n <= 0 {
            assert(posting.intersect(self.scope_rows(clauses, n)) =~= Set::<u32>::empty());
        } else {
            self.lemma_scope_tally(posting, chosen, clauses, n - 1);
            lemma_starts_ascend(self.index().segments@, n - 1, n);
            if scope_selects(self.index().segments@[n - 1].source_path@, clauses) {
                self.lemma_segment_tally(posting, chosen, n - 1);
                let a = posting.intersect(self.scope_rows(clauses, n - 1));
                let b = posting.intersect(self.seg_rows(n - 1));
                assert(posting.intersect(self.scope_rows(clauses, n)) =~= a + b);
                assert(a.disjoint(b));
                vstd::set_lib::lemma_set_disjoint_lens(a, b);
            }
        }
    }

    /// A count read off a posting is what a scan would report: where the posting holds one row for
    /// each thing that a scan of some rows reports, as the index keeps them of a kind or of a value,
    /// as many are counted in a query's scope as the scan reports there.
    pub proof fn lemma_counts_are_what_a_scan_reports(
        &self,
        posting: Set<u32>,
        chosen: spec_fn(int) -> Set<u32>,
        clauses: Clauses,
    )
        requires
            self.wf(),
            self.tallies(posting, chosen),
        ensures
            masked_len(posting, self.scope_mask(clauses)) == self.reported_in(
                chosen,
                clauses,
                self.seg_count() as int,
            ),
    {
        let n = self.seg_count() as int;
        self.lemma_scope_tally(posting, chosen, clauses, n);
        if !clauses.scopes_paths() {
            assert forall|g: u32| posting.contains(g) implies self.scope_rows(clauses, n).contains(
                g,
            ) by {
                let (s, i) = choose|s: int, i: int|
                    0 <= s < self.seg_count() && 0 <= i < self.reported(chosen, s).len() && g
                        == self.global_of(#[trigger] self.reported(chosen, s)[i]);
                self.lemma_reported_place(chosen, s, i);
                assert(self.in_table(self.reported(chosen, s)[i]));
                assert(self.seg_rows(s).contains(g));
                self.lemma_scope_holds(clauses, n, s, g);
            }
            assert(posting.intersect(self.scope_rows(clauses, n)) =~= posting);
        }
    }

    proof fn lemma_scope_holds(&self, clauses: Clauses, n: int, s: int, g: u32)
        requires
            !clauses.scopes_paths(),
            0 <= s < n,
            self.seg_rows(s).contains(g),
        ensures
            self.scope_rows(clauses, n).contains(g),
        decreases n,
    {
        if s < n - 1 {
            self.lemma_scope_holds(clauses, n - 1, s, g);
        }
    }
}

} // verus!
