//! Rows in the order of their names, read off the name index.

use crate::bytes::{lossy_text, utf8_lossy};
use crate::columnar_storage::hits::Hit;
use crate::columnar_storage::ColumnarStorage;
use crate::filter::first;
use crate::name_index::lists_entries;
use crate::order::{lemma_text_total, lemma_text_transitive, text_before, text_less};
use crate::rows::rows_of;
use crate::segment::SymbolMatch;
use crate::sort::{picked, sorted_order, sorts_before, RankTable};
use crate::text::same_text;
use crate::top_k::{delivers, lemma_delivers, lemma_ordered, ordered, weak_order};
use roaring::RoaringBitmap;
use vstd::prelude::*;
use vstd::string::*;

verus! {

/// A row with the name under which the index lists it.
pub struct NamedHit {
    pub name: Seq<char>,
    pub hit: Hit,
}

/// A row with the name under which the index lists it.
struct NamedRow {
    name: String,
    seg: usize,
    row: u32,
}

impl ColumnarStorage {
    /// The row that a global row stands for, where it is wanted and there.
    pub open spec fn streamed_hit(&self, g: u32, want: Option<Set<u32>>) -> Option<Hit> {
        match self.index().row_at(g) {
            Some(ptr) => if (want is None || want->0.contains(g)) && ptr.segment_idx
                < self.seg_count() && ptr.local_row_idx < self.seg(
                ptr.segment_idx as int,
            ).rows@.len() {
                Some(Hit { seg: ptr.segment_idx as int, row: ptr.local_row_idx as int })
            } else {
                None
            },
            None => None,
        }
    }

    /// The rows of the first `n` of some global rows, under a name.
    pub open spec fn posted_hits(
        &self,
        name: Seq<char>,
        ids: Seq<u32>,
        want: Option<Set<u32>>,
        n: int,
    ) -> Seq<NamedHit>
        decreases n,
    {
        if n <= 0 {
            seq![]
        } else {
            let rest = self.posted_hits(name, ids, want, n - 1);
            match self.streamed_hit(ids[n - 1], want) {
                Some(hit) => rest.push(NamedHit { name, hit }),
                None => rest,
            }
        }
    }

    /// The rows of the first `n` names of the index, name by name.
    pub open spec fn streamed(
        &self,
        entries: Seq<(Vec<u8>, u64)>,
        want: Option<Set<u32>>,
        n: int,
    ) -> Seq<NamedHit>
        decreases n,
    {
        if n <= 0 {
            seq![]
        } else {
            let ids = self.index().postings(entries[n - 1].1);
            self.streamed(entries, want, n - 1) + self.posted_hits(
                utf8_lossy(entries[n - 1].0@),
                ids,
                want,
                ids.len() as int,
            )
        }
    }

    fn push_posted(
        &self,
        out: &mut Vec<NamedRow>,
        name: &str,
        ids: &Vec<u32>,
        want: Option<&RoaringBitmap>,
    )
        requires
            self.wf(),
        ensures
            named_views(final(out)@) == named_views(old(out)@) + self.posted_hits(
                name@,
                ids@,
                wanted_rows(want),
                ids@.len() as int,
            ),
    {
        let ghost start = out@;
        let ghost set = wanted_rows(want);
        let mut i: usize = 0;
        assert(named_views(start) + self.posted_hits(name@, ids@, set, 0) =~= named_views(start));
        while i < ids.len()
            invariant
                self.wf(),
                i <= ids@.len(),
                set == wanted_rows(want),
                named_views(out@) == named_views(start) + self.posted_hits(
                    name@,
                    ids@,
                    set,
                    i as int,
                ),
            decreases ids.len() - i,
        {
            let g: u32 = ids[i];
            let wanted = match want {
                Some(b) => b.contains(g),
                None => true,
            };
            if wanted {
                match self.shared.overlay.resolve_global(g) {
                    Some(ptr) => {
                        let s: usize = ptr.segment_idx as usize;
                        if s < self.shared.segments.len() {
                            assert(self.shared.segments@[s as int].wf());
                            if ptr.local_row_idx < self.shared.segments[s].row_count() {
                                let ghost was = out@;
                                let row = NamedRow {
                                    name: name.to_owned(),
                                    seg: s,
                                    row: ptr.local_row_idx,
                                };
                                out.push(row);
                                proof {
                                    assert(named_views(out@) =~= named_views(was).push(row.view()));
                                    assert(named_views(out@) =~= named_views(start)
                                        + self.posted_hits(name@, ids@, set, i + 1));
                                }
                            }
                        }
                    },
                    None => {},
                }
            }
            i += 1;
        }
    }

    proof fn lemma_posted_valid(
        &self,
        name: Seq<char>,
        ids: Seq<u32>,
        want: Option<Set<u32>>,
        n: int,
    )
        ensures
            forall|i: int|
                0 <= i < self.posted_hits(name, ids, want, n).len() ==> self.valid_hit(
                    (#[trigger] self.posted_hits(name, ids, want, n)[i]).hit,
                ),
        decreases n,
    {
        if n > 0 {
            self.lemma_posted_valid(name, ids, want, n - 1);
            let before = self.posted_hits(name, ids, want, n - 1);
            let now = self.posted_hits(name, ids, want, n);
            assert forall|i: int| 0 <= i < now.len() implies self.valid_hit(
                (#[trigger] now[i]).hit,
            ) by {
                if i < before.len() {
                    assert(now[i] == before[i]);
                }
            }
        }
    }

    /// Every streamed row is a row of the overlay.
    pub proof fn lemma_streamed_valid(
        &self,
        entries: Seq<(Vec<u8>, u64)>,
        want: Option<Set<u32>>,
        n: int,
    )
        ensures
            forall|i: int|
                0 <= i < self.streamed(entries, want, n).len() ==> self.valid_hit(
                    (#[trigger] self.streamed(entries, want, n)[i]).hit,
                ),
        decreases n,
    {
        if n > 0 {
            self.lemma_streamed_valid(entries, want, n - 1);
            let before = self.streamed(entries, want, n - 1);
            let ids = self.index().postings(entries[n - 1].1);
            let name = utf8_lossy(entries[n - 1].0@);
            self.lemma_posted_valid(name, ids, want, ids.len() as int);
            let more = self.posted_hits(name, ids, want, ids.len() as int);
            let now = self.streamed(entries, want, n);
            assert forall|i: int| 0 <= i < now.len() implies self.valid_hit(
                (#[trigger] now[i]).hit,
            ) by {
                if i < before.len() {
                    assert(now[i] == before[i]);
                } else {
                    assert(now[i] == more[i - before.len()]);
                }
            }
        }
    }

    /// Whether rows are those built of streamed ones, one for each.
    pub open spec fn are_streamed(&self, rows: Seq<SymbolMatch>, hits: Seq<NamedHit>) -> bool {
        rows.len() == hits.len() && forall|i: int|
            0 <= i < rows.len() ==> self.seg(hits[i].hit.seg).builds(
                hits[i].hit.row,
                Some(self.hit_path(hits[i].hit)),
                #[trigger] rows[i],
            )
    }

    fn build_named(&self, list: &Vec<NamedRow>) -> (rows: Vec<SymbolMatch>)
        requires
            self.wf(),
            forall|i: int|
                0 <= i < list@.len() ==> self.valid_hit((#[trigger] list@[i]).view().hit),
        ensures
            self.are_streamed(rows@, named_views(list@)),
    {
        let mut rows: Vec<SymbolMatch> = Vec::new();
        let mut i: usize = 0;
        while i < list.len()
            invariant
                self.wf(),
                forall|k: int|
                    0 <= k < list@.len() ==> self.valid_hit((#[trigger] list@[k]).view().hit),
                i <= list@.len(),
                rows@.len() == i,
                forall|k: int|
                    0 <= k < i ==> self.seg(list@[k].view().hit.seg).builds(
                        list@[k].view().hit.row,
                        Some(self.hit_path(list@[k].view().hit)),
                        #[trigger] rows@[k],
                    ),
            decreases list.len() - i,
        {
            assert(self.valid_hit(list@[i as int].view().hit));
            let s: usize = list[i].seg;
            assert(self.shared.segments@[s as int].wf());
            let path = self.shared.overlay.segments[s].source_path.as_str();
            match self.shared.segments[s].materialize_one_row(list[i].row, path) {
                Some(m) => {
                    rows.push(m);
                },
                None => {
                    assert(false);
                },
            }
            i += 1;
        }
        rows
    }

    // ───────────────────────────── ascending ─────────────────────────────

    /// Whether a stream for `need` rows stops after the first `m` names: it holds enough, or all.
    pub open spec fn stream_stops(
        &self,
        entries: Seq<(Vec<u8>, u64)>,
        want: Option<Set<u32>>,
        need: usize,
        m: int,
    ) -> bool {
        &&& 0 <= m <= entries.len()
        &&& m < entries.len() ==> m > 0 && self.streamed(entries, want, m).len() >= need
        &&& forall|j: int|
            0 < j < m ==> (#[trigger] self.streamed(entries, want, j)).len() < need
    }

    /// The rows of the first names in ascending order, `need` of them or all; a name that is begun
    /// is finished. With `want`, only the rows in it.
    pub fn stream_names_asc(&self, need: usize, want: Option<&RoaringBitmap>) -> (rows: Vec<
        SymbolMatch,
    >)
        requires
            self.wf(),
        ensures
            exists|entries: Seq<(Vec<u8>, u64)>, m: int|
                lists_entries(entries, self.index().name_index@) && #[trigger] self.stream_stops(
                    entries,
                    wanted_rows(want),
                    need,
                    m,
                ) && self.are_streamed(rows@, self.streamed(entries, wanted_rows(want), m)),
    {
        let entries = self.shared.overlay.name_index.entries();
        let ghost set = wanted_rows(want);
        let mut list: Vec<NamedRow> = Vec::new();
        let mut n: usize = 0;
        let mut enough = false;
        assert(named_views(list@) =~= self.streamed(entries@, set, 0));
        while n < entries.len() && !enough
            invariant
                self.wf(),
                n <= entries@.len(),
                set == wanted_rows(want),
                named_views(list@) == self.streamed(entries@, set, n as int),
                enough ==> n > 0 && list@.len() >= need,
                forall|j: int|
                    0 < j < n ==> (#[trigger] self.streamed(entries@, set, j)).len() < need,
                !enough && n > 0 ==> list@.len() < need,
            decreases entries.len() - n,
        {
            let name = lossy_text(entries[n].0.as_slice());
            let ids = self.shared.overlay.decode_postings(entries[n].1);
            self.push_posted(&mut list, name.as_str(), &ids, want);
            n += 1;
            assert(named_views(list@).len() == list@.len());
            if list.len() >= need {
                enough = true;
            }
        }
        proof {
            self.lemma_streamed_valid(entries@, set, n as int);
            assert forall|i: int| 0 <= i < list@.len() implies self.valid_hit(
                (#[trigger] list@[i]).view().hit,
            ) by {
                assert(named_views(list@)[i] == list@[i].view());
            }
            assert(named_views(list@).len() == list@.len());
            assert(self.stream_stops(entries@, set, need, n as int));
        }
        self.build_named(&list)
    }

    // ───────────────────────────── descending ─────────────────────────────

    /// How rows rank in descending order of name: by name, then by line, then by path.
    pub open spec fn name_desc(&self) -> spec_fn(NamedHit, NamedHit) -> bool {
        |a: NamedHit, b: NamedHit|
            self.desc_before(
                (a.name, self.hit_row(a.hit).line, self.hit_path(a.hit)),
                (b.name, self.hit_row(b.hit).line, self.hit_path(b.hit)),
            )
    }

    /// Whether one name, line and path comes before another in descending order of name.
    pub open spec fn desc_before(
        &self,
        a: (Seq<char>, u32, Seq<char>),
        b: (Seq<char>, u32, Seq<char>),
    ) -> bool {
        if a.0 != b.0 {
            text_before(b.0, a.0)
        } else if a.1 != b.1 {
            a.1 < b.1
        } else {
            text_before(a.2, b.2)
        }
    }

    proof fn lemma_desc_weak(
        &self,
        a: (Seq<char>, u32, Seq<char>),
        b: (Seq<char>, u32, Seq<char>),
        c: (Seq<char>, u32, Seq<char>),
    )
        ensures
            !self.desc_before(a, a),
            self.desc_before(a, b) && self.desc_before(b, c) ==> self.desc_before(a, c),
            !self.desc_before(a, b) && !self.desc_before(b, c) ==> !self.desc_before(a, c),
    {
        lemma_text_order(a.0, b.0, c.0);
        lemma_text_order(c.0, b.0, a.0);
        lemma_text_order(a.0, c.0, b.0);
        lemma_text_order(a.2, b.2, c.2);
        lemma_text_order(c.2, b.2, a.2);
        lemma_text_order(a.2, c.2, b.2);
    }

    /// The ranking in descending order of name is a strict weak order.
    pub proof fn lemma_name_desc_weak(&self)
        ensures
            weak_order(self.name_desc()),
    {
        let before = self.name_desc();
        let key = |a: NamedHit| (a.name, self.hit_row(a.hit).line, self.hit_path(a.hit));
        assert forall|a: NamedHit| !#[trigger] before(a, a) by {
            self.lemma_desc_weak(key(a), key(a), key(a));
        }
        assert forall|a: NamedHit, b: NamedHit, c: NamedHit|
            #![trigger before(a, b), before(b, c)]
            before(a, b) && before(b, c) implies before(a, c) by {
            self.lemma_desc_weak(key(a), key(b), key(c));
        }
        assert forall|a: NamedHit, b: NamedHit, c: NamedHit|
            #![trigger before(a, b), before(b, c)]
            !before(a, b) && !before(b, c) implies !before(a, c) by {
            self.lemma_desc_weak(key(a), key(b), key(c));
        }
    }

    /// The first `need` rows in descending order of name. With `want`, only the rows in it.
    pub fn stream_names_desc(&self, need: usize, want: Option<&RoaringBitmap>) -> (rows: Vec<
        SymbolMatch,
    >)
        requires
            self.wf(),
        ensures
            exists|entries: Seq<(Vec<u8>, u64)>| #[trigger]
                lists_entries(entries, self.index().name_index@) && self.are_streamed(
                    rows@,
                    first(
                        ordered(
                            self.streamed(entries, wanted_rows(want), entries.len() as int),
                            self.name_desc(),
                        ),
                        need as nat,
                    ),
                ),
    {
        let entries = self.shared.overlay.name_index.entries();
        let ghost set = wanted_rows(want);
        let mut list: Vec<NamedRow> = Vec::new();
        let mut n: usize = 0;
        assert(named_views(list@) =~= self.streamed(entries@, set, 0));
        while n < entries.len()
            invariant
                self.wf(),
                n <= entries@.len(),
                set == wanted_rows(want),
                named_views(list@) == self.streamed(entries@, set, n as int),
            decreases entries.len() - n,
        {
            let name = lossy_text(entries[n].0.as_slice());
            let ids = self.shared.overlay.decode_postings(entries[n].1);
            self.push_posted(&mut list, name.as_str(), &ids, want);
            n += 1;
        }
        let ghost all = named_views(list@);
        proof {
            self.lemma_streamed_valid(entries@, set, n as int);
            assert forall|i: int| 0 <= i < list@.len() implies self.valid_hit(
                (#[trigger] list@[i]).view().hit,
            ) by {
                assert(all[i] == list@[i].view());
            }
        }
        let count: usize = list.len();
        let order = self.desc_order(&list);
        let cap: usize = if need < count {
            need
        } else {
            count
        };
        let mut best: Vec<NamedRow> = Vec::new();
        let mut i: usize = 0;
        while i < cap
            invariant
                cap <= order@.len(),
                order@.len() == list@.len(),
                forall|k: int| 0 <= k < order@.len() ==> (#[trigger] order@[k]) < list@.len(),
                all == named_views(list@),
                i <= cap,
                best@.len() == i,
                forall|k: int|
                    0 <= k < i ==> (#[trigger] best@[k]).view() == all[order@[k] as int],
            decreases cap - i,
        {
            let r = &list[order[i]];
            let copy = NamedRow { name: r.name.clone(), seg: r.seg, row: r.row };
            assert(copy.view() == all[order@[i as int] as int]);
            best.push(copy);
            i += 1;
        }
        proof {
            self.lemma_name_desc_weak();
            lemma_delivers(all, self.name_desc(), order@);
            let want_hits = first(ordered(all, self.name_desc()), need as nat);
            lemma_ordered(all, self.name_desc());
            assert(named_views(best@) =~= want_hits) by {
                assert forall|k: int| 0 <= k < best@.len() implies named_views(best@)[k]
                    == want_hits[k] by {
                    assert(picked(all, order@)[k] == all[order@[k] as int]);
                    assert(best@[k].view() == all[order@[k] as int]);
                }
            }
            assert forall|k: int| 0 <= k < best@.len() implies self.valid_hit(
                (#[trigger] best@[k]).view().hit,
            ) by {
                assert(best@[k].view() == all[order@[k] as int]);
                assert(all[order@[k] as int] == list@[order@[k] as int].view());
            }
        }
        self.build_named(&best)
    }

    fn desc_order(&self, list: &Vec<NamedRow>) -> (order: Vec<usize>)
        requires
            self.wf(),
            forall|i: int|
                0 <= i < list@.len() ==> self.valid_hit((#[trigger] list@[i]).view().hit),
        ensures
            delivers(named_views(list@), self.name_desc(), order@),
            order@.len() == list@.len(),
            forall|k: int| 0 <= k < order@.len() ==> (#[trigger] order@[k]) < list@.len(),
    {
        let table = NamedTable { rows: list, storage: self };
        let order = sorted_order(&table);
        proof {
            let all = named_views(list@);
            let before = self.name_desc();
            assert forall|a: int, b: int|
                #![trigger order@[a], order@[b]]
                0 <= a < b < order@.len() implies before(
                all[order@[a] as int],
                all[order@[b] as int],
            ) || (!before(all[order@[b] as int], all[order@[a] as int]) && order@[a] < order@[b]) by {
                assert(sorts_before(&table, order@[a] as int, order@[b] as int));
                assert(all[order@[a] as int] == list@[order@[a] as int].view());
                assert(all[order@[b] as int] == list@[order@[b] as int].view());
            }
        }
        order
    }
}

proof fn lemma_text_order(a: Seq<char>, b: Seq<char>, c: Seq<char>)
    ensures
        a == b || text_before(a, b) || text_before(b, a),
        !(text_before(a, b) && text_before(b, a)),
        !text_before(a, a),
        text_before(a, b) && text_before(b, c) ==> text_before(a, c),
{
    lemma_text_total(a, b);
    lemma_text_total(a, a);
    if text_before(a, b) && text_before(b, c) {
        lemma_text_transitive(a, b, c);
    }
}

struct NamedTable<'a> {
    rows: &'a Vec<NamedRow>,
    storage: &'a ColumnarStorage,
}

impl<'a> RankTable for NamedTable<'a> {
    closed spec fn size(&self) -> nat {
        self.rows@.len()
    }

    closed spec fn readable(&self) -> bool {
        self.storage.wf() && forall|i: int|
            0 <= i < self.rows@.len() ==> self.storage.valid_hit(
                (#[trigger] self.rows@[i]).view().hit,
            )
    }

    closed spec fn ranks_before(&self, i: int, j: int) -> bool {
        (self.storage.name_desc())(self.rows@[i].view(), self.rows@[j].view())
    }

    proof fn strict_weak_order(&self, i: int, j: int, k: int) {
        self.storage.lemma_name_desc_weak();
        let before = self.storage.name_desc();
        let (a, b, c) = (self.rows@[i].view(), self.rows@[j].view(), self.rows@[k].view());
        assert(!before(a, a));
        assert(before(a, b) && before(b, c) ==> before(a, c));
        assert(!before(a, b) && !before(b, c) ==> !before(a, c));
    }

    fn count(&self) -> (n: usize) {
        self.rows.len()
    }

    fn is_before(&self, i: usize, j: usize) -> (r: bool) {
        let a = &self.rows[i];
        let b = &self.rows[j];
        let st = self.storage;
        assert(st.valid_hit(self.rows@[i as int].view().hit));
        assert(st.valid_hit(self.rows@[j as int].view().hit));
        if !same_text(a.name.as_str(), b.name.as_str()) {
            return text_less(b.name.as_str(), a.name.as_str());
        }
        let x: u32 = st.shared.segments[a.seg].rows[a.row as usize].line;
        let y: u32 = st.shared.segments[b.seg].rows[b.row as usize].line;
        if x != y {
            return x < y;
        }
        text_less(
            st.shared.overlay.segments[a.seg].source_path.as_str(),
            st.shared.overlay.segments[b.seg].source_path.as_str(),
        )
    }
}

impl NamedRow {
    spec fn view(&self) -> NamedHit {
        NamedHit { name: self.name@, hit: Hit { seg: self.seg as int, row: self.row as int } }
    }
}

spec fn named_views(v: Seq<NamedRow>) -> Seq<NamedHit> {
    v.map_values(|r: NamedRow| r.view())
}

/// The wanted rows, where only some are.
pub open spec fn wanted_rows(want: Option<&RoaringBitmap>) -> Option<Set<u32>> {
    match want {
        Some(b) => Some(rows_of(*b)),
        None => None,
    }
}

} // verus!
