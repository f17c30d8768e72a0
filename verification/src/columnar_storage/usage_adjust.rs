//! `usages` on a session with edits.
//!
//! The overlay counts the uses of each name once, over the segments it was built from. A session
//! with edits corrects the count: the uses recorded in every hidden segment are taken off, those
//! in every segment of the session are added.

use crate::columnar_storage::ColumnarStorage;
use crate::order::{
    paths_ascend, same_members, same_paths, sorted_paths, sorted_texts, texts_ascend,
};
use crate::path_parts::{is_same_path, same_path};
use crate::overlay::lookup::text_views;
use crate::segment::SymbolMatch;
use crate::text::{hex_of, same_text};
use crate::text_index::{count_among, TextIndex};
use vstd::prelude::*;
use vstd::string::*;

verus! {

/// How many of the first `n` recorded uses are of a name.
pub open spec fn uses_among(usages: Seq<(String, u32)>, name: Seq<char>, n: int) -> nat
    decreases n,
{
    if n <= 0 {
        0
    } else {
        uses_among(usages, name, n - 1) + if usages[n - 1].0@ == name {
            1nat
        } else {
            0nat
        }
    }
}

/// How many uses of a name are recorded.
pub open spec fn uses_in(usages: Seq<(String, u32)>, name: Seq<char>) -> nat {
    uses_among(usages, name, usages.len() as int)
}

/// The edits that a correction was made for: every segment of the session by path and content,
/// and everything that is hidden.
pub struct DirtyFingerprint {
    pub added: Vec<(String, String)>,
    pub removed: Vec<String>,
    pub removed_ids: Vec<String>,
}

impl DirtyFingerprint {
    /// Whether two fingerprints are of the same edits.
    pub open spec fn agrees(&self, other: DirtyFingerprint) -> bool {
        &&& self.added@.len() == other.added@.len()
        &&& forall|i: int|
            #![trigger self.added@[i]]
            0 <= i < self.added@.len() ==> same_path(self.added@[i].0@, other.added@[i].0@)
                && self.added@[i].1@ == other.added@[i].1@
        &&& self.removed@.len() == other.removed@.len()
        &&& forall|i: int|
            0 <= i < self.removed@.len() ==> same_path(
                (#[trigger] self.removed@[i])@,
                other.removed@[i]@,
            )
        &&& text_views(self.removed_ids@) == text_views(other.removed_ids@)
    }

    /// Whether two fingerprints are of the same edits.
    pub fn same(&self, other: &DirtyFingerprint) -> (r: bool)
        ensures
            r == self.agrees(*other),
    {
        if self.added.len() != other.added.len() {
            return false;
        }
        let mut i: usize = 0;
        while i < self.added.len()
            invariant
                i <= self.added@.len(),
                self.added@.len() == other.added@.len(),
                forall|k: int|
                    #![trigger self.added@[k]]
                    0 <= k < i ==> same_path(self.added@[k].0@, other.added@[k].0@)
                        && self.added@[k].1@ == other.added@[k].1@,
            decreases self.added.len() - i,
        {
            if !is_same_path(self.added[i].0.as_str(), other.added[i].0.as_str()) || !same_text(
                self.added[i].1.as_str(),
                other.added[i].1.as_str(),
            ) {
                return false;
            }
            i += 1;
        }
        are_same_paths(&self.removed, &other.removed) && same_texts(
            &self.removed_ids,
            &other.removed_ids,
        )
    }
}

fn are_same_paths(a: &Vec<String>, b: &Vec<String>) -> (r: bool)
    ensures
        r == (a@.len() == b@.len() && forall|i: int|
            0 <= i < a@.len() ==> same_path((#[trigger] a@[i])@, b@[i]@)),
{
    if a.len() != b.len() {
        return false;
    }
    let mut i: usize = 0;
    while i < a.len()
        invariant
            i <= a@.len(),
            a@.len() == b@.len(),
            forall|k: int| 0 <= k < i ==> same_path((#[trigger] a@[k])@, b@[k]@),
        decreases a.len() - i,
    {
        if !is_same_path(a[i].as_str(), b[i].as_str()) {
            return false;
        }
        i += 1;
    }
    true
}

fn same_texts(a: &Vec<String>, b: &Vec<String>) -> (r: bool)
    ensures
        r == (text_views(a@) == text_views(b@)),
{
    if a.len() != b.len() {
        assert(text_views(a@).len() != text_views(b@).len());
        return false;
    }
    let mut i: usize = 0;
    while i < a.len()
        invariant
            i <= a@.len(),
            a@.len() == b@.len(),
            forall|k: int| 0 <= k < i ==> (#[trigger] a@[k])@ == b@[k]@,
        decreases a.len() - i,
    {
        if !same_text(a[i].as_str(), b[i].as_str()) {
            assert(text_views(a@)[i as int] != text_views(b@)[i as int]);
            return false;
        }
        i += 1;
    }
    assert(text_views(a@) =~= text_views(b@));
    true
}

/// The correction of the overlay's counts for one set of edits.
pub struct UsageAdjust {
    pub fingerprint: DirtyFingerprint,
    /// Every recorded use in the session's segments, by name.
    pub gained: TextIndex,
    /// Every recorded use in the hidden segments, by name.
    pub lost: TextIndex,
}

/// A count on a session, from the overlay's count and what the edits gained and lost.
pub open spec fn corrected_count(aggregate: u64, gained: nat, lost: nat) -> usize {
    let base: int = if aggregate > i64::MAX {
        i64::MAX as int
    } else {
        aggregate as int
    };
    let sum = base + gained - lost;
    let n = if sum > i64::MAX {
        i64::MAX as int
    } else {
        sum
    };
    if n < 0 || n > usize::MAX {
        0
    } else {
        n as usize
    }
}

impl UsageAdjust {
    /// The tables can be searched.
    pub open spec fn wf(&self) -> bool {
        self.gained.wf() && self.lost.wf()
    }

    /// How many uses a name has on the session, given how many the overlay counts.
    pub fn corrected(&self, name: &str, aggregate: u64) -> (n: usize)
        requires
            self.wf(),
        ensures
            n == corrected_count(
                aggregate,
                count_among(self.gained.items@, name@, self.gained.items@.len() as int),
                count_among(self.lost.items@, name@, self.lost.items@.len() as int),
            ),
    {
        let gained: usize = self.gained.count_of(name);
        let lost: usize = self.lost.count_of(name);
        let top: i128 = 0x7fff_ffff_ffff_ffff;
        let base: i128 = if aggregate > 0x7fff_ffff_ffff_ffff {
            top
        } else {
            aggregate as i128
        };
        let sum: i128 = base + gained as i128 - lost as i128;
        let n: i128 = if sum > top {
            top
        } else {
            sum
        };
        if n < 0 || n > usize::MAX as i128 {
            0
        } else {
            n as usize
        }
    }
}

impl ColumnarStorage {
    /// How many uses of a name the hidden ones among the first `n` segments record.
    pub open spec fn lost_uses(&self, name: Seq<char>, n: int) -> nat
        decreases n,
    {
        if n <= 0 {
            0
        } else {
            self.lost_uses(name, n - 1) + if self.dirty.hides(self.index().segments@[n - 1]) {
                uses_in(self.seg(n - 1).usages@, name)
            } else {
                0nat
            }
        }
    }

    /// How many uses of a name the first `n` segments of the session record.
    pub open spec fn gained_uses(&self, name: Seq<char>, n: int) -> nat
        decreases n,
    {
        if n <= 0 {
            0
        } else {
            self.gained_uses(name, n - 1) + uses_in(self.dirty.added@[n - 1].reader.usages@, name)
        }
    }

    /// How many uses a name has on this session.
    pub open spec fn usages_now(&self, name: Seq<char>) -> usize {
        if self.dirty.nothing() {
            let n = self.index().usages_of(name);
            if n > usize::MAX {
                usize::MAX
            } else {
                n as usize
            }
        } else {
            corrected_count(
                self.index().usages_of(name),
                self.gained_uses(name, self.dirty.added@.len() as int),
                self.lost_uses(name, self.seg_count() as int),
            )
        }
    }

    /// Whether a fingerprint is that of the session's edits.
    pub open spec fn fingerprinted(&self, f: DirtyFingerprint) -> bool {
        &&& f.added@.len() == self.dirty.added@.len()
        &&& forall|i: int|
            #![trigger f.added@[i]]
            0 <= i < f.added@.len() ==> f.added@[i].0@ == self.dirty.added@[i].source_path@
                && f.added@[i].1@ == hex_of(self.dirty.added@[i].reader.content_id@)
        &&& paths_ascend(f.removed@) && same_paths(f.removed@, self.dirty.removed_paths@)
        &&& texts_ascend(f.removed_ids@) && same_members(
            f.removed_ids@,
            self.dirty.removed_hex_ids@,
        )
    }

    /// The fingerprint of the session's edits.
    pub fn dirty_fingerprint(&self) -> (f: DirtyFingerprint)
        ensures
            self.fingerprinted(f),
    {
        let mut added: Vec<(String, String)> = Vec::new();
        let mut i: usize = 0;
        while i < self.dirty.added.len()
            invariant
                i <= self.dirty.added@.len(),
                added@.len() == i,
                forall|k: int|
                    #![trigger added@[k]]
                    0 <= k < i ==> added@[k].0@ == self.dirty.added@[k].source_path@
                        && added@[k].1@ == hex_of(self.dirty.added@[k].reader.content_id@),
            decreases self.dirty.added.len() - i,
        {
            let ds = &self.dirty.added[i];
            added.push((ds.source_path.clone(), ds.reader.content_id_hex()));
            i += 1;
        }
        DirtyFingerprint {
            added,
            removed: sorted_paths(&self.dirty.removed_paths),
            removed_ids: sorted_texts(&self.dirty.removed_hex_ids),
        }
    }

    /// Whether a correction counts what the session's edits gained and lost, for every name.
    pub open spec fn corrects(&self, a: UsageAdjust) -> bool {
        &&& a.wf()
        &&& self.fingerprinted(a.fingerprint)
        &&& forall|name: Seq<char>| #[trigger]
            count_among(a.gained.items@, name, a.gained.items@.len() as int) == self.gained_uses(
                name,
                self.dirty.added@.len() as int,
            )
        &&& forall|name: Seq<char>| #[trigger]
            count_among(a.lost.items@, name, a.lost.items@.len() as int) == self.lost_uses(
                name,
                self.seg_count() as int,
            )
    }

    /// Makes the correction for the session's edits.
    pub fn build_usage_adjust(&self) -> (a: UsageAdjust)
        requires
            self.wf(),
        ensures
            self.corrects(a),
    {
        let mut lost: Vec<String> = Vec::new();
        let mut i: usize = 0;
        while i < self.shared.segments.len()
            invariant
                self.wf(),
                i <= self.seg_count(),
                forall|name: Seq<char>| #[trigger]
                    count_among(lost@, name, lost@.len() as int) == self.lost_uses(name, i as int),
            decreases self.shared.segments.len() - i,
        {
            if self.dirty.shadows_segment(&self.shared.overlay.segments[i]) {
                append_names(&mut lost, &self.shared.segments[i].usages);
            }
            i += 1;
        }
        let mut gained: Vec<String> = Vec::new();
        let mut j: usize = 0;
        while j < self.dirty.added.len()
            invariant
                j <= self.dirty.added@.len(),
                forall|name: Seq<char>| #[trigger]
                    count_among(gained@, name, gained@.len() as int) == self.gained_uses(
                        name,
                        j as int,
                    ),
            decreases self.dirty.added.len() - j,
        {
            append_names(&mut gained, &self.dirty.added[j].reader.usages);
            j += 1;
        }
        UsageAdjust {
            fingerprint: self.dirty_fingerprint(),
            gained: TextIndex::new(gained),
            lost: TextIndex::new(lost),
        }
    }

    /// Whether a correction made earlier is still that of the session's edits, as far as paths and
    /// contents tell.
    pub fn adjust_is_current(&self, a: &UsageAdjust) -> (r: bool)
        ensures
            exists|now: DirtyFingerprint| #[trigger]
                self.fingerprinted(now) && r == a.fingerprint.agrees(now),
    {
        let now = self.dirty_fingerprint();
        a.fingerprint.same(&now)
    }

    /// Writes onto each row how many uses its name has on this session.
    pub fn stamp_usage_counts(&self, rows: &mut Vec<SymbolMatch>)
        requires
            self.wf(),
        ensures
            final(rows)@.len() == old(rows)@.len(),
            forall|i: int|
                #![trigger final(rows)@[i]]
                0 <= i < final(rows)@.len() ==> final(rows)@[i] == (SymbolMatch {
                    usages_count: Some(self.usages_now(old(rows)@[i].name@)),
                    ..old(rows)@[i]
                }),
    {
        let adjust: Option<UsageAdjust> = if self.dirty.is_empty() {
            None
        } else {
            Some(self.build_usage_adjust())
        };
        let n: usize = rows.len();
        let mut i: usize = 0;
        while i < n
            invariant
                self.wf(),
                i <= n,
                n == rows@.len(),
                rows@.len() == old(rows)@.len(),
                adjust is None == self.dirty.nothing(),
                adjust is Some ==> self.corrects(adjust->0),
                forall|k: int|
                    #![trigger rows@[k]]
                    0 <= k < i ==> rows@[k] == (SymbolMatch {
                        usages_count: Some(self.usages_now(old(rows)@[k].name@)),
                        ..old(rows)@[k]
                    }),
                forall|k: int| i <= k < n ==> #[trigger] rows@[k] == old(rows)@[k],
            decreases n - i,
        {
            let count: u64 = self.shared.overlay.usage_count(rows[i].name.as_str());
            let total: usize = match &adjust {
                Some(a) => a.corrected(rows[i].name.as_str(), count),
                None => if count > usize::MAX as u64 {
                    usize::MAX
                } else {
                    count as usize
                },
            };
            rows[i].usages_count = Some(total);
            i += 1;
        }
    }
}

fn append_names(out: &mut Vec<String>, usages: &Vec<(String, u32)>)
    ensures
        forall|name: Seq<char>| #[trigger]
            count_among(final(out)@, name, final(out)@.len() as int) == count_among(
                old(out)@,
                name,
                old(out)@.len() as int,
            ) + uses_in(usages@, name),
{
    let ghost start = out@;
    let mut i: usize = 0;
    while i < usages.len()
        invariant
            i <= usages@.len(),
            forall|name: Seq<char>| #[trigger]
                count_among(out@, name, out@.len() as int) == count_among(
                    start,
                    name,
                    start.len() as int,
                ) + uses_among(usages@, name, i as int),
        decreases usages.len() - i,
    {
        let ghost was = out@;
        out.push(usages[i].0.clone());
        proof {
            assert forall|name: Seq<char>| #[trigger] count_among(out@, name, out@.len() as int)
                == count_among(start, name, start.len() as int) + uses_among(
                usages@,
                name,
                i + 1,
            ) by {
                lemma_count_prefix(was, out@, name, was.len() as int);
                assert(count_among(was, name, was.len() as int) == count_among(
                    start,
                    name,
                    start.len() as int,
                ) + uses_among(usages@, name, i as int));
            }
        }
        i += 1;
    }
}

proof fn lemma_count_prefix(a: Seq<String>, b: Seq<String>, name: Seq<char>, n: int)
    requires
        0 <= n <= a.len() <= b.len(),
        forall|i: int| 0 <= i < n ==> (#[trigger] a[i])@ == b[i]@,
    ensures
        count_among(a, name, n) == count_among(b, name, n),
    decreases n,
{
    if n > 0 {
        lemma_count_prefix(a, b, name, n - 1);
    }
}

} // verus!
