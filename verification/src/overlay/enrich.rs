//! The enrichment index of an open overlay: rows by `field=value`.

use crate::bytes::{
    keys_ascend, le16, le32, lemma_found_at_lower_bound, lower_bound, slice_of, u16_at, u32_at,
    utf8_of, utf8_text, KeyTable,
};
use crate::order::{bytes_before, bytes_less, lemma_bytes_total};
use crate::overlay::lookup::{lemma_prefix_between, opt_rows, ranged, starts_with};
use crate::overlay::parse::{enrich_bitmaps_at, enrich_key, enrich_keys_at, enrich_whole};
use crate::overlay::postings::{
    bitmap_in, count_masked, count_views, mask_rows, masked_len, read_bitmap,
};
use crate::overlay::{blob_bytes, file_blob, Overlay};
use crate::rows::{copy_rows, rows_in_either, rows_of};
use crate::text::{parse_i64, same_bytes, signed_of};
use roaring::RoaringBitmap;
use vstd::prelude::*;
use vstd::string::*;
use vstd::utf8::*;

verus! {

/// The key of entry `i` of an enrichment index, where it lies inside the key strings.
pub open spec fn enrich_key_in(entries: Seq<u8>, keys: Seq<u8>, i: int) -> Option<Seq<u8>> {
    let from = le32(entries, i * 16) as int;
    slice_of(keys, from, from + le16(entries, i * 16 + 4))
}

/// The keys of an enrichment index.
pub struct EnrichKeys<'a> {
    pub entries: &'a [u8],
    pub keys: &'a [u8],
}

impl<'a> EnrichKeys<'a> {
    fn key(&self, i: usize) -> (r: Option<&'a [u8]>)
        requires
            i < self.size(),
        ensures
            (match r {
                Some(s) => enrich_key_in(self.entries@, self.keys@, i as int) == Some(s@),
                None => enrich_key_in(self.entries@, self.keys@, i as int) is None,
            }),
    {
        assert((i + 1) * 16 <= self.entries@.len());
        let n: usize = self.entries.len();
        let at: usize = i * 16;
        ranged(self.keys, u32_at(self.entries, at) as u64, u16_at(self.entries, at + 4) as u32)
    }
}

impl<'a> KeyTable for EnrichKeys<'a> {
    open spec fn size(&self) -> nat {
        self.entries@.len() / 16
    }

    open spec fn key_at(&self, i: int) -> Seq<u8> {
        match enrich_key_in(self.entries@, self.keys@, i) {
            Some(key) => key,
            None => Seq::empty(),
        }
    }

    open spec fn readable(&self) -> bool {
        true
    }

    fn count(&self) -> (n: usize) {
        self.entries.len() / 16
    }

    fn key_below(&self, i: usize, target: &[u8]) -> (r: bool) {
        match self.key(i) {
            Some(key) => bytes_less(key, target),
            None => bytes_less(vstd::slice::slice_subrange(target, 0, 0), target),
        }
    }
}

/// The bytes that open every key of `field`: its name and an equals sign.
pub open spec fn field_prefix(field: Seq<char>) -> Seq<u8> {
    encode_utf8(field) + seq![0x3du8]
}

/// The key of `field=value`.
pub open spec fn field_key(field: Seq<char>, value: Seq<char>) -> Seq<u8> {
    field_prefix(field) + encode_utf8(value)
}

fn make_prefix(field: &str) -> (p: Vec<u8>)
    ensures
        p@ == field_prefix(field@),
{
    let mut p: Vec<u8> = field.as_bytes_vec();
    p.push(0x3d);
    assert(p@ =~= field_prefix(field@));
    p
}

impl Overlay {
    /// The number of `field=value` keys.
    pub open spec fn enrich_len(&self) -> int {
        (self.enrich.entries.of(self.file@).len() / 16) as int
    }

    /// The key of entry `i`.
    pub open spec fn enrich_key(&self, i: int) -> Seq<u8> {
        enrich_key_in(
            self.enrich.entries.of(self.file@),
            self.enrich.keys.of(self.file@),
            i,
        )->0
    }

    /// The rows posted for entry `i`, where they can be read.
    pub open spec fn enrich_bitmap(&self, i: int) -> Option<Set<u32>> {
        let entries = self.enrich.entries.of(self.file@);
        bitmap_in(
            self.file@,
            self.enrich.bitmap_base + le32(entries, i * 16 + 8),
            le32(entries, i * 16 + 12) as int,
        )
    }

    /// Whether entry `i` is one of `field`.
    pub open spec fn enrich_of_field(&self, i: int, field: Seq<char>) -> bool {
        0 <= i < self.enrich_len() && starts_with(self.enrich_key(i), field_prefix(field))
    }

    /// The value of entry `i`, an entry of `field`, where it is text.
    pub open spec fn enrich_value(&self, i: int, field: Seq<char>) -> Option<Seq<char>> {
        utf8_of(self.enrich_key(i).skip(field_prefix(field).len() as int))
    }

    /// The parts of the index lie inside the file, every key inside the key strings, in order.
    proof fn lemma_enrich_sorted(&self)
        requires
            self.wf(),
        ensures
            self.enrich.entries.inside(self.file@.len()),
            self.enrich.keys.inside(self.file@.len()),
            self.enrich.bitmap_base <= self.file@.len(),
            forall|i: int|
                0 <= i < self.enrich_len() ==> enrich_key_in(
                    self.enrich.entries.of(self.file@),
                    self.enrich.keys.of(self.file@),
                    i,
                ) == Some(#[trigger] self.enrich_key(i)),
            forall|i: int, j: int|
                #![trigger self.enrich_key(i), self.enrich_key(j)]
                0 <= i < j < self.enrich_len() ==> !bytes_before(
                    self.enrich_key(j),
                    self.enrich_key(i),
                ),
    {
        let file = self.file@;
        let blob = blob_bytes(file, 10);
        let span = file_blob(file, 10);
        assert(span.inside(file.len()));
        let entries = self.enrich.entries.of(file);
        let keys = self.enrich.keys.of(file);
        if enrich_whole(blob) {
            assert(blob.len() == span.size());
            assert(entries =~= blob.subrange(8, enrich_keys_at(blob)));
            assert(keys =~= blob.subrange(enrich_keys_at(blob), enrich_bitmaps_at(blob)));
            assert(entries.len() == crate::overlay::parse::enrich_count(blob) * 16);
            assert(self.enrich_len() == crate::overlay::parse::enrich_count(blob));
            assert forall|i: int| 0 <= i < self.enrich_len() implies enrich_key_in(entries, keys, i)
                == #[trigger] enrich_key(blob, i) by {
                let at = i * 16;
                assert(at + 16 <= entries.len());
                assert(le32(entries, at) == le32(blob, 8 + at));
                assert(le16(entries, at + 4) == le16(blob, 8 + at + 4));
            }
            assert forall|i: int| 0 <= i < self.enrich_len() implies enrich_key_in(entries, keys, i)
                == Some(#[trigger] self.enrich_key(i)) by {
                assert(enrich_key(blob, i) is Some);
            }
            assert forall|i: int, j: int|
                #![trigger self.enrich_key(i), self.enrich_key(j)]
                0 <= i < j < self.enrich_len() implies !bytes_before(
                self.enrich_key(j),
                self.enrich_key(i),
            ) by {
                assert(enrich_key(blob, i)->0 == self.enrich_key(i));
                assert(enrich_key(blob, j)->0 == self.enrich_key(j));
            }
        } else {
            assert(entries.len() == 0);
        }
    }

    /// The entries of `field`: one run of the index.
    fn field_run(&self, field: &str) -> (r: (usize, usize))
        requires
            self.wf(),
        ensures
            r.0 <= r.1 <= self.enrich_len(),
            forall|i: int|
                0 <= i < self.enrich_len() ==> ((r.0 <= i < r.1) == #[trigger] self.enrich_of_field(
                    i,
                    field@,
                )),
    {
        proof {
            self.lemma_enrich_sorted();
        }
        let keys = EnrichKeys {
            entries: self.enrich.entries.read(self.file.as_slice()),
            keys: self.enrich.keys.read(self.file.as_slice()),
        };
        let p = make_prefix(field);
        let n: usize = keys.count();
        let lo: usize = lower_bound(&keys, p.as_slice());
        assert forall|i: int| 0 <= i < n implies #[trigger] keys.key_at(i) == self.enrich_key(i) by {
        }
        assert forall|i: int, j: int|
            #![trigger keys.key_at(i), keys.key_at(j)]
            0 <= i < j < keys.size() implies !bytes_before(keys.key_at(j), keys.key_at(i)) by {
            assert(keys.key_at(i) == self.enrich_key(i));
            assert(keys.key_at(j) == self.enrich_key(j));
        }
        assert(keys_ascend(&keys));
        let mut hi: usize = lo;
        while hi < n
            invariant
                n == keys.size(),
                lo <= hi <= n,
                p@ == field_prefix(field@),
                forall|i: int| lo <= i < hi ==> starts_with(#[trigger] keys.key_at(i), p@),
                forall|i: int|
                    0 <= i < n ==> enrich_key_in(keys.entries@, keys.keys@, i) == Some(
                        #[trigger] keys.key_at(i),
                    ),
            ensures
                lo <= hi <= n,
                forall|i: int| lo <= i < hi ==> starts_with(#[trigger] keys.key_at(i), p@),
                hi < n ==> !starts_with(keys.key_at(hi as int), p@),
            decreases n - hi,
        {
            assert(keys.key_at(hi as int) == keys.key_at(hi as int));
            match keys.key(hi) {
                Some(key) => {
                    if !has_prefix(key, p.as_slice()) {
                        break;
                    }
                },
                None => {
                    assert(false);
                },
            }
            hi += 1;
        }
        proof {
            assert forall|i: int| 0 <= i < self.enrich_len() implies ((lo <= i < hi)
                == #[trigger] self.enrich_of_field(i, field@)) by {
                let key = keys.key_at(i);
                assert(key == self.enrich_key(i));
                lemma_starts_not_before(key, p@);
                if i >= hi && starts_with(key, p@) {
                    let m = keys.key_at(hi as int);
                    if i > hi {
                        assert(!bytes_before(key, m));
                        lemma_prefix_between(p@, m, key);
                    }
                }
            }
        }
        (lo, hi)
    }

    /// Whether any key of `field` is stored.
    pub fn has_enrichment_field(&self, field: &str) -> (r: bool)
        requires
            self.wf(),
        ensures
            r == (exists|i: int| #[trigger] self.enrich_of_field(i, field@)),
    {
        let (lo, hi) = self.field_run(field);
        proof {
            if lo < hi {
                assert(self.enrich_of_field(lo as int, field@));
            }
        }
        lo < hi
    }

    /// The first entry, from `i` on, whose key is `key`.
    pub open spec fn find_enrich(&self, key: Seq<u8>, i: int) -> Option<int>
        decreases self.enrich_len() - i,
    {
        if i >= self.enrich_len() {
            None
        } else if self.enrich_key(i) == key {
            Some(i)
        } else {
            self.find_enrich(key, i + 1)
        }
    }

    proof fn lemma_find_enrich(&self, key: Seq<u8>, from: int, p: int)
        requires
            0 <= from <= p <= self.enrich_len(),
            p < self.enrich_len() ==> self.enrich_key(p) == key,
            forall|i: int| from <= i < p ==> #[trigger] self.enrich_key(i) != key,
        ensures
            self.find_enrich(key, from) == (if p < self.enrich_len() {
                Some(p)
            } else {
                None
            }),
        decreases p - from,
    {
        if from < p {
            self.lemma_find_enrich(key, from + 1, p);
        }
    }

    /// The rows posted for `field=value`; nothing where the pair is not stored.
    pub open spec fn enrich_eq_rows(&self, field: Seq<char>, value: Seq<char>) -> Option<Set<u32>> {
        match self.find_enrich(field_key(field, value), 0) {
            Some(i) => self.enrich_bitmap(i),
            None => None,
        }
    }

    fn read_enrich_bitmap(&self, i: usize) -> (r: Option<RoaringBitmap>)
        requires
            self.wf(),
            i < self.enrich_len(),
        ensures
            opt_rows(r) == self.enrich_bitmap(i as int),
    {
        proof {
            self.lemma_enrich_sorted();
        }
        let entries = self.enrich.entries.read(self.file.as_slice());
        assert((i + 1) * 16 <= entries@.len());
        let n: usize = entries.len();
        let len: usize = self.file.len();
        let at: usize = i * 16;
        assert(self.enrich.bitmap_base <= len);
        let from: u64 = match self.enrich.bitmap_base.checked_add(u32_at(entries, at + 8) as u64) {
            Some(from) => from,
            None => {
                return None;
            },
        };
        if from > len as u64 {
            return None;
        }
        if u32_at(entries, at + 12) as u64 > len as u64 - from {
            return None;
        }
        read_bitmap(self.file.as_slice(), from, u32_at(entries, at + 12))
    }

    /// The rows posted for `field=value`.
    pub fn prefilter_enrichment_eq(&self, field: &str, value: &str) -> (r: Option<RoaringBitmap>)
        requires
            self.wf(),
        ensures
            opt_rows(r) == self.enrich_eq_rows(field@, value@),
    {
        proof {
            self.lemma_enrich_sorted();
        }
        let keys = EnrichKeys {
            entries: self.enrich.entries.read(self.file.as_slice()),
            keys: self.enrich.keys.read(self.file.as_slice()),
        };
        let mut target = make_prefix(field);
        target.extend_from_slice(value.as_bytes());
        assert(target@ =~= field_key(field@, value@));
        let n: usize = keys.count();
        let p: usize = lower_bound(&keys, target.as_slice());
        proof {
            assert forall|i: int| 0 <= i < n implies #[trigger] keys.key_at(i) == self.enrich_key(
                i,
            ) by {
            }
            assert forall|i: int, j: int|
                #![trigger keys.key_at(i), keys.key_at(j)]
                0 <= i < j < keys.size() implies !bytes_before(keys.key_at(j), keys.key_at(i)) by {
                assert(keys.key_at(i) == self.enrich_key(i));
                assert(keys.key_at(j) == self.enrich_key(j));
            }
            assert(keys_ascend(&keys));
            lemma_bytes_total(target@, target@);
            assert forall|i: int| 0 <= i < p implies #[trigger] self.enrich_key(i) != target@ by {
                assert(bytes_before(keys.key_at(i), target@));
            }
            if p < n && keys.key_at(p as int) == target@ {
                self.lemma_find_enrich(target@, 0, p as int);
            } else {
                assert forall|i: int| 0 <= i < n implies #[trigger] self.enrich_key(i)
                    != target@ by {
                    if self.enrich_key(i) == target@ {
                        assert(keys.key_at(i) == target@);
                        lemma_found_at_lower_bound(&keys, target@, p as int, i);
                    }
                }
                self.lemma_find_enrich(target@, 0, n as int);
            }
        }
        if p >= n {
            return None;
        }
        assert(self.enrich_key(p as int) == keys.key_at(p as int));
        match keys.key(p) {
            Some(key) => {
                if !same_bytes(key, target.as_slice()) {
                    return None;
                }
            },
            None => {
                return None;
            },
        }
        self.read_enrich_bitmap(p)
    }
}

/// What starts with `p` does not come before it.
proof fn lemma_starts_not_before(s: Seq<u8>, p: Seq<u8>)
    ensures
        starts_with(s, p) ==> !bytes_before(s, p),
    decreases p.len(),
{
    if starts_with(s, p) && p.len() > 0 {
        let (s1, p1) = (s.drop_first(), p.drop_first());
        assert(s.take(p.len() as int)[0] == p[0]);
        assert(s1.take(p1.len() as int) =~= s.take(p.len() as int).drop_first());
        lemma_starts_not_before(s1, p1);
        assert(crate::order::byte_ranks(s).drop_first() =~= crate::order::byte_ranks(s1));
        assert(crate::order::byte_ranks(p).drop_first() =~= crate::order::byte_ranks(p1));
        assert(crate::order::byte_ranks(s)[0] == crate::order::byte_ranks(p)[0]);
    }
}

/// Whether a byte string starts with another.
pub fn has_prefix(s: &[u8], p: &[u8]) -> (r: bool)
    ensures
        r == starts_with(s@, p@),
{
    if s.len() < p.len() {
        return false;
    }
    let head = vstd::slice::slice_subrange(s, 0, p.len());
    assert(head@ =~= s@.take(p@.len() as int));
    same_bytes(head, p)
}

// ───────────────────────────── unions ─────────────────────────────

/// Whether `v` lies between two optional bounds.
pub open spec fn in_bounds(v: int, low: Option<i64>, high: Option<i64>) -> bool {
    &&& low is Some ==> low->0 <= v
    &&& high is Some ==> v <= high->0
}

impl Overlay {
    /// The rows of every readable entry that `pick` selects; nothing where it selects none.
    pub open spec fn enrich_union(&self, pick: spec_fn(int) -> bool) -> Option<Set<u32>> {
        if exists|i: int| self.picked(pick, i) {
            Some(self.picked_rows(pick, self.enrich_len()))
        } else {
            None
        }
    }

    /// Whether entry `i` is selected and its rows can be read.
    pub open spec fn picked(&self, pick: spec_fn(int) -> bool, i: int) -> bool {
        0 <= i < self.enrich_len() && pick(i) && self.enrich_bitmap(i) is Some
    }

    /// The rows of the selected entries before `n`.
    pub open spec fn picked_rows(&self, pick: spec_fn(int) -> bool, n: int) -> Set<u32> {
        Set::new(
            |r: u32|
                exists|i: int|
                    i < n && #[trigger] self.picked(pick, i) && self.enrich_bitmap(i)->0.contains(r),
        )
    }

    proof fn lemma_picked_rows_step(&self, pick: spec_fn(int) -> bool, n: int)
        requires
            0 <= n,
        ensures
            !self.picked(pick, n) ==> self.picked_rows(pick, n + 1) == self.picked_rows(pick, n),
            self.picked(pick, n) ==> self.picked_rows(pick, n + 1) == self.picked_rows(
                pick,
                n,
            ).union(self.enrich_bitmap(n)->0),
    {
        let (now, next) = (self.picked_rows(pick, n), self.picked_rows(pick, n + 1));
        assert forall|r: u32|
            next.contains(r) == (now.contains(r) || (self.picked(pick, n) && self.enrich_bitmap(
                n,
            )->0.contains(r))) by {
            if next.contains(r) {
                let i = choose|i: int|
                    i < n + 1 && #[trigger] self.picked(pick, i) && self.enrich_bitmap(
                        i,
                    )->0.contains(r);
                if i < n {
                    assert(now.contains(r));
                }
            }
            if now.contains(r) {
                let i = choose|i: int|
                    i < n && #[trigger] self.picked(pick, i) && self.enrich_bitmap(i)->0.contains(r);
                assert(i < n + 1);
            }
        }
        if self.picked(pick, n) {
            assert(next =~= now.union(self.enrich_bitmap(n)->0));
        } else {
            assert(next =~= now);
        }
    }

    proof fn lemma_picked_rows_none(&self, pick: spec_fn(int) -> bool, lo: int, hi: int)
        requires
            0 <= lo <= hi,
            forall|i: int| lo <= i < hi ==> !#[trigger] self.picked(pick, i),
        ensures
            self.picked_rows(pick, hi) == self.picked_rows(pick, lo),
        decreases hi - lo,
    {
        if lo < hi {
            self.lemma_picked_rows_none(pick, lo, hi - 1);
            self.lemma_picked_rows_step(pick, hi - 1);
        }
    }

    /// Unites the readable entries of `lo..hi` that `chosen` marks.
    fn unite(&self, lo: usize, hi: usize, chosen: &Vec<bool>, Ghost(pick): Ghost<
        spec_fn(int) -> bool,
    >) -> (r: Option<RoaringBitmap>)
        requires
            self.wf(),
            lo <= hi <= self.enrich_len(),
            chosen@.len() == hi - lo,
            forall|i: int| lo <= i < hi ==> #[trigger] pick(i) == chosen@[i - lo],
            forall|i: int| 0 <= i < self.enrich_len() && #[trigger] pick(i) ==> lo <= i < hi,
        ensures
            opt_rows(r) == self.enrich_union(pick),
    {
        let mut acc: Option<RoaringBitmap> = None;
        let mut i: usize = lo;
        proof {
            self.lemma_picked_rows_none(pick, 0, lo as int);
            assert(self.picked_rows(pick, 0) =~= Set::<u32>::empty());
        }
        while i < hi
            invariant
                self.wf(),
                lo <= i <= hi <= self.enrich_len(),
                chosen@.len() == hi - lo,
                forall|k: int| lo <= k < hi ==> #[trigger] pick(k) == chosen@[k - lo],
                acc is Some <==> (exists|k: int| lo <= k < i && #[trigger] self.picked(pick, k)),
                acc is Some ==> rows_of(acc->0) == self.picked_rows(pick, i as int),
                acc is None ==> self.picked_rows(pick, i as int) == Set::<u32>::empty(),
            decreases hi - i,
        {
            proof {
                self.lemma_picked_rows_step(pick, i as int);
            }
            if chosen[i - lo] {
                match self.read_enrich_bitmap(i) {
                    Some(rows) => {
                        assert(self.picked(pick, i as int));
                        let next = match &acc {
                            Some(prev) => rows_in_either(prev, &rows),
                            None => copy_rows(&rows),
                        };
                        assert(rows_of(next) =~= self.picked_rows(pick, i + 1));
                        acc = Some(next);
                    },
                    None => {},
                }
            }
            i += 1;
        }
        proof {
            assert forall|k: int| #[trigger] self.picked(pick, k) implies lo <= k < hi by {
            }
            self.lemma_picked_rows_none(pick, hi as int, self.enrich_len());
            if exists|k: int| self.picked(pick, k) {
                let k = choose|k: int| self.picked(pick, k);
                assert(lo <= k < hi && self.picked(pick, k));
            }
        }
        acc
    }

    /// Whether entry `i` is one of `field` whose value is a number between the bounds.
    pub open spec fn numeric_entry(
        &self,
        i: int,
        field: Seq<char>,
        low: Option<i64>,
        high: Option<i64>,
    ) -> bool {
        &&& self.enrich_of_field(i, field)
        &&& self.enrich_value(i, field) is Some
        &&& signed_of(self.enrich_value(i, field)->0) is Some
        &&& in_bounds(signed_of(self.enrich_value(i, field)->0)->0, low, high)
    }

    /// The value of entry `i`, an entry of `field`, where it is text.
    fn read_value(&self, i: usize, field: &str) -> (r: Option<String>)
        requires
            self.wf(),
            self.enrich_of_field(i as int, field@),
        ensures
            (match r {
                Some(value) => self.enrich_value(i as int, field@) == Some(value@),
                None => self.enrich_value(i as int, field@) is None,
            }),
    {
        proof {
            self.lemma_enrich_sorted();
        }
        let keys = EnrichKeys {
            entries: self.enrich.entries.read(self.file.as_slice()),
            keys: self.enrich.keys.read(self.file.as_slice()),
        };
        assert(enrich_key_in(keys.entries@, keys.keys@, i as int) == Some(
            self.enrich_key(i as int),
        ));
        match keys.key(i) {
            Some(key) => {
                let p = make_prefix(field);
                let rest = vstd::slice::slice_subrange(key, p.len(), key.len());
                assert(rest@ =~= self.enrich_key(i as int).skip(field_prefix(field@).len() as int));
                utf8_text(rest)
            },
            None => None,
        }
    }

    /// The rows whose numeric `field` lies between the bounds.
    pub fn prefilter_enrichment_between(
        &self,
        field: &str,
        low: Option<i64>,
        high: Option<i64>,
    ) -> (r: Option<RoaringBitmap>)
        requires
            self.wf(),
        ensures
            opt_rows(r) == self.enrich_union(|i: int| self.numeric_entry(i, field@, low, high)),
    {
        let (lo, hi) = self.field_run(field);
        let ghost pick = |i: int| self.numeric_entry(i, field@, low, high);
        let mut chosen: Vec<bool> = Vec::new();
        let mut i: usize = lo;
        while i < hi
            invariant
                self.wf(),
                lo <= i <= hi <= self.enrich_len(),
                chosen@.len() == i - lo,
                forall|k: int|
                    0 <= k < self.enrich_len() ==> ((lo <= k < hi)
                        == #[trigger] self.enrich_of_field(k, field@)),
                forall|k: int|
                    lo <= k < i ==> chosen@[k - lo] == #[trigger] self.numeric_entry(
                        k,
                        field@,
                        low,
                        high,
                    ),
            decreases hi - i,
        {
            assert(self.enrich_of_field(i as int, field@));
            let keep = match self.read_value(i, field) {
                Some(value) => match parse_i64(value.as_str()) {
                    Some(v) => (match low {
                        Some(bound) => bound <= v,
                        None => true,
                    }) && (match high {
                        Some(bound) => v <= bound,
                        None => true,
                    }),
                    None => false,
                },
                None => false,
            };
            assert(keep == self.numeric_entry(i as int, field@, low, high));
            chosen.push(keep);
            i += 1;
        }
        assert forall|k: int| 0 <= k < self.enrich_len() && #[trigger] pick(k) implies lo <= k < hi by {
            assert(self.enrich_of_field(k, field@));
        }
        assert forall|k: int| lo <= k < hi implies #[trigger] pick(k) == chosen@[k - lo] by {
            assert(chosen@[k - lo] == self.numeric_entry(k, field@, low, high));
        }
        self.unite(lo, hi, &chosen, Ghost(pick))
    }

    /// The rows whose numeric `field` is at least `threshold`.
    pub fn prefilter_enrichment_ge(&self, field: &str, threshold: i64) -> (r: Option<RoaringBitmap>)
        requires
            self.wf(),
        ensures
            opt_rows(r) == self.enrich_union(
                |i: int| self.numeric_entry(i, field@, Some(threshold), None),
            ),
    {
        self.prefilter_enrichment_between(field, Some(threshold), None)
    }

    /// The rows whose numeric `field` is at most `threshold`.
    pub fn prefilter_enrichment_le(&self, field: &str, threshold: i64) -> (r: Option<RoaringBitmap>)
        requires
            self.wf(),
        ensures
            opt_rows(r) == self.enrich_union(
                |i: int| self.numeric_entry(i, field@, None, Some(threshold)),
            ),
    {
        self.prefilter_enrichment_between(field, None, Some(threshold))
    }

    /// The distinct values of `field`, in the order of the index; nothing where a value is not
    /// text or the field has no entry.
    pub fn enrichment_values(&self, field: &str) -> (r: Option<Vec<(usize, String)>>)
        requires
            self.wf(),
        ensures
            (match r {
                Some(values) => {
                    &&& values@.len() > 0
                    &&& forall|k: int|
                        #![trigger values@[k]]
                        0 <= k < values@.len() ==> self.enrich_of_field(
                            values@[k].0 as int,
                            field@,
                        ) && self.enrich_value(values@[k].0 as int, field@) == Some(values@[k].1@)
                            && values@[k].0 == values@[0].0 + k
                    &&& forall|i: int|
                        #![trigger self.enrich_of_field(i, field@)]
                        self.enrich_of_field(i, field@) ==> values@[0].0 <= i < values@[0].0
                            + values@.len()
                },
                None => (forall|i: int| !#[trigger] self.enrich_of_field(i, field@)) || exists|i: int|
                    #[trigger] self.enrich_of_field(i, field@) && self.enrich_value(
                        i,
                        field@,
                    ) is None,
            }),
    {
        let (lo, hi) = self.field_run(field);
        if lo == hi {
            return None;
        }
        let mut values: Vec<(usize, String)> = Vec::new();
        let mut i: usize = lo;
        while i < hi
            invariant
                self.wf(),
                lo <= i <= hi <= self.enrich_len(),
                lo < hi,
                values@.len() == i - lo,
                forall|k: int|
                    0 <= k < self.enrich_len() ==> ((lo <= k < hi)
                        == #[trigger] self.enrich_of_field(k, field@)),
                forall|k: int|
                    #![trigger values@[k]]
                    0 <= k < values@.len() ==> values@[k].0 == lo + k && self.enrich_value(
                        values@[k].0 as int,
                        field@,
                    ) == Some(values@[k].1@),
            decreases hi - i,
        {
            assert(self.enrich_of_field(i as int, field@));
            match self.read_value(i, field) {
                Some(value) => {
                    values.push((i, value));
                },
                None => {
                    return None;
                },
            }
            i += 1;
        }
        assert(values@[0].0 == lo);
        assert forall|k: int| #![trigger values@[k]] 0 <= k < values@.len() implies self.enrich_of_field(
            values@[k].0 as int,
            field@,
        ) by {
            assert(values@[k].0 == lo + k);
        }
        Some(values)
    }

    /// The rows of the entries that `chosen` marks among the values of `field`; nothing where
    /// the posting of one of them cannot be read.
    pub open spec fn chosen_rows(&self, values: Seq<(usize, String)>, chosen: Seq<bool>, n: int) -> Option<
        Set<u32>,
    >
        decreases n,
    {
        if n <= 0 {
            Some(Set::empty())
        } else {
            match self.chosen_rows(values, chosen, n - 1) {
                None => None,
                Some(rows) => if chosen[n - 1] {
                    match self.enrich_bitmap(values[n - 1].0 as int) {
                        Some(more) => Some(rows.union(more)),
                        None => None,
                    }
                } else {
                    Some(rows)
                },
            }
        }
    }

    /// Unites the postings of the marked values.
    pub fn unite_chosen(&self, values: &Vec<(usize, String)>, chosen: &Vec<bool>) -> (r: Option<
        RoaringBitmap,
    >)
        requires
            self.wf(),
            values@.len() == chosen@.len(),
            forall|k: int|
                0 <= k < values@.len() ==> (#[trigger] values@[k]).0 < self.enrich_len(),
        ensures
            opt_rows(r) == self.chosen_rows(values@, chosen@, values@.len() as int),
    {
        let mut acc = RoaringBitmap::new();
        let mut k: usize = 0;
        while k < values.len()
            invariant
                self.wf(),
                k <= values@.len(),
                values@.len() == chosen@.len(),
                forall|j: int|
                    0 <= j < values@.len() ==> (#[trigger] values@[j]).0 < self.enrich_len(),
                self.chosen_rows(values@, chosen@, k as int) == Some(rows_of(acc)),
            decreases values.len() - k,
        {
            if chosen[k] {
                match self.read_enrich_bitmap(values[k].0) {
                    Some(rows) => {
                        acc = rows_in_either(&acc, &rows);
                    },
                    None => {
                        proof {
                            self.lemma_chosen_none(values@, chosen@, k + 1, values@.len() as int);
                        }
                        return None;
                    },
                }
            }
            k += 1;
        }
        Some(acc)
    }

    proof fn lemma_chosen_none(&self, values: Seq<(usize, String)>, chosen: Seq<bool>, k: int, n: int)
        requires
            0 < k <= n,
            self.chosen_rows(values, chosen, k) is None,
        ensures
            self.chosen_rows(values, chosen, n) is None,
        decreases n - k,
    {
        if k < n {
            self.lemma_chosen_none(values, chosen, k, n - 1);
        }
    }

    /// The values of `field`, from entry `i` up to entry `hi`, that have rows under the mask, with
    /// how many; nothing where an entry cannot be read.
    pub open spec fn value_counts_from(
        &self,
        field: Seq<char>,
        mask: Option<Set<u32>>,
        i: int,
    ) -> Option<Seq<(Seq<char>, nat)>>
        decreases self.enrich_len() - i,
    {
        if i >= self.enrich_len() {
            Some(seq![])
        } else if !self.enrich_of_field(i, field) {
            self.value_counts_from(field, mask, i + 1)
        } else if self.enrich_value(i, field) is None || self.enrich_bitmap(i) is None {
            None
        } else {
            let n = masked_len(self.enrich_bitmap(i)->0, mask);
            match self.value_counts_from(field, mask, i + 1) {
                Some(rest) => if n > 0 {
                    Some(seq![(self.enrich_value(i, field)->0, n)] + rest)
                } else {
                    Some(rest)
                },
                None => None,
            }
        }
    }

    proof fn lemma_value_counts_skip(
        &self,
        field: Seq<char>,
        mask: Option<Set<u32>>,
        lo: int,
        hi: int,
    )
        requires
            0 <= lo <= hi <= self.enrich_len(),
            forall|i: int| lo <= i < hi ==> !#[trigger] self.enrich_of_field(i, field),
        ensures
            self.value_counts_from(field, mask, lo) == self.value_counts_from(field, mask, hi),
        decreases hi - lo,
    {
        if lo < hi {
            assert(!self.enrich_of_field(lo, field));
            self.lemma_value_counts_skip(field, mask, lo + 1, hi);
        }
    }

    /// Every value of `field` that has rows under the mask, with how many, in the order of the
    /// index. Nothing where an entry of the field cannot be read.
    pub fn enrichment_value_counts(&self, field: &str, mask: Option<&RoaringBitmap>) -> (r: Option<
        Vec<(String, u64)>,
    >)
        requires
            self.wf(),
        ensures
            (match r {
                Some(counts) => self.value_counts_from(field@, mask_rows(mask), 0) == Some(
                    count_views(counts@),
                ),
                None => self.value_counts_from(field@, mask_rows(mask), 0) is None,
            }),
    {
        let (lo, hi) = self.field_run(field);
        let ghost m = mask_rows(mask);
        let mut out: Vec<(String, u64)> = Vec::new();
        let mut i: usize = lo;
        proof {
            assert forall|k: int| 0 <= k < lo implies !#[trigger] self.enrich_of_field(k, field@) by {
            }
            self.lemma_value_counts_skip(field@, m, 0, lo as int);
            assert(count_views(out@) =~= seq![]);
            let all = self.value_counts_from(field@, m, 0);
            if all is Some {
                assert(count_views(out@) + all->0 =~= all->0);
            }
        }
        while i < hi
            invariant
                self.wf(),
                lo <= i <= hi <= self.enrich_len(),
                m == mask_rows(mask),
                forall|k: int|
                    0 <= k < self.enrich_len() ==> ((lo <= k < hi)
                        == #[trigger] self.enrich_of_field(k, field@)),
                (match self.value_counts_from(field@, m, i as int) {
                    Some(rest) => self.value_counts_from(field@, m, 0) == Some(
                        count_views(out@) + rest,
                    ),
                    None => self.value_counts_from(field@, m, 0) is None,
                }),
            decreases hi - i,
        {
            assert(self.enrich_of_field(i as int, field@));
            let value = match self.read_value(i, field) {
                Some(value) => value,
                None => {
                    return None;
                },
            };
            let rows = match self.read_enrich_bitmap(i) {
                Some(rows) => rows,
                None => {
                    return None;
                },
            };
            let count: u64 = count_masked(&rows, mask);
            let ghost was = out@;
            let ghost rest = self.value_counts_from(field@, m, i + 1);
            if count > 0 {
                let ghost entry = (value@, count as nat);
                out.push((value, count));
                assert(count_views(out@) =~= count_views(was).push(entry));
                assert(rest is Some ==> count_views(out@) + rest->0 =~= count_views(was) + (seq![
                    entry,
                ] + rest->0));
            }
            i += 1;
        }
        proof {
            assert forall|k: int| hi <= k < self.enrich_len() implies !#[trigger] self.enrich_of_field(
                k,
                field@,
            ) by {
            }
            self.lemma_value_counts_skip(field@, m, hi as int, self.enrich_len());
            assert(count_views(out@) + Seq::<(Seq<char>, nat)>::empty() =~= count_views(out@));
        }
        Some(out)
    }
}

} // verus!
