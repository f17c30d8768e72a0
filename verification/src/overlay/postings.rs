//! What an open overlay posts: rows by kind, by name, by trigram of a name.

use crate::bytes::{
    keys_ascend, le32, lemma_found_at_lower_bound, lower_bound, slice_of, u32_at, utf8_of,
    utf8_text, KeyTable,
};
use crate::order::{bytes_before, bytes_less};
use crate::overlay::lookup::{opt_rows, ranged};
use crate::overlay::Overlay;
use crate::rows::{collect_rows, copy_rows, decode_rows, rows_in_both, rows_of, stored_set};
use crate::text::same_bytes;
use roaring::RoaringBitmap;
use vstd::prelude::*;
use vstd::string::*;
use vstd::utf8::*;

verus! {

// ───────────────────────────── kinds ─────────────────────────────

/// The name of entry `i` of a kind index, where it lies inside the kind names.
pub open spec fn kind_name_in(index: Seq<u8>, strings: Seq<u8>, i: int) -> Option<Seq<u8>> {
    let from = le32(index, i * 16) as int;
    slice_of(strings, from, from + le32(index, i * 16 + 4))
}

/// The kind names of a kind index, as sorted keys; a name outside the string blob is empty.
pub struct KindKeys<'a> {
    pub index: &'a [u8],
    pub strings: &'a [u8],
}

impl<'a> KindKeys<'a> {
    /// The name of entry `i`, where it lies inside the kind names.
    fn name(&self, i: usize) -> (r: Option<&'a [u8]>)
        requires
            i < self.size(),
        ensures
            (match r {
                Some(s) => kind_name_in(self.index@, self.strings@, i as int) == Some(s@),
                None => kind_name_in(self.index@, self.strings@, i as int) is None,
            }),
    {
        assert((i + 1) * 16 <= self.index@.len());
        let n: usize = self.index.len();
        let at: usize = i * 16;
        ranged(self.strings, u32_at(self.index, at) as u64, u32_at(self.index, at + 4))
    }
}

impl<'a> KeyTable for KindKeys<'a> {
    open spec fn size(&self) -> nat {
        self.index@.len() / 16
    }

    open spec fn key_at(&self, i: int) -> Seq<u8> {
        match kind_name_in(self.index@, self.strings@, i) {
            Some(name) => name,
            None => Seq::empty(),
        }
    }

    open spec fn readable(&self) -> bool {
        true
    }

    fn count(&self) -> (n: usize) {
        self.index.len() / 16
    }

    fn key_below(&self, i: usize, target: &[u8]) -> (r: bool) {
        match self.name(i) {
            Some(name) => bytes_less(name, target),
            None => bytes_less(vstd::slice::slice_subrange(target, 0, 0), target),
        }
    }
}

/// The bitmap at `from`, `len` bytes long, of a blob of bitmaps.
pub open spec fn bitmap_in(data: Seq<u8>, from: int, len: int) -> Option<Set<u32>> {
    match slice_of(data, from, from + len) {
        Some(bytes) => stored_set(bytes),
        None => None,
    }
}

pub fn read_bitmap(data: &[u8], from: u64, len: u32) -> (r: Option<RoaringBitmap>)
    requires
        from + len <= u64::MAX,
    ensures
        opt_rows(r) == bitmap_in(data@, from as int, len as int),
{
    match ranged(data, from, len) {
        Some(bytes) => decode_rows(bytes),
        None => None,
    }
}

/// How many rows of `rows` an optional mask lets through.
pub open spec fn masked_len(rows: Set<u32>, mask: Option<Set<u32>>) -> nat {
    match mask {
        Some(m) => rows.intersect(m).len(),
        None => rows.len(),
    }
}

/// The rows of an optional mask.
pub open spec fn mask_rows(mask: Option<&RoaringBitmap>) -> Option<Set<u32>> {
    match mask {
        Some(m) => Some(rows_of(*m)),
        None => None,
    }
}

pub fn count_masked(rows: &RoaringBitmap, mask: Option<&RoaringBitmap>) -> (n: u64)
    ensures
        n == masked_len(rows_of(*rows), mask_rows(mask)),
{
    match mask {
        Some(m) => rows_in_both(rows, m).len(),
        None => rows.len(),
    }
}

/// A list of counted texts, by their characters.
pub open spec fn count_views(v: Seq<(String, u64)>) -> Seq<(Seq<char>, nat)> {
    v.map_values(|e: (String, u64)| (e.0@, e.1 as nat))
}

impl Overlay {
    /// The number of kinds.
    pub open spec fn kind_len(&self) -> int {
        (self.kind_index.of(self.file@).len() / 16) as int
    }

    /// The name of kind `i`, where it lies inside the kind names.
    pub open spec fn kind_name(&self, i: int) -> Option<Seq<u8>> {
        kind_name_in(self.kind_index.of(self.file@), self.kind_strings.of(self.file@), i)
    }

    /// The rows posted for kind `i`, where they can be read.
    pub open spec fn kind_bitmap(&self, i: int) -> Option<Set<u32>> {
        let index = self.kind_index.of(self.file@);
        bitmap_in(
            self.bitmap_data.of(self.file@),
            le32(index, i * 16 + 8) as int,
            le32(index, i * 16 + 12) as int,
        )
    }

    /// The first kind, from `i` on, that is named `name`.
    pub open spec fn find_kind(&self, name: Seq<u8>, i: int) -> Option<int>
        decreases self.kind_len() - i,
    {
        if i >= self.kind_len() {
            None
        } else if self.kind_name(i) == Some(name) {
            Some(i)
        } else {
            self.find_kind(name, i + 1)
        }
    }

    /// The rows posted for a kind; nothing where the index does not list it.
    pub open spec fn kind_rows(&self, kind: Seq<char>) -> Option<Set<u32>> {
        match self.find_kind(encode_utf8(kind), 0) {
            Some(i) => self.kind_bitmap(i),
            None => None,
        }
    }

    /// Whether a row is posted for a kind.
    pub open spec fn posted_for_kind(&self, kind: Seq<char>, g: u32) -> bool {
        exists|i: int|
            0 <= i < self.kind_len() && #[trigger] self.kind_name(i) == Some(encode_utf8(kind))
                && self.kind_bitmap(i) is Some && self.kind_bitmap(i)->0.contains(g)
    }

    /// Whether the kind names all lie inside the string blob, in ascending order.
    pub open spec fn kinds_sorted(&self) -> bool {
        &&& forall|i: int| 0 <= i < self.kind_len() ==> (#[trigger] self.kind_name(i)) is Some
        &&& forall|i: int, j: int|
            #![trigger self.kind_name(i), self.kind_name(j)]
            0 <= i < j < self.kind_len() ==> !bytes_before(
                self.kind_name(j)->0,
                self.kind_name(i)->0,
            )
    }

    proof fn lemma_find_kind(&self, name: Seq<u8>, from: int, p: int)
        requires
            0 <= from <= p < self.kind_len(),
            self.kind_name(p) == Some(name),
            forall|i: int| from <= i < p ==> #[trigger] self.kind_name(i) != Some(name),
        ensures
            self.find_kind(name, from) == Some(p),
        decreases p - from,
    {
        if from < p {
            self.lemma_find_kind(name, from + 1, p);
        }
    }

    proof fn lemma_find_no_kind(&self, name: Seq<u8>, from: int)
        requires
            0 <= from,
            forall|i: int| from <= i < self.kind_len() ==> #[trigger] self.kind_name(i) != Some(name),
        ensures
            self.find_kind(name, from) is None,
        decreases self.kind_len() - from,
    {
        if from < self.kind_len() {
            self.lemma_find_no_kind(name, from + 1);
        }
    }

    /// The rows posted for a kind, found by halving the sorted kind index.
    ///
    /// What comes back is always the posting of a kind of that name. Where the index is sorted,
    /// nothing comes back only where the kind is absent or its posting cannot be read.
    pub fn prefilter_kind(&self, kind: &str) -> (r: Option<RoaringBitmap>)
        requires
            self.wf(),
        ensures
            self.kinds_sorted() ==> opt_rows(r) == self.kind_rows(kind@),
            r is Some ==> exists|i: int|
                0 <= i < self.kind_len() && #[trigger] self.kind_name(i) == Some(
                    encode_utf8(kind@),
                ) && self.kind_bitmap(i) == opt_rows(r),
            r is Some ==> forall|g: u32| #[trigger]
                rows_of(r->0).contains(g) ==> self.posted_for_kind(kind@, g),
    {
        let index = self.kind_index.read(self.file.as_slice());
        let strings = self.kind_strings.read(self.file.as_slice());
        let name = kind.as_bytes();
        let keys = KindKeys { index, strings };
        let p: usize = lower_bound(&keys, name);
        proof {
            if self.kinds_sorted() {
                assert forall|i: int, j: int|
                    #![trigger keys.key_at(i), keys.key_at(j)]
                    0 <= i < j < keys.size() implies !bytes_before(
                    keys.key_at(j),
                    keys.key_at(i),
                ) by {
                    assert(self.kind_name(i) is Some);
                    assert(self.kind_name(j) is Some);
                }
                assert(keys_ascend(&keys));
                crate::order::lemma_bytes_total(name@, name@);
                assert forall|i: int| 0 <= i < p implies #[trigger] self.kind_name(i) != Some(
                    name@,
                ) by {
                    assert(bytes_before(keys.key_at(i), name@));
                }
                assert forall|i: int|
                    p <= i < self.kind_len() && #[trigger] self.kind_name(i) == Some(
                        name@,
                    ) implies p < self.kind_len() && self.kind_name(p as int) == Some(name@) by {
                    assert(keys.key_at(i) == name@);
                    lemma_found_at_lower_bound(&keys, name@, p as int, i);
                    assert(self.kind_name(p as int) is Some);
                }
                if p >= self.kind_len() || self.kind_name(p as int) != Some(name@) {
                    self.lemma_find_no_kind(name@, 0);
                } else {
                    self.lemma_find_kind(name@, 0, p as int);
                }
            }
        }
        if p >= keys.count() {
            return None;
        }
        match keys.name(p) {
            Some(found) => {
                if !same_bytes(found, name) {
                    return None;
                }
            },
            None => {
                return None;
            },
        }
        assert(self.kind_name(p as int) == Some(name@));
        assert((p + 1) * 16 <= index@.len());
        let n: usize = index.len();
        let at: usize = p * 16;
        read_bitmap(
            self.bitmap_data.read(self.file.as_slice()),
            u32_at(index, at + 8) as u64,
            u32_at(index, at + 12),
        )
    }

    /// The kinds from `i` on that have rows under the mask, with how many; nothing where an
    /// entry cannot be read.
    pub open spec fn kind_counts_from(&self, mask: Option<Set<u32>>, i: int) -> Option<
        Seq<(Seq<char>, nat)>,
    >
        decreases self.kind_len() - i,
    {
        if i >= self.kind_len() {
            Some(seq![])
        } else if self.kind_name(i) is None || utf8_of(self.kind_name(i)->0) is None
            || self.kind_bitmap(i) is None {
            None
        } else {
            let n = masked_len(self.kind_bitmap(i)->0, mask);
            match self.kind_counts_from(mask, i + 1) {
                Some(rest) => if n > 0 {
                    Some(seq![(utf8_of(self.kind_name(i)->0)->0, n)] + rest)
                } else {
                    Some(rest)
                },
                None => None,
            }
        }
    }

    /// Every kind that has rows under the mask, with how many, in the order of the kind index.
    ///
    /// Nothing where an entry of the kind index cannot be read.
    pub fn kind_global_counts(&self, mask: Option<&RoaringBitmap>) -> (r: Option<Vec<(String, u64)>>)
        requires
            self.wf(),
        ensures
            (match r {
                Some(counts) => self.kind_counts_from(mask_rows(mask), 0) == Some(
                    count_views(counts@),
                ),
                None => self.kind_counts_from(mask_rows(mask), 0) is None,
            }),
    {
        let index = self.kind_index.read(self.file.as_slice());
        let strings = self.kind_strings.read(self.file.as_slice());
        let data = self.bitmap_data.read(self.file.as_slice());
        let keys = KindKeys { index, strings };
        let n: usize = keys.count();
        let ghost m = mask_rows(mask);
        let mut out: Vec<(String, u64)> = Vec::new();
        let mut i: usize = 0;
        assert(count_views(out@) =~= seq![]);
        proof {
            let all = self.kind_counts_from(m, 0);
            if all is Some {
                assert(count_views(out@) + all->0 =~= all->0);
            }
        }
        while i < n
            invariant
                i <= n,
                n == keys.size(),
                n == self.kind_len(),
                keys.index@ == index@,
                keys.strings@ == strings@,
                index@ == self.kind_index.of(self.file@),
                strings@ == self.kind_strings.of(self.file@),
                data@ == self.bitmap_data.of(self.file@),
                m == mask_rows(mask),
                (match self.kind_counts_from(m, i as int) {
                    Some(rest) => self.kind_counts_from(m, 0) == Some(count_views(out@) + rest),
                    None => self.kind_counts_from(m, 0) is None,
                }),
            decreases n - i,
        {
            let name = match keys.name(i) {
                Some(name) => name,
                None => {
                    return None;
                },
            };
            let kind = match utf8_text(name) {
                Some(kind) => kind,
                None => {
                    return None;
                },
            };
            assert((i + 1) * 16 <= index@.len());
            let have: usize = index.len();
            let at: usize = i * 16;
            let rows = match read_bitmap(data, u32_at(index, at + 8) as u64, u32_at(index, at + 12)) {
                Some(rows) => rows,
                None => {
                    return None;
                },
            };
            let count: u64 = count_masked(&rows, mask);
            let ghost was = out@;
            let ghost rest = self.kind_counts_from(m, i + 1);
            if count > 0 {
                let ghost entry = (kind@, count as nat);
                out.push((kind, count));
                assert(count_views(out@) =~= count_views(was).push(entry));
                assert(rest is Some ==> count_views(out@) + rest->0 =~= count_views(was) + (seq![
                    entry,
                ] + rest->0));
            }
            i += 1;
        }
        assert(count_views(out@) + Seq::<(Seq<char>, nat)>::empty() =~= count_views(out@));
        Some(out)
    }
}

// ───────────────────────────── names ─────────────────────────────

impl Overlay {
    /// The rows that an encoded posting lists: the low half counts them, the high half is
    /// where they start.
    pub open spec fn postings(&self, encoded: u64) -> Seq<u32> {
        let data = self.name_postings.of(self.file@);
        let count = (encoded % 0x1_0000_0000) as int;
        let from = (encoded / 0x1_0000_0000) as int;
        if from + count * 4 > data.len() {
            seq![]
        } else {
            Seq::new(count as nat, |i: int| le32(data, from + i * 4))
        }
    }

    /// Reads an encoded posting; nothing where it runs past the postings.
    pub fn decode_postings(&self, encoded: u64) -> (r: Vec<u32>)
        requires
            self.wf(),
        ensures
            r@ == self.postings(encoded),
    {
        let data = self.name_postings.read(self.file.as_slice());
        let count: u64 = encoded % 0x1_0000_0000;
        let from: u64 = encoded / 0x1_0000_0000;
        let mut out: Vec<u32> = Vec::new();
        let n: usize = data.len();
        if from + count * 4 > n as u64 {
            assert(out@ =~= self.postings(encoded));
            return out;
        }
        let mut i: u64 = 0;
        while i < count
            invariant
                i <= count,
                from + count * 4 <= data@.len(),
                n == data@.len(),
                out@.len() == i,
                forall|k: int| 0 <= k < i ==> out@[k] == le32(data@, from + k * 4),
            decreases count - i,
        {
            assert(from + (i + 1) * 4 <= data@.len());
            out.push(u32_at(data, (from + i * 4) as usize));
            i += 1;
        }
        assert(out@ =~= self.postings(encoded));
        out
    }

    /// The rows whose symbol is named `name`.
    pub open spec fn name_rows(&self, name: Seq<char>) -> Set<u32> {
        if self.name_index@.contains_key(encode_utf8(name)) {
            self.postings(self.name_index@[encode_utf8(name)]).to_set()
        } else {
            Set::empty()
        }
    }

    /// The rows whose symbol is named `name`.
    pub fn lookup_name_bitmap(&self, name: &str) -> (r: RoaringBitmap)
        requires
            self.wf(),
        ensures
            rows_of(r) == self.name_rows(name@),
    {
        match self.name_index.get(name.as_bytes()) {
            Some(encoded) => {
                let rows = self.decode_postings(encoded);
                collect_rows(&rows)
            },
            None => RoaringBitmap::new(),
        }
    }
}

// ───────────────────────────── trigrams ─────────────────────────────

/// An ASCII capital as a small letter; any other byte unchanged.
pub open spec fn ascii_lower(b: u8) -> u8 {
    if 0x41 <= b <= 0x5a {
        (b + 0x20) as u8
    } else {
        b
    }
}

/// The lower-cased window of three bytes that starts at `i`.
pub open spec fn trigram_at(s: Seq<u8>, i: int) -> Seq<u8> {
    seq![ascii_lower(s[i]), ascii_lower(s[i + 1]), ascii_lower(s[i + 2])]
}

fn lower_byte(b: u8) -> (r: u8)
    ensures
        r == ascii_lower(b),
{
    if 0x41 <= b && b <= 0x5a {
        b + 0x20
    } else {
        b
    }
}

/// The trigrams of a trigram index, as sorted keys.
pub struct TrigramKeys<'a> {
    pub index: &'a [u8],
}

impl<'a> TrigramKeys<'a> {
    fn trigram(&self, i: usize) -> (r: &'a [u8])
        requires
            i < self.size(),
        ensures
            r@ == self.key_at(i as int),
    {
        assert((i + 1) * 12 <= self.index@.len());
        let n: usize = self.index.len();
        vstd::slice::slice_subrange(self.index, i * 12, i * 12 + 3)
    }
}

impl<'a> KeyTable for TrigramKeys<'a> {
    open spec fn size(&self) -> nat {
        self.index@.len() / 12
    }

    open spec fn key_at(&self, i: int) -> Seq<u8> {
        self.index@.subrange(i * 12, i * 12 + 3)
    }

    open spec fn readable(&self) -> bool {
        true
    }

    fn count(&self) -> (n: usize) {
        self.index.len() / 12
    }

    fn key_below(&self, i: usize, target: &[u8]) -> (r: bool) {
        bytes_less(self.trigram(i), target)
    }
}

/// What the trigram index says of one trigram.
pub enum TrigramPosting {
    /// No name holds it.
    Absent,
    /// It is listed and its rows cannot be read.
    Unreadable,
    /// The rows whose name holds it.
    Rows(RoaringBitmap),
}

/// What the trigram index says of one trigram, in terms of sets.
pub enum TrigramRows {
    Absent,
    Unreadable,
    Rows(Set<u32>),
}

impl TrigramPosting {
    /// What this says, in terms of sets.
    pub open spec fn rows(&self) -> TrigramRows {
        match *self {
            TrigramPosting::Absent => TrigramRows::Absent,
            TrigramPosting::Unreadable => TrigramRows::Unreadable,
            TrigramPosting::Rows(b) => TrigramRows::Rows(rows_of(b)),
        }
    }
}

impl Overlay {
    /// The number of trigrams.
    pub open spec fn trigram_len(&self) -> int {
        (self.trigram_index.of(self.file@).len() / 12) as int
    }

    /// Trigram `i` of the index.
    pub open spec fn trigram_key(&self, i: int) -> Seq<u8> {
        self.trigram_index.of(self.file@).subrange(i * 12, i * 12 + 3)
    }

    /// The rows posted for trigram `i`, where they can be read.
    pub open spec fn trigram_bitmap(&self, i: int) -> Option<Set<u32>> {
        let index = self.trigram_index.of(self.file@);
        bitmap_in(
            self.bitmap_data.of(self.file@),
            le32(index, i * 12 + 4) as int,
            le32(index, i * 12 + 8) as int,
        )
    }

    /// Whether the trigrams stand in strictly ascending order.
    pub open spec fn trigrams_sorted(&self) -> bool {
        forall|i: int, j: int|
            #![trigger self.trigram_key(i), self.trigram_key(j)]
            0 <= i < j < self.trigram_len() ==> bytes_before(
                self.trigram_key(i),
                self.trigram_key(j),
            )
    }

    /// Whether `p` is what the index says of the trigram `t`.
    pub open spec fn says_of_trigram(&self, t: Seq<u8>, p: TrigramRows) -> bool {
        match p {
            TrigramRows::Absent => forall|i: int|
                0 <= i < self.trigram_len() ==> #[trigger] self.trigram_key(i) != t,
            TrigramRows::Unreadable => exists|i: int|
                0 <= i < self.trigram_len() && #[trigger] self.trigram_key(i) == t
                    && self.trigram_bitmap(i) is None,
            TrigramRows::Rows(rows) => exists|i: int|
                0 <= i < self.trigram_len() && #[trigger] self.trigram_key(i) == t
                    && self.trigram_bitmap(i) == Some(rows),
        }
    }

    /// Looks one trigram up, by halving the sorted trigram index.
    fn lookup_trigram(&self, t: &Vec<u8>) -> (r: TrigramPosting)
        requires
            self.wf(),
        ensures
            self.trigrams_sorted() ==> self.says_of_trigram(t@, r.rows()),
    {
        let index = self.trigram_index.read(self.file.as_slice());
        let keys = TrigramKeys { index };
        let p: usize = lower_bound(&keys, t.as_slice());
        proof {
            if self.trigrams_sorted() {
                assert forall|i: int, j: int|
                    #![trigger keys.key_at(i), keys.key_at(j)]
                    0 <= i < j < keys.size() implies !bytes_before(
                    keys.key_at(j),
                    keys.key_at(i),
                ) by {
                    assert(self.trigram_key(i) == keys.key_at(i));
                    assert(self.trigram_key(j) == keys.key_at(j));
                    crate::order::lemma_bytes_total(keys.key_at(i), keys.key_at(j));
                }
                assert(keys_ascend(&keys));
                assert forall|i: int|
                    0 <= i < self.trigram_len() && #[trigger] self.trigram_key(i) == t@ implies p
                    < keys.size() && keys.key_at(p as int) == t@ by {
                    assert(keys.key_at(i) == t@);
                    lemma_found_at_lower_bound(&keys, t@, p as int, i);
                }
            }
        }
        if p >= keys.count() {
            return TrigramPosting::Absent;
        }
        if !same_bytes(keys.trigram(p), t.as_slice()) {
            return TrigramPosting::Absent;
        }
        assert(self.trigram_key(p as int) == t@);
        assert((p + 1) * 12 <= index@.len());
        let n: usize = index.len();
        let at: usize = p * 12;
        match read_bitmap(
            self.bitmap_data.read(self.file.as_slice()),
            u32_at(index, at + 4) as u64,
            u32_at(index, at + 8),
        ) {
            Some(rows) => TrigramPosting::Rows(rows),
            None => TrigramPosting::Unreadable,
        }
    }

    /// What the index says of the trigram at window `i` of `s`.
    pub open spec fn window_rows(&self, s: Seq<u8>, i: int) -> TrigramRows {
        choose|p: TrigramRows| self.says_of_trigram(trigram_at(s, i), p)
    }

    /// The rows whose names hold every trigram of the windows before `n`.
    pub open spec fn rows_of_windows(&self, s: Seq<u8>, n: int) -> Set<u32> {
        Set::new(
            |r: u32|
                forall|i: int|
                    0 <= i < n ==> (match #[trigger] self.window_rows(s, i) {
                        TrigramRows::Rows(rows) => rows.contains(r),
                        _ => false,
                    }),
        )
    }

    /// The rows that the trigram index proposes for names holding `s`, from window `i` on.
    ///
    /// The first window that is absent rules every row out; the first that cannot be read leaves
    /// the question open; otherwise the proposals of all windows are intersected.
    pub open spec fn candidates_from(&self, s: Seq<u8>, i: int) -> Option<Set<u32>>
        decreases s.len() - i,
    {
        if i + 3 > s.len() {
            Some(self.rows_of_windows(s, s.len() - 2))
        } else {
            match self.window_rows(s, i) {
                TrigramRows::Absent => Some(Set::empty()),
                TrigramRows::Unreadable => None,
                TrigramRows::Rows(_) => self.candidates_from(s, i + 1),
            }
        }
    }

    /// The rows that the trigram index proposes for names holding `s`; nothing where `s` is
    /// shorter than a trigram or the index is empty.
    pub open spec fn substring_candidates(&self, s: Seq<u8>) -> Option<Set<u32>> {
        if s.len() < 3 || self.trigram_len() == 0 {
            None
        } else {
            self.candidates_from(s, 0)
        }
    }

    /// In a sorted index one thing only is said of a trigram.
    proof fn lemma_says_once(&self, t: Seq<u8>, p: TrigramRows, q: TrigramRows)
        requires
            self.trigrams_sorted(),
            self.says_of_trigram(t, p),
            self.says_of_trigram(t, q),
        ensures
            p == q,
    {
        assert forall|i: int, j: int|
            0 <= i < self.trigram_len() && 0 <= j < self.trigram_len() && #[trigger] self.trigram_key(
                i,
            ) == t && #[trigger] self.trigram_key(j) == t implies i == j by {
            crate::order::lemma_bytes_total(t, t);
            if i < j {
                assert(bytes_before(self.trigram_key(i), self.trigram_key(j)));
            } else if j < i {
                assert(bytes_before(self.trigram_key(j), self.trigram_key(i)));
            }
        }
    }

    /// One more window narrows the proposal to its own rows.
    proof fn lemma_one_more_window(&self, s: Seq<u8>, i: int, rows: Set<u32>)
        requires
            0 <= i,
            self.window_rows(s, i) == TrigramRows::Rows(rows),
        ensures
            self.rows_of_windows(s, i + 1) == self.rows_of_windows(s, i).intersect(rows),
            i == 0 ==> self.rows_of_windows(s, i + 1) == rows,
    {
        let (now, next) = (self.rows_of_windows(s, i), self.rows_of_windows(s, i + 1));
        assert forall|r: u32| next.contains(r) == (now.contains(r) && rows.contains(r)) by {
            if next.contains(r) {
                assert(match self.window_rows(s, i) {
                    TrigramRows::Rows(w) => w.contains(r),
                    _ => false,
                });
            }
        }
        assert(next =~= now.intersect(rows));
        if i == 0 {
            assert(next =~= rows);
        }
    }

    /// The rows whose names may hold `substr`, by the trigrams of the name index.
    ///
    /// Nothing where `substr` is shorter than a trigram, the trigram index is empty, or a posting
    /// cannot be read before a trigram turns out absent.
    pub fn name_substring_candidates(&self, substr: &str) -> (r: Option<RoaringBitmap>)
        requires
            self.wf(),
        ensures
            encode_utf8(substr@).len() < 3 || self.trigram_len() == 0 ==> r is None,
            self.trigrams_sorted() ==> opt_rows(r) == self.substring_candidates(
                encode_utf8(substr@),
            ),
    {
        let s = substr.as_bytes();
        if s.len() < 3 {
            return None;
        }
        let index = self.trigram_index.read(self.file.as_slice());
        if index.len() / 12 == 0 {
            return None;
        }
        let n: usize = s.len() - 2;
        let ghost sorted = self.trigrams_sorted();
        let ghost all = self.candidates_from(s@, 0);
        let mut acc: Option<RoaringBitmap> = None;
        let mut i: usize = 0;
        while i < n
            invariant
                self.wf(),
                sorted == self.trigrams_sorted(),
                all == self.candidates_from(s@, 0),
                s@ == encode_utf8(substr@),
                s@.len() >= 3,
                self.trigram_len() > 0,
                n == s@.len() - 2,
                i <= n,
                sorted ==> self.candidates_from(s@, i as int) == all,
                i == 0 ==> acc is None,
                i > 0 ==> acc is Some,
                sorted && i > 0 ==> rows_of(acc->0) == self.rows_of_windows(s@, i as int),
            decreases n - i,
        {
            let mut t: Vec<u8> = Vec::new();
            t.push(lower_byte(s[i]));
            t.push(lower_byte(s[i + 1]));
            t.push(lower_byte(s[i + 2]));
            assert(t@ =~= trigram_at(s@, i as int));
            let posting = self.lookup_trigram(&t);
            proof {
                if sorted {
                    self.lemma_says_once(t@, posting.rows(), self.window_rows(s@, i as int));
                }
            }
            match posting {
                TrigramPosting::Absent => {
                    return Some(RoaringBitmap::new());
                },
                TrigramPosting::Unreadable => {
                    return None;
                },
                TrigramPosting::Rows(rows) => {
                    let next = match &acc {
                        Some(prev) => rows_in_both(prev, &rows),
                        None => copy_rows(&rows),
                    };
                    proof {
                        if sorted {
                            self.lemma_one_more_window(s@, i as int, rows_of(rows));
                        }
                    }
                    acc = Some(next);
                },
            }
            i += 1;
        }
        acc
    }
}

/// Whether `name` holds `s` at `at`, ASCII case aside.
pub open spec fn holds_at(name: Seq<u8>, s: Seq<u8>, at: int) -> bool {
    &&& 0 <= at
    &&& at + s.len() <= name.len()
    &&& forall|j: int|
        0 <= j < s.len() ==> ascii_lower(name[at + j]) == ascii_lower(#[trigger] s[j])
}

impl Overlay {
    /// Whether every trigram of `name` posts `row`.
    pub open spec fn posts_trigrams(&self, name: Seq<u8>, row: u32) -> bool {
        forall|i: int|
            0 <= i <= name.len() - 3 ==> self.trigram_posts(#[trigger] trigram_at(name, i), row)
    }

    /// Whether the trigram `t` posts `row`.
    pub open spec fn trigram_posts(&self, t: Seq<u8>, row: u32) -> bool {
        exists|k: int|
            0 <= k < self.trigram_len() && #[trigger] self.trigram_key(k) == t
                && self.trigram_bitmap(k) is Some && self.trigram_bitmap(k)->0.contains(row)
    }

    /// The trigram index never rules out a row whose name holds the text: a row that every
    /// trigram of its name posts is among the candidates for any part of that name.
    pub proof fn lemma_substring_candidates_cover(
        &self,
        name: Seq<u8>,
        row: u32,
        s: Seq<u8>,
        at: int,
    )
        requires
            self.trigrams_sorted(),
            self.posts_trigrams(name, row),
            holds_at(name, s, at),
            self.substring_candidates(s) is Some,
        ensures
            self.substring_candidates(s)->0.contains(row),
    {
        assert forall|i: int| 0 <= i < s.len() - 2 implies (match #[trigger] self.window_rows(s, i) {
            TrigramRows::Rows(rows) => rows.contains(row),
            _ => false,
        }) by {
            let t = trigram_at(s, i);
            assert(s[i] == s[i] && s[i + 1] == s[i + 1] && s[i + 2] == s[i + 2]);
            assert(ascii_lower(name[at + i]) == ascii_lower(s[i]));
            assert(ascii_lower(name[at + (i + 1)]) == ascii_lower(s[i + 1]));
            assert(ascii_lower(name[at + (i + 2)]) == ascii_lower(s[i + 2]));
            assert(trigram_at(name, at + i) =~= t);
            assert(self.trigram_posts(trigram_at(name, at + i), row));
            let k = choose|k: int|
                0 <= k < self.trigram_len() && #[trigger] self.trigram_key(k) == t
                    && self.trigram_bitmap(k) is Some && self.trigram_bitmap(k)->0.contains(row);
            let said = TrigramRows::Rows(self.trigram_bitmap(k)->0);
            assert(self.says_of_trigram(t, said));
            self.lemma_says_once(t, said, self.window_rows(s, i));
        }
        assert(self.rows_of_windows(s, s.len() - 2).contains(row));
        self.lemma_candidates_reach_the_end(s, 0, row);
    }

    proof fn lemma_candidates_reach_the_end(&self, s: Seq<u8>, i: int, row: u32)
        requires
            0 <= i,
            s.len() >= 3,
            forall|k: int|
                0 <= k < s.len() - 2 ==> (match #[trigger] self.window_rows(s, k) {
                    TrigramRows::Rows(rows) => rows.contains(row),
                    _ => false,
                }),
        ensures
            self.candidates_from(s, i) == Some(self.rows_of_windows(s, s.len() - 2)),
        decreases s.len() - i,
    {
        if i + 3 <= s.len() {
            assert(match self.window_rows(s, i) {
                TrigramRows::Rows(rows) => rows.contains(row),
                _ => false,
            });
            self.lemma_candidates_reach_the_end(s, i + 1, row);
        }
    }
}

} // verus!
