//! Byte strings: little-endian integers, search in sorted tables, UTF-8.

use crate::order::{bytes_before, lemma_bytes_total, lemma_bytes_transitive};
use vstd::prelude::*;
use vstd::string::*;
use vstd::utf8::*;

verus! {

// ───────────────────────────── little-endian ─────────────────────────────

/// The 16-bit little-endian integer at `at`.
pub open spec fn le16(b: Seq<u8>, at: int) -> u16 {
    (b[at] as int + b[at + 1] as int * 0x100) as u16
}

/// The 32-bit little-endian integer at `at`.
pub open spec fn le32(b: Seq<u8>, at: int) -> u32 {
    (b[at] as int + b[at + 1] as int * 0x100 + b[at + 2] as int * 0x1_0000 + b[at + 3] as int
        * 0x100_0000) as u32
}

/// The 64-bit little-endian integer at `at`.
pub open spec fn le64(b: Seq<u8>, at: int) -> u64 {
    (le32(b, at) as int + le32(b, at + 4) as int * 0x1_0000_0000) as u64
}

/// Reads the 16-bit little-endian integer at `at`.
pub fn u16_at(b: &[u8], at: usize) -> (r: u16)
    requires
        at + 2 <= b.len(),
    ensures
        r == le16(b@, at as int),
{
    b[at] as u16 + b[at + 1] as u16 * 0x100
}

/// Reads the 32-bit little-endian integer at `at`.
pub fn u32_at(b: &[u8], at: usize) -> (r: u32)
    requires
        at + 4 <= b.len(),
    ensures
        r == le32(b@, at as int),
{
    b[at] as u32 + b[at + 1] as u32 * 0x100 + b[at + 2] as u32 * 0x1_0000 + b[at + 3] as u32
        * 0x100_0000
}

/// Reads the 64-bit little-endian integer at `at`.
pub fn u64_at(b: &[u8], at: usize) -> (r: u64)
    requires
        at + 8 <= b.len(),
    ensures
        r == le64(b@, at as int),
{
    u32_at(b, at) as u64 + u32_at(b, at + 4) as u64 * 0x1_0000_0000
}

// ───────────────────────────── slices ─────────────────────────────

/// `b[from..to]`, where that is inside `b`.
pub open spec fn slice_of(b: Seq<u8>, from: int, to: int) -> Option<Seq<u8>> {
    if 0 <= from <= to <= b.len() {
        Some(b.subrange(from, to))
    } else {
        None
    }
}

// ───────────────────────────── sorted tables ─────────────────────────────

/// A table whose entries carry byte-string keys.
pub trait KeyTable {
    /// How many entries the table has.
    spec fn size(&self) -> nat;

    /// The key of entry `i`.
    spec fn key_at(&self, i: int) -> Seq<u8>;

    /// What the table needs to be read.
    spec fn readable(&self) -> bool;

    /// How many entries the table has.
    fn count(&self) -> (n: usize)
        requires
            self.readable(),
        ensures
            n == self.size(),
    ;

    /// Whether the key of entry `i` comes before `target`.
    fn key_below(&self, i: usize, target: &[u8]) -> (r: bool)
        requires
            self.readable(),
            i < self.size(),
        ensures
            r == bytes_before(self.key_at(i as int), target@),
    ;
}

/// Whether the keys of a table stand in ascending order.
pub open spec fn keys_ascend<T: KeyTable>(t: &T) -> bool {
    forall|i: int, j: int|
        #![trigger t.key_at(i), t.key_at(j)]
        0 <= i < j < t.size() ==> !bytes_before(t.key_at(j), t.key_at(i))
}

/// The first entry whose key does not come before `target`, found by halving.
///
/// Where the keys ascend, every earlier key comes before `target` and no later one does.
pub fn lower_bound<T: KeyTable>(t: &T, target: &[u8]) -> (p: usize)
    requires
        t.readable(),
    ensures
        p <= t.size(),
        keys_ascend(t) ==> (forall|i: int|
            0 <= i < p ==> bytes_before(#[trigger] t.key_at(i), target@)),
        keys_ascend(t) ==> (forall|i: int|
            p <= i < t.size() ==> !bytes_before(#[trigger] t.key_at(i), target@)),
{
    let mut lo: usize = 0;
    let mut hi: usize = t.count();
    while lo < hi
        invariant
            t.readable(),
            lo <= hi <= t.size(),
            t.size() <= usize::MAX,
            keys_ascend(t) ==> (forall|i: int|
                0 <= i < lo ==> bytes_before(#[trigger] t.key_at(i), target@)),
            keys_ascend(t) ==> (forall|i: int|
                hi <= i < t.size() ==> !bytes_before(#[trigger] t.key_at(i), target@)),
        decreases hi - lo,
    {
        let mid: usize = lo + (hi - lo) / 2;
        if t.key_below(mid, target) {
            proof {
                if keys_ascend(t) {
                    assert forall|i: int| 0 <= i < mid + 1 implies bytes_before(
                        #[trigger] t.key_at(i),
                        target@,
                    ) by {
                        if i < mid {
                            let a = t.key_at(i);
                            let m = t.key_at(mid as int);
                            lemma_bytes_total(a, m);
                            if a != m {
                                lemma_bytes_transitive(a, m, target@);
                            }
                        }
                    }
                }
            }
            lo = mid + 1;
        } else {
            proof {
                if keys_ascend(t) {
                    assert forall|i: int| mid <= i < t.size() implies !bytes_before(
                        #[trigger] t.key_at(i),
                        target@,
                    ) by {
                        if i > mid {
                            let a = t.key_at(i);
                            let m = t.key_at(mid as int);
                            lemma_bytes_total(a, m);
                            if bytes_before(a, target@) && a != m {
                                lemma_bytes_transitive(m, a, target@);
                            }
                        }
                    }
                }
            }
            hi = mid;
        }
    }
    lo
}

/// In a table whose keys ascend, an entry with the key `target` stands at its lower bound.
pub proof fn lemma_found_at_lower_bound<T: KeyTable>(t: &T, target: Seq<u8>, p: int, i: int)
    requires
        keys_ascend(t),
        0 <= p <= t.size(),
        forall|k: int| 0 <= k < p ==> bytes_before(#[trigger] t.key_at(k), target),
        forall|k: int| p <= k < t.size() ==> !bytes_before(#[trigger] t.key_at(k), target),
        0 <= i < t.size(),
        t.key_at(i) == target,
    ensures
        p <= i,
        t.key_at(p) == target,
{
    lemma_bytes_total(target, target);
    assert(p <= i);
    if p < i {
        lemma_bytes_total(t.key_at(p), target);
        assert(!bytes_before(t.key_at(i), t.key_at(p)));
    }
}

// ───────────────────────────── UTF-8 ─────────────────────────────

/// The text that `bytes` encode, where they are UTF-8.
pub open spec fn utf8_of(bytes: Seq<u8>) -> Option<Seq<char>> {
    if valid_utf8(bytes) {
        Some(decode_utf8(bytes))
    } else {
        None
    }
}

/// The text that bytes stand for when every malformed sequence is read as U+FFFD.
pub uninterp spec fn utf8_lossy(bytes: Seq<u8>) -> Seq<char>;

/// `std::str::from_utf8` succeeds on well-formed UTF-8 only, and keeps the bytes.
#[verifier::external_body]
fn utf8_string(bytes: &[u8]) -> (r: Option<String>)
    ensures
        (match r {
            Some(s) => valid_utf8(bytes@) && encode_utf8(s@) == bytes@,
            None => !valid_utf8(bytes@),
        }),
{
    std::str::from_utf8(bytes).ok().map(|s| s.to_owned())
}

/// `String::from_utf8_lossy` keeps well-formed UTF-8 and replaces the rest by U+FFFD.
#[verifier::external_body]
pub(crate) fn lossy_text(bytes: &[u8]) -> (s: String)
    ensures
        s@ == utf8_lossy(bytes@),
        valid_utf8(bytes@) ==> encode_utf8(s@) == bytes@,
{
    String::from_utf8_lossy(bytes).into_owned()
}

/// The text that `bytes` encode, where they are UTF-8.
pub fn utf8_text(bytes: &[u8]) -> (r: Option<String>)
    ensures
        (match r {
            Some(s) => utf8_of(bytes@) == Some(s@),
            None => utf8_of(bytes@) is None,
        }),
{
    let r = utf8_string(bytes);
    proof {
        if r is Some {
            encode_utf8_decode_utf8(r->0@);
        }
    }
    r
}

} // verus!
