//! Sets of row numbers, held in Roaring bitmaps.
//!
//! A bitmap is an outside collection: what it holds is named by [`rows_of`],
//! and every operation the index uses is declared here over that name.

use roaring::RoaringBitmap;
use vstd::prelude::*;

verus! {

/// The bitmap type of the `roaring` crate.
#[verifier::external_type_specification]
#[verifier::external_body]
pub struct ExRoaringBitmap(RoaringBitmap);

/// The row numbers that a bitmap holds.
pub uninterp spec fn rows_of(bitmap: RoaringBitmap) -> Set<u32>;

/// The row numbers that the serialised form of a bitmap lists, in stored order;
/// `None` where the bytes are not a serialised bitmap.
pub uninterp spec fn stored_rows(bytes: Seq<u8>) -> Option<Seq<u32>>;

/// `RoaringBitmap::new` makes a bitmap that holds nothing.
pub assume_specification[ RoaringBitmap::new ]() -> (b: RoaringBitmap)
    ensures
        rows_of(b) == Set::<u32>::empty(),
;

/// `RoaringBitmap::insert` adds one value and says whether it was absent.
pub assume_specification[ RoaringBitmap::insert ](b: &mut RoaringBitmap, value: u32) -> (r: bool)
    ensures
        rows_of(*final(b)) == rows_of(*old(b)).insert(value),
        r == !rows_of(*old(b)).contains(value),
;

/// `RoaringBitmap::contains` says whether a value is held.
pub assume_specification[ RoaringBitmap::contains ](b: &RoaringBitmap, value: u32) -> (r: bool)
    ensures
        r == rows_of(*b).contains(value),
;

/// `RoaringBitmap::is_empty` says whether nothing is held.
pub assume_specification[ RoaringBitmap::is_empty ](b: &RoaringBitmap) -> (r: bool)
    ensures
        r == (rows_of(*b) =~= Set::<u32>::empty()),
;

/// `RoaringBitmap::len` counts the values held.
pub assume_specification[ RoaringBitmap::len ](b: &RoaringBitmap) -> (n: u64)
    ensures
        n == rows_of(*b).len(),
;

/// `RoaringBitmap::clone` holds the same values.
#[verifier::external_body]
pub(crate) fn copy_rows(b: &RoaringBitmap) -> (r: RoaringBitmap)
    ensures
        rows_of(r) == rows_of(*b),
{
    b.clone()
}

/// The `&` of two bitmaps holds what both hold.
#[verifier::external_body]
pub(crate) fn rows_in_both(a: &RoaringBitmap, b: &RoaringBitmap) -> (r: RoaringBitmap)
    ensures
        rows_of(r) == rows_of(*a).intersect(rows_of(*b)),
{
    a & b
}

/// The `|` of two bitmaps holds what either holds.
#[verifier::external_body]
pub(crate) fn rows_in_either(a: &RoaringBitmap, b: &RoaringBitmap) -> (r: RoaringBitmap)
    ensures
        rows_of(r) == rows_of(*a).union(rows_of(*b)),
{
    a | b
}

/// The `-` of two bitmaps holds what the first holds and the second does not.
#[verifier::external_body]
pub(crate) fn rows_in_first_only(a: &RoaringBitmap, b: &RoaringBitmap) -> (r: RoaringBitmap)
    ensures
        rows_of(r) == rows_of(*a).difference(rows_of(*b)),
{
    a - b
}

/// The rows `lo`, `lo + 1`, … up to but not including `hi`.
pub open spec fn row_span(lo: u32, hi: u32) -> Set<u32> {
    Set::new(|r: u32| lo <= r && r < hi)
}

/// `RoaringBitmap::insert_range` on `lo..hi` adds every value of the range.
#[verifier::external_body]
pub(crate) fn insert_span(b: &mut RoaringBitmap, lo: u32, hi: u32)
    ensures
        rows_of(*final(b)) == rows_of(*old(b)).union(row_span(lo, hi)),
{
    let _ = b.insert_range(lo..hi);
}

/// `RoaringBitmap::range_cardinality` on `lo..hi` counts the values held inside the range.
#[verifier::external_body]
pub(crate) fn count_in_span(b: &RoaringBitmap, lo: u32, hi: u32) -> (n: u64)
    ensures
        n == rows_of(*b).intersect(row_span(lo, hi)).len(),
{
    b.range_cardinality(lo..hi)
}

/// `RoaringBitmap::iter` hands the values out in ascending order, each once.
#[verifier::external_body]
pub(crate) fn rows_ascending(b: &RoaringBitmap) -> (v: Vec<u32>)
    ensures
        v@.to_set() == rows_of(*b),
        forall|i: int, j: int| 0 <= i < j < v@.len() ==> v@[i] < v@[j],
{
    b.iter().collect()
}

/// `RoaringBitmap::deserialize_from` reads a serialised bitmap; its values come out by
/// `RoaringBitmap::iter`. Damaged bytes may list values out of order or twice, so nothing is
/// said of their order here.
#[verifier::external_body]
fn listed_rows(bytes: &[u8]) -> (r: Option<Vec<u32>>)
    ensures
        (match r {
            Some(v) => stored_rows(bytes@) == Some(v@),
            None => stored_rows(bytes@) is None,
        }),
{
    RoaringBitmap::deserialize_from(bytes).ok().map(|b| b.iter().collect())
}

/// The set that serialised bytes describe.
pub open spec fn stored_set(bytes: Seq<u8>) -> Option<Set<u32>> {
    match stored_rows(bytes) {
        Some(v) => Some(v.to_set()),
        None => None,
    }
}

/// Every set of row numbers is finite.
pub broadcast proof fn lemma_rows_finite(s: Set<u32>)
    ensures
        #[trigger] s.finite(),
{
    let all = vstd::set_lib::set_int_range(0, 0x1_0000_0000);
    vstd::set_lib::lemma_int_range(0, 0x1_0000_0000);
    let ints = s.map(|r: u32| r as int);
    assert(ints.subset_of(all));
    vstd::set_lib::lemma_set_subset_finite(all, ints);
    let back = ints.map(|i: int| i as u32);
    ints.lemma_map_finite(|i: int| i as u32);
    assert forall|r: u32| s.contains(r) <==> back.contains(r) by {
        if s.contains(r) {
            assert(ints.contains(r as int));
            assert(back.contains((r as int) as u32));
        }
        if back.contains(r) {
            let i = choose|i: int| ints.contains(i) && r == i as u32;
            let q = choose|q: u32| s.contains(q) && i == q as int;
            assert(q == r);
        }
    }
    assert(back =~= s);
}

/// A bitmap of the given row numbers.
pub fn collect_rows(v: &Vec<u32>) -> (b: RoaringBitmap)
    ensures
        rows_of(b) == v@.to_set(),
{
    let mut b = RoaringBitmap::new();
    let mut i: usize = 0;
    assert(v@.take(0).to_set() =~= Set::<u32>::empty());
    while i < v.len()
        invariant
            i <= v.len(),
            rows_of(b) == v@.take(i as int).to_set(),
        decreases v.len() - i,
    {
        let _ = b.insert(v[i]);
        proof {
            let next = v@.take(i as int + 1);
            assert(next =~= v@.take(i as int).push(v@[i as int]));
            assert forall|r: u32|
                next.to_set().contains(r) <==> v@.take(i as int).to_set().insert(
                    v@[i as int],
                ).contains(r) by {
                if v@.take(i as int).contains(r) {
                    let k = choose|k: int|
                        0 <= k < v@.take(i as int).len() && v@.take(i as int)[k] == r;
                    assert(next[k] == r);
                }
                if r == v@[i as int] {
                    assert(next[i as int] == r);
                }
                if next.contains(r) {
                    let k = choose|k: int| 0 <= k < next.len() && next[k] == r;
                    if k < i {
                        assert(v@.take(i as int)[k] == r);
                    }
                }
            }
            assert(next.to_set() =~= v@.take(i as int).to_set().insert(v@[i as int]));
        }
        i += 1;
    }
    assert(v@.take(v@.len() as int) =~= v@);
    b
}

/// The bitmap of the rows `lo..hi`.
pub fn span_rows(lo: u32, hi: u32) -> (b: RoaringBitmap)
    ensures
        rows_of(b) == row_span(lo, hi),
{
    let mut b = RoaringBitmap::new();
    insert_span(&mut b, lo, hi);
    assert(rows_of(b) =~= row_span(lo, hi));
    b
}

/// Reads a serialised bitmap.
pub fn decode_rows(bytes: &[u8]) -> (r: Option<RoaringBitmap>)
    ensures
        (match r {
            Some(b) => stored_set(bytes@) == Some(rows_of(b)),
            None => stored_set(bytes@) is None,
        }),
{
    match listed_rows(bytes) {
        Some(v) => Some(collect_rows(&v)),
        None => None,
    }
}

} // verus!
