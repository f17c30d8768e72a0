//! Sorted string-to-number indexes, held in finite-state transducers.
//!
//! An index is an outside collection. It is known by its bytes: what those bytes
//! map a key to is named by [`index_value`].

use crate::bytes::u64_at;
use crate::index_nodes::{
    check_key, check_nodes, index_format, index_opens, key_walks, lemma_sound_keys_walk, nodes_sound,
};
use crate::order::bytes_before;
use vstd::prelude::*;

verus! {

/// The map type of the `fst` crate.
#[verifier::external_type_specification]
#[verifier::external_body]
#[verifier::reject_recursive_types(D)]
pub struct ExFstMap<D>(fst::Map<D>);

/// The bytes that an index was opened from.
pub uninterp spec fn index_bytes(index: fst::Map<Vec<u8>>) -> Seq<u8>;

/// Whether bytes end in their own checksum, as those that a builder of the crate wrote do.
pub uninterp spec fn checksum_holds(bytes: Seq<u8>) -> bool;

/// What a key maps to in the bytes of an index.
pub uninterp spec fn index_value(bytes: Seq<u8>, key: Seq<u8>) -> Option<u64>;

/// What the bytes of an index map.
pub open spec fn index_entries(bytes: Seq<u8>) -> Map<Seq<u8>, u64> {
    Map::new(
        |key: Seq<u8>| index_value(bytes, key) is Some,
        |key: Seq<u8>| index_value(bytes, key)->0,
    )
}

/// `fst::Map::new` opens the bytes of an index: it reads the format and the address of the root, and
/// no node.
#[verifier::external_body]
fn open_bytes(bytes: Vec<u8>) -> (r: Option<fst::Map<Vec<u8>>>)
    ensures
        (match r {
            Some(m) => index_opens(bytes@) && index_bytes(m) == bytes@,
            None => !index_opens(bytes@),
        }),
{
    fst::Map::new(bytes).ok()
}

/// `fst::raw::Fst::verify` recomputes the checksum of an index and compares it with the stored one;
/// an index of a format without a checksum fails.
#[verifier::external_body]
fn verify_checksum(m: &fst::Map<Vec<u8>>) -> (r: bool)
    ensures
        r == checksum_holds(index_bytes(*m)),
{
    m.as_fst().verify().is_ok()
}

/// `fst::Map::get` looks a key up. It walks from the root without checking the nodes it meets, so
/// the way of the key has to be one that can be walked.
#[verifier::external_body]
fn lookup(m: &fst::Map<Vec<u8>>, key: &[u8]) -> (r: Option<u64>)
    requires
        key_walks(index_bytes(*m), key@),
    ensures
        r == index_value(index_bytes(*m), key@),
{
    m.get(key)
}

/// `fst::Map::stream` hands out every entry, in ascending order of the keys, and `into_byte_vec`
/// collects them. It walks every node without checking it, so all have to be sound.
#[verifier::external_body]
fn all_entries(m: &fst::Map<Vec<u8>>) -> (v: Vec<(Vec<u8>, u64)>)
    requires
        nodes_sound(index_bytes(*m)),
    ensures
        lists_entries(v@, index_entries(index_bytes(*m))),
{
    m.stream().into_byte_vec()
}

/// Whether `v` lists exactly the entries of `m`, in ascending order of the keys.
pub open spec fn lists_entries(v: Seq<(Vec<u8>, u64)>, m: Map<Seq<u8>, u64>) -> bool {
    &&& forall|i: int, j: int|
        #![trigger v[i], v[j]]
        0 <= i < j < v.len() ==> bytes_before(v[i].0@, v[j].0@)
    &&& forall|i: int|
        #![trigger v[i]]
        0 <= i < v.len() ==> m.contains_key(v[i].0@) && m[v[i].0@] == v[i].1
    &&& forall|k: Seq<u8>| #[trigger]
        m.contains_key(k) ==> exists|i: int| 0 <= i < v.len() && (#[trigger] v[i]).0@ == k
}

/// Whether bytes are an index that can be read.
pub open spec fn index_sound(bytes: Seq<u8>) -> bool {
    index_opens(bytes) && nodes_sound(bytes)
}

/// Whether bytes are an index that can be read and, where the format has a checksum, end in their
/// own.
pub open spec fn index_intact(bytes: Seq<u8>) -> bool {
    index_sound(bytes) && (index_format(bytes) >= 3 ==> checksum_holds(bytes))
}

/// A sorted string-to-number index whose nodes are sound.
pub struct NameIndex {
    map: fst::Map<Vec<u8>>,
}

impl View for NameIndex {
    type V = Map<Seq<u8>, u64>;

    closed spec fn view(&self) -> Map<Seq<u8>, u64> {
        index_entries(index_bytes(self.map))
    }
}

impl NameIndex {
    #[verifier::type_invariant]
    closed spec fn readable(&self) -> bool {
        nodes_sound(index_bytes(self.map))
    }

    /// Opens the bytes of an index, refusing those that are no index, whose nodes are not sound or
    /// whose checksum fails.
    pub fn open(bytes: Vec<u8>) -> (r: Option<NameIndex>)
        ensures
            (match r {
                Some(index) => index_intact(bytes@) && index@ == index_entries(bytes@),
                None => !index_intact(bytes@),
            }),
    {
        if !check_nodes(bytes.as_slice()) {
            return None;
        }
        let summed = u64_at(bytes.as_slice(), 0) >= 3;
        match open_bytes(bytes) {
            Some(map) => if !summed || verify_checksum(&map) {
                Some(NameIndex { map })
            } else {
                None
            },
            None => None,
        }
    }

    /// What a key maps to.
    pub fn get(&self, key: &[u8]) -> (r: Option<u64>)
        ensures
            r == (if self@.contains_key(key@) {
                Some(self@[key@])
            } else {
                None
            }),
    {
        proof {
            use_type_invariant(self);
            lemma_sound_keys_walk(index_bytes(self.map), key@);
        }
        lookup(&self.map, key)
    }

    /// Every entry, in ascending order of the keys.
    pub fn entries(&self) -> (v: Vec<(Vec<u8>, u64)>)
        ensures
            lists_entries(v@, self@),
    {
        proof {
            use_type_invariant(self);
        }
        all_entries(&self.map)
    }
}

/// A string-to-number index that is looked into key by key, whatever the rest of it holds.
pub struct CountIndex {
    map: fst::Map<Vec<u8>>,
    sound: bool,
}

/// The keys that the index lists: those of its nodes, where all are sound.
impl View for CountIndex {
    type V = Map<Seq<u8>, u64>;

    open spec fn view(&self) -> Map<Seq<u8>, u64> {
        if nodes_sound(self.bytes()) {
            index_entries(self.bytes())
        } else {
            Map::empty()
        }
    }
}

impl CountIndex {
    #[verifier::type_invariant]
    closed spec fn told(&self) -> bool {
        self.sound == nodes_sound(index_bytes(self.map))
    }

    /// The bytes that the index was opened from.
    pub closed spec fn bytes(&self) -> Seq<u8> {
        index_bytes(self.map)
    }

    /// What a key counts: what the index maps it to, and nought where it maps it to nothing or where
    /// the way of the key cannot be walked.
    pub open spec fn count(&self, key: Seq<u8>) -> u64 {
        if key_walks(self.bytes(), key) && index_value(self.bytes(), key) is Some {
            index_value(self.bytes(), key)->0
        } else {
            0
        }
    }

    /// Opens the bytes of an index, refusing those that do not begin and end as one.
    pub fn open(bytes: Vec<u8>) -> (r: Option<CountIndex>)
        ensures
            (match r {
                Some(index) => index_opens(bytes@) && index.bytes() == bytes@,
                None => !index_opens(bytes@),
            }),
    {
        let sound = check_nodes(bytes.as_slice());
        match open_bytes(bytes) {
            Some(map) => Some(CountIndex { map, sound }),
            None => None,
        }
    }

    /// What a key counts. `bytes` are those that the index was opened from.
    pub fn get(&self, bytes: &[u8], key: &[u8]) -> (n: u64)
        requires
            bytes@ == self.bytes(),
        ensures
            n == self.count(key@),
    {
        if !check_key(bytes, key) {
            return 0;
        }
        match lookup(&self.map, key) {
            Some(n) => n,
            None => 0,
        }
    }

    /// Every entry that the index lists, in ascending order of the keys.
    pub fn entries(&self) -> (v: Vec<(Vec<u8>, u64)>)
        ensures
            lists_entries(v@, self@),
    {
        proof {
            use_type_invariant(self);
        }
        if self.sound {
            all_entries(&self.map)
        } else {
            Vec::new()
        }
    }
}

} // verus!
