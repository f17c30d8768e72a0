//! Node handles: `n<hex>.<ordinal>`.
//!
//! `<hex>` is a prefix of the fingerprint of the node's file path; the ordinal
//! numbers the node inside the file. A handle without an ordinal is the file itself.

use crate::digest::{path_digest, sha256_of_path};
use crate::text::{chars_of, hex_head, hex_prefix, padded_decimal, push_padded_decimal, text_of};
use vstd::prelude::*;
use vstd::string::*;

verus! {

/// The fewest hexadecimal characters a handle shows of a path fingerprint.
pub const MIN_PREFIX_LEN: u8 = 12;

/// The handle of node `ordinal` in the file fingerprinted `digest`, showing `n` characters of it.
pub open spec fn node_id_text(digest: Seq<u8>, n: nat, ordinal: nat) -> Seq<char> {
    seq!['n'] + hex_head(digest, n) + seq!['.'] + padded_decimal(ordinal, 4)
}

/// Formats a node handle.
pub fn format_node_id(digest: &[u8; 32], prefix_len: u8, ordinal: u32) -> (s: String)
    ensures
        s@ == node_id_text(digest@, prefix_len as nat, ordinal as nat),
{
    let mut s = String::new();
    s.push('n');
    let hex = hex_prefix(digest.as_slice(), prefix_len);
    s.append(hex.as_str());
    s.push('.');
    push_padded_decimal(&mut s, ordinal as u64, 4);
    assert(s@ =~= node_id_text(digest@, prefix_len as nat, ordinal as nat));
    s
}

/// The handle of node `ordinal` of the file at `path`, at the shortest prefix.
pub open spec fn path_node_id(path: Seq<char>, ordinal: nat) -> Seq<char> {
    node_id_text(path_digest(path), MIN_PREFIX_LEN as nat, ordinal)
}

/// Formats the handle of a node by its file's path.
pub fn make_node_id(path: &str, ordinal: u32) -> (s: String)
    ensures
        s@ == path_node_id(path@, ordinal as nat),
{
    let digest = sha256_of_path(path);
    format_node_id(&digest, MIN_PREFIX_LEN, ordinal)
}

/// Where the first `c` of `s` at or after `from` stands; the length of `s` where there is none.
pub open spec fn index_of_char(s: Seq<char>, c: char, from: int) -> int
    decreases s.len() - from,
{
    if from < 0 || from >= s.len() {
        s.len() as int
    } else if s[from] == c {
        from
    } else {
        index_of_char(s, c, from + 1)
    }
}

/// Finds the first `c` at or after `from`.
pub fn find_char(s: &Vec<char>, c: char, from: usize) -> (i: usize)
    requires
        from <= s.len(),
    ensures
        i == index_of_char(s@, c, from as int),
        from <= i <= s.len(),
        i < s.len() ==> s@[i as int] == c,
        forall|k: int| from <= k < i ==> s@[k] != c,
{
    let mut i: usize = from;
    while i < s.len() && s[i] != c
        invariant
            from <= i <= s.len(),
            index_of_char(s@, c, from as int) == index_of_char(s@, c, i as int),
            forall|k: int| from <= k < i ==> s@[k] != c,
        decreases s.len() - i,
    {
        i += 1;
    }
    i
}

/// The handle of a block: that of a member, with the block's ordinal in place of the member's.
pub open spec fn block_id_text(id: Seq<char>, block_ordinal: Seq<char>) -> Seq<char> {
    id.take(index_of_char(id, '.', 0)) + seq!['.'] + block_ordinal
}

/// The handle of the block that the node `id` is a member of.
pub fn block_node_id(id: &str, block_ordinal: &str) -> (s: String)
    ensures
        s@ == block_id_text(id@, block_ordinal@),
{
    let chars = chars_of(id);
    let dot: usize = find_char(&chars, '.', 0);
    let mut s = text_of(&chars, 0, dot);
    assert(s@ =~= id@.take(dot as int));
    s.push('.');
    s.append(block_ordinal);
    assert(s@ =~= block_id_text(id@, block_ordinal@));
    s
}

// ───────────────────────────── prefixes ─────────────────────────────

/// Whether the first `n` bytes of two digests agree.
pub open spec fn heads_agree(a: Seq<u8>, b: Seq<u8>, n: int) -> bool {
    a.take(n) == b.take(n)
}

/// Whether `n` bytes of `hash` tell it from every other digest of `all`.
pub open spec fn head_is_unique(hash: Seq<u8>, all: Seq<Seq<u8>>, n: int) -> bool {
    forall|i: int|
        0 <= i < all.len() ==> (#[trigger] all[i]) == hash || !heads_agree(all[i], hash, n)
}

/// The digests of a list, by their bytes.
pub open spec fn digest_views(all: Seq<[u8; 32]>) -> Seq<Seq<u8>> {
    all.map_values(|d: [u8; 32]| d@)
}

/// The smallest count of bytes, from `n` on, that tells `hash` from every other digest of `all`.
pub open spec fn unique_head_from(hash: Seq<u8>, all: Seq<Seq<u8>>, n: int) -> int
    decreases 32 - n,
{
    if n >= 32 {
        32
    } else if head_is_unique(hash, all, n) {
        n
    } else {
        unique_head_from(hash, all, n + 1)
    }
}

/// The prefix length of `hash` among `all`: at least twelve characters, two more per collision.
pub open spec fn prefix_len_among(hash: Seq<u8>, all: Seq<Seq<u8>>) -> int {
    2 * unique_head_from(hash, all, 6)
}

fn heads_equal(a: &[u8; 32], b: &[u8; 32], n: usize) -> (r: bool)
    requires
        n <= 32,
    ensures
        r == heads_agree(a@, b@, n as int),
{
    let mut i: usize = 0;
    while i < n
        invariant
            i <= n <= 32,
            forall|k: int| 0 <= k < i ==> a@[k] == b@[k],
        decreases n - i,
    {
        if a[i] != b[i] {
            assert(a@.take(n as int)[i as int] != b@.take(n as int)[i as int]);
            return false;
        }
        i += 1;
    }
    assert(a@.take(n as int) =~= b@.take(n as int));
    true
}

/// The shortest prefix, in characters, that tells `hash` from every other digest of `all`.
pub fn shortest_prefix_len(hash: &[u8; 32], all: &Vec<[u8; 32]>) -> (len: u8)
    ensures
        len == prefix_len_among(hash@, digest_views(all@)),
        12 <= len <= 64,
{
    let mut n: usize = 6;
    while n < 32
        invariant
            6 <= n <= 32,
            unique_head_from(hash@, digest_views(all@), 6) == unique_head_from(
                hash@,
                digest_views(all@),
                n as int,
            ),
        decreases 32 - n,
    {
        let mut unique = true;
        let mut i: usize = 0;
        while i < all.len()
            invariant
                n < 32,
                i <= all.len(),
                unique <==> (forall|k: int|
                    0 <= k < i ==> (#[trigger] all@[k])@ == hash@ || !heads_agree(
                        all@[k]@,
                        hash@,
                        n as int,
                    )),
            decreases all.len() - i,
        {
            let other = &all[i];
            if heads_equal(other, hash, n) && !heads_equal(other, hash, 32) {
                assert(other@ != hash@);
                unique = false;
            } else if heads_equal(other, hash, 32) {
                assert(other@.take(32) =~= other@);
                assert(hash@.take(32) =~= hash@);
            }
            i += 1;
        }
        assert(unique == head_is_unique(hash@, digest_views(all@), n as int)) by {
            let views = digest_views(all@);
            assert(views.len() == all@.len());
            assert forall|k: int| 0 <= k < all@.len() implies views[k] == (#[trigger] all@[k])@ by {
            }
            if head_is_unique(hash@, views, n as int) {
                assert forall|k: int| 0 <= k < all@.len() implies (#[trigger] all@[k])@ == hash@
                    || !heads_agree(all@[k]@, hash@, n as int) by {
                    assert(views[k] == all@[k]@);
                }
            }
        }
        if unique {
            return 2 * n as u8;
        }
        n += 1;
    }
    64
}

/// The value of a hexadecimal digit, in either case.
pub open spec fn hex_value(b: u8) -> Option<u8> {
    if 0x30 <= b <= 0x39 {
        Some((b - 0x30) as u8)
    } else if 0x61 <= b <= 0x66 {
        Some((b - 0x61 + 10) as u8)
    } else if 0x41 <= b <= 0x46 {
        Some((b - 0x41 + 10) as u8)
    } else {
        None
    }
}

/// The byte that a pair of characters writes in base sixteen; a plus sign may stand first.
pub open spec fn hex_pair(hi: u8, lo: u8) -> Option<u8> {
    match (hex_value(hi), hex_value(lo)) {
        (Some(h), Some(l)) => Some((h * 16 + l) as u8),
        (None, Some(l)) => if hi == 0x2b {
            Some(l)
        } else {
            None
        },
        _ => None,
    }
}

/// The bytes that a hexadecimal prefix writes: an even number of characters, at most 32 bytes.
pub open spec fn hex_bytes(s: Seq<u8>) -> Option<Seq<u8>> {
    if s.len() == 0 || s.len() % 2 != 0 || s.len() > 64 {
        None
    } else if exists|i: int|
        0 <= i < s.len() / 2 && (#[trigger] hex_pair(s[2 * i], s[2 * i + 1])) is None {
        None
    } else {
        Some(Seq::new(s.len() / 2, |i: int| hex_pair(s[2 * i], s[2 * i + 1])->0))
    }
}

fn hex_digit_value(b: u8) -> (r: Option<u8>)
    ensures
        r == hex_value(b),
        r is Some ==> r->0 < 16,
{
    if 0x30 <= b && b <= 0x39 {
        Some(b - 0x30)
    } else if 0x61 <= b && b <= 0x66 {
        Some(b - 0x61 + 10)
    } else if 0x41 <= b && b <= 0x46 {
        Some(b - 0x41 + 10)
    } else {
        None
    }
}

fn hex_pair_value(hi: u8, lo: u8) -> (r: Option<u8>)
    ensures
        r == hex_pair(hi, lo),
{
    match (hex_digit_value(hi), hex_digit_value(lo)) {
        (Some(h), Some(l)) => Some(h * 16 + l),
        (None, Some(l)) => if hi == 0x2b {
            Some(l)
        } else {
            None
        },
        _ => None,
    }
}

/// Reads a hexadecimal prefix.
pub fn decode_hex_prefix(s: &[u8]) -> (r: Option<Vec<u8>>)
    ensures
        (match r {
            Some(v) => hex_bytes(s@) == Some(v@) && 0 < v@.len() <= 32,
            None => hex_bytes(s@) is None,
        }),
{
    let byte_len: usize = s.len() / 2;
    if byte_len == 0 || byte_len > 32 || s.len() % 2 != 0 {
        return None;
    }
    let mut out: Vec<u8> = Vec::new();
    let mut i: usize = 0;
    while i < byte_len
        invariant
            s.len() == 2 * byte_len,
            0 < byte_len <= 32,
            i <= byte_len,
            out@.len() == i,
            forall|k: int|
                0 <= k < i ==> (#[trigger] hex_pair(s@[2 * k], s@[2 * k + 1])) == Some(out@[k]),
        decreases byte_len - i,
    {
        match hex_pair_value(s[2 * i], s[2 * i + 1]) {
            Some(b) => {
                out.push(b);
            },
            None => {
                assert(hex_pair(s@[2 * i as int], s@[2 * i as int + 1]) is None);
                return None;
            },
        }
        i += 1;
    }
    assert(out@ =~= Seq::new(
        s@.len() / 2,
        |k: int| hex_pair(s@[2 * k], s@[2 * k + 1])->0,
    )) by {
        assert forall|k: int| 0 <= k < out@.len() implies out@[k] == hex_pair(
            s@[2 * k],
            s@[2 * k + 1],
        )->0 by {
            assert(hex_pair(s@[2 * k], s@[2 * k + 1]) == Some(out@[k]));
        }
    }
    Some(out)
}

} // verus!
