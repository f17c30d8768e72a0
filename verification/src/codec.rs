//! The binary encoding of the records a session writes, as `bincode` gives it.

use crate::bytes::le32;
use crate::overlay::lookup::text_views;
use vstd::prelude::*;

verus! {

/// The texts of a list of triples.
pub open spec fn triple_views(v: Seq<(String, String, String)>) -> Seq<
    (Seq<char>, Seq<char>, Seq<char>),
> {
    v.map_values(|t: (String, String, String)| (t.0@, t.1@, t.2@))
}

/// A session record: format version, generation, staged files, hidden paths, other paths.
pub struct DeltaParts {
    pub version: u32,
    pub generation: u32,
    pub staged: Seq<(Seq<char>, Seq<char>, Seq<char>)>,
    pub removed: Seq<Seq<char>>,
    pub added: Seq<Seq<char>>,
}

/// A chain record: format version, generation, master, changed files, hidden paths, other paths.
pub struct ChainParts {
    pub version: u32,
    pub generation: u32,
    pub master: Seq<char>,
    pub entries: Seq<(Seq<char>, Seq<char>, Seq<char>)>,
    pub removed: Seq<Seq<char>>,
    pub added: Seq<Seq<char>>,
}

/// What `bincode::serialize` gives for a session record.
pub uninterp spec fn delta_encoding(parts: DeltaParts) -> Option<Seq<u8>>;

/// What `bincode::deserialize` reads from bytes as a session record.
pub uninterp spec fn delta_decoding(bytes: Seq<u8>) -> Option<DeltaParts>;

/// What `bincode::serialize` gives for a chain record.
pub uninterp spec fn chain_encoding(parts: ChainParts) -> Option<Seq<u8>>;

/// What `bincode::deserialize` reads from bytes as a chain record.
pub uninterp spec fn chain_decoding(bytes: Seq<u8>) -> Option<ChainParts>;

/// `bincode::serialize` of a session record. The bytes depend on the values of the record alone, and
/// the first four are the first field, least significant first.
#[verifier::external_body]
pub(crate) fn encode_delta(
    version: u32,
    generation: u32,
    staged: &Vec<(String, String, String)>,
    removed: &Vec<String>,
    added: &Vec<String>,
) -> (r: Option<Vec<u8>>)
    ensures
        delta_encoding(
            DeltaParts {
                version,
                generation,
                staged: triple_views(staged@),
                removed: text_views(removed@),
                added: text_views(added@),
            },
        ) == (match r {
            Some(bytes) => Some(bytes@),
            None => None,
        }),
        r is Some ==> r->0@.len() >= 4 && le32(r->0@, 0) == version,
{
    bincode::serialize(&(version, generation, staged, removed, added)).ok()
}

/// `bincode::deserialize` of a session record. It reads back what `bincode::serialize` wrote, and
/// the first field is the first four bytes, least significant first.
#[verifier::external_body]
pub(crate) fn decode_delta(bytes: &[u8]) -> (r: Option<
    (u32, u32, Vec<(String, String, String)>, Vec<String>, Vec<String>),
>)
    ensures
        delta_decoding(bytes@) == (match r {
            Some(t) => Some(
                DeltaParts {
                    version: t.0,
                    generation: t.1,
                    staged: triple_views(t.2@),
                    removed: text_views(t.3@),
                    added: text_views(t.4@),
                },
            ),
            None => None,
        }),
        r is Some ==> bytes@.len() >= 4 && (r->0).0 == le32(bytes@, 0),
        forall|p: DeltaParts| #[trigger]
            delta_encoding(p) == Some(bytes@) ==> r is Some && p == (DeltaParts {
                version: (r->0).0,
                generation: (r->0).1,
                staged: triple_views((r->0).2@),
                removed: text_views((r->0).3@),
                added: text_views((r->0).4@),
            }),
{
    bincode::deserialize(bytes).ok()
}

/// `bincode::serialize` of a chain record. The bytes depend on the values of the record alone, and
/// the first four are the first field, least significant first.
#[verifier::external_body]
pub(crate) fn encode_chain(
    version: u32,
    generation: u32,
    master: &String,
    entries: &Vec<(String, String, String)>,
    removed: &Vec<String>,
    added: &Vec<String>,
) -> (r: Option<Vec<u8>>)
    ensures
        chain_encoding(
            ChainParts {
                version,
                generation,
                master: master@,
                entries: triple_views(entries@),
                removed: text_views(removed@),
                added: text_views(added@),
            },
        ) == (match r {
            Some(bytes) => Some(bytes@),
            None => None,
        }),
        r is Some ==> r->0@.len() >= 4 && le32(r->0@, 0) == version,
{
    bincode::serialize(&(version, generation, master, entries, removed, added)).ok()
}

/// `bincode::deserialize` of a chain record. It reads back what `bincode::serialize` wrote, and
/// the first field is the first four bytes, least significant first.
#[verifier::external_body]
pub(crate) fn decode_chain(bytes: &[u8]) -> (r: Option<
    (u32, u32, String, Vec<(String, String, String)>, Vec<String>, Vec<String>),
>)
    ensures
        chain_decoding(bytes@) == (match r {
            Some(t) => Some(
                ChainParts {
                    version: t.0,
                    generation: t.1,
                    master: t.2@,
                    entries: triple_views(t.3@),
                    removed: text_views(t.4@),
                    added: text_views(t.5@),
                },
            ),
            None => None,
        }),
        r is Some ==> bytes@.len() >= 4 && (r->0).0 == le32(bytes@, 0),
        forall|p: ChainParts| #[trigger]
            chain_encoding(p) == Some(bytes@) ==> r is Some && p == (ChainParts {
                version: (r->0).0,
                generation: (r->0).1,
                master: (r->0).2@,
                entries: triple_views((r->0).3@),
                removed: text_views((r->0).4@),
                added: text_views((r->0).5@),
            }),
{
    bincode::deserialize(bytes).ok()
}

} // verus!
