//! The record of a commit that is served as a master overlay plus changes.
//!
//! A manifest names one master and one change set. On disk it is four magic bytes and the encoded
//! record, whose first field is the format version.

use crate::build_context::ENRICH_VER;
use crate::bytes::{le32, u32_at};
use crate::codec::{
    chain_decoding, chain_encoding, decode_chain, encode_chain, triple_views, ChainParts,
};
use crate::dirty_overlay::{DirtyOverlay, DirtySegment};
use crate::order::{paths_ascend, same_paths, sorted_paths};
use crate::overlay::lookup::text_views;
use crate::text::{decimal, hex_of, push_decimal};
use vstd::prelude::*;
use vstd::string::*;

verus! {

/// Current chain manifest format version. Bump on any layout change.
pub const CHAIN_FORMAT_VERSION: u32 = 1;

/// The four bytes that open every chain manifest: `FQCM`.
pub open spec fn chain_magic() -> Seq<u8> {
    seq![0x46u8, 0x51u8, 0x43u8, 0x4du8]
}

/// One changed file.
pub struct ChainEntry {
    /// The file, relative to the worktree root.
    pub source_path: String,
    /// The content id of its segment.
    pub hex_content_id: String,
    /// The content id of the master segment it replaces; empty for a new file.
    pub replaces_hex: String,
}

/// A master commit and the changes on top of it.
pub struct ChainManifest {
    /// Format version.
    pub version: u32,
    /// The index generation of the segments named.
    pub enrich_ver: u32,
    /// The commit whose overlay the chain grows from.
    pub master_commit: String,
    /// The changed files.
    pub entries: Vec<ChainEntry>,
    /// The paths whose master segments are hidden, replaced and deleted ones alike.
    pub removed_paths: Vec<String>,
    /// Files without a segment that the chain added.
    pub added_paths: Vec<String>,
}

impl ChainManifest {
    /// Whether the version and the generation are those of this build.
    pub open spec fn current(&self) -> bool {
        self.version == CHAIN_FORMAT_VERSION && self.enrich_ver == ENRICH_VER
    }

    /// Whether the entry is the record of a segment of the session.
    pub open spec fn records(entry: ChainEntry, ds: DirtySegment) -> bool {
        &&& entry.source_path@ == ds.source_path@
        &&& entry.hex_content_id@ == hex_of(ds.reader.content_id@)
        &&& entry.replaces_hex@ == ds.replaces_hex@
    }

    /// The manifest of a commit, from the master the session serves from and its edits.
    pub fn from_dirty(master_commit: &str, dirty: &DirtyOverlay) -> (m: ChainManifest)
        ensures
            m.current(),
            m.master_commit@ == master_commit@,
            m.entries@.len() == dirty.added@.len(),
            forall|i: int|
                #![trigger m.entries@[i]]
                0 <= i < m.entries@.len() ==> ChainManifest::records(
                    m.entries@[i],
                    dirty.added@[i],
                ),
            paths_ascend(m.removed_paths@),
            same_paths(m.removed_paths@, dirty.removed_paths@),
            paths_ascend(m.added_paths@),
            same_paths(m.added_paths@, dirty.added_paths@),
    {
        let mut entries: Vec<ChainEntry> = Vec::new();
        let mut i: usize = 0;
        while i < dirty.added.len()
            invariant
                i <= dirty.added@.len(),
                entries@.len() == i,
                forall|k: int|
                    #![trigger entries@[k]]
                    0 <= k < i ==> ChainManifest::records(entries@[k], dirty.added@[k]),
            decreases dirty.added.len() - i,
        {
            let ds = &dirty.added[i];
            entries.push(
                ChainEntry {
                    source_path: ds.source_path.clone(),
                    hex_content_id: ds.reader.content_id_hex(),
                    replaces_hex: ds.replaces_hex.clone(),
                },
            );
            i += 1;
        }
        ChainManifest {
            version: CHAIN_FORMAT_VERSION,
            enrich_ver: ENRICH_VER,
            master_commit: master_commit.to_owned(),
            entries,
            removed_paths: sorted_paths(&dirty.removed_paths),
            added_paths: sorted_paths(&dirty.added_paths),
        }
    }
}

/// The texts of the entries of a manifest.
pub open spec fn entry_texts(v: Seq<ChainEntry>) -> Seq<(Seq<char>, Seq<char>, Seq<char>)> {
    v.map_values(|e: ChainEntry| (e.source_path@, e.hex_content_id@, e.replaces_hex@))
}

// ───────────────────────────── framing ─────────────────────────────

/// Why bytes are no chain manifest of this build.
#[derive(Clone, Copy, Debug, PartialEq, Eq, Structural)]
pub enum ChainLoadError {
    /// The opening four bytes are not a manifest's.
    BadMagic,
    /// Too short to hold a format version.
    Unreadable,
    /// Written under another format version.
    WrongVersion { got: u32 },
    /// The format version is right and the record does not decode.
    Undecodable,
}

impl ChainLoadError {
    /// The failure in words, for the file at `path`.
    pub open spec fn text(&self, path: Seq<char>) -> Seq<char> {
        let head = "chain manifest at "@ + path;
        match self {
            ChainLoadError::BadMagic => head + " does not start with FQCM"@,
            ChainLoadError::Unreadable => head + " is unreadable"@,
            ChainLoadError::WrongVersion { got } => head + " has format version "@ + decimal(
                *got as nat,
            ) + " (expected "@ + decimal(CHAIN_FORMAT_VERSION as nat) + ")"@,
            ChainLoadError::Undecodable => head + " claims format version "@ + decimal(
                CHAIN_FORMAT_VERSION as nat,
            ) + " but does not decode as one"@,
        }
    }

    /// The failure in words, for the file at `path`.
    pub fn message(&self, path: &str) -> (s: String)
        ensures
            s@ == self.text(path@),
    {
        let mut s = String::new();
        s.append("chain manifest at ");
        s.append(path);
        match self {
            ChainLoadError::BadMagic => {
                s.append(" does not start with FQCM");
            },
            ChainLoadError::Unreadable => {
                s.append(" is unreadable");
            },
            ChainLoadError::WrongVersion { got } => {
                s.append(" has format version ");
                push_decimal(&mut s, *got as u64);
                s.append(" (expected ");
                push_decimal(&mut s, CHAIN_FORMAT_VERSION as u64);
                s.append(")");
            },
            ChainLoadError::Undecodable => {
                s.append(" claims format version ");
                push_decimal(&mut s, CHAIN_FORMAT_VERSION as u64);
                s.append(" but does not decode as one");
            },
        }
        assert(s@ =~= self.text(path@));
        s
    }
}

/// The encoded record of a manifest file, or why there is none to decode.
pub open spec fn chain_payload(file: Seq<u8>) -> Result<Seq<u8>, ChainLoadError> {
    if file.len() < 4 || file.take(4) != chain_magic() {
        Err(ChainLoadError::BadMagic)
    } else if file.len() < 8 {
        Err(ChainLoadError::Unreadable)
    } else if le32(file, 4) != CHAIN_FORMAT_VERSION {
        Err(ChainLoadError::WrongVersion { got: le32(file, 4) })
    } else {
        Ok(file.skip(4))
    }
}

/// Checks the magic and the format version of a manifest file, and gives the record to decode.
///
/// The version leads the record, so a layout this build does not know is told from damage.
pub fn open_chain_frame(file: &[u8]) -> (r: Result<&[u8], ChainLoadError>)
    ensures
        (match r {
            Ok(payload) => chain_payload(file@) == Ok::<Seq<u8>, ChainLoadError>(payload@),
            Err(e) => chain_payload(file@) == Err::<Seq<u8>, ChainLoadError>(e),
        }),
{
    if file.len() < 4 {
        return Err(ChainLoadError::BadMagic);
    }
    if !(file[0] == 0x46 && file[1] == 0x51 && file[2] == 0x43 && file[3] == 0x4d) {
        proof {
            let t = file@.take(4);
            assert(t[0] == file@[0] && t[1] == file@[1] && t[2] == file@[2] && t[3] == file@[3]);
            assert(chain_magic()[0] == 0x46 && chain_magic()[1] == 0x51 && chain_magic()[2] == 0x43
                && chain_magic()[3] == 0x4d);
        }
        return Err(ChainLoadError::BadMagic);
    }
    assert(file@.take(4) =~= chain_magic());
    if file.len() < 8 {
        return Err(ChainLoadError::Unreadable);
    }
    let version: u32 = u32_at(file, 4);
    if version != CHAIN_FORMAT_VERSION {
        return Err(ChainLoadError::WrongVersion { got: version });
    }
    let payload = vstd::slice::slice_subrange(file, 4, file.len());
    assert(payload@ =~= file@.skip(4));
    Ok(payload)
}

/// The bytes of a manifest file, from the encoded record.
pub fn frame_chain(payload: &[u8]) -> (file: Vec<u8>)
    ensures
        file@ == chain_magic() + payload@,
{
    let mut file: Vec<u8> = Vec::new();
    file.push(0x46);
    file.push(0x51);
    file.push(0x43);
    file.push(0x4d);
    file.extend_from_slice(payload);
    assert(file@ =~= chain_magic() + payload@);
    file
}

/// What was framed is what is decoded: the frame hands a record of this format back unchanged.
pub proof fn lemma_chain_frame_reads_back(payload: Seq<u8>)
    requires
        payload.len() >= 4,
        le32(payload, 0) == CHAIN_FORMAT_VERSION,
    ensures
        chain_payload(chain_magic() + payload) == Ok::<Seq<u8>, ChainLoadError>(payload),
{
    let file = chain_magic() + payload;
    assert(file.take(4) =~= chain_magic());
    assert(file.skip(4) =~= payload);
    assert(le32(file, 4) == le32(payload, 0));
}


// ───────────────────────────── the file ─────────────────────────────

impl ChainManifest {
    /// The values of the record.
    pub open spec fn parts(&self) -> ChainParts {
        ChainParts {
            version: self.version,
            generation: self.enrich_ver,
            master: self.master_commit@,
            entries: entry_texts(self.entries@),
            removed: text_views(self.removed_paths@),
            added: text_views(self.added_paths@),
        }
    }

    /// The bytes of the file of a manifest.
    pub open spec fn file_of(parts: ChainParts) -> Option<Seq<u8>> {
        match chain_encoding(parts) {
            Some(payload) => Some(chain_magic() + payload),
            None => None,
        }
    }

    /// Encodes the manifest as the bytes of its file.
    pub fn encode(&self) -> (r: Option<Vec<u8>>)
        ensures
            (match r {
                Some(file) => ChainManifest::file_of(self.parts()) == Some(file@),
                None => ChainManifest::file_of(self.parts()) is None,
            }),
            r is Some && self.version != CHAIN_FORMAT_VERSION ==> chain_payload(r->0@) == Err::<
                Seq<u8>,
                ChainLoadError,
            >(ChainLoadError::WrongVersion { got: self.version }),
    {
        let mut entries: Vec<(String, String, String)> = Vec::new();
        let mut i: usize = 0;
        while i < self.entries.len()
            invariant
                i <= self.entries@.len(),
                entries@.len() == i,
                forall|k: int|
                    #![trigger entries@[k]]
                    0 <= k < i ==> (entries@[k].0@, entries@[k].1@, entries@[k].2@) == (
                        self.entries@[k].source_path@,
                        self.entries@[k].hex_content_id@,
                        self.entries@[k].replaces_hex@,
                    ),
            decreases self.entries.len() - i,
        {
            let e = &self.entries[i];
            entries.push((e.source_path.clone(), e.hex_content_id.clone(), e.replaces_hex.clone()));
            i += 1;
        }
        assert(triple_views(entries@) =~= entry_texts(self.entries@));
        let payload = encode_chain(
            self.version,
            self.enrich_ver,
            &self.master_commit,
            &entries,
            &self.removed_paths,
            &self.added_paths,
        );
        match payload {
            Some(bytes) => {
                let file = frame_chain(bytes.as_slice());
                proof {
                    assert(file@.take(4) =~= chain_magic());
                    assert(le32(file@, 4) == le32(bytes@, 0));
                }
                Some(file)
            },
            None => None,
        }
    }

    /// Reads a manifest from the bytes of its file, or says why they hold none.
    ///
    /// The format version is checked before the record is decoded, and what [`Self::encode`] wrote
    /// under this format is read back unchanged.
    pub fn decode(file: &[u8]) -> (r: Result<ChainManifest, ChainLoadError>)
        ensures
            (match r {
                Ok(m) => chain_payload(file@) is Ok && chain_decoding(chain_payload(file@)->Ok_0)
                    == Some(m.parts()),
                Err(ChainLoadError::Undecodable) => chain_payload(file@) is Ok && chain_decoding(
                    chain_payload(file@)->Ok_0,
                ) is None,
                Err(e) => chain_payload(file@) == Err::<Seq<u8>, ChainLoadError>(e),
            }),
            forall|p: ChainParts|
                p.version == CHAIN_FORMAT_VERSION && #[trigger] ChainManifest::file_of(p) == Some(
                    file@,
                ) ==> r is Ok && r->Ok_0.parts() == p,
    {
        let opened = open_chain_frame(file);
        proof {
            assert(chain_payload(file@) != Err::<Seq<u8>, ChainLoadError>(
                ChainLoadError::Undecodable,
            ));
        }
        let ghost rest = file@.skip(4);
        proof {
            assert forall|p: ChainParts| #[trigger] ChainManifest::file_of(p) == Some(
                file@,
            ) implies chain_encoding(p) == Some(rest) && file@.take(4) == chain_magic() by {
                let payload = chain_encoding(p)->0;
                assert((chain_magic() + payload).skip(4) =~= payload);
                assert((chain_magic() + payload).take(4) =~= chain_magic());
            }
        }
        if file.len() < 4 {
            return Err(ChainLoadError::BadMagic);
        }
        let body = vstd::slice::slice_subrange(file, 4, file.len());
        assert(body@ =~= rest);
        let decoded = decode_chain(body);
        proof {
            if file@.len() >= 8 {
                assert(le32(file@, 4) == le32(rest, 0));
            }
        }
        match opened {
            Err(e) => Err(e),
            Ok(payload) => match decoded {
                None => Err(ChainLoadError::Undecodable),
                Some(t) => {
                    let (version, enrich_ver, master_commit, triples, removed_paths, added_paths) =
                        t;
                    let entries = entries_of(triples);
                    Ok(
                        ChainManifest {
                            version,
                            enrich_ver,
                            master_commit,
                            entries,
                            removed_paths,
                            added_paths,
                        },
                    )
                },
            },
        }
    }
}

fn entries_of(triples: Vec<(String, String, String)>) -> (v: Vec<ChainEntry>)
    ensures
        entry_texts(v@) == triple_views(triples@),
{
    let mut v: Vec<ChainEntry> = Vec::new();
    let mut i: usize = 0;
    while i < triples.len()
        invariant
            i <= triples@.len(),
            v@.len() == i,
            forall|k: int|
                #![trigger v@[k]]
                0 <= k < i ==> (
                    v@[k].source_path@,
                    v@[k].hex_content_id@,
                    v@[k].replaces_hex@,
                ) == (triples@[k].0@, triples@[k].1@, triples@[k].2@),
        decreases triples.len() - i,
    {
        v.push(
            ChainEntry {
                source_path: triples[i].0.clone(),
                hex_content_id: triples[i].1.clone(),
                replaces_hex: triples[i].2.clone(),
            },
        );
        i += 1;
    }
    assert(entry_texts(v@) =~= triple_views(triples@));
    v
}

} // verus!
