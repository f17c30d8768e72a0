//! The record of a session's edits, from which they are restored after a restart or a rollback.

use crate::build_context::{path_key, path_key_text, ENRICH_VER};
use crate::bytes::{le32, u32_at};
use crate::codec::{
    decode_delta, delta_decoding, delta_encoding, encode_delta, triple_views, DeltaParts,
};
use crate::columnar_storage::node_lookup::{join_path, joined};
use crate::dirty_overlay::{insert_path, DirtyOverlay, DirtySegment};
use crate::overlay::lookup::text_views;
use crate::segment::{contains_text, lists_text, SegmentReader};
use crate::text::{decimal, hex_of, push_decimal};
use std::sync::Arc;
use crate::path_parts::{lists_path, same_path};
use vstd::prelude::*;
use vstd::string::*;

verus! {

/// Current format version of a session record. Bump when the meaning or the layout changes.
pub const DELTA_FORMAT_VERSION: u32 = 4;

/// One segment of the session.
pub struct StagedEntry {
    /// The content id of the segment.
    pub hex_content_id: String,
    /// The file, relative to the worktree root.
    pub source_path: String,
    /// The content id of the persistent segment it replaces; empty for a new file.
    pub replaces_hex: String,
}

/// The name of the file of a staged segment: path key, content id and index generation.
pub open spec fn staged_name(path: Seq<char>, hex: Seq<char>) -> Seq<char> {
    path_key_text(path) + "-"@ + hex + "-v"@ + decimal(ENRICH_VER as nat) + ".fqsf"@
}

/// The name of the file of a staged segment.
///
/// Two files with the same bytes have different names, and so have two generations of one file.
pub fn staged_segment_file_name(source_path: &str, hex_content_id: &str) -> (s: String)
    ensures
        s@ == staged_name(source_path@, hex_content_id@),
{
    let mut s = path_key(source_path);
    s.append("-");
    s.append(hex_content_id);
    s.append("-v");
    push_decimal(&mut s, ENRICH_VER as u64);
    s.append(".fqsf");
    assert(s@ =~= staged_name(source_path@, hex_content_id@));
    s
}

/// Where a staged segment lies.
pub fn staged_segment_path(staging_dir: &str, source_path: &str, hex_content_id: &str) -> (s: String)
    ensures
        s@ == joined(staging_dir@, staged_name(source_path@, hex_content_id@)),
{
    let name = staged_segment_file_name(source_path, hex_content_id);
    join_path(staging_dir, name.as_str())
}

/// The record of a session's edits.
pub struct DeltaFile {
    /// Format version.
    pub version: u32,
    /// The index generation of the staged segments.
    pub enrich_ver: u32,
    /// The segments of the session, in the order they were added.
    pub staged: Vec<StagedEntry>,
    /// The paths whose persistent segments are hidden.
    pub removed_paths: Vec<String>,
    /// Files without a segment that the session touched.
    pub added_paths: Vec<String>,
}

/// The texts of the staged entries.
pub open spec fn staged_texts(v: Seq<StagedEntry>) -> Seq<(Seq<char>, Seq<char>, Seq<char>)> {
    v.map_values(|e: StagedEntry| (e.hex_content_id@, e.source_path@, e.replaces_hex@))
}

/// Why bytes are no session record of this build.
#[derive(Clone, Copy, Debug, PartialEq, Eq, Structural)]
pub enum DeltaLoadError {
    /// Too short to hold a format version.
    Unreadable,
    /// Written under another format version.
    WrongVersion { got: u32 },
    /// The format version is right and the record does not decode.
    Undecodable,
}

impl DeltaLoadError {
    /// The failure in words, for the file at `path`.
    pub open spec fn text(&self, path: Seq<char>) -> Seq<char> {
        match self {
            DeltaLoadError::Unreadable => "columnar delta at "@ + path + " is unreadable"@,
            DeltaLoadError::WrongVersion { got } => "columnar delta at "@ + path
                + " has format version "@ + decimal(*got as nat) + " (expected "@ + decimal(
                DELTA_FORMAT_VERSION as nat,
            ) + ")"@,
            DeltaLoadError::Undecodable => "columnar delta at "@ + path + " does not decode"@,
        }
    }

    /// The failure in words, for the file at `path`.
    pub fn message(&self, path: &str) -> (s: String)
        ensures
            s@ == self.text(path@),
    {
        let mut s = String::new();
        s.append("columnar delta at ");
        s.append(path);
        match self {
            DeltaLoadError::Unreadable => {
                s.append(" is unreadable");
            },
            DeltaLoadError::WrongVersion { got } => {
                s.append(" has format version ");
                push_decimal(&mut s, *got as u64);
                s.append(" (expected ");
                push_decimal(&mut s, DELTA_FORMAT_VERSION as u64);
                s.append(")");
            },
            DeltaLoadError::Undecodable => {
                s.append(" does not decode");
            },
        }
        assert(s@ =~= self.text(path@));
        s
    }
}

/// Why bytes hold no session record, as far as their first field tells.
pub open spec fn delta_head_fault(bytes: Seq<u8>) -> Option<DeltaLoadError> {
    if bytes.len() < 4 {
        Some(DeltaLoadError::Unreadable)
    } else if le32(bytes, 0) != DELTA_FORMAT_VERSION {
        Some(DeltaLoadError::WrongVersion { got: le32(bytes, 0) })
    } else {
        None
    }
}

/// Whether a staged entry is the record of a segment of the session.
pub open spec fn stages(entry: StagedEntry, ds: DirtySegment) -> bool {
    &&& entry.hex_content_id@ == hex_of(ds.reader.content_id@)
    &&& entry.source_path@ == ds.source_path@
    &&& entry.replaces_hex@ == ds.replaces_hex@
}

impl DeltaFile {
    /// The values of the record.
    pub open spec fn parts(&self) -> DeltaParts {
        DeltaParts {
            version: self.version,
            generation: self.enrich_ver,
            staged: staged_texts(self.staged@),
            removed: text_views(self.removed_paths@),
            added: text_views(self.added_paths@),
        }
    }

    /// The record of a session's edits.
    pub fn of_session(dirty: &DirtyOverlay) -> (f: DeltaFile)
        ensures
            f.version == DELTA_FORMAT_VERSION,
            f.enrich_ver == ENRICH_VER,
            f.staged@.len() == dirty.added@.len(),
            forall|i: int|
                #![trigger f.staged@[i]]
                0 <= i < f.staged@.len() ==> stages(f.staged@[i], dirty.added@[i]),
            text_views(f.removed_paths@) == text_views(dirty.removed_paths@),
            text_views(f.added_paths@) == text_views(dirty.added_paths@),
    {
        let mut staged: Vec<StagedEntry> = Vec::new();
        let mut i: usize = 0;
        while i < dirty.added.len()
            invariant
                i <= dirty.added@.len(),
                staged@.len() == i,
                forall|k: int|
                    #![trigger staged@[k]]
                    0 <= k < i ==> stages(staged@[k], dirty.added@[k]),
            decreases dirty.added.len() - i,
        {
            let ds = &dirty.added[i];
            staged.push(
                StagedEntry {
                    hex_content_id: ds.reader.content_id_hex(),
                    source_path: ds.source_path.clone(),
                    replaces_hex: ds.replaces_hex.clone(),
                },
            );
            i += 1;
        }
        DeltaFile {
            version: DELTA_FORMAT_VERSION,
            enrich_ver: ENRICH_VER,
            staged,
            removed_paths: copy_texts(&dirty.removed_paths),
            added_paths: copy_texts(&dirty.added_paths),
        }
    }

    /// Encodes the record as the bytes of its file.
    pub fn encode(&self) -> (r: Option<Vec<u8>>)
        ensures
            delta_encoding(self.parts()) == (match r {
                Some(bytes) => Some(bytes@),
                None => None,
            }),
            r is Some ==> delta_head_fault(r->0@) == (if self.version == DELTA_FORMAT_VERSION {
                None
            } else {
                Some(DeltaLoadError::WrongVersion { got: self.version })
            }),
    {
        let mut staged: Vec<(String, String, String)> = Vec::new();
        let mut i: usize = 0;
        while i < self.staged.len()
            invariant
                i <= self.staged@.len(),
                staged@.len() == i,
                forall|k: int|
                    #![trigger staged@[k]]
                    0 <= k < i ==> (staged@[k].0@, staged@[k].1@, staged@[k].2@) == (
                        self.staged@[k].hex_content_id@,
                        self.staged@[k].source_path@,
                        self.staged@[k].replaces_hex@,
                    ),
            decreases self.staged.len() - i,
        {
            let e = &self.staged[i];
            staged.push((e.hex_content_id.clone(), e.source_path.clone(), e.replaces_hex.clone()));
            i += 1;
        }
        assert(triple_views(staged@) =~= staged_texts(self.staged@));
        encode_delta(
            self.version,
            self.enrich_ver,
            &staged,
            &self.removed_paths,
            &self.added_paths,
        )
    }

    /// Reads a record from the bytes of its file, or says why they hold none.
    ///
    /// The format version is checked before the record is decoded, so a layout this build does not
    /// know is told from damage. What [`Self::encode`] wrote under this format is read back
    /// unchanged.
    pub fn decode(bytes: &[u8]) -> (r: Result<DeltaFile, DeltaLoadError>)
        ensures
            (match r {
                Ok(f) => delta_head_fault(bytes@) is None && delta_decoding(bytes@) == Some(
                    f.parts(),
                ),
                Err(DeltaLoadError::Undecodable) => delta_head_fault(bytes@) is None
                    && delta_decoding(bytes@) is None,
                Err(e) => delta_head_fault(bytes@) == Some(e),
            }),
            forall|p: DeltaParts|
                p.version == DELTA_FORMAT_VERSION && #[trigger] delta_encoding(p) == Some(bytes@)
                    ==> r is Ok && r->Ok_0.parts() == p,
    {
        let decoded = decode_delta(bytes);
        if bytes.len() < 4 {
            return Err(DeltaLoadError::Unreadable);
        }
        let version: u32 = u32_at(bytes, 0);
        if version != DELTA_FORMAT_VERSION {
            return Err(DeltaLoadError::WrongVersion { got: version });
        }
        match decoded {
            None => Err(DeltaLoadError::Undecodable),
            Some(t) => {
                let (version, enrich_ver, triples, removed_paths, added_paths) = t;
                let staged = staged_of(triples);
                Ok(DeltaFile { version, enrich_ver, staged, removed_paths, added_paths })
            },
        }
    }

    /// Whether the staged segments are of this build's generation.
    pub open spec fn same_generation(&self) -> bool {
        self.enrich_ver == ENRICH_VER
    }

    /// The names of the staged segment files that may stay: those of the record, where it was
    /// written under this format and generation.
    pub fn valid_segment_names(&self) -> (names: Vec<String>)
        ensures
            self.version != DELTA_FORMAT_VERSION || !self.same_generation() ==> names@.len() == 0,
            self.version == DELTA_FORMAT_VERSION && self.same_generation() ==> names@.len()
                == self.staged@.len() && forall|i: int|
                0 <= i < names@.len() ==> (#[trigger] names@[i])@ == staged_name(
                    self.staged@[i].source_path@,
                    self.staged@[i].hex_content_id@,
                ),
    {
        let mut names: Vec<String> = Vec::new();
        if self.version != DELTA_FORMAT_VERSION || self.enrich_ver != ENRICH_VER {
            return names;
        }
        let mut i: usize = 0;
        while i < self.staged.len()
            invariant
                i <= self.staged@.len(),
                names@.len() == i,
                forall|k: int|
                    0 <= k < i ==> (#[trigger] names@[k])@ == staged_name(
                        self.staged@[k].source_path@,
                        self.staged@[k].hex_content_id@,
                    ),
            decreases self.staged.len() - i,
        {
            names.push(
                staged_segment_file_name(
                    self.staged[i].source_path.as_str(),
                    self.staged[i].hex_content_id.as_str(),
                ),
            );
            i += 1;
        }
        names
    }

    /// The segments among the first `n` entries whose files could be opened.
    pub open spec fn restored(&self, opened: Seq<Option<Arc<SegmentReader>>>, n: int) -> Seq<
        (Arc<SegmentReader>, Seq<char>, Seq<char>),
    >
        decreases n,
    {
        if n <= 0 {
            seq![]
        } else {
            let rest = self.restored(opened, n - 1);
            match opened[n - 1] {
                Some(reader) => rest.push(
                    (reader, self.staged@[n - 1].source_path@, self.staged@[n - 1].replaces_hex@),
                ),
                None => rest,
            }
        }
    }

    /// The paths among the first `n` entries whose files could not be opened.
    pub open spec fn lost(&self, opened: Seq<Option<Arc<SegmentReader>>>, n: int) -> Seq<Seq<char>>
        decreases n,
    {
        if n <= 0 {
            seq![]
        } else if opened[n - 1] is None {
            self.lost(opened, n - 1).push(self.staged@[n - 1].source_path@)
        } else {
            self.lost(opened, n - 1)
        }
    }

    /// Whether one of the first `n` entries could be opened and replaces the segment of a path.
    pub open spec fn replaced(
        &self,
        opened: Seq<Option<Arc<SegmentReader>>>,
        path: Seq<char>,
        n: int,
    ) -> bool {
        exists|i: int|
            0 <= i < n && same_path((#[trigger] self.staged@[i]).source_path@, path)
                && self.staged@[i].replaces_hex@.len() > 0 && opened[i] is Some
    }

    /// How many staged files have to be opened to restore the session.
    pub open spec fn files_to_open(&self) -> nat {
        if self.same_generation() {
            self.staged@.len()
        } else {
            0
        }
    }

    /// Restores the edits of a session, and the paths whose staged segments could not be restored
    /// and have to be indexed again.
    ///
    /// `opened` is what came of opening each staged file. A record of another generation restores
    /// no segment: every staged path is to be indexed again. Hidden paths and files without a
    /// segment hold no index output and are always kept.
    pub fn restore(&self, opened: &Vec<Option<Arc<SegmentReader>>>) -> (r: (
        DirtyOverlay,
        Vec<String>,
    ))
        requires
            opened@.len() == self.files_to_open(),
            forall|i: int|
                0 <= i < opened@.len() && (#[trigger] opened@[i]) is Some ==> opened@[i]->0.wf(),
        ensures
            r.0.wf(),
            r.0.removed_hex_ids@.len() == 0,
            text_views(r.0.added_paths@) == text_views(self.added_paths@),
            added_views(r.0.added@) == self.restored(opened@, opened@.len() as int),
            forall|p: Seq<char>| #[trigger]
                lists_path(r.0.removed_paths@, p) == (lists_path(self.removed_paths@, p)
                    || self.replaced(opened@, p, opened@.len() as int)),
            self.same_generation() ==> text_views(r.1@) == self.lost(opened@, opened@.len() as int),
            !self.same_generation() ==> text_views(r.1@) == paths_of(self.staged@),
    {
        let mut dirty = DirtyOverlay::new();
        dirty.removed_paths = copy_texts(&self.removed_paths);
        dirty.added_paths = copy_texts(&self.added_paths);
        let mut again: Vec<String> = Vec::new();
        proof {
            lemma_same_texts(dirty.removed_paths@, self.removed_paths@);
        }
        if self.enrich_ver != ENRICH_VER {
            let mut i: usize = 0;
            while i < self.staged.len()
                invariant
                    i <= self.staged@.len(),
                    again@.len() == i,
                    forall|k: int|
                        0 <= k < i ==> (#[trigger] again@[k])@ == self.staged@[k].source_path@,
                decreases self.staged.len() - i,
            {
                again.push(self.staged[i].source_path.clone());
                i += 1;
            }
            assert(text_views(again@) =~= paths_of(self.staged@));
            assert(added_views(dirty.added@) =~= self.restored(opened@, 0));
            return (dirty, again);
        }
        let mut j: usize = 0;
        assert(added_views(dirty.added@) =~= self.restored(opened@, 0));
        assert(text_views(again@) =~= self.lost(opened@, 0));
        while j < self.staged.len()
            invariant
                j <= self.staged@.len(),
                opened@.len() == self.staged@.len(),
                forall|i: int|
                    0 <= i < opened@.len() && (#[trigger] opened@[i]) is Some
                        ==> opened@[i]->0.wf(),
                dirty.wf(),
                dirty.removed_hex_ids@.len() == 0,
                text_views(dirty.added_paths@) == text_views(self.added_paths@),
                added_views(dirty.added@) == self.restored(opened@, j as int),
                text_views(again@) == self.lost(opened@, j as int),
                forall|p: Seq<char>| #[trigger]
                    lists_path(dirty.removed_paths@, p) == (lists_path(self.removed_paths@, p)
                        || self.replaced(opened@, p, j as int)),
            decreases self.staged.len() - j,
        {
            let ghost was = dirty;
            let ghost before = again@;
            let entry = &self.staged[j];
            proof {
                self.lemma_replaced_step(opened@, j as int);
            }
            match &opened[j] {
                Some(reader) => {
                    let ds = DirtySegment {
                        reader: Arc::clone(reader),
                        source_path: entry.source_path.clone(),
                        replaces_hex: entry.replaces_hex.clone(),
                    };
                    dirty.added.push(ds);
                    assert(added_views(dirty.added@) =~= added_views(was.added@).push(
                        (ds.reader, ds.source_path@, ds.replaces_hex@),
                    ));
                    if entry.replaces_hex.as_str().unicode_len() > 0 {
                        insert_path(&mut dirty.removed_paths, entry.source_path.clone());
                    }
                },
                None => {
                    again.push(entry.source_path.clone());
                    assert(text_views(again@) =~= text_views(before).push(entry.source_path@));
                },
            }
            j += 1;
        }
        (dirty, again)
    }

    proof fn lemma_replaced_step(&self, opened: Seq<Option<Arc<SegmentReader>>>, j: int)
        requires
            0 <= j < self.staged@.len(),
        ensures
            forall|p: Seq<char>| #[trigger]
                self.replaced(opened, p, j + 1) == (self.replaced(opened, p, j) || (
                same_path(self.staged@[j].source_path@, p) && self.staged@[j].replaces_hex@.len() > 0
                    && opened[j] is Some)),
    {
        assert forall|p: Seq<char>| #[trigger] self.replaced(opened, p, j + 1) == (self.replaced(
            opened,
            p,
            j,
        ) || (same_path(self.staged@[j].source_path@, p) && self.staged@[j].replaces_hex@.len() > 0
            && opened[j] is Some)) by {
            if self.replaced(opened, p, j + 1) {
                let i = choose|i: int|
                    0 <= i < j + 1 && same_path((#[trigger] self.staged@[i]).source_path@, p)
                        && self.staged@[i].replaces_hex@.len() > 0 && opened[i] is Some;
                if i < j {
                    assert(self.replaced(opened, p, j));
                }
            }
            if self.replaced(opened, p, j) {
                let i = choose|i: int|
                    0 <= i < j && same_path((#[trigger] self.staged@[i]).source_path@, p)
                        && self.staged@[i].replaces_hex@.len() > 0 && opened[i] is Some;
                assert(0 <= i < j + 1);
            }
        }
    }
}

/// The segments of a session: what each reads, its file, and what it replaces.
pub open spec fn added_views(v: Seq<DirtySegment>) -> Seq<
    (Arc<SegmentReader>, Seq<char>, Seq<char>),
> {
    v.map_values(|ds: DirtySegment| (ds.reader, ds.source_path@, ds.replaces_hex@))
}

/// The paths of staged entries.
pub open spec fn paths_of(v: Seq<StagedEntry>) -> Seq<Seq<char>> {
    v.map_values(|e: StagedEntry| e.source_path@)
}

fn staged_of(triples: Vec<(String, String, String)>) -> (v: Vec<StagedEntry>)
    ensures
        staged_texts(v@) == triple_views(triples@),
{
    let mut v: Vec<StagedEntry> = Vec::new();
    let mut i: usize = 0;
    while i < triples.len()
        invariant
            i <= triples@.len(),
            v@.len() == i,
            forall|k: int|
                #![trigger v@[k]]
                0 <= k < i ==> (
                    v@[k].hex_content_id@,
                    v@[k].source_path@,
                    v@[k].replaces_hex@,
                ) == (triples@[k].0@, triples@[k].1@, triples@[k].2@),
        decreases triples.len() - i,
    {
        v.push(
            StagedEntry {
                hex_content_id: triples[i].0.clone(),
                source_path: triples[i].1.clone(),
                replaces_hex: triples[i].2.clone(),
            },
        );
        i += 1;
    }
    assert(staged_texts(v@) =~= triple_views(triples@));
    v
}

fn copy_texts(v: &Vec<String>) -> (out: Vec<String>)
    ensures
        text_views(out@) == text_views(v@),
{
    let mut out: Vec<String> = Vec::new();
    let mut i: usize = 0;
    while i < v.len()
        invariant
            i <= v@.len(),
            out@.len() == i,
            forall|k: int| 0 <= k < i ==> (#[trigger] out@[k])@ == v@[k]@,
        decreases v.len() - i,
    {
        out.push(v[i].clone());
        i += 1;
    }
    assert(text_views(out@) =~= text_views(v@));
    out
}

proof fn lemma_same_texts(a: Seq<String>, b: Seq<String>)
    requires
        text_views(a) == text_views(b),
    ensures
        forall|p: Seq<char>| #[trigger] lists_path(a, p) == lists_path(b, p),
{
    assert(text_views(a).len() == a.len() && text_views(b).len() == b.len());
    assert forall|p: Seq<char>| #[trigger] lists_path(a, p) == lists_path(b, p) by {
        if lists_path(a, p) {
            let i = choose|i: int| 0 <= i < a.len() && same_path((#[trigger] a[i])@, p);
            assert(text_views(a)[i] == text_views(b)[i]);
            assert(same_path(b[i]@, p));
        }
        if lists_path(b, p) {
            let i = choose|i: int| 0 <= i < b.len() && same_path((#[trigger] b[i])@, p);
            assert(text_views(a)[i] == text_views(b)[i]);
            assert(same_path(a[i]@, p));
        }
    }
}

/// The staged files that are to be deleted: those whose names the record does not list, in the
/// order they were found.
pub open spec fn orphans(found: Seq<String>, valid: Seq<String>, n: int) -> Seq<Seq<char>>
    decreases n,
{
    if n <= 0 {
        seq![]
    } else if lists_text(valid, found[n - 1]@) {
        orphans(found, valid, n - 1)
    } else {
        orphans(found, valid, n - 1).push(found[n - 1]@)
    }
}

/// The files of a staging directory that no valid record names.
pub fn orphaned_staging(found: &Vec<String>, valid: &Vec<String>) -> (out: Vec<String>)
    ensures
        text_views(out@) == orphans(found@, valid@, found@.len() as int),
{
    let mut out: Vec<String> = Vec::new();
    let mut i: usize = 0;
    assert(text_views(out@) =~= orphans(found@, valid@, 0));
    while i < found.len()
        invariant
            i <= found@.len(),
            text_views(out@) == orphans(found@, valid@, i as int),
        decreases found.len() - i,
    {
        if !contains_text(valid, found[i].as_str()) {
            let ghost was = out@;
            out.push(found[i].clone());
            assert(text_views(out@) =~= text_views(was).push(found@[i as int]@));
        }
        i += 1;
    }
    out
}

proof fn lemma_all_restored(f: DeltaFile, dirty: DirtyOverlay, opened: Seq<Option<Arc<SegmentReader>>>, n: int)
    requires
        0 <= n <= f.staged@.len() == dirty.added@.len() == opened.len(),
        forall|i: int|
            #![trigger f.staged@[i]]
            0 <= i < f.staged@.len() ==> stages(f.staged@[i], dirty.added@[i]) && opened[i] == Some(
                dirty.added@[i].reader,
            ),
    ensures
        f.restored(opened, n) == added_views(dirty.added@).take(n),
        f.lost(opened, n).len() == 0,
    decreases n,
{
    if n > 0 {
        lemma_all_restored(f, dirty, opened, n - 1);
        assert(stages(f.staged@[n - 1], dirty.added@[n - 1]));
        assert(f.restored(opened, n) =~= added_views(dirty.added@).take(n));
    } else {
        assert(f.restored(opened, 0) =~= added_views(dirty.added@).take(0));
    }
}

/// A restart gives a session its edits back: where every staged file opens, the record of a session
/// restores each of its segments in order, loses none, and hides again every path that was hidden
/// or replaced.
pub proof fn lemma_record_restores_session(
    f: DeltaFile,
    dirty: DirtyOverlay,
    opened: Seq<Option<Arc<SegmentReader>>>,
)
    requires
        f.same_generation(),
        f.staged@.len() == dirty.added@.len(),
        opened.len() == dirty.added@.len(),
        forall|i: int|
            #![trigger f.staged@[i]]
            0 <= i < f.staged@.len() ==> stages(f.staged@[i], dirty.added@[i]) && opened[i] == Some(
                dirty.added@[i].reader,
            ),
    ensures
        f.restored(opened, opened.len() as int) == added_views(dirty.added@),
        f.lost(opened, opened.len() as int).len() == 0,
        forall|i: int|
            #![trigger dirty.added@[i]]
            0 <= i < dirty.added@.len() && dirty.added@[i].replaces_hex@.len() > 0 ==> f.replaced(
                opened,
                dirty.added@[i].source_path@,
                opened.len() as int,
            ),
{
    let n = opened.len() as int;
    lemma_all_restored(f, dirty, opened, n);
    assert(added_views(dirty.added@).take(n) =~= added_views(dirty.added@));
    assert forall|i: int|
        #![trigger dirty.added@[i]]
        0 <= i < dirty.added@.len() && dirty.added@[i].replaces_hex@.len() > 0 implies f.replaced(
        opened,
        dirty.added@[i].source_path@,
        n,
    ) by {
        assert(stages(f.staged@[i], dirty.added@[i]));
    }
}

} // verus!
