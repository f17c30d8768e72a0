//! Where a session keeps its segments and overlays, and what an index build collects.

use crate::columnar_storage::node_lookup::{join_path, joined};
use crate::digest::{path_digest, sha256_of_path};
use crate::order::{sorted_texts, texts_ascend};
use crate::paths::{parent_dir, parent_of};
use crate::segment::lists_text;
use crate::segment_builder::{build_segment, is_segment_of, SegmentBuilder, SymbolTable};
use crate::text::{
    bytes_to_hex, chars_of, decimal, hex_head, hex_of, hex_prefix, push_decimal, text_of,
};
use crate::path_parts::{is_same_path, same_path};
use vstd::prelude::*;
use vstd::string::*;
use vstd::utf8::*;

verus! {

/// The generation of index output. Segments of another generation are never mixed in.
pub const ENRICH_VER: u32 = 64;

/// The name of the delta file, in the worktree root.
pub fn delta_file_name() -> (s: &'static str)
    ensures
        s@ == ".forgeql-columnar-delta"@,
{
    ".forgeql-columnar-delta"
}

/// The name of the directory of staged segments, in the worktree root.
pub fn staging_dir_name() -> (s: &'static str)
    ensures
        s@ == ".forgeql-staging"@,
{
    ".forgeql-staging"
}

// ───────────────────────────── segment names ─────────────────────────────

/// The key of a source path: the first twelve characters of its fingerprint.
pub open spec fn path_key_text(path: Seq<char>) -> Seq<char> {
    hex_head(path_digest(path), 12)
}

/// The key of a source path, relative to the worktree root.
pub fn path_key(source_path: &str) -> (s: String)
    ensures
        s@ == path_key_text(source_path@),
{
    let digest = sha256_of_path(source_path);
    hex_prefix(digest.as_slice(), 12)
}

/// Whether a text can be fanned out by its first two characters.
pub open spec fn fans_out(hex: Seq<char>) -> bool {
    hex.len() >= 2 && is_ascii_chars(hex)
}

/// A file in a directory named by the first two characters of `hex`.
pub open spec fn fanned(hex: Seq<char>, tail: Seq<char>) -> Seq<char> {
    hex.take(2) + seq!['/'] + hex.skip(2) + tail
}

fn fan_out(hex: &str, tail: &str) -> (s: String)
    requires
        fans_out(hex@),
    ensures
        s@ == fanned(hex@, tail@),
{
    let h = chars_of(hex);
    let mut s = text_of(&h, 0, 2);
    s.push('/');
    let rest = text_of(&h, 2, h.len());
    s.append(rest.as_str());
    s.append(tail);
    assert(s@ =~= fanned(hex@, tail@));
    s
}

/// Where the segment of a file lies inside the segment store.
pub open spec fn segment_rel_text(path: Seq<char>, hex: Seq<char>) -> Seq<char> {
    fanned(hex, seq!['-'] + path_key_text(path) + ".fqsf"@)
}

/// Where the segment of a file lies inside the segment store: fanned out by content id, and told
/// apart by path, since two files can share their bytes.
pub fn segment_rel_path(source_path: &str, hex_content_id: &str) -> (s: String)
    requires
        fans_out(hex_content_id@),
    ensures
        s@ == segment_rel_text(source_path@, hex_content_id@),
{
    let mut tail = String::new();
    tail.push('-');
    let key = path_key(source_path);
    tail.append(key.as_str());
    tail.append(".fqsf");
    assert(tail@ =~= seq!['-'] + path_key_text(source_path@) + ".fqsf"@);
    fan_out(hex_content_id, tail.as_str())
}

// ───────────────────────────── build context ─────────────────────────────

/// Where a session keeps its segments and overlays.
pub struct ColumnarBuildContext {
    /// The segment store.
    pub segments_dir: String,
    /// The overlay store.
    pub overlays_dir: String,
    /// The source provider, such as `git-sha1`.
    pub provider_id: String,
}

impl ColumnarBuildContext {
    /// A context from its parts.
    pub fn new(segments_dir: String, overlays_dir: String, provider_id: String) -> (c:
        ColumnarBuildContext)
        ensures
            c.segments_dir == segments_dir,
            c.overlays_dir == overlays_dir,
            c.provider_id == provider_id,
    {
        ColumnarBuildContext { segments_dir, overlays_dir, provider_id }
    }

    /// The provider with the index generation: `git-sha1-v64`.
    pub open spec fn provider_text(&self) -> Seq<char> {
        self.provider_id@ + "-v"@ + decimal(ENRICH_VER as nat)
    }

    /// The provider with the index generation. A new generation gets directories of its own.
    pub fn versioned_provider(&self) -> (s: String)
        ensures
            s@ == self.provider_text(),
    {
        let mut s = self.provider_id.clone();
        s.append("-v");
        push_decimal(&mut s, ENRICH_VER as u64);
        assert(s@ =~= self.provider_text());
        s
    }

    /// The directory of this generation's segments.
    pub fn versioned_segments_root(&self) -> (s: String)
        ensures
            s@ == joined(self.segments_dir@, self.provider_text()),
    {
        let provider = self.versioned_provider();
        join_path(self.segments_dir.as_str(), provider.as_str())
    }

    /// The file of the segment with a content id:
    /// `<segments_dir>/<provider>-v<N>/<hex[0..2]>/<hex[2..]>.fqsf`.
    pub fn segment_path_for(&self, hex_content_id: &str) -> (s: String)
        requires
            fans_out(hex_content_id@),
        ensures
            s@ == joined(
                joined(self.segments_dir@, self.provider_text()),
                fanned(hex_content_id@, ".fqsf"@),
            ),
    {
        let root = self.versioned_segments_root();
        let name = fan_out(hex_content_id, ".fqsf");
        join_path(root.as_str(), name.as_str())
    }

    /// The file of the segment of a source path with a content id.
    pub fn segment_path_of(&self, source_path: &str, hex_content_id: &str) -> (s: String)
        requires
            fans_out(hex_content_id@),
        ensures
            s@ == joined(
                joined(self.segments_dir@, self.provider_text()),
                segment_rel_text(source_path@, hex_content_id@),
            ),
    {
        let root = self.versioned_segments_root();
        let name = segment_rel_path(source_path, hex_content_id);
        join_path(root.as_str(), name.as_str())
    }

    /// The overlay file of a snapshot:
    /// `<overlays_dir>/<provider>-v<N>/<hex[0..2]>/<hex[2..]>.bin`.
    pub fn overlay_path_for(&self, snapshot_hex: &str) -> (s: String)
        requires
            fans_out(snapshot_hex@),
        ensures
            s@ == joined(
                joined(self.overlays_dir@, self.provider_text()),
                fanned(snapshot_hex@, ".bin"@),
            ),
    {
        let provider = self.versioned_provider();
        let root = join_path(self.overlays_dir.as_str(), provider.as_str());
        let name = fan_out(snapshot_hex, ".bin");
        join_path(root.as_str(), name.as_str())
    }

    /// The chain manifest of a snapshot, beside the overlay it does not have.
    pub fn chain_manifest_path_for(&self, snapshot_hex: &str) -> (s: String)
        requires
            fans_out(snapshot_hex@),
        ensures
            s@ == joined(
                joined(self.overlays_dir@, self.provider_text()),
                fanned(snapshot_hex@, ".chain"@),
            ),
    {
        let provider = self.versioned_provider();
        let root = join_path(self.overlays_dir.as_str(), provider.as_str());
        let name = fan_out(snapshot_hex, ".chain");
        join_path(root.as_str(), name.as_str())
    }

    /// The manifest file: `manifest-<provider>-v<N>.json` beside the segment store.
    pub fn manifest_path(&self) -> (s: String)
        ensures
            s@ == joined(
                (match parent_of(self.segments_dir@) {
                    Some(dir) => dir,
                    None => seq!['.'],
                }),
                "manifest-"@ + self.provider_text() + ".json"@,
            ),
    {
        let mut name = String::new();
        name.append("manifest-");
        let provider = self.versioned_provider();
        name.append(provider.as_str());
        name.append(".json");
        assert(name@ =~= "manifest-"@ + self.provider_text() + ".json"@);
        match parent_dir(self.segments_dir.as_str()) {
            Some(dir) => join_path(dir.as_str(), name.as_str()),
            None => {
                let mut dot = String::new();
                dot.push('.');
                assert(dot@ =~= seq!['.']);
                join_path(dot.as_str(), name.as_str())
            },
        }
    }
}

// ───────────────────────────── inline builds ─────────────────────────────

/// What an index build collects while it writes segments file by file.
pub struct InlineCtxState {
    /// Source path to content id, one entry per processed file.
    pub segment_map: Vec<(String, Vec<u8>)>,
    /// The enrichment columns seen, ascending.
    pub all_columns: Vec<String>,
}

/// The content id that a segment map gives a path, from entry `i` on.
pub open spec fn mapped_from(map: Seq<(String, Vec<u8>)>, path: Seq<char>, i: int) -> Option<
    Seq<u8>,
>
    decreases map.len() - i,
{
    if i < 0 || i >= map.len() {
        None
    } else if same_path(map[i].0@, path) {
        Some(map[i].1@)
    } else {
        mapped_from(map, path, i + 1)
    }
}

/// What the build does next for one file.
pub enum EmitStep {
    /// The table holds no row of the file.
    Nothing,
    /// The file is registered; its segment belongs at this path.
    Segment(String),
}

impl InlineCtxState {
    /// Nothing collected.
    pub fn new() -> (s: InlineCtxState)
        ensures
            s.segment_map@.len() == 0,
            s.all_columns@.len() == 0,
    {
        InlineCtxState { segment_map: Vec::new(), all_columns: Vec::new() }
    }

    /// The content id registered for a path.
    pub open spec fn registered(&self, path: Seq<char>) -> Option<Seq<u8>> {
        mapped_from(self.segment_map@, path, 0)
    }

    /// Registers a file; the last content id given for a path stands, under the spelling that came
    /// first.
    pub fn register(&mut self, path: String, content_id: Vec<u8>)
        ensures
            forall|p: Seq<char>| #[trigger]
                final(self).registered(p) == (if same_path(p, path@) {
                    Some(content_id@)
                } else {
                    old(self).registered(p)
                }),
            final(self).all_columns@ == old(self).all_columns@,
    {
        let ghost was = self.segment_map@;
        let mut i: usize = 0;
        while i < self.segment_map.len()
            invariant
                self.segment_map@ == was,
                was == old(self).segment_map@,
                self.all_columns@ == old(self).all_columns@,
                i <= was.len(),
                forall|k: int| 0 <= k < i ==> !same_path((#[trigger] was[k]).0@, path@),
            decreases self.segment_map.len() - i,
        {
            if is_same_path(self.segment_map[i].0.as_str(), path.as_str()) {
                let entry = (self.segment_map[i].0.clone(), content_id);
                self.segment_map.set(i, entry);
                proof {
                    assert forall|p: Seq<char>| #[trigger] mapped_from(self.segment_map@, p, 0)
                        == (if same_path(p, path@) {
                        Some(content_id@)
                    } else {
                        mapped_from(was, p, 0)
                    }) by {
                        lemma_mapped_update(was, i as int, entry, p, 0);
                    }
                }
                return ;
            }
            i += 1;
        }
        let entry = (path, content_id);
        self.segment_map.push(entry);
        proof {
            assert forall|p: Seq<char>| #[trigger] mapped_from(self.segment_map@, p, 0) == (
            if same_path(p, path@) {
                Some(content_id@)
            } else {
                mapped_from(was, p, 0)
            }) by {
                lemma_mapped_push(was, entry, p, 0);
            }
        }
    }

    /// Adds the columns of a segment that was written.
    pub fn record_columns(&mut self, columns: &Vec<String>)
        ensures
            texts_ascend(final(self).all_columns@),
            forall|t: Seq<char>| #[trigger]
                lists_text(final(self).all_columns@, t) == (lists_text(old(self).all_columns@, t)
                    || lists_text(columns@, t)),
            final(self).segment_map@ == old(self).segment_map@,
    {
        let ghost was = self.all_columns@;
        let mut all: Vec<String> = Vec::new();
        let mut i: usize = 0;
        while i < self.all_columns.len()
            invariant
                self.all_columns@ == was,
                i <= was.len(),
                all@ == was.take(i as int),
            decreases self.all_columns.len() - i,
        {
            assert(was.take(i as int + 1) =~= was.take(i as int).push(was[i as int]));
            all.push(self.all_columns[i].clone());
            i += 1;
        }
        assert(all@ =~= was);
        let mut j: usize = 0;
        while j < columns.len()
            invariant
                j <= columns@.len(),
                all@ == was + columns@.take(j as int),
            decreases columns.len() - j,
        {
            assert(was + columns@.take(j as int + 1) =~= (was + columns@.take(j as int)).push(
                columns@[j as int],
            ));
            all.push(columns[j].clone());
            j += 1;
        }
        assert(all@ =~= was + columns@);
        self.all_columns = sorted_texts(&all);
        proof {
            assert forall|t: Seq<char>| #[trigger] lists_text(self.all_columns@, t) == (lists_text(
                was,
                t,
            ) || lists_text(columns@, t)) by {
                assert(lists_text(self.all_columns@, t) == lists_text(all@, t));
                crate::columnar_storage::node_find::lemma_lists_concat(was, columns@, t);
            }
        }
    }
}

proof fn lemma_mapped_update(
    map: Seq<(String, Vec<u8>)>,
    at: int,
    entry: (String, Vec<u8>),
    path: Seq<char>,
    i: int,
)
    requires
        0 <= i <= at < map.len(),
        entry.0@ == map[at].0@,
        forall|k: int| i <= k < at ==> !same_path((#[trigger] map[k]).0@, entry.0@),
    ensures
        mapped_from(map.update(at, entry), path, i) == (if same_path(path, entry.0@) {
            Some(entry.1@)
        } else {
            mapped_from(map, path, i)
        }),
    decreases at - i,
{
    let new = map.update(at, entry);
    if i < at {
        assert(new[i] == map[i]);
        if !same_path(map[i].0@, path) {
            lemma_mapped_update(map, at, entry, path, i + 1);
        }
    } else if !same_path(path, entry.0@) {
        lemma_mapped_same(map, new, path, i + 1);
    }
}

proof fn lemma_mapped_same(a: Seq<(String, Vec<u8>)>, b: Seq<(String, Vec<u8>)>, path: Seq<char>, i: int)
    requires
        0 <= i <= a.len(),
        a.len() == b.len(),
        forall|k: int| i <= k < a.len() ==> a[k] == b[k],
    ensures
        mapped_from(a, path, i) == mapped_from(b, path, i),
    decreases a.len() - i,
{
    if i < a.len() {
        lemma_mapped_same(a, b, path, i + 1);
    }
}

proof fn lemma_mapped_push(map: Seq<(String, Vec<u8>)>, entry: (String, Vec<u8>), path: Seq<char>, i: int)
    requires
        0 <= i <= map.len(),
        forall|k: int| i <= k < map.len() ==> !same_path((#[trigger] map[k]).0@, entry.0@),
    ensures
        mapped_from(map.push(entry), path, i) == (if same_path(path, entry.0@) {
            Some(entry.1@)
        } else {
            mapped_from(map, path, i)
        }),
    decreases map.len() - i,
{
    let new = map.push(entry);
    if i < map.len() {
        assert(new[i] == map[i]);
        if !same_path(map[i].0@, path) {
            lemma_mapped_push(map, entry, path, i + 1);
        }
    } else {
        assert(new[i] == entry);
        assert(mapped_from(new, path, i + 1) is None);
    }
}

impl ColumnarBuildContext {
    /// Registers the file whose rows stand from `start` on, and says where its segment belongs.
    ///
    /// A file is registered even where its segment was written before.
    pub fn register_emit(
        &self,
        state: &mut InlineCtxState,
        content_id: &Vec<u8>,
        table: &SymbolTable,
        start: usize,
    ) -> (step: EmitStep)
        requires
            content_id@.len() > 0,
        ensures
            final(state).all_columns@ == old(state).all_columns@,
            (match step {
                EmitStep::Nothing => start >= table.rows@.len() && forall|p: Seq<char>| #[trigger]
                    final(state).registered(p) == old(state).registered(p),
                EmitStep::Segment(path) => {
                    &&& start < table.rows@.len()
                    &&& path@ == joined(
                        joined(self.segments_dir@, self.provider_text()),
                        fanned(hex_of(content_id@), ".fqsf"@),
                    )
                    &&& forall|p: Seq<char>| #[trigger]
                        final(state).registered(p) == (if same_path(
                            p,
                            table.rows@[start as int].path@,
                        ) {
                            Some(content_id@)
                        } else {
                            old(state).registered(p)
                        })
                },
            }),
    {
        if start >= table.rows.len() {
            return EmitStep::Nothing;
        }
        let hex = bytes_to_hex(content_id.as_slice());
        proof {
            crate::build_context::lemma_hex_ascii(content_id@);
        }
        let target = self.segment_path_for(hex.as_str());
        let id = vstd::slice::slice_to_vec(content_id.as_slice());
        state.register(table.rows[start].path.clone(), id);
        EmitStep::Segment(target)
    }

    /// Builds the segment of the rows from `start` on.
    pub fn emit_segment(&self, content_id: &Vec<u8>, table: &SymbolTable, start: usize) -> (b:
        SegmentBuilder)
        requires
            start <= table.rows@.len(),
            table.rows@.len() - start <= u32::MAX,
        ensures
            b.wf(),
            b.provider_id@ == self.provider_id@,
            b.content_id@ == content_id@,
            is_segment_of(b, table.rows@, start as int),
    {
        build_segment(self.provider_id.as_str(), content_id.as_slice(), table, start)
    }
}

/// Hexadecimal is ASCII, two characters to a byte.
pub proof fn lemma_hex_ascii(bytes: Seq<u8>)
    ensures
        is_ascii_chars(hex_of(bytes)),
        hex_of(bytes).len() == bytes.len() * 2,
{
    let h = hex_of(bytes);
    assert forall|i: int| 0 <= i < h.len() implies (h[i] as u32) < 128 by {
        let b = bytes[i / 2];
        assert(b / 16 < 16 && b % 16 < 16);
    }
}

} // verus!
