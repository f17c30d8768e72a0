//! Resolving handles: whole nodes, whole files, and the handle at a line or a byte.

use crate::columnar_storage::node_lookup::{
    find_ordinal, row_of_ordinal, HandleSource, NodeSite,
};
use crate::columnar_storage::ColumnarStorage;
use crate::digest::{path_digest, sha256_of_path};
use crate::node_id::{find_char, hex_bytes, index_of_char, make_node_id, path_node_id};
use crate::order::{paths_ascend, sorted_paths};
use crate::overlay::lookup::text_views;
use crate::segment::{lists_text, opt_string, SegmentReader};
use crate::text::{bytes_to_hex, chars_of, hex_of, parse_u32, same_text, text_of, unsigned_of};
use crate::path_parts::{lemma_lists_text_path, lists_path, same_path};
use vstd::prelude::*;
use vstd::string::*;
use vstd::utf8::*;

verus! {

// ───────────────────────────── nodes ─────────────────────────────

/// What a handle resolves to.
pub enum NodeLookup {
    /// The handle has no node number: it names a whole file or directory, by this fingerprint.
    WholeFile(String),
    /// The handle names this node.
    Node(NodeSite),
    /// The handle named a node that the session has deleted.
    Gone,
    /// What follows the dot is no node number.
    InvalidOrdinal,
    /// Nothing carries the handle.
    NotFound,
}

/// A handle without the letter it opens with.
pub open spec fn handle_body(id: Seq<char>) -> Seq<char> {
    if id.len() > 0 && id[0] == 'n' {
        id.skip(1)
    } else {
        id
    }
}

impl ColumnarStorage {
    /// Whether the session's segments have the node of a handle.
    pub open spec fn dirty_finds(&self, id: Seq<char>, ordinal: u32) -> bool {
        let at = self.dirty_owner(id, ordinal, 0);
        &&& at < self.dirty.added@.len()
        &&& row_of_ordinal(*self.dirty.added@[at].reader, ordinal, 0)
            < self.dirty.added@[at].reader.rows@.len()
    }

    /// Whether segment `seg` is the one that a fingerprint prefix names, and has a node number.
    pub open spec fn committed_at(&self, prefix: Seq<char>, ordinal: u32, seg: int) -> bool {
        &&& hex_bytes(encode_utf8(prefix)) is Some
        &&& self.index().is_first_with_head(seg, hex_bytes(encode_utf8(prefix))->0)
        &&& row_of_ordinal(self.seg(seg), ordinal, 0) < self.seg(seg).rows@.len()
    }

    /// Whether `r` is what a handle resolves to.
    ///
    /// The session's segments are asked first: the numbers they give are the numbers that were
    /// shown. The overlay is asked next.
    pub open spec fn resolves(&self, id: Seq<char>, r: NodeLookup) -> bool {
        let body = handle_body(id);
        let dot = index_of_char(body, '.', 0);
        if dot >= body.len() {
            r is WholeFile && r->WholeFile_0@ == body
        } else {
            match unsigned_of(body.skip(dot + 1), u32::MAX as nat) {
                None => r is InvalidOrdinal,
                Some(n) => {
                    let ordinal = n as u32;
                    if self.dirty_finds(id, ordinal) {
                        r is Node && self.found_in_dirty(id, ordinal, Some(r->Node_0))
                    } else if exists|seg: int| #[trigger]
                        self.committed_at(body.take(dot), ordinal, seg) {
                        exists|seg: int| #[trigger]
                            self.committed_at(body.take(dot), ordinal, seg) && match r {
                                NodeLookup::Node(site) => self.found_committed(
                                    id,
                                    ordinal,
                                    seg,
                                    row_of_ordinal(self.seg(seg), ordinal, 0),
                                    Some(site),
                                ),
                                NodeLookup::Gone => self.found_committed(
                                    id,
                                    ordinal,
                                    seg,
                                    row_of_ordinal(self.seg(seg), ordinal, 0),
                                    None,
                                ),
                                _ => false,
                            }
                    } else {
                        r is NotFound
                    }
                },
            }
        }
    }

    /// Resolves a handle.
    pub fn find_node(&self, node_id: &str) -> (r: NodeLookup)
        requires
            self.wf(),
        ensures
            self.resolves(node_id@, r),
    {
        let all = chars_of(node_id);
        let from: usize = if all.len() > 0 && all[0] == 'n' {
            1
        } else {
            0
        };
        let stripped = text_of(&all, from, all.len());
        assert(stripped@ =~= handle_body(node_id@));
        let body = chars_of(stripped.as_str());
        let dot: usize = find_char(&body, '.', 0);
        if dot >= body.len() {
            return NodeLookup::WholeFile(stripped);
        }
        let prefix = text_of(&body, 0, dot);
        assert(prefix@ =~= body@.take(dot as int));
        let number = text_of(&body, dot + 1, body.len());
        assert(number@ =~= body@.skip(dot + 1));
        let ordinal: u32 = match parse_u32(number.as_str()) {
            Some(n) => n,
            None => {
                return NodeLookup::InvalidOrdinal;
            },
        };
        match self.find_node_in_dirty(node_id, ordinal) {
            Some(site) => {
                return NodeLookup::Node(site);
            },
            None => {},
        }
        assert(!self.dirty_finds(node_id@, ordinal));
        match self.shared.overlay.seg_idx_for_node_id_prefix(prefix.as_str()) {
            Some(seg_idx) => {
                let seg_idx: usize = seg_idx as usize;
                let ghost head = hex_bytes(encode_utf8(prefix@))->0;
                assert(self.index().is_first_with_head(seg_idx as int, head));
                let seg = &*self.shared.segments[seg_idx];
                assert(self.shared.segments@[seg_idx as int].wf());
                match self.row_with_ordinal(seg_idx, ordinal) {
                    Some(row) => {
                        assert(self.committed_at(prefix@, ordinal, seg_idx as int));
                        match self.build_committed_node_result(node_id, ordinal, seg_idx, row) {
                            Some(site) => NodeLookup::Node(site),
                            None => NodeLookup::Gone,
                        }
                    },
                    None => {
                        proof {
                            assert forall|other: int| !#[trigger] self.committed_at(
                                prefix@,
                                ordinal,
                                other,
                            ) by {
                                if self.committed_at(prefix@, ordinal, other) {
                                    self.lemma_first_with_head_unique(
                                        head,
                                        seg_idx as int,
                                        other,
                                    );
                                }
                            }
                        }
                        NodeLookup::NotFound
                    },
                }
            },
            None => NodeLookup::NotFound,
        }
    }

    fn row_with_ordinal(&self, seg_idx: usize, ordinal: u32) -> (r: Option<u32>)
        requires
            self.wf(),
            seg_idx < self.seg_count(),
        ensures
            (match r {
                Some(i) => i < self.seg(seg_idx as int).rows@.len() && i == row_of_ordinal(
                    self.seg(seg_idx as int),
                    ordinal,
                    0,
                ),
                None => row_of_ordinal(self.seg(seg_idx as int), ordinal, 0) == self.seg(
                    seg_idx as int,
                ).rows@.len(),
            }),
    {
        assert(self.shared.segments@[seg_idx as int].wf());
        find_ordinal(
            &*self.shared.segments[seg_idx],
            ordinal,
        )
    }

    proof fn lemma_first_with_head_unique(&self, head: Seq<u8>, a: int, b: int)
        requires
            self.index().is_first_with_head(a, head),
            self.index().is_first_with_head(b, head),
        ensures
            a == b,
    {
        if a != b {
            let overlay = self.index();
            let table = crate::overlay::SegmentsByDigest { segments: &overlay.segments };
            assert(overlay.digest_starts(a, head));
            assert(overlay.digest_starts(b, head));
            crate::sort::lemma_sorts_before_total(&table, a, b);
        }
    }
}

// ───────────────────────────── whole files ─────────────────────────────

/// Whether the fingerprint of a path starts with hexadecimal text.
pub open spec fn path_has_hex(path: Seq<char>, hex: Seq<char>) -> bool {
    let full = hex_of(path_digest(path));
    hex.len() <= full.len() && full.take(hex.len() as int) == hex
}

/// Whether the fingerprint of a path starts with hexadecimal text.
pub fn path_matches_hex(path: &str, hex: &str) -> (r: bool)
    ensures
        r == path_has_hex(path@, hex@),
{
    let digest = sha256_of_path(path);
    let full = bytes_to_hex(digest.as_slice());
    let f = chars_of(full.as_str());
    let h = chars_of(hex);
    if h.len() > f.len() {
        return false;
    }
    let head = text_of(&f, 0, h.len());
    assert(head@ =~= f@.take(h@.len() as int));
    same_text(head.as_str(), hex)
}

/// What a whole-file handle resolves to, as far as the index knows.
pub enum PathLookup {
    /// No indexed file has the fingerprint: the worktree has to be searched.
    Unindexed,
    /// One file has it.
    File(String),
    /// Several have it; which is meant is not guessed.
    Ambiguous(Vec<String>),
}

impl ColumnarStorage {
    /// Whether an indexed path has a fingerprint that starts with hexadecimal text: a file of the
    /// session, of the overlay's segments, or of its list of other files.
    pub open spec fn indexed_with_hex(&self, hex: Seq<char>, path: Seq<char>) -> bool {
        ||| exists|i: int|
            0 <= i < self.dirty.added@.len() && (#[trigger] self.dirty.added@[i]).source_path@
                == path && path_has_hex(path, hex)
        ||| hex_bytes(encode_utf8(hex)) is Some && self.index().paths_with_head(
            hex_bytes(encode_utf8(hex))->0,
        ).contains(path)
        ||| exists|i: int|
            0 <= i < self.index().file_entries@.len() && (
            #[trigger] self.index().file_entries@[i]).0@ == path && path_has_hex(path, hex)
    }

    /// The indexed paths whose fingerprint starts with hexadecimal text, ascending.
    pub fn indexed_paths_for_hex(&self, hex: &str) -> (out: Vec<String>)
        requires
            self.wf(),
        ensures
            paths_ascend(out@),
            forall|i: int|
                0 <= i < out@.len() ==> self.indexed_with_hex(hex@, (#[trigger] out@[i])@),
            forall|p: Seq<char>| #[trigger]
                self.indexed_with_hex(hex@, p) ==> lists_path(out@, p),
    {
        let mut hits: Vec<String> = Vec::new();
        let mut i: usize = 0;
        while i < self.dirty.added.len()
            invariant
                i <= self.dirty.added@.len(),
                forall|p: Seq<char>| #[trigger]
                    lists_text(hits@, p) == (exists|k: int|
                        0 <= k < i && (#[trigger] self.dirty.added@[k]).source_path@ == p
                            && path_has_hex(p, hex@)),
            decreases self.dirty.added.len() - i,
        {
            let path = &self.dirty.added[i].source_path;
            let ghost was = hits@;
            let hit = path_matches_hex(path.as_str(), hex);
            if hit {
                hits.push(path.clone());
            }
            proof {
                lemma_lists_push(was, *path, hits@, hit);
                assert forall|p: Seq<char>| #[trigger] lists_text(hits@, p) == (exists|k: int|
                    0 <= k < i + 1 && (#[trigger] self.dirty.added@[k]).source_path@ == p
                        && path_has_hex(p, hex@)) by {
                    if lists_text(was, p) {
                        let k = choose|k: int|
                            0 <= k < i && (#[trigger] self.dirty.added@[k]).source_path@ == p
                                && path_has_hex(p, hex@);
                        assert(k < i + 1);
                    }
                    if hit && p == path@ {
                        assert(self.dirty.added@[i as int].source_path@ == p);
                    }
                }
            }
            i += 1;
        }
        let ghost first = hits@;
        let mut more = self.shared.overlay.seg_paths_for_node_id_prefix(hex);
        let ghost second = more@;
        hits.append(&mut more);
        proof {
            assert forall|p: Seq<char>| lists_text(second, p) == (hex_bytes(
                encode_utf8(hex@),
            ) is Some && self.index().paths_with_head(hex_bytes(encode_utf8(hex@))->0).contains(
                p,
            )) by {
                lemma_lists_views(second, p);
            }
            assert forall|p: Seq<char>| #[trigger] lists_text(hits@, p) == (lists_text(first, p)
                || lists_text(second, p)) by {
                lemma_lists_concat(first, second, p);
            }
        }
        let ghost both = hits@;
        let files = &self.shared.overlay.file_entries;
        let mut j: usize = 0;
        while j < files.len()
            invariant
                files@ == self.index().file_entries@,
                j <= files@.len(),
                forall|p: Seq<char>| #[trigger]
                    lists_text(hits@, p) == (lists_text(both, p) || exists|k: int|
                        0 <= k < j && (#[trigger] files@[k]).0@ == p && path_has_hex(p, hex@)),
            decreases files.len() - j,
        {
            let path = &files[j].0;
            let ghost was = hits@;
            let hit = path_matches_hex(path.as_str(), hex);
            if hit {
                hits.push(path.clone());
            }
            proof {
                lemma_lists_push(was, *path, hits@, hit);
                assert forall|p: Seq<char>| #[trigger] lists_text(hits@, p) == (lists_text(both, p)
                    || exists|k: int|
                    0 <= k < j + 1 && (#[trigger] files@[k]).0@ == p && path_has_hex(
                        p,
                        hex@,
                    )) by {
                    if lists_text(was, p) && !lists_text(both, p) {
                        let k = choose|k: int|
                            0 <= k < j && (#[trigger] files@[k]).0@ == p && path_has_hex(p, hex@);
                        assert(k < j + 1);
                    }
                    if hit && p == path@ {
                        assert(files@[j as int].0@ == p);
                    }
                }
            }
            j += 1;
        }
        let out = sorted_paths(&hits);
        proof {
            assert forall|p: Seq<char>| lists_text(hits@, p) == #[trigger] self.indexed_with_hex(
                hex@,
                p,
            ) by {
                assert(lists_text(both, p) == (lists_text(first, p) || lists_text(second, p)));
            }
            assert forall|i: int| 0 <= i < out@.len() implies self.indexed_with_hex(
                hex@,
                (#[trigger] out@[i])@,
            ) by {
                assert(lists_text(hits@, out@[i]@));
            }
            assert forall|p: Seq<char>| #[trigger] self.indexed_with_hex(hex@, p) implies lists_path(
                out@,
                p,
            ) by {
                assert(lists_text(hits@, p));
                lemma_lists_text_path(hits@, p);
                assert(lists_path(out@, p) == lists_path(hits@, p));
            }
        }
        out
    }

    /// What a whole-file handle resolves to: the one indexed file with its fingerprint, a refusal
    /// where there are several, or the worktree where there is none.
    pub fn find_path_node(&self, hex: &str) -> (r: PathLookup)
        requires
            self.wf(),
        ensures
            (match r {
                PathLookup::Unindexed => forall|p: Seq<char>| !#[trigger] self.indexed_with_hex(
                    hex@,
                    p,
                ),
                PathLookup::File(path) => self.indexed_with_hex(hex@, path@) && forall|
                    p: Seq<char>,
                | #[trigger]
                    self.indexed_with_hex(hex@, p) ==> same_path(p, path@),
                PathLookup::Ambiguous(paths) => {
                    &&& paths@.len() > 1
                    &&& paths_ascend(paths@)
                    &&& forall|i: int|
                        0 <= i < paths@.len() ==> self.indexed_with_hex(
                            hex@,
                            (#[trigger] paths@[i])@,
                        )
                    &&& forall|p: Seq<char>| #[trigger]
                        self.indexed_with_hex(hex@, p) ==> lists_path(paths@, p)
                },
            }),
    {
        let mut hits = self.indexed_paths_for_hex(hex);
        if hits.len() == 0 {
            assert forall|p: Seq<char>| !#[trigger] self.indexed_with_hex(hex@, p) by {
                assert(!lists_path(hits@, p));
            }
            return PathLookup::Unindexed;
        }
        if hits.len() > 1 {
            return PathLookup::Ambiguous(hits);
        }
        let ghost all = hits@;
        let path = hits[0].clone();
        assert(self.indexed_with_hex(hex@, all[0]@));
        assert forall|p: Seq<char>| #[trigger] self.indexed_with_hex(hex@, p) implies same_path(
            p,
            path@,
        ) by {
            assert(lists_path(all, p));
            let k = choose|k: int| 0 <= k < all.len() && same_path((#[trigger] all[k])@, p);
            assert(k == 0);
        }
        PathLookup::File(path)
    }
}

pub proof fn lemma_lists_push(was: Seq<String>, t: String, now: Seq<String>, pushed: bool)
    requires
        now == (if pushed { was.push(t) } else { was }),
    ensures
        forall|p: Seq<char>| #[trigger]
            lists_text(now, p) == (lists_text(was, p) || (pushed && p == t@)),
{
    assert forall|p: Seq<char>| #[trigger] lists_text(now, p) == (lists_text(was, p) || (pushed && p
        == t@)) by {
        if lists_text(was, p) {
            let k = choose|k: int| 0 <= k < was.len() && (#[trigger] was[k])@ == p;
            assert(now[k]@ == p);
        }
        if pushed && p == t@ {
            assert(now[was.len() as int]@ == p);
        }
        if lists_text(now, p) {
            let k = choose|k: int| 0 <= k < now.len() && (#[trigger] now[k])@ == p;
            if k < was.len() {
                assert(was[k]@ == p);
            }
        }
    }
}

pub proof fn lemma_lists_concat(a: Seq<String>, b: Seq<String>, p: Seq<char>)
    ensures
        lists_text(a + b, p) == (lists_text(a, p) || lists_text(b, p)),
{
    if lists_text(a, p) {
        let k = choose|k: int| 0 <= k < a.len() && (#[trigger] a[k])@ == p;
        assert((a + b)[k]@ == p);
    }
    if lists_text(b, p) {
        let k = choose|k: int| 0 <= k < b.len() && (#[trigger] b[k])@ == p;
        assert((a + b)[a.len() + k]@ == p);
    }
    if lists_text(a + b, p) {
        let k = choose|k: int| 0 <= k < (a + b).len() && (#[trigger] (a + b)[k])@ == p;
        if k < a.len() {
            assert(a[k]@ == p);
        } else {
            assert(b[k - a.len()]@ == p);
        }
    }
}

proof fn lemma_lists_views(v: Seq<String>, p: Seq<char>)
    ensures
        lists_text(v, p) == text_views(v).contains(p),
{
    if lists_text(v, p) {
        let k = choose|k: int| 0 <= k < v.len() && (#[trigger] v[k])@ == p;
        assert(text_views(v)[k] == p);
    }
    if text_views(v).contains(p) {
        let k = choose|k: int| 0 <= k < text_views(v).len() && text_views(v)[k] == p;
        assert(v[k]@ == p);
    }
}

// ───────────────────────────── handles at a place ─────────────────────────────

/// The first row, from `i` on, that starts on a line; the number of rows where none does.
pub open spec fn row_on_line(seg: SegmentReader, line: int, i: int) -> int
    decreases seg.rows@.len() - i,
{
    if i < 0 || i >= seg.rows@.len() {
        seg.rows@.len() as int
    } else if seg.rows@[i].line == line {
        i
    } else {
        row_on_line(seg, line, i + 1)
    }
}

fn find_on_line(seg: &SegmentReader, line: usize) -> (r: Option<u32>)
    requires
        seg.wf(),
    ensures
        (match r {
            Some(i) => i < seg.rows@.len() && i == row_on_line(*seg, line as int, 0),
            None => row_on_line(*seg, line as int, 0) == seg.rows@.len(),
        }),
{
    let n: u32 = seg.row_count();
    let mut i: u32 = 0;
    while i < n
        invariant
            n == seg.rows@.len(),
            i <= n,
            row_on_line(*seg, line as int, 0) == row_on_line(*seg, line as int, i as int),
        decreases n - i,
    {
        if seg.rows[i as usize].line as usize == line {
            return Some(i);
        }
        i += 1;
    }
    None
}

/// Whether row `r` is a node whose bytes hold an offset.
pub open spec fn covers_byte(seg: SegmentReader, r: int, byte: int) -> bool {
    let row = seg.rows@[r];
    &&& row.ordinal is Some
    &&& row.byte_end != 0
    &&& row.byte_start <= byte < row.byte_end
}

/// How many bytes row `r` has.
pub open spec fn row_bytes(seg: SegmentReader, r: int) -> int {
    seg.rows@[r].byte_end - seg.rows@[r].byte_start
}

/// Whether `r` is, among the first `n` rows, the smallest node that holds a byte, the first of
/// those as small.
pub open spec fn is_smallest_at(seg: SegmentReader, byte: int, n: int, r: int) -> bool {
    &&& 0 <= r < n
    &&& covers_byte(seg, r, byte)
    &&& forall|q: int|
        0 <= q < n && #[trigger] covers_byte(seg, q, byte) ==> row_bytes(seg, r) < row_bytes(seg, q)
            || (row_bytes(seg, r) == row_bytes(seg, q) && r <= q)
}

fn find_at_byte(seg: &SegmentReader, byte: usize) -> (r: Option<u32>)
    requires
        seg.wf(),
    ensures
        (match r {
            Some(i) => is_smallest_at(*seg, byte as int, seg.rows@.len() as int, i as int),
            None => forall|q: int|
                0 <= q < seg.rows@.len() ==> !#[trigger] covers_byte(*seg, q, byte as int),
        }),
{
    let n: u32 = seg.row_count();
    let mut best: Option<u32> = None;
    let mut i: u32 = 0;
    while i < n
        invariant
            seg.wf(),
            n == seg.rows@.len(),
            i <= n,
            (match best {
                Some(b) => is_smallest_at(*seg, byte as int, i as int, b as int),
                None => forall|q: int|
                    0 <= q < i ==> !#[trigger] covers_byte(*seg, q, byte as int),
            }),
        decreases n - i,
    {
        let row = &seg.rows[i as usize];
        let start: usize = row.byte_start as usize;
        let end: usize = row.byte_end as usize;
        if row.ordinal.is_some() && end != 0 && start <= byte && byte < end {
            assert(covers_byte(*seg, i as int, byte as int));
            let smaller = match best {
                Some(b) => {
                    let held = &seg.rows[b as usize];
                    end - start < held.byte_end as usize - held.byte_start as usize
                },
                None => true,
            };
            if smaller {
                best = Some(i);
            }
        }
        i += 1;
    }
    best
}

impl ColumnarStorage {
    /// The handle of the first node that starts on a line of a file.
    ///
    /// The session's segment answers where there is one.
    pub open spec fn id_at_line(&self, path: Seq<char>, line: int) -> Option<Seq<char>> {
        let at = self.dirty.spelled_at(path, 0);
        let seg = self.seg_spelled(path, 0);
        if at < self.dirty.added@.len() {
            let reader = *self.dirty.added@[at].reader;
            let row = row_on_line(reader, line, 0);
            if row < reader.rows@.len() && reader.rows@[row].ordinal is Some {
                Some(path_node_id(path, reader.rows@[row].ordinal->0 as nat))
            } else {
                None
            }
        } else if seg < self.index().segments@.len() {
            let reader = self.seg(seg);
            let row = row_on_line(reader, line, 0);
            if row < reader.rows@.len() {
                let ordinal: nat = match reader.rows@[row].ordinal {
                    Some(o) => o as nat,
                    None => 0,
                };
                Some(self.index().segments@[seg].handle(ordinal))
            } else {
                None
            }
        } else {
            None
        }
    }

    /// The handle of the first node that starts on a line of a file.
    pub fn find_node_id_at_line(&self, rel_path: &str, line: usize) -> (r: Option<String>)
        requires
            self.wf(),
        ensures
            opt_string(r) == self.id_at_line(rel_path@, line as int),
    {
        match self.dirty.find_spelled(rel_path) {
            Some(at) => {
                let reader = &*self.dirty.added[at].reader;
                assert(self.dirty.added@[at as int].reader.wf());
                match find_on_line(reader, line) {
                    Some(row) => match reader.rows[row as usize].ordinal {
                        Some(ordinal) => Some(make_node_id(rel_path, ordinal)),
                        None => None,
                    },
                    None => None,
                }
            },
            None => match self.find_spelled_segment(rel_path) {
                Some(seg) => {
                    let reader = &*self.shared.segments[seg];
                    assert(self.shared.segments@[seg as int].wf());
                    match find_on_line(reader, line) {
                        Some(row) => {
                            let ordinal: u32 = match reader.rows[row as usize].ordinal {
                                Some(o) => o,
                                None => 0,
                            };
                            Some(self.shared.overlay.segments[seg].node_id(ordinal))
                        },
                        None => None,
                    }
                },
                None => None,
            },
        }
    }

    /// Whether `r` is the handle of the smallest node of a segment that holds a byte, or nothing
    /// where none does.
    pub open spec fn names_byte(&self, reader: SegmentReader, handles: HandleSource, byte: int, r: Option<Seq<char>>) -> bool {
        match r {
            Some(id) => exists|row: int| #[trigger]
                is_smallest_at(reader, byte, reader.rows@.len() as int, row) && id == handles.text(
                    reader.rows@[row].ordinal->0 as nat,
                ),
            None => forall|q: int|
                0 <= q < reader.rows@.len() ==> !#[trigger] covers_byte(reader, q, byte),
        }
    }

    /// The handle of the smallest node of a file that holds a byte.
    ///
    /// The session's segment answers where there is one.
    pub fn find_node_id_at_byte(&self, rel_path: &str, byte: usize) -> (r: Option<String>)
        requires
            self.wf(),
        ensures
            ({
                let at = self.dirty.spelled_at(rel_path@, 0);
                let seg = self.seg_spelled(rel_path@, 0);
                if at < self.dirty.added@.len() {
                    self.names_byte(
                        *self.dirty.added@[at].reader,
                        HandleSource::OfPath(rel_path@),
                        byte as int,
                        opt_string(r),
                    )
                } else if seg < self.index().segments@.len() {
                    self.names_byte(
                        self.seg(seg),
                        HandleSource::OfSegment(
                            self.index().segments@[seg],
                        ),
                        byte as int,
                        opt_string(r),
                    )
                } else {
                    r is None
                }
            }),
    {
        match self.dirty.find_spelled(rel_path) {
            Some(at) => {
                let reader = &*self.dirty.added[at].reader;
                assert(self.dirty.added@[at as int].reader.wf());
                match find_at_byte(reader, byte) {
                    Some(row) => match reader.rows[row as usize].ordinal {
                        Some(ordinal) => Some(make_node_id(rel_path, ordinal)),
                        None => None,
                    },
                    None => None,
                }
            },
            None => match self.find_spelled_segment(rel_path) {
                Some(seg) => {
                    let reader = &*self.shared.segments[seg];
                    assert(self.shared.segments@[seg as int].wf());
                    match find_at_byte(reader, byte) {
                        Some(row) => match reader.rows[row as usize].ordinal {
                            Some(ordinal) => Some(
                                self.shared.overlay.segments[seg].node_id(ordinal),
                            ),
                            None => None,
                        },
                        None => None,
                    }
                },
                None => None,
            },
        }
    }
}

} // verus!
