//! Indexing a changed file again, in the session that changed it.
//!
//! The new rows replace the old ones by path, and take over the node numbers of the rows they
//! succeed: the hints say which numbers the last version of the file used, and for what.

use crate::columnar_storage::ColumnarStorage;
use crate::delta_file::{staged_name, staged_segment_path};
use crate::digest::{git_blob, git_blob_sha1, sha1_digest};
use crate::dirty_overlay::DirtySegment;
use crate::filter::opt_text;
use crate::overlay::format::SegmentMeta;
use crate::paths::{relative_to, segment_source_rel};
use crate::segment::{opt_string, SegmentReader};
use crate::text::{bytes_to_hex, hex_of};
use crate::columnar_storage::node_lookup::joined;
use std::sync::Arc;
use crate::path_parts::{lists_path, same_path};
use vstd::prelude::*;
use vstd::string::*;

verus! {

/// What is known of a row of the last version of a file, by which its number is found again.
#[derive(Debug)]
pub struct OrdinalHint {
    pub name: String,
    pub fql_kind: String,
    pub parent_ordinal: u32,
    pub guard_group_id: Option<String>,
    pub guard_branch: Option<String>,
    pub first_body_statement_fingerprint: Option<String>,
    pub content_hash: Option<String>,
    pub ordinal: u32,
}

/// Whether a hint is that of row `r` of a segment.
pub open spec fn is_hint(h: OrdinalHint, seg: SegmentReader, r: int) -> bool {
    &&& seg.rows@[r].ordinal == Some(h.ordinal)
    &&& h.name@ == seg.rows@[r].name@
    &&& h.fql_kind@ == seg.rows@[r].fql_kind@
    &&& h.parent_ordinal == seg.rows@[r].parent_ordinal
    &&& opt_string(h.guard_group_id) == seg.extra("guard_group_id"@, r)
    &&& opt_string(h.guard_branch) == seg.extra("guard_branch"@, r)
    &&& opt_string(h.first_body_statement_fingerprint) == seg.extra(
        "first_body_statement_fingerprint"@,
        r,
    )
    &&& opt_string(h.content_hash) == seg.extra("content_hash"@, r)
}

/// The rows among the first `n` that have a number.
pub open spec fn numbered(seg: SegmentReader, n: int) -> Seq<int>
    decreases n,
{
    if n <= 0 {
        seq![]
    } else if seg.rows@[n - 1].ordinal is Some {
        numbered(seg, n - 1).push(n - 1)
    } else {
        numbered(seg, n - 1)
    }
}

/// Whether hints are those of the numbered rows of a segment, in its order.
pub open spec fn are_hints(hints: Seq<OrdinalHint>, seg: SegmentReader) -> bool {
    let rows = numbered(seg, seg.rows@.len() as int);
    hints.len() == rows.len() && forall|i: int|
        0 <= i < hints.len() ==> is_hint(#[trigger] hints[i], seg, rows[i])
}

fn owned(s: Option<&str>) -> (r: Option<String>)
    ensures
        opt_string(r) == opt_text(s),
{
    match s {
        Some(t) => Some(t.to_owned()),
        None => None,
    }
}

fn hints_of(seg: &SegmentReader) -> (hints: Vec<OrdinalHint>)
    requires
        seg.wf(),
    ensures
        are_hints(hints@, *seg),
{
    let mut hints: Vec<OrdinalHint> = Vec::new();
    let n: u32 = seg.row_count();
    let mut r: u32 = 0;
    while r < n
        invariant
            seg.wf(),
            r <= n,
            n == seg.rows@.len(),
            hints@.len() == numbered(*seg, r as int).len(),
            forall|i: int|
                0 <= i < hints@.len() ==> is_hint(
                    #[trigger] hints@[i],
                    *seg,
                    numbered(*seg, r as int)[i],
                ),
        decreases n - r,
    {
        match seg.rows[r as usize].ordinal {
            Some(ordinal) => {
                hints.push(
                    OrdinalHint {
                        name: seg.rows[r as usize].name.clone(),
                        fql_kind: seg.rows[r as usize].fql_kind.clone(),
                        parent_ordinal: seg.rows[r as usize].parent_ordinal,
                        guard_group_id: owned(seg.extra_field_str("guard_group_id", r)),
                        guard_branch: owned(seg.extra_field_str("guard_branch", r)),
                        first_body_statement_fingerprint: owned(
                            seg.extra_field_str("first_body_statement_fingerprint", r),
                        ),
                        content_hash: owned(seg.extra_field_str("content_hash", r)),
                        ordinal,
                    },
                );
            },
            None => {},
        }
        r += 1;
    }
    hints
}

/// What is known of a file before it is indexed again.
pub struct ReindexStart {
    /// The file, relative to the worktree root.
    pub rel_path: String,
    /// The numbered rows of its last version.
    pub hints: Vec<OrdinalHint>,
    /// The content id of its persistent segment; empty where it has none.
    pub replaces_hex: String,
}

/// What is found where a file should be.
pub enum FileState {
    /// Nothing.
    Missing,
    /// A file that no language claims.
    Unclaimed,
    /// The bytes of a source file.
    Source(Vec<u8>),
}

/// What indexing a file again takes.
pub enum ReindexTask {
    /// Nothing: the file is gone.
    Gone,
    /// Nothing: the file has no rows, and is recorded by its path.
    Unclaimed,
    /// A segment with this content id, in this file. Where the file holds one already it is used
    /// as it is.
    Stage { content_id: Vec<u8>, path: String },
}

impl ColumnarStorage {
    /// The text of a file's persistent content id; empty where it has none.
    pub open spec fn replaced_hex(&self, path: Seq<char>) -> Seq<char> {
        match self.stored_hex(path) {
            Some(hex) => hex,
            None => seq![],
        }
    }

    /// The last version of a file: that of the session, else that of the overlay.
    pub open spec fn last_version(&self, path: Seq<char>) -> Option<SegmentReader> {
        let at = self.dirty.position_of(path, 0);
        let seg = self.seg_position(path, 0);
        if at < self.dirty.added@.len() {
            Some(*self.dirty.added@[at].reader)
        } else if seg < self.index().segments@.len() {
            Some(self.seg(seg))
        } else {
            None
        }
    }

    /// The numbered rows of the last version of a file.
    pub fn build_ordinal_hints(&self, rel_path: &str) -> (hints: Vec<OrdinalHint>)
        requires
            self.wf(),
        ensures
            (match self.last_version(rel_path@) {
                Some(seg) => are_hints(hints@, seg),
                None => hints@.len() == 0,
            }),
    {
        match self.dirty.find_path(rel_path) {
            Some(at) => {
                assert(self.dirty.added@[at as int].reader.wf());
                return hints_of(&*self.dirty.added[at].reader);
            },
            None => {},
        }
        match self.find_segment(rel_path) {
            Some(at) => {
                assert(self.shared.segments@[at as int].wf());
                hints_of(&*self.shared.segments[at])
            },
            None => Vec::new(),
        }
    }

    /// Begins to index a file again: notes what its last version was, then hides its persistent
    /// segment and takes its segment of the session out.
    pub fn begin_reindex(&mut self, path: &str) -> (start: ReindexStart)
        requires
            old(self).wf(),
        ensures
            final(self).wf(),
            final(self).shared == old(self).shared,
            final(self).worktree_root == old(self).worktree_root,
            final(self).master_commit == old(self).master_commit,
            final(self).pending_reindex == old(self).pending_reindex,
            start.rel_path@ == relative_to(path@, old(self).worktree_root@),
            start.replaces_hex@ == old(self).replaced_hex(start.rel_path@),
            (match old(self).last_version(start.rel_path@) {
                Some(seg) => are_hints(start.hints@, seg),
                None => start.hints@.len() == 0,
            }),
            forall|p: Seq<char>| #[trigger]
                lists_path(final(self).dirty.removed_paths@, p) == (lists_path(
                    old(self).dirty.removed_paths@,
                    p,
                ) || (same_path(p, start.rel_path@) && start.replaces_hex@.len() > 0)),
            final(self).dirty.removed_hex_ids@ == old(self).dirty.removed_hex_ids@,
            final(self).dirty.added_paths@ == old(self).dirty.added_paths@,
            final(self).dirty.added@ == ({
                let at = old(self).dirty.position_of(start.rel_path@, 0);
                if at < old(self).dirty.added@.len() {
                    old(self).dirty.added@.remove(at)
                } else {
                    old(self).dirty.added@
                }
            }),
    {
        let rel_path = segment_source_rel(path, self.worktree_root.as_str());
        let hints = self.build_ordinal_hints(rel_path.as_str());
        let replaces_hex: String = match self.path_to_hex_content_id(rel_path.as_str()) {
            Some(hex) => hex,
            None => {
                let none = String::new();
                assert(none@ =~= seq![]);
                none
            },
        };
        if replaces_hex.as_str().unicode_len() > 0 {
            self.dirty.hide_path(rel_path.clone());
        }
        let ghost mid = self.dirty;
        assert(mid.added@ == old(self).dirty.added@);
        proof {
            lemma_same_position(mid.added@, old(self).dirty, mid, rel_path@, 0);
        }
        let _stale = self.dirty.remove_stale_for_path(rel_path.as_str());
        ReindexStart { rel_path, hints, replaces_hex }
    }

    /// What indexing a file again takes, by what is found in its place.
    pub fn reindex_task(&self, start: &ReindexStart, file: &FileState, staging_dir: &str) -> (t:
        ReindexTask)
        ensures
            (match file {
                FileState::Missing => t is Gone,
                FileState::Unclaimed => t is Unclaimed,
                FileState::Source(bytes) => t is Stage && t->content_id@ == sha1_digest(
                    git_blob(bytes@),
                ) && t->path@ == joined(
                    staging_dir@,
                    staged_name(start.rel_path@, hex_of(t->content_id@)),
                ),
            }),
    {
        match file {
            FileState::Missing => ReindexTask::Gone,
            FileState::Unclaimed => ReindexTask::Unclaimed,
            FileState::Source(bytes) => {
                let id = git_blob_sha1(bytes.as_slice());
                let hex = bytes_to_hex(id.as_slice());
                let path = staged_segment_path(staging_dir, start.rel_path.as_str(), hex.as_str());
                ReindexTask::Stage { content_id: vstd::slice::slice_to_vec(id.as_slice()), path }
            },
        }
    }

    /// Adds the new rows of a file.
    pub fn finish_reindex(&mut self, start: ReindexStart, reader: Arc<SegmentReader>)
        requires
            old(self).wf(),
            reader.wf(),
        ensures
            final(self).wf(),
            final(self).shared == old(self).shared,
            final(self).worktree_root == old(self).worktree_root,
            final(self).master_commit == old(self).master_commit,
            final(self).pending_reindex == old(self).pending_reindex,
            final(self).dirty.added@ == old(self).dirty.added@.push(
                (DirtySegment {
                    reader: reader,
                    source_path: start.rel_path,
                    replaces_hex: start.replaces_hex,
                }),
            ),
            final(self).dirty.removed_hex_ids@ == old(self).dirty.removed_hex_ids@,
            final(self).dirty.removed_paths@ == old(self).dirty.removed_paths@,
            final(self).dirty.added_paths@ == old(self).dirty.added_paths@,
    {
        let ReindexStart { rel_path, hints, replaces_hex } = start;
        let ghost was = self.dirty.added@;
        self.dirty.added.push(DirtySegment { reader, source_path: rel_path, replaces_hex });
        assert(self.dirty.wf()) by {
            assert forall|k: int| 0 <= k < self.dirty.added@.len() implies (
            #[trigger] self.dirty.added@[k]).reader.wf() by {
                if k < was.len() {
                    assert(was[k].reader.wf());
                }
            }
        }
    }

    /// Records a file that no language claims.
    pub fn record_unclaimed(&mut self, start: ReindexStart)
        requires
            old(self).wf(),
        ensures
            final(self).wf(),
            final(self).shared == old(self).shared,
            final(self).worktree_root == old(self).worktree_root,
            final(self).master_commit == old(self).master_commit,
            final(self).pending_reindex == old(self).pending_reindex,
            final(self).dirty.added@ == old(self).dirty.added@,
            final(self).dirty.removed_hex_ids@ == old(self).dirty.removed_hex_ids@,
            final(self).dirty.removed_paths@ == old(self).dirty.removed_paths@,
            forall|p: Seq<char>| #[trigger]
                lists_path(final(self).dirty.added_paths@, p) == (lists_path(
                    old(self).dirty.added_paths@,
                    p,
                ) || same_path(p, start.rel_path@)),
    {
        self.dirty.touch_path(start.rel_path);
    }

    /// Drops a deleted file: its persistent segment is hidden, its segment of the session goes.
    pub fn purge_file(&mut self, path: &str)
        requires
            old(self).wf(),
        ensures
            final(self).wf(),
            final(self).shared == old(self).shared,
            final(self).worktree_root == old(self).worktree_root,
            final(self).master_commit == old(self).master_commit,
            final(self).pending_reindex == old(self).pending_reindex,
            final(self).dirty.removed_hex_ids@ == old(self).dirty.removed_hex_ids@,
            final(self).dirty.added_paths@ == old(self).dirty.added_paths@,
            ({
                let rel = relative_to(path@, old(self).worktree_root@);
                let at = old(self).dirty.position_of(rel, 0);
                &&& forall|p: Seq<char>| #[trigger]
                    lists_path(final(self).dirty.removed_paths@, p) == (lists_path(
                        old(self).dirty.removed_paths@,
                        p,
                    ) || (same_path(p, rel) && old(self).stored_hex(rel) is Some))
                &&& final(self).dirty.added@ == (if at < old(self).dirty.added@.len() {
                    old(self).dirty.added@.remove(at)
                } else {
                    old(self).dirty.added@
                })
            }),
    {
        let rel_path = segment_source_rel(path, self.worktree_root.as_str());
        match self.path_to_hex_content_id(rel_path.as_str()) {
            Some(_) => {
                self.dirty.hide_path(rel_path.clone());
            },
            None => {},
        }
        let ghost mid = self.dirty;
        assert(mid.added@ == old(self).dirty.added@);
        proof {
            lemma_same_position(mid.added@, old(self).dirty, mid, rel_path@, 0);
        }
        let _stale = self.dirty.remove_stale_for_path(rel_path.as_str());
    }
}

proof fn lemma_same_position(
    added: Seq<DirtySegment>,
    a: crate::dirty_overlay::DirtyOverlay,
    b: crate::dirty_overlay::DirtyOverlay,
    path: Seq<char>,
    i: int,
)
    requires
        a.added@ == added,
        b.added@ == added,
        0 <= i <= added.len(),
    ensures
        a.position_of(path, i) == b.position_of(path, i),
    decreases added.len() - i,
{
    if i < added.len() {
        lemma_same_position(added, a, b, path, i + 1);
    }
}

/// Whether the session holds at most one segment of each file.
pub open spec fn one_per_file(added: Seq<DirtySegment>) -> bool {
    forall|i: int, j: int|
        #![trigger added[i], added[j]]
        0 <= i < j < added.len() ==> !same_path(added[i].source_path@, added[j].source_path@)
}

/// Indexing a file again leaves every other file's persistent segment as visible as it was,
/// whatever bytes it shares with this one.
pub proof fn lemma_reindex_hides_no_other_file(
    before: ColumnarStorage,
    after: ColumnarStorage,
    rel_path: Seq<char>,
    meta: SegmentMeta,
)
    requires
        after.dirty.removed_hex_ids@ == before.dirty.removed_hex_ids@,
        forall|p: Seq<char>|
            !same_path(p, rel_path) ==> #[trigger] lists_path(after.dirty.removed_paths@, p)
                == lists_path(
                before.dirty.removed_paths@,
                p,
            ),
        !same_path(meta.source_path@, rel_path),
    ensures
        after.dirty.hides(meta) == before.dirty.hides(meta),
{
}

/// A session holds at most one segment of each file, however often it is indexed again: taking the
/// old segment of a file out and adding a new one keeps that.
pub proof fn lemma_reindex_keeps_one_per_file(
    before: ColumnarStorage,
    rel_path: Seq<char>,
    new: DirtySegment,
)
    requires
        one_per_file(before.dirty.added@),
        new.source_path@ == rel_path,
    ensures
        ({
            let at = before.dirty.position_of(rel_path, 0);
            let rest = if at < before.dirty.added@.len() {
                before.dirty.added@.remove(at)
            } else {
                before.dirty.added@
            };
            one_per_file(rest) && one_per_file(rest.push(new))
        }),
{
    let added = before.dirty.added@;
    let at = before.dirty.position_of(rel_path, 0);
    lemma_position(before.dirty, rel_path, 0);
    let rest = if at < added.len() {
        added.remove(at)
    } else {
        added
    };
    let old_at = |i: int|
        if at < added.len() && i >= at {
            i + 1
        } else {
            i
        };
    assert forall|i: int| 0 <= i < rest.len() implies rest[i] == added[old_at(i)]
        && !same_path(rest[i].source_path@, rel_path) by {
        let k = old_at(i);
        if at < added.len() {
            if k < at {
                assert(!same_path(added[k].source_path@, added[at].source_path@));
            } else {
                assert(!same_path(added[at].source_path@, added[k].source_path@));
            }
        }
    }
    assert forall|i: int, j: int|
        #![trigger rest[i], rest[j]]
        0 <= i < j < rest.len() implies !same_path(rest[i].source_path@, rest[j].source_path@) by {
        assert(!same_path(added[old_at(i)].source_path@, added[old_at(j)].source_path@));
    }
    let now = rest.push(new);
    assert forall|i: int, j: int|
        #![trigger now[i], now[j]]
        0 <= i < j < now.len() implies !same_path(now[i].source_path@, now[j].source_path@) by {
        if j < rest.len() {
            assert(!same_path(rest[i].source_path@, rest[j].source_path@));
        } else {
            assert(!same_path(rest[i].source_path@, rel_path));
        }
    }
}

proof fn lemma_position(dirty: crate::dirty_overlay::DirtyOverlay, path: Seq<char>, i: int)
    requires
        0 <= i <= dirty.added@.len(),
    ensures
        ({
            let at = dirty.position_of(path, i);
            &&& i <= at <= dirty.added@.len()
            &&& at < dirty.added@.len() ==> same_path(dirty.added@[at].source_path@, path)
            &&& forall|k: int|
                i <= k < at ==> !same_path((#[trigger] dirty.added@[k]).source_path@, path)
        }),
    decreases dirty.added@.len() - i,
{
    if i < dirty.added@.len() && !same_path(dirty.added@[i].source_path@, path) {
        lemma_position(dirty, path, i + 1);
    }
}

} // verus!
