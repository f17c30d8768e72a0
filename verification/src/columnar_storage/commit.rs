//! A session's edits over time: restored when it opens, and made durable when it commits.

use crate::build_context::{lemma_hex_ascii, segment_rel_text, ColumnarBuildContext};
use crate::chain_manifest::ChainManifest;
use crate::columnar_storage::node_lookup::joined;
use crate::columnar_storage::{ColumnarStorage, SharedOpen};
use crate::delta_file::{staged_name, staged_segment_path};
use crate::dirty_overlay::DirtyOverlay;
use crate::open_cache::OpenKey;
use crate::order::{paths_ascend, same_paths};
use crate::overlay::lookup::text_views;
use crate::text::{decimal, hex_of, push_decimal};
use std::sync::Arc;
use crate::path_parts::{contains_path, lists_path};
use vstd::prelude::*;
use vstd::string::*;

verus! {

// ───────────────────────────── opening ─────────────────────────────

/// What came of reading a session's record.
pub enum DeltaRead {
    /// There is none.
    Absent,
    /// The edits it restored, and the paths that have to be indexed again.
    Restored(DirtyOverlay, Vec<String>),
    /// It could not be read.
    Failed,
}

impl ColumnarStorage {
    /// Takes in what came of reading the session's record. The result says whether every staged
    /// file is to be deleted.
    ///
    /// A record that cannot be read leaves the session without edits.
    pub fn load_delta(&mut self, read: DeltaRead) -> (clear_staging: bool)
        requires
            old(self).wf(),
            read is Restored ==> read->Restored_0.wf(),
        ensures
            final(self).wf(),
            final(self).shared == old(self).shared,
            final(self).worktree_root == old(self).worktree_root,
            final(self).master_commit == old(self).master_commit,
            clear_staging == (read is Failed),
            (match read {
                DeltaRead::Absent => final(self).dirty == old(self).dirty
                    && final(self).pending_reindex == old(self).pending_reindex,
                DeltaRead::Restored(dirty, again) => final(self).dirty == dirty
                    && final(self).pending_reindex == again,
                DeltaRead::Failed => final(self).dirty.nothing()
                    && final(self).dirty.added_paths@.len() == 0 && final(self).pending_reindex
                    == old(self).pending_reindex,
            }),
    {
        match read {
            DeltaRead::Absent => false,
            DeltaRead::Restored(dirty, again) => {
                self.dirty = dirty;
                self.pending_reindex = again;
                false
            },
            DeltaRead::Failed => {
                self.dirty = DirtyOverlay::new();
                true
            },
        }
    }

    /// A session on a commit, over the shared overlay, with its edits restored.
    pub fn finish_open(
        worktree_root: String,
        shared: Arc<SharedOpen>,
        read: DeltaRead,
        commit: &str,
    ) -> (r: (ColumnarStorage, bool))
        requires
            shared.wf(),
            read is Restored ==> read->Restored_0.wf(),
        ensures
            r.0.wf(),
            r.0.shared == shared,
            r.0.worktree_root == worktree_root,
            r.0.master_commit@ == commit@,
            r.1 == (read is Failed),
            (match read {
                DeltaRead::Restored(dirty, again) => r.0.dirty == dirty && r.0.pending_reindex
                    == again,
                _ => r.0.dirty.nothing() && r.0.dirty.added_paths@.len() == 0
                    && r.0.pending_reindex@.len() == 0,
            }),
    {
        let mut storage = ColumnarStorage::from_shared(worktree_root, shared);
        storage.master_commit = commit.to_owned();
        let clear = storage.load_delta(read);
        (storage, clear)
    }

    /// Takes in the session's record after a rollback: what stood before is dropped first.
    pub fn reload_delta_after_rollback(&mut self, read: DeltaRead) -> (clear_staging: bool)
        requires
            old(self).wf(),
            read is Restored ==> read->Restored_0.wf(),
        ensures
            final(self).wf(),
            final(self).shared == old(self).shared,
            final(self).worktree_root == old(self).worktree_root,
            final(self).master_commit == old(self).master_commit,
            clear_staging == (read is Failed),
            (match read {
                DeltaRead::Restored(dirty, again) => final(self).dirty == dirty
                    && final(self).pending_reindex == again,
                _ => final(self).dirty.nothing() && final(self).dirty.added_paths@.len() == 0
                    && final(self).pending_reindex == old(self).pending_reindex,
            }),
    {
        self.dirty = DirtyOverlay::new();
        self.load_delta(read)
    }

    /// Takes the paths that have to be indexed again.
    pub fn take_pending_reindex_paths(&mut self) -> (paths: Vec<String>)
        ensures
            paths == old(self).pending_reindex,
            final(self).pending_reindex@.len() == 0,
            final(self).shared == old(self).shared,
            final(self).dirty == old(self).dirty,
            final(self).worktree_root == old(self).worktree_root,
            final(self).master_commit == old(self).master_commit,
    {
        let mut paths: Vec<String> = Vec::new();
        core::mem::swap(&mut paths, &mut self.pending_reindex);
        paths
    }

    /// The session's edits.
    pub fn dirty(&self) -> (d: &DirtyOverlay)
        ensures
            *d == self.dirty,
    {
        &self.dirty
    }

    /// The session's edits, to change.
    pub fn dirty_mut(&mut self) -> (d: &mut DirtyOverlay)
        ensures
            *d == old(self).dirty,
            *final(self) == (ColumnarStorage { dirty: *final(d), ..*old(self) }),
    {
        &mut self.dirty
    }

    /// What names the decode of a commit. Two contexts may name one overlay file and keep their
    /// segments in different places, so the directory of the segments is part of it.
    pub fn open_key(ctx: &ColumnarBuildContext, overlay_path: &str) -> (k: OpenKey)
        ensures
            k.overlay_path@ == overlay_path@,
            k.segments_root@ == joined(ctx.segments_dir@, ctx.provider_text()),
    {
        let root = ctx.versioned_segments_root();
        OpenKey::new(overlay_path, root.as_str())
    }
}

// ───────────────────────────── committing ─────────────────────────────

/// Segments of the base overlay that the store no longer holds.
#[derive(Debug)]
pub struct VanishedSegments {
    /// The files whose segments are gone, in the overlay's order.
    pub missing: Vec<String>,
    /// How many segments the overlay has.
    pub total: usize,
    /// The directory they were looked for in.
    pub root: String,
}

/// The first `n` of some texts, with a separator between each two.
pub open spec fn listed(v: Seq<String>, n: int) -> Seq<char>
    decreases n,
{
    if n <= 0 {
        seq![]
    } else if n == 1 {
        v[0]@
    } else {
        listed(v, n - 1) + "; "@ + v[n - 1]@
    }
}

impl VanishedSegments {
    /// How many files the message names.
    pub open spec fn named(&self) -> int {
        if self.missing@.len() > 10 {
            10
        } else {
            self.missing@.len() as int
        }
    }

    /// The fault in words: it names ten files at most and counts the rest.
    pub open spec fn text(&self) -> Seq<char> {
        "overlay build incomplete: "@ + decimal(self.missing@.len()) + " of "@ + decimal(
            self.total as nat,
        ) + " segments this commit's index is built from are missing from "@ + self.root@ + " — "@
            + listed(self.missing@, self.named()) + (if self.missing@.len() > 10 {
            "; … and "@ + decimal((self.missing@.len() - 10) as nat) + " more"@
        } else {
            seq![]
        })
            + ". Committing would leave an index that silently drops those files from every answer on this commit; restore the segment files or re-index this source"@
    }

    /// The fault in words.
    pub fn message(&self) -> (s: String)
        ensures
            s@ == self.text(),
    {
        let count: usize = self.missing.len();
        let mut s = String::new();
        s.append("overlay build incomplete: ");
        push_decimal(&mut s, count as u64);
        s.append(" of ");
        push_decimal(&mut s, self.total as u64);
        s.append(" segments this commit's index is built from are missing from ");
        s.append(self.root.as_str());
        s.append(" — ");
        let ghost head = s@;
        let cap: usize = if count > 10 {
            10
        } else {
            count
        };
        let mut i: usize = 0;
        assert(head + listed(self.missing@, 0) =~= head);
        while i < cap
            invariant
                i <= cap <= count,
                count == self.missing@.len(),
                s@ == head + listed(self.missing@, i as int),
            decreases cap - i,
        {
            if i > 0 {
                s.append("; ");
            }
            s.append(self.missing[i].as_str());
            assert(s@ =~= head + listed(self.missing@, i + 1));
            i += 1;
        }
        if count > 10 {
            s.append("; … and ");
            push_decimal(&mut s, (count - 10) as u64);
            s.append(" more");
        }
        s.append(
            ". Committing would leave an index that silently drops those files from every answer on this commit; restore the segment files or re-index this source",
        );
        assert(s@ =~= self.text());
        s
    }
}

/// Where a segment of the session lies, and where a commit puts it.
pub struct Promotion {
    pub staged: String,
    pub store: String,
}

impl ColumnarStorage {
    /// The files among the first `n` segments that are gone and not hidden by path.
    pub open spec fn vanished(&self, present: Seq<bool>, n: int) -> Seq<Seq<char>>
        decreases n,
    {
        if n <= 0 {
            seq![]
        } else {
            let path = self.index().segments@[n - 1].source_path@;
            let rest = self.vanished(present, n - 1);
            if lists_path(self.dirty.removed_paths@, path) || present[n - 1] {
                rest
            } else {
                rest.push(path)
            }
        }
    }

    /// Refuses a commit where the base overlay names a segment that the store no longer holds,
    /// unless the session hides its path. `present` says of each segment whether its file is
    /// there; `root` is the directory of the store.
    pub fn refuse_if_base_segments_vanished(&self, present: &Vec<bool>, root: &str) -> (r: Result<
        (),
        VanishedSegments,
    >)
        requires
            self.wf(),
            present@.len() == self.seg_count(),
        ensures
            (match r {
                Ok(_) => self.vanished(present@, present@.len() as int).len() == 0,
                Err(e) => {
                    &&& self.vanished(present@, present@.len() as int).len() > 0
                    &&& text_views(e.missing@) == self.vanished(present@, present@.len() as int)
                    &&& e.total == self.seg_count()
                    &&& e.root@ == root@
                },
            }),
    {
        let metas = &self.shared.overlay.segments;
        let mut missing: Vec<String> = Vec::new();
        let mut i: usize = 0;
        assert(text_views(missing@) =~= self.vanished(present@, 0));
        while i < present.len()
            invariant
                metas@ == self.index().segments@,
                metas@.len() == present@.len(),
                i <= present@.len(),
                text_views(missing@) == self.vanished(present@, i as int),
            decreases present.len() - i,
        {
            if !contains_path(&self.dirty.removed_paths, metas[i].source_path.as_str())
                && !present[i] {
                let ghost was = missing@;
                missing.push(metas[i].source_path.clone());
                assert(text_views(missing@) =~= text_views(was).push(
                    metas@[i as int].source_path@,
                ));
            }
            i += 1;
        }
        assert(text_views(missing@).len() == missing@.len());
        if missing.len() == 0 {
            Ok(())
        } else {
            Err(VanishedSegments { missing, total: metas.len(), root: root.to_owned() })
        }
    }

    /// Whether every segment of the session has a content id.
    pub open spec fn identified(&self) -> bool {
        forall|i: int|
            0 <= i < self.dirty.added@.len() ==> (#[trigger] self.dirty.added@[i]).reader.content_id@.len()
                > 0
    }

    /// The moves that make the segments of the session durable, in their order.
    pub fn promotions(&self, ctx: &ColumnarBuildContext, staging_dir: &str) -> (out: Vec<Promotion>)
        requires
            self.identified(),
        ensures
            out@.len() == self.dirty.added@.len(),
            forall|i: int|
                #![trigger out@[i]]
                0 <= i < out@.len() ==> {
                    let path = self.dirty.added@[i].source_path@;
                    let hex = hex_of(self.dirty.added@[i].reader.content_id@);
                    &&& out@[i].staged@ == joined(staging_dir@, staged_name(path, hex))
                    &&& out@[i].store@ == joined(
                        joined(ctx.segments_dir@, ctx.provider_text()),
                        segment_rel_text(path, hex),
                    )
                },
    {
        let mut out: Vec<Promotion> = Vec::new();
        let mut i: usize = 0;
        while i < self.dirty.added.len()
            invariant
                self.identified(),
                i <= self.dirty.added@.len(),
                out@.len() == i,
                forall|k: int|
                    #![trigger out@[k]]
                    0 <= k < i ==> {
                        let path = self.dirty.added@[k].source_path@;
                        let hex = hex_of(self.dirty.added@[k].reader.content_id@);
                        &&& out@[k].staged@ == joined(staging_dir@, staged_name(path, hex))
                        &&& out@[k].store@ == joined(
                            joined(ctx.segments_dir@, ctx.provider_text()),
                            segment_rel_text(path, hex),
                        )
                    },
            decreases self.dirty.added.len() - i,
        {
            let ds = &self.dirty.added[i];
            let hex = ds.reader.content_id_hex();
            proof {
                lemma_hex_ascii(ds.reader.content_id@);
                assert(self.dirty.added@[i as int].reader.content_id@.len() > 0);
            }
            let staged = staged_segment_path(staging_dir, ds.source_path.as_str(), hex.as_str());
            let store = ctx.segment_path_of(ds.source_path.as_str(), hex.as_str());
            out.push(Promotion { staged, store });
            i += 1;
        }
        out
    }

    /// The chain manifest of a new commit, where the session knows the master it serves from.
    pub fn commit_manifest(&self) -> (r: Option<ChainManifest>)
        ensures
            (r is None) == (self.master_commit@.len() == 0),
            r is Some ==> {
                let m = r->0;
                &&& m.current()
                &&& m.master_commit@ == self.master_commit@
                &&& m.entries@.len() == self.dirty.added@.len()
                &&& forall|i: int|
                    #![trigger m.entries@[i]]
                    0 <= i < m.entries@.len() ==> ChainManifest::records(
                        m.entries@[i],
                        self.dirty.added@[i],
                    )
                &&& paths_ascend(m.removed_paths@)
                &&& same_paths(m.removed_paths@, self.dirty.removed_paths@)
                &&& paths_ascend(m.added_paths@)
                &&& same_paths(m.added_paths@, self.dirty.added_paths@)
            },
    {
        if self.master_commit.as_str().unicode_len() == 0 {
            None
        } else {
            Some(ChainManifest::from_dirty(self.master_commit.as_str(), &self.dirty))
        }
    }
}

// ───────────────────────────── promoting one file ─────────────────────────────

/// What the promotion of one file does next.
#[derive(Clone, Copy, Debug, PartialEq, Eq, Structural)]
pub enum PromoteStep {
    /// Look whether the target is there already.
    CheckTarget,
    /// Make the target's directory.
    MakeParent,
    /// Link the file to the target.
    Link,
    /// Look whether another session made the target meanwhile.
    CheckLinked,
    /// Move the file to the target.
    Rename,
    /// Look whether another session made the target meanwhile.
    CheckRenamed,
    /// Copy the file to the target.
    Copy,
    /// The target is there, or the promotion failed.
    Done(bool),
}

impl PromoteStep {
    /// How many steps are left at most.
    pub open spec fn steps_left(self) -> nat {
        match self {
            PromoteStep::CheckTarget => 7,
            PromoteStep::MakeParent => 6,
            PromoteStep::Link => 5,
            PromoteStep::CheckLinked => 4,
            PromoteStep::Rename => 3,
            PromoteStep::CheckRenamed => 2,
            PromoteStep::Copy => 1,
            PromoteStep::Done(_) => 0,
        }
    }

    /// The step after this one, which found the target or succeeded (`held`), or did not.
    pub open spec fn after(self, held: bool) -> PromoteStep {
        match self {
            PromoteStep::MakeParent => if held {
                PromoteStep::Link
            } else {
                PromoteStep::Done(false)
            },
            PromoteStep::Copy => PromoteStep::Done(held),
            PromoteStep::Done(_) => self,
            _ => if held {
                PromoteStep::Done(true)
            } else if self == PromoteStep::CheckTarget {
                PromoteStep::MakeParent
            } else if self == PromoteStep::Link {
                PromoteStep::CheckLinked
            } else if self == PromoteStep::CheckLinked {
                PromoteStep::Rename
            } else if self == PromoteStep::Rename {
                PromoteStep::CheckRenamed
            } else {
                PromoteStep::Copy
            },
        }
    }

    /// The step after this one.
    pub fn next(&self, held: bool) -> (n: PromoteStep)
        ensures
            n == self.after(held),
            !(self is Done) ==> n.steps_left() < self.steps_left(),
    {
        match self {
            PromoteStep::CheckTarget => if held {
                PromoteStep::Done(true)
            } else {
                PromoteStep::MakeParent
            },
            PromoteStep::MakeParent => if held {
                PromoteStep::Link
            } else {
                PromoteStep::Done(false)
            },
            PromoteStep::Link => if held {
                PromoteStep::Done(true)
            } else {
                PromoteStep::CheckLinked
            },
            PromoteStep::CheckLinked => if held {
                PromoteStep::Done(true)
            } else {
                PromoteStep::Rename
            },
            PromoteStep::Rename => if held {
                PromoteStep::Done(true)
            } else {
                PromoteStep::CheckRenamed
            },
            PromoteStep::CheckRenamed => if held {
                PromoteStep::Done(true)
            } else {
                PromoteStep::Copy
            },
            PromoteStep::Copy => PromoteStep::Done(held),
            PromoteStep::Done(r) => PromoteStep::Done(*r),
        }
    }
}

} // verus!
