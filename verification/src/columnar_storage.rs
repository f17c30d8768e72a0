//! The storage engine of one session: a shared overlay with its segments, and the session's edits.

pub mod attach;
pub mod budgets;
pub mod candidates;
pub mod chain;
pub mod commit;
pub mod cover;
pub mod delivery;
pub mod delivery_laws;
pub mod files;
pub mod files_laws;
pub mod find;
pub mod gates;
pub mod groups;
pub mod groups_laws;
pub mod handles_laws;
pub mod hits;
pub mod literals;
pub mod lookup_laws;
pub mod narrow;
pub mod node_find;
pub mod node_lookup;
pub mod outline;
pub mod outline_order;
pub mod pages;
pub mod prefilter;
pub mod refusals;
pub mod reindex;
pub mod resolve;
pub mod resolve_laws;
pub mod scan;
pub mod scan_laws;
pub mod session_laws;
pub mod streams;
pub mod symbols;
pub mod symbols_laws;
pub mod tallies;
pub mod usage_adjust;
pub mod usages;
pub mod usages_laws;

use crate::dirty_overlay::DirtyOverlay;
use crate::overlay::Overlay;
use crate::segment::SegmentReader;
use std::sync::Arc;
use vstd::prelude::*;
use vstd::string::*;

verus! {

/// What sessions on one commit share: the overlay, and one reader per segment, in its order.
pub struct SharedOpen {
    pub overlay: Overlay,
    pub segments: Vec<Arc<SegmentReader>>,
}

impl SharedOpen {
    /// The overlay is well formed and has one well-formed reader per segment.
    pub open spec fn wf(&self) -> bool {
        &&& self.overlay.wf()
        &&& self.segments@.len() == self.overlay.segments@.len()
        &&& forall|i: int| 0 <= i < self.segments@.len() ==> (#[trigger] self.segments@[i]).wf()
    }
}

/// The storage engine of one session.
pub struct ColumnarStorage {
    /// Worktree root, by which paths are made absolute.
    pub worktree_root: String,
    /// What this session shares with the others on its commit.
    pub shared: Arc<SharedOpen>,
    /// The session's edits.
    pub dirty: DirtyOverlay,
    /// The commit whose overlay this session serves from.
    pub master_commit: String,
    /// Paths whose staged state was dropped and which have to be indexed again.
    pub pending_reindex: Vec<String>,
}

impl ColumnarStorage {
    /// The shared part and the edits are well formed.
    pub open spec fn wf(&self) -> bool {
        self.shared.wf() && self.dirty.wf()
    }

    /// The overlay this session serves from.
    pub open spec fn index(&self) -> Overlay {
        self.shared.overlay
    }

    /// The reader of segment `i`.
    pub open spec fn seg(&self, i: int) -> SegmentReader {
        *self.shared.segments@[i]
    }

    /// The number of segments.
    pub open spec fn seg_count(&self) -> nat {
        self.shared.segments@.len()
    }

    /// A session over a shared overlay, without edits.
    pub fn from_shared(worktree_root: String, shared: Arc<SharedOpen>) -> (s: ColumnarStorage)
        requires
            shared.wf(),
        ensures
            s.wf(),
            s.worktree_root == worktree_root,
            s.shared == shared,
            s.dirty.nothing(),
            s.dirty.added_paths@.len() == 0,
            s.master_commit@.len() == 0,
            s.pending_reindex@.len() == 0,
    {
        ColumnarStorage {
            worktree_root,
            shared,
            dirty: DirtyOverlay::new(),
            master_commit: String::new(),
            pending_reindex: Vec::new(),
        }
    }

    /// A session over an overlay that nothing else shares.
    pub fn new_unshared(worktree_root: String, segments: Vec<Arc<SegmentReader>>, overlay: Overlay) -> (s:
        ColumnarStorage)
        requires
            (SharedOpen { overlay, segments }).wf(),
        ensures
            s.wf(),
            s.worktree_root == worktree_root,
            s.index() == overlay,
            s.shared.segments == segments,
            s.dirty.nothing(),
            s.dirty.added_paths@.len() == 0,
            s.master_commit@.len() == 0,
            s.pending_reindex@.len() == 0,
    {
        ColumnarStorage::from_shared(worktree_root, Arc::new(SharedOpen { overlay, segments }))
    }

    /// The overlay this session serves from.
    pub fn overlay(&self) -> (r: &Overlay)
        ensures
            *r == self.index(),
    {
        &self.shared.overlay
    }

    /// The readers of the segments, in the overlay's order.
    pub fn segments(&self) -> (r: &Vec<Arc<SegmentReader>>)
        ensures
            *r == self.shared.segments,
    {
        &self.shared.segments
    }
}

} // verus!
