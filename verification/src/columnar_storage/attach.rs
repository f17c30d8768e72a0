//! Attaching a session to a commit: which overlay it serves from, and what is refused.
//!
//! The steps alternate between files and decisions. Each decision is a transition of [`Attach`];
//! the caller performs what the phase asks for and reports what came of it.

use crate::columnar_storage::SharedOpen;
use crate::overlay::format::SegmentMeta;
use crate::overlay::Overlay;
use crate::segment::SegmentReader;
use std::sync::Arc;
use crate::path_parts::{is_same_path, same_path};
use vstd::prelude::*;
use vstd::string::*;

verus! {

// ───────────────────────────── incomplete indexes ─────────────────────────────

/// An overlay that opened cleanly while naming a segment that does not open.
#[derive(Debug)]
pub struct IncompleteIndex {
    /// The file whose segment does not open.
    pub source_path: String,
    /// Where the segment was looked for.
    pub segment_path: String,
    /// The overlay that names it.
    pub overlay_path: String,
    /// Why it does not open.
    pub cause: String,
}

/// An [`IncompleteIndex`], by the text of its parts.
pub struct IncompleteView {
    pub source_path: Seq<char>,
    pub segment_path: Seq<char>,
    pub overlay_path: Seq<char>,
    pub cause: Seq<char>,
}

impl View for IncompleteIndex {
    type V = IncompleteView;

    open spec fn view(&self) -> IncompleteView {
        IncompleteView {
            source_path: self.source_path@,
            segment_path: self.segment_path@,
            overlay_path: self.overlay_path@,
            cause: self.cause@,
        }
    }
}

impl IncompleteView {
    /// The fault in words.
    pub open spec fn text(self) -> Seq<char> {
        "index incomplete: "@ + self.overlay_path + " names a segment for "@ + self.source_path
            + " that is missing or unreadable at "@ + self.segment_path + " ("@ + self.cause
            + ") — an index missing a segment cannot answer completely, and no rebuild available here would write it back. Restore that file, or index this source from scratch"@
    }

    /// The fault after a rebuild that did not mend it.
    pub open spec fn unmended(self) -> IncompleteView {
        IncompleteView {
            cause: self.cause + "; a rebuild ran and did not write it back"@,
            ..self
        }
    }
}

impl IncompleteIndex {
    /// The fault in words.
    pub fn message(&self) -> (s: String)
        ensures
            s@ == self@.text(),
    {
        let mut s = String::new();
        s.append("index incomplete: ");
        s.append(self.overlay_path.as_str());
        s.append(" names a segment for ");
        s.append(self.source_path.as_str());
        s.append(" that is missing or unreadable at ");
        s.append(self.segment_path.as_str());
        s.append(" (");
        s.append(self.cause.as_str());
        s.append(
            ") — an index missing a segment cannot answer completely, and no rebuild available here would write it back. Restore that file, or index this source from scratch",
        );
        assert(s@ =~= self@.text());
        s
    }

    fn after_rebuild(&self) -> (x: IncompleteIndex)
        ensures
            x@ == self@.unmended(),
    {
        let mut cause = self.cause.clone();
        cause.append("; a rebuild ran and did not write it back");
        IncompleteIndex {
            source_path: self.source_path.clone(),
            segment_path: self.segment_path.clone(),
            overlay_path: self.overlay_path.clone(),
            cause,
        }
    }
}

/// A segment that did not open.
#[derive(Debug)]
pub struct SegmentFault {
    /// Where it was looked for.
    pub segment_path: String,
    /// Why it does not open.
    pub cause: String,
}

/// Whether segment `i` is the first that did not open.
pub open spec fn first_fault(opened: Seq<Result<Arc<SegmentReader>, SegmentFault>>, i: int) -> bool {
    0 <= i < opened.len() && opened[i] is Err && forall|j: int|
        0 <= j < i ==> (#[trigger] opened[j]) is Ok
}

/// Pairs an overlay with its segments, one reader for each in the overlay's order, or names the
/// first segment that did not open.
///
/// A reader is never left out: every later one would then answer for another file.
pub fn open_segments_from_overlay(
    overlay: Overlay,
    overlay_path: &str,
    opened: &Vec<Result<Arc<SegmentReader>, SegmentFault>>,
) -> (r: Result<SharedOpen, IncompleteIndex>)
    requires
        overlay.wf(),
        opened@.len() == overlay.segments@.len(),
        forall|i: int|
            0 <= i < opened@.len() && (#[trigger] opened@[i]) is Ok ==> opened@[i]->Ok_0.wf(),
    ensures
        (match r {
            Ok(shared) => shared.wf() && shared.overlay == overlay && forall|i: int|
                0 <= i < opened@.len() ==> #[trigger] opened@[i] == Ok::<_, SegmentFault>(
                    shared.segments@[i],
                ),
            Err(e) => exists|i: int| #[trigger]
                first_fault(opened@, i) && e@ == (IncompleteView {
                    source_path: overlay.segments@[i].source_path@,
                    segment_path: opened@[i]->Err_0.segment_path@,
                    overlay_path: overlay_path@,
                    cause: opened@[i]->Err_0.cause@,
                }),
        }),
{
    let mut segments: Vec<Arc<SegmentReader>> = Vec::new();
    let mut i: usize = 0;
    while i < opened.len()
        invariant
            i <= opened@.len(),
            opened@.len() == overlay.segments@.len(),
            segments@.len() == i,
            forall|k: int|
                0 <= k < opened@.len() && (#[trigger] opened@[k]) is Ok ==> opened@[k]->Ok_0.wf(),
            forall|k: int|
                0 <= k < i ==> #[trigger] opened@[k] == Ok::<_, SegmentFault>(segments@[k]),
        decreases opened.len() - i,
    {
        match &opened[i] {
            Ok(reader) => {
                segments.push(Arc::clone(reader));
            },
            Err(fault) => {
                assert(first_fault(opened@, i as int));
                return Err(
                    IncompleteIndex {
                        source_path: overlay.segments[i].source_path.clone(),
                        segment_path: fault.segment_path.clone(),
                        overlay_path: overlay_path.to_owned(),
                        cause: fault.cause.clone(),
                    },
                );
            },
        }
        i += 1;
    }
    assert forall|k: int| 0 <= k < segments@.len() implies (#[trigger] segments@[k]).wf() by {
        assert(opened@[k] is Ok);
    }
    Ok(SharedOpen { overlay, segments })
}

// ───────────────────────────── attaching ─────────────────────────────

/// What a rebuild has to work from.
#[derive(Clone, Copy, Debug, PartialEq, Eq, Structural)]
pub struct BuildSources {
    /// Segments were written file by file, and their map is at hand.
    pub segment_map: bool,
    /// The merged symbol table is at hand.
    pub table: bool,
}

/// How an overlay is built.
#[derive(Clone, Copy, Debug, PartialEq, Eq, Structural)]
pub enum BuildPlan {
    /// From the segments already written.
    Inline,
    /// By writing every segment from the merged symbol table first.
    ShadowWrite,
    /// There is nothing to build from.
    Nothing,
}

impl BuildSources {
    /// How an overlay is built from these: written segments are preferred.
    pub open spec fn planned(self) -> BuildPlan {
        if self.segment_map {
            BuildPlan::Inline
        } else if self.table {
            BuildPlan::ShadowWrite
        } else {
            BuildPlan::Nothing
        }
    }

    /// How an overlay is built from these.
    pub fn plan(&self) -> (p: BuildPlan)
        ensures
            p == self.planned(),
    {
        if self.segment_map {
            BuildPlan::Inline
        } else if self.table {
            BuildPlan::ShadowWrite
        } else {
            BuildPlan::Nothing
        }
    }

    /// Whether a rebuild from these would write a missing segment again rather than drop it.
    pub open spec fn regenerates(self) -> bool {
        self.planned() == BuildPlan::ShadowWrite
    }

    /// Whether a rebuild from these would write a missing segment again rather than drop it.
    pub fn rebuild_regenerates_segments(&self) -> (r: bool)
        ensures
            r == self.regenerates(),
    {
        !self.segment_map && self.table
    }
}

/// What came of opening the overlay of a commit.
pub enum OverlayOpen {
    /// There is no such file.
    Absent,
    /// It opened, with all its segments.
    Ready(Arc<SharedOpen>),
    /// It opened, and a segment it names did not.
    Incomplete(IncompleteIndex),
    /// It is damaged or of another format.
    Unreadable(String),
}

/// What came of opening the chain manifest of a commit.
#[derive(Clone, Copy, Debug, PartialEq, Eq, Structural)]
pub enum ChainOpen {
    /// There is no manifest.
    Absent,
    /// The chain serves the commit.
    Served,
    /// The manifest could not be used.
    Failed,
}

/// How an attach ends.
pub enum AttachOutcome {
    /// The session serves from this overlay.
    Overlay(Arc<SharedOpen>),
    /// The session serves from a master overlay and a chain of changes.
    Chain,
    /// The index is incomplete.
    Refused(IncompleteIndex),
    /// The build lock could not be had.
    LockFailed(String),
    /// The overlay did not open after the build.
    OpenFailed(String),
}

/// What an attach waits for.
pub enum AttachPhase {
    /// The first try at the overlay.
    Probe,
    /// The try at a written chain manifest.
    Written,
    /// The try at a derived chain manifest.
    Derive,
    /// The build lock.
    Lock,
    /// The second try at the overlay, under the lock.
    Recheck,
    /// The build.
    Build,
    /// The try at what was built.
    Reopen,
    /// Nothing more.
    Done(AttachOutcome),
}

impl AttachPhase {
    /// How many transitions are left at most.
    pub open spec fn steps_left(&self) -> nat {
        match self {
            AttachPhase::Probe => 7,
            AttachPhase::Written => 6,
            AttachPhase::Derive => 5,
            AttachPhase::Lock => 4,
            AttachPhase::Recheck => 3,
            AttachPhase::Build => 2,
            AttachPhase::Reopen => 1,
            AttachPhase::Done(_) => 0,
        }
    }

    /// Whether the phase waits for the overlay to be opened.
    pub open spec fn opens_overlay(&self) -> bool {
        self is Probe || self is Recheck || self is Reopen
    }
}

/// An attach under way.
pub struct Attach {
    pub sources: BuildSources,
    pub phase: AttachPhase,
    /// A refusal that stands unless the rebuild writes the missing segment back.
    pub deferred: Option<IncompleteIndex>,
}

/// Whether an overlay has a segment for a file.
pub open spec fn names_file(segments: Seq<SegmentMeta>, path: Seq<char>) -> bool {
    exists|i: int|
        0 <= i < segments.len() && same_path((#[trigger] segments[i]).source_path@, path)
}

/// Whether an overlay has a segment for a file.
pub fn has_file(segments: &Vec<SegmentMeta>, path: &str) -> (r: bool)
    ensures
        r == names_file(segments@, path@),
{
    let mut i: usize = 0;
    while i < segments.len()
        invariant
            i <= segments@.len(),
            forall|k: int|
                0 <= k < i ==> !same_path((#[trigger] segments@[k]).source_path@, path@),
        decreases segments.len() - i,
    {
        if is_same_path(segments[i].source_path.as_str(), path) {
            return true;
        }
        i += 1;
    }
    false
}

impl Attach {
    /// A refusal is deferred only where a rebuild might mend it.
    pub open spec fn wf(&self) -> bool {
        self.deferred is Some ==> self.sources.regenerates()
    }

    /// An attach that has looked at nothing yet.
    pub fn begin(sources: BuildSources) -> (a: Attach)
        ensures
            a.wf(),
            a.sources == sources,
            a.phase is Probe,
            a.deferred is None,
    {
        Attach { sources, phase: AttachPhase::Probe, deferred: None }
    }

    /// Whether the phase after a first or second try that found no usable overlay is the right one.
    pub open spec fn moves_on(before: AttachPhase, after: AttachPhase) -> bool {
        (before is Probe && after is Written) || (before is Recheck && after is Build)
    }

    /// Takes in what came of opening the overlay. The result says whether the overlay's file is to
    /// be removed.
    ///
    /// Before the build: an overlay that opens is served. One that is damaged is removed and built
    /// anew. One that names a missing segment is refused, unless the rebuild might write the
    /// segment: then the refusal is deferred. It is never removed.
    ///
    /// After the build: an overlay that opens is served, unless a deferred refusal still stands
    /// because the segment did not come back.
    pub fn overlay_opened(&mut self, open: OverlayOpen) -> (remove: bool)
        requires
            old(self).wf(),
            old(self).phase.opens_overlay(),
            old(self).phase is Reopen ==> !(open is Absent),
        ensures
            final(self).wf(),
            final(self).sources == old(self).sources,
            final(self).phase.steps_left() < old(self).phase.steps_left(),
            remove == (open is Unreadable && !(old(self).phase is Reopen)),
            !(old(self).phase is Reopen) ==> match open {
                OverlayOpen::Ready(shared) => final(self).phase == AttachPhase::Done(
                    AttachOutcome::Overlay(shared),
                ),
                OverlayOpen::Absent => Attach::moves_on(old(self).phase, final(self).phase)
                    && final(self).deferred == old(self).deferred,
                OverlayOpen::Unreadable(_) => Attach::moves_on(old(self).phase, final(self).phase)
                    && final(self).deferred is None,
                OverlayOpen::Incomplete(e) => if old(self).sources.regenerates() {
                    Attach::moves_on(old(self).phase, final(self).phase) && final(self).deferred
                        == Some(e)
                } else {
                    final(self).phase == AttachPhase::Done(AttachOutcome::Refused(e))
                },
            },
            old(self).phase is Reopen ==> match open {
                OverlayOpen::Ready(shared) => if old(self).deferred is Some && !names_file(
                    shared.overlay.segments@,
                    old(self).deferred->0.source_path@,
                ) {
                    final(self).phase is Done && final(self).phase->Done_0 is Refused
                        && final(self).phase->Done_0->Refused_0@ == old(
                        self,
                    ).deferred->0@.unmended()
                } else {
                    final(self).phase == AttachPhase::Done(AttachOutcome::Overlay(shared))
                },
                OverlayOpen::Unreadable(why) => final(self).phase is Done
                    && final(self).phase->Done_0 is OpenFailed
                    && final(self).phase->Done_0->OpenFailed_0@ == why@,
                OverlayOpen::Incomplete(e) => final(self).phase is Done
                    && final(self).phase->Done_0 is OpenFailed
                    && final(self).phase->Done_0->OpenFailed_0@ == e@.text(),
                OverlayOpen::Absent => true,
            },
    {
        let reopening = match self.phase {
            AttachPhase::Reopen => true,
            _ => false,
        };
        if reopening {
            match open {
                OverlayOpen::Ready(shared) => {
                    let refusal: Option<IncompleteIndex> = match &self.deferred {
                        Some(pending) => if has_file(
                            &shared.overlay.segments,
                            pending.source_path.as_str(),
                        ) {
                            None
                        } else {
                            Some(pending.after_rebuild())
                        },
                        None => None,
                    };
                    self.phase = match refusal {
                        Some(e) => AttachPhase::Done(AttachOutcome::Refused(e)),
                        None => AttachPhase::Done(AttachOutcome::Overlay(shared)),
                    };
                },
                OverlayOpen::Unreadable(why) => {
                    self.phase = AttachPhase::Done(AttachOutcome::OpenFailed(why));
                },
                OverlayOpen::Incomplete(e) => {
                    self.phase = AttachPhase::Done(AttachOutcome::OpenFailed(e.message()));
                },
                OverlayOpen::Absent => {},
            }
            return false;
        }
        let next = match self.phase {
            AttachPhase::Probe => AttachPhase::Written,
            _ => AttachPhase::Build,
        };
        match open {
            OverlayOpen::Ready(shared) => {
                self.phase = AttachPhase::Done(AttachOutcome::Overlay(shared));
                false
            },
            OverlayOpen::Absent => {
                self.phase = next;
                false
            },
            OverlayOpen::Unreadable(_) => {
                self.deferred = None;
                self.phase = next;
                true
            },
            OverlayOpen::Incomplete(e) => {
                if self.sources.rebuild_regenerates_segments() {
                    self.deferred = Some(e);
                    self.phase = next;
                } else {
                    self.phase = AttachPhase::Done(AttachOutcome::Refused(e));
                }
                false
            },
        }
    }

    /// Takes in what came of the written chain manifest. A chain that does not serve costs time
    /// and never rows: the commit is then served by a derived chain, where it has no overlay, or
    /// by a build.
    pub fn chain_tried(&mut self, chain: ChainOpen, overlay_exists: bool)
        requires
            old(self).wf(),
            old(self).phase is Written,
        ensures
            final(self).wf(),
            final(self).sources == old(self).sources,
            final(self).deferred == old(self).deferred,
            final(self).phase.steps_left() < old(self).phase.steps_left(),
            final(self).phase == (if chain is Served {
                AttachPhase::Done(AttachOutcome::Chain)
            } else if overlay_exists {
                AttachPhase::Lock
            } else {
                AttachPhase::Derive
            }),
    {
        self.phase = match chain {
            ChainOpen::Served => AttachPhase::Done(AttachOutcome::Chain),
            _ => if overlay_exists {
                AttachPhase::Lock
            } else {
                AttachPhase::Derive
            },
        };
    }

    /// Takes in whether a derived chain serves the commit.
    pub fn derived(&mut self, served: bool)
        requires
            old(self).wf(),
            old(self).phase is Derive,
        ensures
            final(self).wf(),
            final(self).sources == old(self).sources,
            final(self).deferred == old(self).deferred,
            final(self).phase.steps_left() < old(self).phase.steps_left(),
            final(self).phase == (if served {
                AttachPhase::Done(AttachOutcome::Chain)
            } else {
                AttachPhase::Lock
            }),
    {
        self.phase = if served {
            AttachPhase::Done(AttachOutcome::Chain)
        } else {
            AttachPhase::Lock
        };
    }

    /// Takes in whether the build lock was had, and if not why.
    pub fn lock_tried(&mut self, failure: Option<String>)
        requires
            old(self).wf(),
            old(self).phase is Lock,
        ensures
            final(self).wf(),
            final(self).sources == old(self).sources,
            final(self).deferred == old(self).deferred,
            final(self).phase.steps_left() < old(self).phase.steps_left(),
            final(self).phase == (match failure {
                Some(why) => AttachPhase::Done(AttachOutcome::LockFailed(why)),
                None => AttachPhase::Recheck,
            }),
    {
        self.phase = match failure {
            Some(why) => AttachPhase::Done(AttachOutcome::LockFailed(why)),
            None => AttachPhase::Recheck,
        };
    }

    /// Takes in that the build ran, whatever it achieved.
    pub fn built(&mut self)
        requires
            old(self).wf(),
            old(self).phase is Build,
        ensures
            final(self).wf(),
            final(self).sources == old(self).sources,
            final(self).deferred == old(self).deferred,
            final(self).phase is Reopen,
            final(self).phase.steps_left() < old(self).phase.steps_left(),
    {
        self.phase = AttachPhase::Reopen;
    }
}

impl AttachOutcome {
    /// A failure in words, for a commit; nothing where the attach succeeded.
    pub open spec fn text(&self, commit: Seq<char>) -> Option<Seq<char>> {
        match self {
            AttachOutcome::Overlay(_) => None,
            AttachOutcome::Chain => None,
            AttachOutcome::Refused(e) => Some(e@.text()),
            AttachOutcome::LockFailed(why) => Some(
                "overlay lock acquire failed for "@ + commit + ": "@ + why@,
            ),
            AttachOutcome::OpenFailed(why) => Some(
                "overlay open failed for "@ + commit + ": "@ + why@,
            ),
        }
    }

    /// A failure in words, for a commit; nothing where the attach succeeded.
    pub fn failure(&self, commit: &str) -> (r: Option<String>)
        ensures
            crate::segment::opt_string(r) == self.text(commit@),
    {
        match self {
            AttachOutcome::Overlay(_) => None,
            AttachOutcome::Chain => None,
            AttachOutcome::Refused(e) => Some(e.message()),
            AttachOutcome::LockFailed(why) => {
                let mut s = String::new();
                s.append("overlay lock acquire failed for ");
                s.append(commit);
                s.append(": ");
                s.append(why.as_str());
                assert(s@ =~= "overlay lock acquire failed for "@ + commit@ + ": "@ + why@);
                Some(s)
            },
            AttachOutcome::OpenFailed(why) => {
                let mut s = String::new();
                s.append("overlay open failed for ");
                s.append(commit);
                s.append(": ");
                s.append(why.as_str());
                assert(s@ =~= "overlay open failed for "@ + commit@ + ": "@ + why@);
                Some(s)
            },
        }
    }
}

} // verus!
