//! Serving a commit as a master overlay and a chain of changes.

use crate::build_context::ENRICH_VER;
use crate::chain_derive::{
    derive_upstream_manifest, first_conflict, serves, target_distinct, ChainConflict,
};
use crate::chain_manifest::{ChainEntry, ChainManifest};
use crate::columnar_storage::attach::{has_file, names_file};
use crate::columnar_storage::{ColumnarStorage, SharedOpen};
use crate::delta_file::added_views;
use crate::dirty_overlay::{insert_path, DirtyOverlay, DirtySegment};
use crate::order::{lemma_text_total, sorted_texts, text_before, texts_ascend};
use crate::path_parts::{
    lemma_lists_path_push, lists_path, plain_path, plainly, same_path,
};
use crate::overlay::lookup::text_views;
use crate::overlay::Overlay;
use crate::segment::{lists_text, SegmentReader};
use crate::text::{decimal, push_decimal};
use std::sync::Arc;
use vstd::prelude::*;
use vstd::string::*;

verus! {

// ───────────────────────────── opening ─────────────────────────────

/// Why a chain manifest cannot serve its commit.
#[derive(Debug)]
pub enum ChainFault {
    /// It is from another index generation.
    Generation(u32),
    /// The overlay of the master it names is not there.
    NoMaster(String),
    /// An entry has a path that the master holds too, and does not record what it replaces.
    Unrecorded(String),
}

impl ChainFault {
    /// The fault in words, for a commit.
    pub open spec fn text(&self, commit: Seq<char>) -> Seq<char> {
        match self {
            ChainFault::Generation(got) => "chain manifest for "@ + commit
                + " is from index generation "@ + decimal(*got as nat) + " (running "@ + decimal(
                ENRICH_VER as nat,
            ) + ")"@,
            ChainFault::NoMaster(master) => "chain manifest for "@ + commit + " names master "@
                + master@ + " whose overlay is not on disk"@,
            ChainFault::Unrecorded(path) => "chain entry "@ + path@
                + " shadows a master segment without recording the replacement — one path would answer from two layers"@,
        }
    }

    /// The fault in words, for a commit.
    pub fn message(&self, commit: &str) -> (s: String)
        ensures
            s@ == self.text(commit@),
    {
        let mut s = String::new();
        match self {
            ChainFault::Generation(got) => {
                s.append("chain manifest for ");
                s.append(commit);
                s.append(" is from index generation ");
                push_decimal(&mut s, *got as u64);
                s.append(" (running ");
                push_decimal(&mut s, ENRICH_VER as u64);
                s.append(")");
            },
            ChainFault::NoMaster(master) => {
                s.append("chain manifest for ");
                s.append(commit);
                s.append(" names master ");
                s.append(master.as_str());
                s.append(" whose overlay is not on disk");
            },
            ChainFault::Unrecorded(path) => {
                s.append("chain entry ");
                s.append(path.as_str());
                s.append(
                    " shadows a master segment without recording the replacement — one path would answer from two layers",
                );
            },
        }
        assert(s@ =~= self.text(commit@));
        s
    }
}

/// Whether a manifest can be opened: it is of this generation, and its master's overlay is there.
pub fn check_manifest(manifest: &ChainManifest, master_exists: bool) -> (r: Result<(), ChainFault>)
    ensures
        (match r {
            Ok(_) => manifest.enrich_ver == ENRICH_VER && master_exists,
            Err(ChainFault::Generation(got)) => manifest.enrich_ver != ENRICH_VER && got
                == manifest.enrich_ver,
            Err(ChainFault::NoMaster(master)) => manifest.enrich_ver == ENRICH_VER && !master_exists
                && master@ == manifest.master_commit@,
            Err(ChainFault::Unrecorded(_)) => false,
        }),
{
    if manifest.enrich_ver != ENRICH_VER {
        return Err(ChainFault::Generation(manifest.enrich_ver));
    }
    if !master_exists {
        return Err(ChainFault::NoMaster(manifest.master_commit.clone()));
    }
    Ok(())
}

/// Whether an entry has a path that the master holds too, and does not record what it replaces.
pub open spec fn unrecorded(master: Overlay, entry: ChainEntry) -> bool {
    names_file(master.segments@, entry.source_path@) && entry.replaces_hex@.len() == 0
}

/// Whether entry `i` is the first of that kind.
pub open spec fn first_unrecorded(master: Overlay, entries: Seq<ChainEntry>, i: int) -> bool {
    0 <= i < entries.len() && unrecorded(master, entries[i]) && forall|j: int|
        0 <= j < i ==> !unrecorded(master, #[trigger] entries[j])
}

/// The segments that the entries of a manifest seed.
pub open spec fn seeded(entries: Seq<ChainEntry>, readers: Seq<Arc<SegmentReader>>) -> Seq<
    (Arc<SegmentReader>, Seq<char>, Seq<char>),
> {
    Seq::new(
        entries.len(),
        |i: int| (readers[i], entries[i].source_path@, entries[i].replaces_hex@),
    )
}

impl ColumnarStorage {
    /// Whether a chain is to be seeded: a restored session already holds what it would add.
    pub fn wants_chain_seed(&self) -> (r: bool)
        ensures
            r == (self.dirty.nothing() && self.pending_reindex@.len() == 0),
    {
        self.dirty.is_empty() && self.pending_reindex.len() == 0
    }

    /// Checks that no path would answer from two layers, and names the first entry that would.
    pub fn check_chain_owners(&self, manifest: &ChainManifest) -> (r: Result<(), ChainFault>)
        requires
            self.wf(),
        ensures
            (match r {
                Ok(_) => forall|i: int|
                    0 <= i < manifest.entries@.len() ==> !unrecorded(
                        self.index(),
                        #[trigger] manifest.entries@[i],
                    ),
                Err(e) => e is Unrecorded && exists|i: int| #[trigger]
                    first_unrecorded(self.index(), manifest.entries@, i) && e->Unrecorded_0@
                        == manifest.entries@[i].source_path@,
            }),
    {
        let mut i: usize = 0;
        while i < manifest.entries.len()
            invariant
                self.wf(),
                i <= manifest.entries@.len(),
                forall|k: int|
                    0 <= k < i ==> !unrecorded(self.index(), #[trigger] manifest.entries@[k]),
            decreases manifest.entries.len() - i,
        {
            let entry = &manifest.entries[i];
            if entry.replaces_hex.as_str().unicode_len() == 0 && has_file(
                &self.shared.overlay.segments,
                entry.source_path.as_str(),
            ) {
                assert(first_unrecorded(self.index(), manifest.entries@, i as int));
                return Err(ChainFault::Unrecorded(entry.source_path.clone()));
            }
            i += 1;
        }
        Ok(())
    }

    /// Seeds the session's edits from a chain manifest: one segment for each entry, and the
    /// manifest's hidden paths and other files.
    ///
    /// `readers` are the opened segments of the entries. An entry that shadows a master segment
    /// without recording it is refused, and the session is then left as it was.
    pub fn seed_dirty_from_chain(
        &mut self,
        manifest: &ChainManifest,
        readers: &Vec<Arc<SegmentReader>>,
    ) -> (r: Result<(), ChainFault>)
        requires
            old(self).wf(),
            readers@.len() == manifest.entries@.len(),
            forall|i: int| 0 <= i < readers@.len() ==> (#[trigger] readers@[i]).wf(),
        ensures
            final(self).wf(),
            final(self).shared == old(self).shared,
            final(self).worktree_root == old(self).worktree_root,
            final(self).master_commit == old(self).master_commit,
            final(self).pending_reindex == old(self).pending_reindex,
            (match r {
                Ok(_) => {
                    &&& forall|i: int|
                        0 <= i < manifest.entries@.len() ==> !unrecorded(
                            old(self).index(),
                            #[trigger] manifest.entries@[i],
                        )
                    &&& added_views(final(self).dirty.added@) == added_views(old(self).dirty.added@)
                        + seeded(manifest.entries@, readers@)
                    &&& final(self).dirty.removed_hex_ids == old(self).dirty.removed_hex_ids
                    &&& forall|p: Seq<char>| #[trigger]
                        lists_path(final(self).dirty.removed_paths@, p) == (lists_path(
                            old(self).dirty.removed_paths@,
                            p,
                        ) || lists_path(manifest.removed_paths@, p))
                    &&& forall|p: Seq<char>| #[trigger]
                        lists_path(final(self).dirty.added_paths@, p) == (lists_path(
                            old(self).dirty.added_paths@,
                            p,
                        ) || lists_path(manifest.added_paths@, p))
                },
                Err(e) => final(self).dirty == old(self).dirty && e is Unrecorded && exists|i: int|
                    #[trigger]
                    first_unrecorded(old(self).index(), manifest.entries@, i) && e->Unrecorded_0@
                        == manifest.entries@[i].source_path@,
            }),
    {
        match self.check_chain_owners(manifest) {
            Err(e) => {
                return Err(e);
            },
            Ok(_) => {},
        }
        let ghost start = self.dirty.added@;
        let ghost shared = self.shared;
        let ghost ids = self.dirty.removed_hex_ids;
        let ghost hidden = self.dirty.removed_paths;
        let ghost others = self.dirty.added_paths;
        let mut i: usize = 0;
        while i < readers.len()
            invariant
                self.wf(),
                self.shared == shared,
                self.dirty.removed_hex_ids == ids,
                self.dirty.removed_paths == hidden,
                self.dirty.added_paths == others,
                self.worktree_root == old(self).worktree_root,
                self.master_commit == old(self).master_commit,
                self.pending_reindex == old(self).pending_reindex,
                i <= readers@.len(),
                readers@.len() == manifest.entries@.len(),
                forall|k: int| 0 <= k < readers@.len() ==> (#[trigger] readers@[k]).wf(),
                self.dirty.added@.len() == start.len() + i,
                forall|k: int|
                    0 <= k < start.len() ==> #[trigger] self.dirty.added@[k] == start[k],
                forall|k: int|
                    #![trigger self.dirty.added@[k]]
                    start.len() <= k < self.dirty.added@.len() ==> (
                        self.dirty.added@[k].reader,
                        self.dirty.added@[k].source_path@,
                        self.dirty.added@[k].replaces_hex@,
                    ) == seeded(manifest.entries@, readers@)[k - start.len()],
            decreases readers.len() - i,
        {
            let entry = &manifest.entries[i];
            let ghost was = self.dirty.added@;
            let ds = DirtySegment {
                reader: Arc::clone(&readers[i]),
                source_path: entry.source_path.clone(),
                replaces_hex: entry.replaces_hex.clone(),
            };
            self.dirty.added.push(ds);
            assert(self.dirty.added@ == was.push(ds));
            assert(self.dirty.wf()) by {
                assert forall|k: int| 0 <= k < self.dirty.added@.len() implies (
                #[trigger] self.dirty.added@[k]).reader.wf() by {
                    if k < was.len() {
                        assert(was[k].reader.wf());
                    } else {
                        assert(readers@[i as int].wf());
                    }
                }
            }
            i += 1;
        }
        assert(added_views(self.dirty.added@) =~= added_views(start) + seeded(
            manifest.entries@,
            readers@,
        ));
        insert_all(&mut self.dirty.removed_paths, &manifest.removed_paths);
        insert_all(&mut self.dirty.added_paths, &manifest.added_paths);
        Ok(())
    }
}

fn insert_all(v: &mut Vec<String>, more: &Vec<String>)
    ensures
        forall|p: Seq<char>| #[trigger]
            lists_path(final(v)@, p) == (lists_path(old(v)@, p) || lists_path(more@, p)),
{
    let mut i: usize = 0;
    while i < more.len()
        invariant
            i <= more@.len(),
            forall|p: Seq<char>| #[trigger]
                lists_path(v@, p) == (lists_path(old(v)@, p) || lists_path(more@.take(i as int), p)),
        decreases more.len() - i,
    {
        let ghost was = v@;
        insert_path(v, more[i].clone());
        proof {
            assert(more@.take(i + 1) =~= more@.take(i as int).push(more@[i as int]));
            assert forall|p: Seq<char>| #[trigger] lists_path(more@.take(i + 1), p) == (lists_path(
                more@.take(i as int),
                p,
            ) || same_path(p, more@[i as int]@)) by {
                lemma_lists_path_push(more@.take(i as int), more@[i as int], p);
            }
        }
        i += 1;
    }
    assert(more@.take(more@.len() as int) =~= more@);
}


/// A commit gives its session's edits to whoever attaches to it: seeding from the manifest of a
/// session gives the session's own segments, in order.
pub proof fn lemma_seeding_gives_the_edits_back(
    m: ChainManifest,
    dirty: DirtyOverlay,
    readers: Seq<Arc<SegmentReader>>,
)
    requires
        m.entries@.len() == dirty.added@.len(),
        readers.len() == dirty.added@.len(),
        forall|i: int|
            #![trigger m.entries@[i]]
            0 <= i < m.entries@.len() ==> ChainManifest::records(m.entries@[i], dirty.added@[i])
                && readers[i] == dirty.added@[i].reader,
    ensures
        seeded(m.entries@, readers) == added_views(dirty.added@),
{
    let a = seeded(m.entries@, readers);
    let b = added_views(dirty.added@);
    assert forall|i: int| 0 <= i < a.len() implies a[i] == b[i] by {
        assert(ChainManifest::records(m.entries@[i], dirty.added@[i]));
    }
    assert(a =~= b);
}

// ───────────────────────────── deriving ─────────────────────────────

/// The paths that a manifest changes or hides, each written plainly.
pub open spec fn touched_paths(m: ChainManifest) -> Set<Seq<char>> {
    Set::new(
        |p: Seq<char>|
            (exists|i: int|
                0 <= i < m.removed_paths@.len() && plainly((#[trigger] m.removed_paths@[i])@) == p)
                || exists|i: int|
                0 <= i < m.entries@.len() && plainly((#[trigger] m.entries@[i]).source_path@) == p,
    )
}

proof fn lemma_ascending_count(v: Seq<String>)
    requires
        texts_ascend(v),
    ensures
        text_views(v).no_duplicates(),
        text_views(v).to_set().len() == v.len(),
        forall|p: Seq<char>| #[trigger] text_views(v).to_set().contains(p) == lists_text(v, p),
{
    let t = text_views(v);
    assert forall|i: int, j: int| 0 <= i < t.len() && 0 <= j < t.len() && i != j implies t[i]
        != t[j] by {
        if i < j {
            assert(text_before(v[i]@, v[j]@));
            lemma_text_total(v[i]@, v[j]@);
        } else {
            assert(text_before(v[j]@, v[i]@));
            lemma_text_total(v[j]@, v[i]@);
        }
    }
    t.unique_seq_to_set();
    assert forall|p: Seq<char>| #[trigger] t.to_set().contains(p) == lists_text(v, p) by {
        if lists_text(v, p) {
            let i = choose|i: int| 0 <= i < v.len() && (#[trigger] v[i])@ == p;
            assert(t[i] == p);
        }
        if t.to_set().contains(p) {
            let i = choose|i: int| 0 <= i < t.len() && t[i] == p;
            assert(v[i]@ == p);
        }
    }
}

/// How many paths a manifest changes or hides. A path counts once, however it is spelled.
pub fn effective_paths(m: &ChainManifest) -> (n: usize)
    ensures
        n == touched_paths(*m).len(),
        touched_paths(*m).finite(),
{
    let mut all: Vec<String> = Vec::new();
    let mut i: usize = 0;
    while i < m.entries.len()
        invariant
            i <= m.entries@.len(),
            all@.len() == i,
            forall|k: int|
                #![trigger all@[k]]
                #![trigger m.entries@[k]]
                0 <= k < i ==> all@[k]@ == plainly(m.entries@[k].source_path@),
        decreases m.entries.len() - i,
    {
        all.push(plain_path(m.entries[i].source_path.as_str()));
        i += 1;
    }
    let ghost entries = all@;
    let mut j: usize = 0;
    while j < m.removed_paths.len()
        invariant
            j <= m.removed_paths@.len(),
            all@.len() == entries.len() + j,
            forall|k: int| 0 <= k < entries.len() ==> #[trigger] all@[k] == entries[k],
            forall|k: int|
                #![trigger all@[entries.len() + k]]
                0 <= k < j ==> all@[entries.len() + k]@ == plainly(m.removed_paths@[k]@),
        decreases m.removed_paths.len() - j,
    {
        all.push(plain_path(m.removed_paths[j].as_str()));
        j += 1;
    }
    let sorted = sorted_texts(&all);
    proof {
        lemma_ascending_count(sorted@);
        let t = text_views(sorted@).to_set();
        assert forall|p: Seq<char>| t.contains(p) == touched_paths(*m).contains(p) by {
            assert(lists_text(sorted@, p) == lists_text(all@, p));
            if lists_text(all@, p) {
                let k = choose|k: int| 0 <= k < all@.len() && (#[trigger] all@[k])@ == p;
                if k < entries.len() {
                    assert(entries[k]@ == p);
                    assert(plainly(m.entries@[k].source_path@) == p);
                } else {
                    let r = k - entries.len();
                    assert(all@[entries.len() + r]@ == plainly(m.removed_paths@[r]@));
                    assert(plainly(m.removed_paths@[r]@) == p);
                }
            }
            if exists|k: int|
                0 <= k < m.removed_paths@.len() && plainly((#[trigger] m.removed_paths@[k])@) == p {
                let k = choose|k: int|
                    0 <= k < m.removed_paths@.len() && plainly((#[trigger] m.removed_paths@[k])@)
                        == p;
                assert(all@[entries.len() + k]@ == p);
            }
            if exists|k: int|
                0 <= k < m.entries@.len() && plainly((#[trigger] m.entries@[k]).source_path@) == p {
                let k = choose|k: int|
                    0 <= k < m.entries@.len() && plainly((#[trigger] m.entries@[k]).source_path@)
                        == p;
                assert(entries[k]@ == p);
                assert(all@[k]@ == p);
            }
        }
        assert(t =~= touched_paths(*m));
    }
    sorted.len()
}

/// What a derivation comes to.
pub enum Derivation {
    /// A manifest small enough to seed.
    Manifest(ChainManifest),
    /// The changes are too many: a full build costs less.
    TooLarge,
    /// A file of the target contradicts the master.
    Conflict(ChainConflict),
}

/// Derives the manifest of a commit from an ancestor's overlay and the commit's own segment map,
/// unless it changes `threshold` paths or more.
pub fn derive_chain(
    master_commit: &str,
    master: &Overlay,
    target: &Vec<(String, Vec<u8>)>,
    worktree_root: &str,
    files: &Vec<(String, u32)>,
    threshold: usize,
) -> (r: Derivation)
    requires
        target_distinct(target@, worktree_root@),
    ensures
        (match r {
            Derivation::Manifest(m) => serves(
                m,
                master_commit@,
                *master,
                target@,
                worktree_root@,
                files@,
            ) && touched_paths(m).len() < threshold,
            Derivation::TooLarge => exists|m: ChainManifest| #[trigger]
                serves(m, master_commit@, *master, target@, worktree_root@, files@)
                    && touched_paths(m).len() >= threshold,
            Derivation::Conflict(e) => exists|i: int| #[trigger]
                first_conflict(*master, files@, i) && e.path@ == files@[i].0@,
        }),
{
    match derive_upstream_manifest(master_commit, master, target, worktree_root, files) {
        Err(e) => Derivation::Conflict(e),
        Ok(m) => {
            let touched: usize = effective_paths(&m);
            if touched >= threshold {
                Derivation::TooLarge
            } else {
                Derivation::Manifest(m)
            }
        },
    }
}

/// What an attach through a derived chain waits for.
pub enum DerivePhase {
    /// The nearest ancestor that has an overlay.
    Search,
    /// The overlay of that ancestor.
    Open(String),
    /// The manifest to be written.
    Save(ChainManifest),
    /// The chain to be opened from the manifest.
    Attach,
    /// Nothing more: whether the chain serves the commit. Where it does not, a full build runs.
    Done(bool),
}

impl DerivePhase {
    /// How many transitions are left at most.
    pub open spec fn steps_left(&self) -> nat {
        match self {
            DerivePhase::Search => 4,
            DerivePhase::Open(_) => 3,
            DerivePhase::Save(_) => 2,
            DerivePhase::Attach => 1,
            DerivePhase::Done(_) => 0,
        }
    }
}

/// An attach through a derived chain, before anything is read: without a segment map, or without
/// an overlay to start from, a full build runs.
pub fn begin_derived_attach(has_segment_map: bool, overlays: usize) -> (p: DerivePhase)
    ensures
        p == (if has_segment_map && overlays > 0 {
            DerivePhase::Search
        } else {
            DerivePhase::Done(false)
        }),
{
    if has_segment_map && overlays > 0 {
        DerivePhase::Search
    } else {
        DerivePhase::Done(false)
    }
}

impl DerivePhase {
    /// Takes in the nearest ancestor that has an overlay, where the search found one.
    pub fn ancestor_found(self, ancestor: Option<String>) -> (next: DerivePhase)
        requires
            self is Search,
        ensures
            next == (match ancestor {
                Some(commit) => DerivePhase::Open(commit),
                None => DerivePhase::Done(false),
            }),
            next.steps_left() < self.steps_left(),
    {
        match ancestor {
            Some(commit) => DerivePhase::Open(commit),
            None => DerivePhase::Done(false),
        }
    }

    /// Takes in the overlay of the ancestor, where it opened, and derives the manifest from it.
    pub fn master_opened(
        self,
        master: Option<&SharedOpen>,
        target: &Vec<(String, Vec<u8>)>,
        worktree_root: &str,
        files: &Vec<(String, u32)>,
        threshold: usize,
    ) -> (next: DerivePhase)
        requires
            self is Open,
            target_distinct(target@, worktree_root@),
        ensures
            next is Save || next == DerivePhase::Done(false),
            next.steps_left() < self.steps_left(),
            master is None ==> next == DerivePhase::Done(false),
            next is Save ==> serves(
                next->Save_0,
                self->Open_0@,
                master->0.overlay,
                target@,
                worktree_root@,
                files@,
            ) && touched_paths(next->Save_0).len() < threshold,
            master is Some && next is Done ==> (exists|m: ChainManifest| #[trigger]
                serves(m, self->Open_0@, master->0.overlay, target@, worktree_root@, files@)
                    && touched_paths(m).len() >= threshold) || (exists|i: int| #[trigger]
                first_conflict(master->0.overlay, files@, i)),
    {
        let commit: String = match self {
            DerivePhase::Open(commit) => commit,
            _ => {
                return DerivePhase::Done(false);
            },
        };
        match master {
            None => DerivePhase::Done(false),
            Some(shared) => match derive_chain(
                commit.as_str(),
                &shared.overlay,
                target,
                worktree_root,
                files,
                threshold,
            ) {
                Derivation::Manifest(m) => DerivePhase::Save(m),
                _ => DerivePhase::Done(false),
            },
        }
    }

    /// Takes in whether the manifest was written.
    pub fn manifest_saved(self, saved: bool) -> (next: DerivePhase)
        requires
            self is Save,
        ensures
            next == (if saved {
                DerivePhase::Attach
            } else {
                DerivePhase::Done(false)
            }),
            next.steps_left() < self.steps_left(),
    {
        if saved {
            DerivePhase::Attach
        } else {
            DerivePhase::Done(false)
        }
    }

    /// Takes in whether the chain opened. The second part says whether the manifest is to be
    /// removed: one that failed is not left for a later attach.
    pub fn chain_opened(self, served: bool) -> (r: (DerivePhase, bool))
        requires
            self is Attach,
        ensures
            r.0 == DerivePhase::Done(served),
            r.1 == !served,
            r.0.steps_left() < self.steps_left(),
    {
        (DerivePhase::Done(served), !served)
    }
}

} // verus!
