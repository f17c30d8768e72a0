//! Deriving the manifest of a commit that no session made.
//!
//! The overlay of an ancestor and the segment map of the commit both name every indexed file by
//! path and content id, so the change set is read off the two.

use crate::build_context::ENRICH_VER;
use crate::chain_manifest::{ChainEntry, ChainManifest, CHAIN_FORMAT_VERSION};
use crate::order::{
    lemma_path_total, lemma_path_weak, path_before, path_less, paths_ascend, sorted_paths,
};
use crate::overlay::format::SegmentMeta;
use crate::overlay::Overlay;
use crate::path_parts::{
    lemma_lists_path_push, lemma_same_path, lists_path, plain_path, plainly, same_path,
};
use crate::paths::{relative_to, segment_source_rel};
use crate::segment::lists_text;
use crate::sort::{
    is_sorted_order, lemma_sorted_order_distinct, pick, picked, sorted_order, sorts_before,
    RankTable,
};
use crate::text::{bytes_to_hex, hex_of, same_text};
use crate::text_index::{is_last, TextIndex};
use vstd::prelude::*;
use vstd::string::*;

verus! {

// ───────────────────────────── what the two indexes say ─────────────────────────────

/// The content id that a segment table gives a path; where several segments share a path, that
/// of the last.
pub open spec fn table_hex(segments: Seq<SegmentMeta>, path: Seq<char>, n: int) -> Option<Seq<char>>
    decreases n,
{
    if n <= 0 {
        None
    } else if same_path(segments[n - 1].source_path@, path) {
        Some(segments[n - 1].hex_content_id@)
    } else {
        table_hex(segments, path, n - 1)
    }
}

/// The content id that the master gives a path.
pub open spec fn master_hex(master: Overlay, path: Seq<char>) -> Option<Seq<char>> {
    table_hex(master.segments@, path, master.segments@.len() as int)
}

/// The size that a file list gives a path; where it is listed several times, the last.
pub open spec fn list_size(files: Seq<(String, u32)>, path: Seq<char>, n: int) -> Option<u32>
    decreases n,
{
    if n <= 0 {
        None
    } else if same_path(files[n - 1].0@, path) {
        Some(files[n - 1].1)
    } else {
        list_size(files, path, n - 1)
    }
}

/// The relative path of entry `i` of a segment map.
pub open spec fn target_path(target: Seq<(String, Vec<u8>)>, root: Seq<char>, i: int) -> Seq<char> {
    relative_to(target[i].0@, root)
}

/// The content id that the target gives a path.
pub open spec fn target_hex(target: Seq<(String, Vec<u8>)>, root: Seq<char>, path: Seq<char>, n: int) -> Option<
    Seq<char>,
>
    decreases n,
{
    if n <= 0 {
        None
    } else if same_path(target_path(target, root, n - 1), path) {
        Some(hex_of(target[n - 1].1@))
    } else {
        target_hex(target, root, path, n - 1)
    }
}

/// Whether the target names every path once.
pub open spec fn target_distinct(target: Seq<(String, Vec<u8>)>, root: Seq<char>) -> bool {
    forall|i: int, j: int|
        #![trigger target[i], target[j]]
        0 <= i < j < target.len() ==> !same_path(
            target_path(target, root, i),
            target_path(target, root, j),
        )
}

// ───────────────────────────── what a manifest says ─────────────────────────────

/// The content id that a manifest gives a path.
pub open spec fn entry_hex(entries: Seq<ChainEntry>, path: Seq<char>, n: int) -> Option<Seq<char>>
    decreases n,
{
    if n <= 0 {
        None
    } else if same_path(entries[n - 1].source_path@, path) {
        Some(entries[n - 1].hex_content_id@)
    } else {
        entry_hex(entries, path, n - 1)
    }
}

/// The content id that the master plus a manifest serve for a path: the manifest's own where it
/// has one, nothing where it hides the path, and the master's otherwise.
pub open spec fn served_hex(master: Overlay, m: ChainManifest, path: Seq<char>) -> Option<Seq<char>> {
    match entry_hex(m.entries@, path, m.entries@.len() as int) {
        Some(hex) => Some(hex),
        None => if lists_path(m.removed_paths@, path) {
            None
        } else {
            master_hex(master, path)
        },
    }
}

/// Whether the target changes an indexed file: it has other content than the master's, or the
/// master does not have it.
pub open spec fn changed(master: Overlay, target: Seq<(String, Vec<u8>)>, root: Seq<char>, i: int) -> bool {
    master_hex(master, target_path(target, root, i)) != Some(hex_of(target[i].1@))
}

/// Whether an entry records the change of file `i` of the target.
pub open spec fn records_change(
    e: ChainEntry,
    master: Overlay,
    target: Seq<(String, Vec<u8>)>,
    root: Seq<char>,
    i: int,
) -> bool {
    &&& 0 <= i < target.len()
    &&& changed(master, target, root, i)
    &&& e.source_path@ == target_path(target, root, i)
    &&& e.hex_content_id@ == hex_of(target[i].1@)
    &&& e.replaces_hex@ == (match master_hex(master, target_path(target, root, i)) {
        Some(hex) => hex,
        None => Seq::empty(),
    })
}

/// Whether an entry records the change of one of the first `n` files of the target.
pub open spec fn recorded(
    e: ChainEntry,
    master: Overlay,
    target: Seq<(String, Vec<u8>)>,
    root: Seq<char>,
    n: int,
) -> bool {
    exists|i: int| i < n && #[trigger] records_change(e, master, target, root, i)
}

/// Whether one of the entries records the change of file `i` of the target.
pub open spec fn has_record(
    entries: Seq<ChainEntry>,
    master: Overlay,
    target: Seq<(String, Vec<u8>)>,
    root: Seq<char>,
    i: int,
) -> bool {
    exists|a: int|
        0 <= a < entries.len() && records_change(#[trigger] entries[a], master, target, root, i)
}

/// Whether the manifest hides a path: an indexed file of the master that the target replaces or
/// no longer has, or a listed file of the master that the target no longer lists.
pub open spec fn hidden(
    master: Overlay,
    target: Seq<(String, Vec<u8>)>,
    root: Seq<char>,
    files: Seq<(String, u32)>,
    path: Seq<char>,
) -> bool {
    ||| master_hex(master, path) is Some && target_hex(target, root, path, target.len() as int)
        != master_hex(master, path)
    ||| list_size(master.file_entries@, path, master.file_entries@.len() as int) is Some
        && list_size(files, path, files.len() as int) is None
}

/// Whether the manifest adds a path: a listed file of the target whose size the master does not
/// list.
pub open spec fn listed_anew(master: Overlay, files: Seq<(String, u32)>, i: int) -> bool {
    list_size(master.file_entries@, files[i].0@, master.file_entries@.len() as int) != Some(
        files[i].1,
    )
}

/// Whether `m` is the manifest that serves the target as the master plus changes.
pub open spec fn serves(
    m: ChainManifest,
    master_commit: Seq<char>,
    master: Overlay,
    target: Seq<(String, Vec<u8>)>,
    root: Seq<char>,
    files: Seq<(String, u32)>,
) -> bool {
    &&& m.current()
    &&& m.master_commit@ == master_commit
    &&& forall|a: int, b: int|
        #![trigger m.entries@[a], m.entries@[b]]
        0 <= a < b < m.entries@.len() ==> path_before(
            m.entries@[a].source_path@,
            m.entries@[b].source_path@,
        )
    &&& forall|a: int|
        0 <= a < m.entries@.len() ==> recorded(
            #[trigger] m.entries@[a],
            master,
            target,
            root,
            target.len() as int,
        )
    &&& forall|i: int|
        0 <= i < target.len() && #[trigger] changed(master, target, root, i) ==> has_record(
            m.entries@,
            master,
            target,
            root,
            i,
        )
    &&& paths_ascend(m.removed_paths@)
    &&& forall|p: Seq<char>| #[trigger]
        lists_path(m.removed_paths@, p) == hidden(master, target, root, files, p)
    &&& paths_ascend(m.added_paths@)
    &&& forall|p: Seq<char>| #[trigger]
        lists_path(m.added_paths@, p) == (exists|i: int|
            0 <= i < files.len() && #[trigger] listed_anew(master, files, i) && same_path(
                files[i].0@,
                p,
            ))
}

/// A path that the master indexes and the target only lists: a chain can hide a path or add it,
/// not both.
pub open spec fn first_conflict(master: Overlay, files: Seq<(String, u32)>, i: int) -> bool {
    &&& 0 <= i < files.len()
    &&& master_hex(master, files[i].0@) is Some
    &&& forall|k: int| 0 <= k < i ==> master_hex(master, (#[trigger] files[k]).0@) is None
}

// ───────────────────────────── lookups ─────────────────────────────

proof fn lemma_table_hex(segments: Seq<SegmentMeta>, items: Seq<String>, path: Seq<char>, n: int)
    requires
        0 <= n <= segments.len(),
        items.len() == segments.len(),
        forall|i: int|
            0 <= i < items.len() ==> (#[trigger] items[i])@ == plainly(segments[i].source_path@),
    ensures
        forall|i: int|
            0 <= i < n && items[i]@ == plainly(path) && (forall|j: int|
                i < j < n ==> (#[trigger] items[j])@ != plainly(path)) ==> table_hex(
                segments,
                path,
                n,
            ) == Some(#[trigger] segments[i].hex_content_id@),
        (forall|i: int| 0 <= i < n ==> (#[trigger] items[i])@ != plainly(path)) ==> table_hex(
            segments,
            path,
            n,
        ) is None,
    decreases n,
{
    if n > 0 {
        lemma_table_hex(segments, items, path, n - 1);
        assert(items[n - 1]@ == plainly(segments[n - 1].source_path@));
        lemma_same_path(segments[n - 1].source_path@, path);
    }
}

proof fn lemma_list_size(files: Seq<(String, u32)>, items: Seq<String>, path: Seq<char>, n: int)
    requires
        0 <= n <= files.len(),
        items.len() == files.len(),
        forall|i: int| 0 <= i < items.len() ==> (#[trigger] items[i])@ == plainly(files[i].0@),
    ensures
        forall|i: int|
            0 <= i < n && items[i]@ == plainly(path) && (forall|j: int|
                i < j < n ==> (#[trigger] items[j])@ != plainly(path)) ==> list_size(files, path, n)
                == Some((#[trigger] files[i]).1),
        (forall|i: int| 0 <= i < n ==> (#[trigger] items[i])@ != plainly(path)) ==> list_size(
            files,
            path,
            n,
        ) is None,
    decreases n,
{
    if n > 0 {
        lemma_list_size(files, items, path, n - 1);
        assert(items[n - 1]@ == plainly(files[n - 1].0@));
        lemma_same_path(files[n - 1].0@, path);
    }
}

/// The paths of a list of segments.
fn paths_of_segments(segments: &Vec<SegmentMeta>) -> (paths: Vec<String>)
    ensures
        paths@.len() == segments@.len(),
        forall|i: int|
            0 <= i < paths@.len() ==> (#[trigger] paths@[i])@ == segments@[i].source_path@,
{
    let mut paths: Vec<String> = Vec::new();
    let mut i: usize = 0;
    while i < segments.len()
        invariant
            i <= segments@.len(),
            paths@.len() == i,
            forall|k: int| 0 <= k < i ==> (#[trigger] paths@[k])@ == segments@[k].source_path@,
        decreases segments.len() - i,
    {
        paths.push(segments[i].source_path.clone());
        i += 1;
    }
    paths
}

/// The paths of a file list.
fn paths_of_files(files: &Vec<(String, u32)>) -> (paths: Vec<String>)
    ensures
        paths@.len() == files@.len(),
        forall|i: int| 0 <= i < paths@.len() ==> (#[trigger] paths@[i])@ == files@[i].0@,
{
    let mut paths: Vec<String> = Vec::new();
    let mut i: usize = 0;
    while i < files.len()
        invariant
            i <= files@.len(),
            paths@.len() == i,
            forall|k: int| 0 <= k < i ==> (#[trigger] paths@[k])@ == files@[k].0@,
        decreases files.len() - i,
    {
        paths.push(files[i].0.clone());
        i += 1;
    }
    paths
}

/// The index that paths are searched by: each is written plainly, so that every spelling finds it.
fn index_paths(paths: &Vec<String>) -> (x: TextIndex)
    ensures
        x.wf(),
        x.items@.len() == paths@.len(),
        forall|i: int| 0 <= i < x.items@.len() ==> (#[trigger] x.items@[i])@ == plainly(paths@[i]@),
{
    let mut items: Vec<String> = Vec::new();
    let mut i: usize = 0;
    while i < paths.len()
        invariant
            i <= paths@.len(),
            items@.len() == i,
            forall|k: int| 0 <= k < i ==> (#[trigger] items@[k])@ == plainly(paths@[k]@),
        decreases paths.len() - i,
    {
        items.push(plain_path(paths[i].as_str()));
        i += 1;
    }
    TextIndex::new(items)
}

/// Finds the segment that a path's content id is taken from.
fn find_in_table(x: &TextIndex, segments: &Vec<SegmentMeta>, path: &str) -> (r: Option<usize>)
    requires
        x.wf(),
        x.items@.len() == segments@.len(),
        forall|i: int|
            0 <= i < x.items@.len() ==> (#[trigger] x.items@[i])@ == plainly(
                segments@[i].source_path@,
            ),
    ensures
        (match r {
            Some(i) => i < segments@.len() && table_hex(
                segments@,
                path@,
                segments@.len() as int,
            ) == Some(segments@[i as int].hex_content_id@),
            None => table_hex(segments@, path@, segments@.len() as int) is None,
        }),
{
    let plain = plain_path(path);
    let r = x.find_last(plain.as_str());
    proof {
        lemma_table_hex(segments@, x.items@, path@, segments@.len() as int);
        if r is Some {
            let i = r->0 as int;
            assert(is_last(x.items@, plain@, i));
            assert(segments@[i].hex_content_id@ == segments@[i].hex_content_id@);
        } else {
            assert forall|i: int| 0 <= i < x.items@.len() implies (#[trigger] x.items@[i])@
                != plain@ by {
                assert(!lists_text(x.items@, plain@));
            }
        }
    }
    r
}

/// Finds the size that a file list gives a path.
fn find_in_list(x: &TextIndex, files: &Vec<(String, u32)>, path: &str) -> (r: Option<u32>)
    requires
        x.wf(),
        x.items@.len() == files@.len(),
        forall|i: int|
            0 <= i < x.items@.len() ==> (#[trigger] x.items@[i])@ == plainly(files@[i].0@),
    ensures
        r == list_size(files@, path@, files@.len() as int),
{
    let plain = plain_path(path);
    let found = x.find_last(plain.as_str());
    proof {
        lemma_list_size(files@, x.items@, path@, files@.len() as int);
        if found is Some {
            let i = found->0 as int;
            assert(is_last(x.items@, plain@, i));
            assert(files@[i].1 == files@[i].1);
        } else {
            assert forall|i: int| 0 <= i < x.items@.len() implies (#[trigger] x.items@[i])@
                != plain@ by {
                assert(!lists_text(x.items@, plain@));
            }
        }
    }
    match found {
        Some(i) => Some(files[i].1),
        None => None,
    }
}

/// The entries of a manifest, ranked by path.
pub struct EntriesByPath<'a> {
    pub entries: &'a Vec<ChainEntry>,
}

impl<'a> RankTable for EntriesByPath<'a> {
    open spec fn size(&self) -> nat {
        self.entries@.len()
    }

    open spec fn readable(&self) -> bool {
        true
    }

    open spec fn ranks_before(&self, i: int, j: int) -> bool {
        path_before(self.entries@[i].source_path@, self.entries@[j].source_path@)
    }

    proof fn strict_weak_order(&self, i: int, j: int, k: int) {
        lemma_path_weak(
            self.entries@[i].source_path@,
            self.entries@[j].source_path@,
            self.entries@[k].source_path@,
        );
    }

    fn count(&self) -> (n: usize) {
        self.entries.len()
    }

    fn is_before(&self, i: usize, j: usize) -> (r: bool) {
        path_less(self.entries[i].source_path.as_str(), self.entries[j].source_path.as_str())
    }
}

// ───────────────────────────── derivation ─────────────────────────────

/// The target gives a path the content id of the one file it names so.
proof fn lemma_target_hex(target: Seq<(String, Vec<u8>)>, root: Seq<char>, path: Seq<char>, n: int)
    requires
        0 <= n <= target.len(),
        target_distinct(target, root),
    ensures
        forall|i: int|
            0 <= i < n && same_path(#[trigger] target_path(target, root, i), path) ==> target_hex(
                target,
                root,
                path,
                n,
            ) == Some(hex_of(target[i].1@)),
        (forall|i: int| 0 <= i < n ==> !same_path(#[trigger] target_path(target, root, i), path))
            ==> target_hex(target, root, path, n) is None,
        target_hex(target, root, path, n) is Some ==> exists|i: int|
            0 <= i < n && same_path(#[trigger] target_path(target, root, i), path),
    decreases n,
{
    if n > 0 {
        lemma_target_hex(target, root, path, n - 1);
        assert forall|i: int|
            0 <= i < n && same_path(#[trigger] target_path(target, root, i), path) implies target_hex(
            target,
            root,
            path,
            n,
        ) == Some(hex_of(target[i].1@)) by {
            if i < n - 1 {
                assert(target[i] == target[i] && target[n - 1] == target[n - 1]);
            }
        }
        if target_hex(target, root, path, n) is Some {
            if same_path(target_path(target, root, n - 1), path) {
                assert(0 <= n - 1 < n);
            } else {
                let i = choose|i: int|
                    0 <= i < n - 1 && same_path(#[trigger] target_path(target, root, i), path);
                assert(0 <= i < n);
            }
        }
    }
}

/// A segment table gives a path a content id exactly where it has a segment of it.
proof fn lemma_table_has(segments: Seq<SegmentMeta>, path: Seq<char>, n: int)
    requires
        0 <= n <= segments.len(),
    ensures
        table_hex(segments, path, n) is Some <==> exists|i: int|
            0 <= i < n && same_path((#[trigger] segments[i]).source_path@, path),
    decreases n,
{
    if n > 0 {
        lemma_table_has(segments, path, n - 1);
        if same_path(segments[n - 1].source_path@, path) {
            assert(0 <= n - 1 < n);
        } else if exists|i: int| 0 <= i < n && same_path((#[trigger] segments[i]).source_path@, path) {
            let i = choose|i: int| 0 <= i < n && same_path((#[trigger] segments[i]).source_path@, path);
            assert(i < n - 1);
        } else if table_hex(segments, path, n - 1) is Some {
            let i = choose|i: int|
                0 <= i < n - 1 && same_path((#[trigger] segments[i]).source_path@, path);
            assert(i < n);
        }
    }
}

/// A file list gives a path a size exactly where it lists it.
proof fn lemma_list_has(files: Seq<(String, u32)>, path: Seq<char>, n: int)
    requires
        0 <= n <= files.len(),
    ensures
        list_size(files, path, n) is Some <==> exists|i: int|
            0 <= i < n && same_path((#[trigger] files[i]).0@, path),
    decreases n,
{
    if n > 0 {
        lemma_list_has(files, path, n - 1);
        if same_path(files[n - 1].0@, path) {
            assert(0 <= n - 1 < n);
        } else if exists|i: int| 0 <= i < n && same_path((#[trigger] files[i]).0@, path) {
            let i = choose|i: int| 0 <= i < n && same_path((#[trigger] files[i]).0@, path);
            assert(i < n - 1);
        } else if list_size(files, path, n - 1) is Some {
            let i = choose|i: int| 0 <= i < n - 1 && same_path((#[trigger] files[i]).0@, path);
            assert(i < n);
        }
    }
}

/// Whether the entries record the changes of the first `n` files of the target, each once.
spec fn entries_upto(
    entries: Seq<ChainEntry>,
    master: Overlay,
    target: Seq<(String, Vec<u8>)>,
    root: Seq<char>,
    n: int,
) -> bool {
    &&& forall|a: int|
        0 <= a < entries.len() ==> recorded(#[trigger] entries[a], master, target, root, n)
    &&& forall|i: int|
        0 <= i < n && #[trigger] changed(master, target, root, i) ==> has_record(
            entries,
            master,
            target,
            root,
            i,
        )
    &&& forall|a: int, b: int|
        #![trigger entries[a], entries[b]]
        0 <= a < b < entries.len() ==> !same_path(
            entries[a].source_path@,
            entries[b].source_path@,
        )
}

/// Whether one of the first `n` files of the target changes a path.
spec fn path_changed(
    master: Overlay,
    target: Seq<(String, Vec<u8>)>,
    root: Seq<char>,
    n: int,
    p: Seq<char>,
) -> bool {
    exists|i: int|
        0 <= i < n && same_path(#[trigger] target_path(target, root, i), p) && changed(
            master,
            target,
            root,
            i,
        )
}

/// Whether `removed` holds the paths of the master that the first `n` files of the target replace.
spec fn replaced_upto(
    removed: Seq<String>,
    master: Overlay,
    target: Seq<(String, Vec<u8>)>,
    root: Seq<char>,
    n: int,
) -> bool {
    forall|p: Seq<char>| #[trigger]
        lists_path(removed, p) == (master_hex(master, p) is Some && path_changed(
            master,
            target,
            root,
            n,
            p,
        ))
}

/// The changes of the indexed files, and the paths that they replace.
fn collect_changes(master: &Overlay, x: &TextIndex, target: &Vec<(String, Vec<u8>)>, root: &str) -> (r:
    (Vec<ChainEntry>, Vec<String>, Vec<String>))
    requires
        x.wf(),
        x.items@.len() == master.segments@.len(),
        forall|i: int|
            0 <= i < x.items@.len() ==> (#[trigger] x.items@[i])@ == plainly(
                master.segments@[i].source_path@,
            ),
        target_distinct(target@, root@),
    ensures
        entries_upto(r.0@, *master, target@, root@, target@.len() as int),
        replaced_upto(r.1@, *master, target@, root@, target@.len() as int),
        r.2@.len() == target@.len(),
        forall|i: int|
            0 <= i < target@.len() ==> (#[trigger] r.2@[i])@ == target_path(target@, root@, i),
{
    let mut entries: Vec<ChainEntry> = Vec::new();
    let mut removed: Vec<String> = Vec::new();
    let mut paths: Vec<String> = Vec::new();
    let mut i: usize = 0;
    while i < target.len()
        invariant
            x.wf(),
            x.items@.len() == master.segments@.len(),
            forall|k: int|
                0 <= k < x.items@.len() ==> (#[trigger] x.items@[k])@ == plainly(
                    master.segments@[k].source_path@,
                ),
            target_distinct(target@, root@),
            i <= target@.len(),
            entries_upto(entries@, *master, target@, root@, i as int),
            replaced_upto(removed@, *master, target@, root@, i as int),
            paths@.len() == i,
            forall|k: int|
                0 <= k < i ==> (#[trigger] paths@[k])@ == target_path(target@, root@, k),
        decreases target.len() - i,
    {
        let rel = segment_source_rel(target[i].0.as_str(), root);
        let hex = bytes_to_hex(target[i].1.as_slice());
        let ghost p = target_path(target@, root@, i as int);
        let ghost was_entries = entries@;
        let ghost was_removed = removed@;
        let found = find_in_table(x, &master.segments, rel.as_str());
        let differs = match found {
            Some(at) => !same_text(master.segments[at].hex_content_id.as_str(), hex.as_str()),
            None => true,
        };
        assert(differs == changed(*master, target@, root@, i as int));
        paths.push(rel.clone());
        if differs {
            let replaces_hex = match found {
                Some(at) => {
                    removed.push(rel.clone());
                    master.segments[at].hex_content_id.clone()
                },
                None => String::new(),
            };
            assert(replaces_hex@ =~= (match master_hex(*master, p) {
                Some(h) => h,
                None => Seq::<char>::empty(),
            }));
            let entry = ChainEntry { source_path: rel, hex_content_id: hex, replaces_hex };
            assert(records_change(entry, *master, target@, root@, i as int));
            entries.push(entry);
        }
        proof {
            if differs {
                assert(entries@ =~= was_entries.push(entries@.last()));
            }
            lemma_entries_step(was_entries, entries@, *master, target@, root@, i as int);
            let more = differs && found is Some;
            if more {
                assert(removed@ =~= was_removed.push(removed@.last()));
            }
            lemma_replaced_step(was_removed, removed@, *master, target@, root@, i as int);
        }
        i += 1;
    }
    (entries, removed, paths)
}

proof fn lemma_entries_step(
    was: Seq<ChainEntry>,
    entries: Seq<ChainEntry>,
    master: Overlay,
    target: Seq<(String, Vec<u8>)>,
    root: Seq<char>,
    i: int,
)
    requires
        0 <= i < target.len(),
        target_distinct(target, root),
        entries_upto(was, master, target, root, i),
        changed(master, target, root, i) ==> entries.len() > 0 && entries == was.push(
            entries.last(),
        ) && records_change(entries.last(), master, target, root, i),
        !changed(master, target, root, i) ==> entries == was,
    ensures
        entries_upto(entries, master, target, root, i + 1),
{
    assert forall|a: int| 0 <= a < was.len() implies recorded(
        #[trigger] was[a],
        master,
        target,
        root,
        i + 1,
    ) by {
        assert(recorded(was[a], master, target, root, i));
        let k = choose|k: int| k < i && #[trigger] records_change(was[a], master, target, root, k);
        assert(k < i + 1);
    }
    assert forall|k: int| 0 <= k < i && #[trigger] changed(master, target, root, k) implies has_record(
        entries,
        master,
        target,
        root,
        k,
    ) by {
        assert(has_record(was, master, target, root, k));
        let a = choose|a: int|
            0 <= a < was.len() && records_change(#[trigger] was[a], master, target, root, k);
        assert(entries[a] == was[a]);
    }
    if changed(master, target, root, i) {
        let last = entries.last();
        assert(entries[was.len() as int] == last);
        assert(has_record(entries, master, target, root, i));
        assert(recorded(last, master, target, root, i + 1));
        assert forall|a: int| 0 <= a < was.len() implies !same_path(
            (#[trigger] was[a]).source_path@,
            last.source_path@,
        ) by {
            assert(recorded(was[a], master, target, root, i));
            let k = choose|k: int|
                k < i && #[trigger] records_change(was[a], master, target, root, k);
            assert(target[k] == target[k] && target[i] == target[i]);
        }
    }
    assert forall|a: int| 0 <= a < entries.len() implies recorded(
        #[trigger] entries[a],
        master,
        target,
        root,
        i + 1,
    ) by {
        if a < was.len() {
            assert(entries[a] == was[a]);
        }
    }
    assert forall|a: int, b: int|
        #![trigger entries[a], entries[b]]
        0 <= a < b < entries.len() implies !same_path(
        entries[a].source_path@,
        entries[b].source_path@,
    ) by {
        assert(entries[a] == was[a]);
        if b < was.len() {
            assert(entries[b] == was[b]);
        }
    }
}

proof fn lemma_replaced_step(
    was: Seq<String>,
    removed: Seq<String>,
    master: Overlay,
    target: Seq<(String, Vec<u8>)>,
    root: Seq<char>,
    i: int,
)
    requires
        0 <= i < target.len(),
        replaced_upto(was, master, target, root, i),
        (changed(master, target, root, i) && master_hex(
            master,
            target_path(target, root, i),
        ) is Some) ==> removed.len() > 0 && removed == was.push(removed.last())
            && removed.last()@ == target_path(target, root, i),
        !(changed(master, target, root, i) && master_hex(
            master,
            target_path(target, root, i),
        ) is Some) ==> removed == was,
    ensures
        replaced_upto(removed, master, target, root, i + 1),
{
    let p = target_path(target, root, i);
    let more = changed(master, target, root, i) && master_hex(master, p) is Some;
    assert forall|q: Seq<char>| #[trigger] lists_path(removed, q) == (master_hex(master, q) is Some
        && path_changed(master, target, root, i + 1, q)) by {
        if more {
            lemma_lists_path_push(was, removed.last(), q);
        }
        if same_path(q, p) {
            lemma_table_same(master.segments@, q, p, master.segments@.len() as int);
        }
        if path_changed(master, target, root, i, q) {
            let k = choose|k: int|
                0 <= k < i && same_path(#[trigger] target_path(target, root, k), q) && changed(
                    master,
                    target,
                    root,
                    k,
                );
            assert(k < i + 1);
        }
        if path_changed(master, target, root, i + 1, q) {
            let k = choose|k: int|
                0 <= k < i + 1 && same_path(#[trigger] target_path(target, root, k), q) && changed(
                    master,
                    target,
                    root,
                    k,
                );
            if k < i {
                assert(path_changed(master, target, root, i, q));
            }
        }
        if more && same_path(q, p) {
            assert(same_path(target_path(target, root, i), q));
            assert(path_changed(master, target, root, i + 1, q));
        }
    }
}

/// A segment table gives all spellings of a path one content id.
proof fn lemma_table_same(segments: Seq<SegmentMeta>, a: Seq<char>, b: Seq<char>, n: int)
    requires
        0 <= n <= segments.len(),
        same_path(a, b),
    ensures
        table_hex(segments, a, n) == table_hex(segments, b, n),
    decreases n,
{
    if n > 0 {
        lemma_table_same(segments, a, b, n - 1);
    }
}

/// Why a manifest cannot be derived: this path is an indexed file in the master and a listed one
/// in the target.
pub struct ChainConflict {
    pub path: String,
}

/// Appends the paths of a list that an index does not hold.
fn append_missing(removed: &mut Vec<String>, paths: &Vec<String>, x: &TextIndex)
    requires
        x.wf(),
    ensures
        forall|p: Seq<char>| #[trigger]
            lists_path(final(removed)@, p) == (lists_path(old(removed)@, p) || (lists_path(
                paths@,
                p,
            ) && !lists_text(x.items@, plainly(p)))),
{
    let ghost was = removed@;
    let mut i: usize = 0;
    while i < paths.len()
        invariant
            x.wf(),
            was == old(removed)@,
            i <= paths@.len(),
            forall|p: Seq<char>| #[trigger]
                lists_path(removed@, p) == (lists_path(was, p) || (!lists_text(
                    x.items@,
                    plainly(p),
                ) && lists_path(paths@.take(i as int), p))),
        decreases paths.len() - i,
    {
        let ghost before = removed@;
        let ghost seen = paths@.take(i as int);
        let plain = plain_path(paths[i].as_str());
        let missing = !x.holds(plain.as_str());
        if missing {
            removed.push(paths[i].clone());
        }
        proof {
            assert(paths@.take(i + 1) =~= seen.push(paths@[i as int]));
            if missing {
                assert(removed@ =~= before.push(removed@.last()));
            }
            assert forall|p: Seq<char>| #[trigger] lists_path(removed@, p) == (lists_path(was, p)
                || (!lists_text(x.items@, plainly(p)) && lists_path(paths@.take(i + 1), p))) by {
                lemma_lists_path_push(seen, paths@[i as int], p);
                lemma_same_path(p, paths@[i as int]@);
                if missing {
                    lemma_lists_path_push(before, removed@.last(), p);
                }
                assert(lists_path(before, p) == (lists_path(was, p) || (!lists_text(
                    x.items@,
                    plainly(p),
                ) && lists_path(seen, p))));
            }
        }
        i += 1;
    }
    assert(paths@.take(paths@.len() as int) =~= paths@);
}

/// Builds the manifest that serves the target as the master plus a change set.
///
/// `target` is the segment map of the target commit, `files` the files of its checkout that have
/// no segment, with their sizes.
pub fn derive_upstream_manifest(
    master_commit: &str,
    master: &Overlay,
    target: &Vec<(String, Vec<u8>)>,
    worktree_root: &str,
    files: &Vec<(String, u32)>,
) -> (r: Result<ChainManifest, ChainConflict>)
    requires
        target_distinct(target@, worktree_root@),
    ensures
        (match r {
            Ok(m) => serves(m, master_commit@, *master, target@, worktree_root@, files@) && forall|
                i: int,
            |
                0 <= i < files@.len() ==> master_hex(*master, (#[trigger] files@[i]).0@) is None,
            Err(e) => exists|i: int| #[trigger]
                first_conflict(*master, files@, i) && e.path@ == files@[i].0@,
        }),
{
    let master_paths = paths_of_segments(&master.segments);
    let table = index_paths(&master_paths);
    let (entries, replaced, paths) = collect_changes(master, &table, target, worktree_root);
    let target_index = index_paths(&paths);
    let mut removed = replaced;
    append_missing(&mut removed, &master_paths, &target_index);
    let master_files = paths_of_files(&master.file_entries);
    let listed = index_paths(&master_files);
    let mut added: Vec<String> = Vec::new();
    let mut i: usize = 0;
    while i < files.len()
        invariant
            table.wf(),
            table.items@.len() == master.segments@.len(),
            forall|k: int|
                0 <= k < table.items@.len() ==> (#[trigger] table.items@[k])@ == plainly(
                    master.segments@[k].source_path@,
                ),
            listed.wf(),
            listed.items@.len() == master.file_entries@.len(),
            forall|k: int|
                0 <= k < listed.items@.len() ==> (#[trigger] listed.items@[k])@ == plainly(
                    master.file_entries@[k].0@,
                ),
            i <= files@.len(),
            forall|k: int|
                0 <= k < i ==> master_hex(*master, (#[trigger] files@[k]).0@) is None,
            forall|p: Seq<char>| #[trigger]
                lists_path(added@, p) == (exists|k: int|
                    0 <= k < i && #[trigger] listed_anew(*master, files@, k) && same_path(
                        files@[k].0@,
                        p,
                    )),
        decreases files.len() - i,
    {
        if find_in_table(&table, &master.segments, files[i].0.as_str()).is_some() {
            assert(first_conflict(*master, files@, i as int));
            return Err(ChainConflict { path: files[i].0.clone() });
        }
        let ghost was = added@;
        let size = find_in_list(&listed, &master.file_entries, files[i].0.as_str());
        let anew = match size {
            Some(n) => n != files[i].1,
            None => true,
        };
        assert(anew == listed_anew(*master, files@, i as int));
        if anew {
            added.push(files[i].0.clone());
        }
        proof {
            if anew {
                assert(added@ =~= was.push(added@.last()));
            }
            assert forall|p: Seq<char>| #[trigger] lists_path(added@, p) == (exists|k: int|
                0 <= k < i + 1 && #[trigger] listed_anew(*master, files@, k) && same_path(
                    files@[k].0@,
                    p,
                )) by {
                if anew {
                    lemma_lists_path_push(was, added@.last(), p);
                    if same_path(p, files@[i as int].0@) {
                        assert(listed_anew(*master, files@, i as int));
                    }
                }
                if lists_path(was, p) {
                    let k = choose|k: int|
                        0 <= k < i && #[trigger] listed_anew(*master, files@, k) && same_path(
                            files@[k].0@,
                            p,
                        );
                    assert(k < i + 1);
                }
            }
        }
        i += 1;
    }
    let file_paths = paths_of_files(files);
    let target_files = index_paths(&file_paths);
    append_missing(&mut removed, &master_files, &target_files);
    proof {
        assert forall|p: Seq<char>| #[trigger] lists_path(removed@, p) == hidden(
            *master,
            target@,
            worktree_root@,
            files@,
            p,
        ) by {
            lemma_hidden(
                *master,
                target@,
                worktree_root@,
                files@,
                replaced@,
                master_paths@,
                paths@,
                target_index.items@,
                master_files@,
                file_paths@,
                target_files.items@,
                p,
            );
        }
    }
    let order = sorted_order(&EntriesByPath { entries: &entries });
    assert(entries@.len() == entries.len());
    proof {
        lemma_sorted_order_distinct(&(EntriesByPath { entries: &entries }), order@);
        lemma_entries_sorted(
            &entries,
            order@,
            *master,
            target@,
            worktree_root@,
            picked(entries@, order@),
        );
    }
    let entries = pick(entries, &order);
    let removed_paths = sorted_paths(&removed);
    let added_paths = sorted_paths(&added);
    proof {
        assert forall|p: Seq<char>| #[trigger] lists_path(removed_paths@, p) == hidden(
            *master,
            target@,
            worktree_root@,
            files@,
            p,
        ) by {
            assert(lists_path(removed_paths@, p) == lists_path(removed@, p));
        }
        assert forall|p: Seq<char>| #[trigger] lists_path(added_paths@, p) == (exists|k: int|
            0 <= k < files@.len() && #[trigger] listed_anew(*master, files@, k) && same_path(
                files@[k].0@,
                p,
            )) by {
            assert(lists_path(added_paths@, p) == lists_path(added@, p));
        }
    }
    Ok(
        ChainManifest {
            version: CHAIN_FORMAT_VERSION,
            enrich_ver: ENRICH_VER,
            master_commit: master_commit.to_owned(),
            entries,
            removed_paths,
            added_paths,
        },
    )
}

/// An index of paths written plainly holds every spelling of them.
proof fn lemma_index_holds(paths: Seq<String>, items: Seq<String>, p: Seq<char>)
    requires
        items.len() == paths.len(),
        forall|i: int| 0 <= i < items.len() ==> (#[trigger] items[i])@ == plainly(paths[i]@),
    ensures
        lists_text(items, plainly(p)) == lists_path(paths, p),
{
    if lists_text(items, plainly(p)) {
        let k = choose|k: int| 0 <= k < items.len() && (#[trigger] items[k])@ == plainly(p);
        lemma_same_path(paths[k]@, p);
        assert(same_path(paths[k]@, p));
    }
    if lists_path(paths, p) {
        let k = choose|k: int| 0 <= k < paths.len() && same_path((#[trigger] paths[k])@, p);
        lemma_same_path(paths[k]@, p);
        assert(items[k]@ == plainly(p));
    }
}

proof fn lemma_hidden(
    master: Overlay,
    target: Seq<(String, Vec<u8>)>,
    root: Seq<char>,
    files: Seq<(String, u32)>,
    replaced: Seq<String>,
    master_paths: Seq<String>,
    target_paths: Seq<String>,
    target_items: Seq<String>,
    master_files: Seq<String>,
    file_paths: Seq<String>,
    file_items: Seq<String>,
    p: Seq<char>,
)
    requires
        target_distinct(target, root),
        replaced_upto(replaced, master, target, root, target.len() as int),
        master_paths.len() == master.segments@.len(),
        forall|k: int|
            0 <= k < master_paths.len() ==> (#[trigger] master_paths[k])@
                == master.segments@[k].source_path@,
        target_paths.len() == target.len(),
        forall|k: int|
            0 <= k < target_paths.len() ==> (#[trigger] target_paths[k])@ == target_path(
                target,
                root,
                k,
            ),
        target_items.len() == target_paths.len(),
        forall|k: int|
            0 <= k < target_items.len() ==> (#[trigger] target_items[k])@ == plainly(
                target_paths[k]@,
            ),
        master_files.len() == master.file_entries@.len(),
        forall|k: int|
            0 <= k < master_files.len() ==> (#[trigger] master_files[k])@
                == master.file_entries@[k].0@,
        file_paths.len() == files.len(),
        forall|k: int| 0 <= k < file_paths.len() ==> (#[trigger] file_paths[k])@ == files[k].0@,
        file_items.len() == file_paths.len(),
        forall|k: int|
            0 <= k < file_items.len() ==> (#[trigger] file_items[k])@ == plainly(file_paths[k]@),
    ensures
        hidden(master, target, root, files, p) == (lists_path(replaced, p) || (lists_path(
            master_paths,
            p,
        ) && !lists_text(target_items, plainly(p))) || (lists_path(master_files, p) && !lists_text(
            file_items,
            plainly(p),
        ))),
{
    let n = target.len() as int;
    lemma_index_holds(target_paths, target_items, p);
    lemma_index_holds(file_paths, file_items, p);
    lemma_target_hex(target, root, p, n);
    lemma_table_has(master.segments@, p, master.segments@.len() as int);
    lemma_list_has(master.file_entries@, p, master.file_entries@.len() as int);
    lemma_list_has(files, p, files.len() as int);
    assert(lists_path(master_paths, p) == (master_hex(master, p) is Some)) by {
        if lists_path(master_paths, p) {
            let k = choose|k: int|
                0 <= k < master_paths.len() && same_path((#[trigger] master_paths[k])@, p);
            assert(same_path(master.segments@[k].source_path@, p));
        }
        if exists|i: int|
            0 <= i < master.segments@.len() && same_path(
                (#[trigger] master.segments@[i]).source_path@,
                p,
            ) {
            let i = choose|i: int|
                0 <= i < master.segments@.len() && same_path(
                    (#[trigger] master.segments@[i]).source_path@,
                    p,
                );
            assert(same_path(master_paths[i]@, p));
        }
    }
    assert(lists_path(target_paths, p) == (target_hex(target, root, p, n) is Some)) by {
        if lists_path(target_paths, p) {
            let k = choose|k: int|
                0 <= k < target_paths.len() && same_path((#[trigger] target_paths[k])@, p);
            assert(same_path(target_path(target, root, k), p));
        }
        if exists|i: int| 0 <= i < n && same_path(#[trigger] target_path(target, root, i), p) {
            let i = choose|i: int|
                0 <= i < n && same_path(#[trigger] target_path(target, root, i), p);
            assert(same_path(target_paths[i]@, p));
        }
    }
    lemma_lists_files(master.file_entries@, master_files, p);
    lemma_lists_files(files, file_paths, p);
    if target_hex(target, root, p, n) is Some {
        let i = choose|i: int| 0 <= i < n && same_path(#[trigger] target_path(target, root, i), p);
        assert(target_hex(target, root, p, n) == Some(hex_of(target[i].1@)));
        lemma_table_same(
            master.segments@,
            target_path(target, root, i),
            p,
            master.segments@.len() as int,
        );
        if target_hex(target, root, p, n) != master_hex(master, p) {
            assert(changed(master, target, root, i));
            assert(path_changed(master, target, root, n, p));
        }
    }
    if path_changed(master, target, root, n, p) {
        let i = choose|i: int|
            0 <= i < n && same_path(#[trigger] target_path(target, root, i), p) && changed(
                master,
                target,
                root,
                i,
            );
        lemma_table_same(
            master.segments@,
            target_path(target, root, i),
            p,
            master.segments@.len() as int,
        );
        assert(target_hex(target, root, p, n) == Some(hex_of(target[i].1@)));
    }
}

proof fn lemma_lists_files(files: Seq<(String, u32)>, paths: Seq<String>, p: Seq<char>)
    requires
        paths.len() == files.len(),
        forall|k: int| 0 <= k < paths.len() ==> (#[trigger] paths[k])@ == files[k].0@,
    ensures
        lists_path(paths, p) == (list_size(files, p, files.len() as int) is Some),
{
    lemma_list_has(files, p, files.len() as int);
    if lists_path(paths, p) {
        let k = choose|k: int| 0 <= k < paths.len() && same_path((#[trigger] paths[k])@, p);
        assert(same_path(files[k].0@, p));
    }
    if exists|i: int| 0 <= i < files.len() && same_path((#[trigger] files[i]).0@, p) {
        let i = choose|i: int| 0 <= i < files.len() && same_path((#[trigger] files[i]).0@, p);
        assert(same_path(paths[i]@, p));
    }
}

/// Sorting the entries keeps what they record.
proof fn lemma_entries_sorted(
    entries: &Vec<ChainEntry>,
    order: Seq<usize>,
    master: Overlay,
    target: Seq<(String, Vec<u8>)>,
    root: Seq<char>,
    out: Seq<ChainEntry>,
)
    requires
        is_sorted_order(&(EntriesByPath { entries }), order),
        entries@.len() <= usize::MAX,
        entries_upto(entries@, master, target, root, target.len() as int),
        out == picked(entries@, order),
    ensures
        forall|a: int, b: int|
            #![trigger out[a], out[b]]
            0 <= a < b < out.len() ==> path_before(out[a].source_path@, out[b].source_path@),
        forall|a: int|
            0 <= a < out.len() ==> recorded(
                #[trigger] out[a],
                master,
                target,
                root,
                target.len() as int,
            ),
        forall|i: int|
            0 <= i < target.len() && #[trigger] changed(master, target, root, i) ==> has_record(
                out,
                master,
                target,
                root,
                i,
            ),
{
    let table = EntriesByPath { entries };
    lemma_sorted_order_distinct(&table, order);
    assert(out.len() == order.len());
    assert forall|a: int| 0 <= a < out.len() implies #[trigger] out[a] == entries@[order[a] as int] by {
    }
    assert forall|a: int, b: int|
        #![trigger out[a], out[b]]
        0 <= a < b < out.len() implies path_before(out[a].source_path@, out[b].source_path@) by {
        let (i, j) = (order[a] as int, order[b] as int);
        assert(sorts_before(&table, i, j));
        lemma_path_total(entries@[i].source_path@, entries@[j].source_path@);
        assert(i != j);
        if i < j {
            assert(!same_path(entries@[i].source_path@, entries@[j].source_path@));
        } else {
            assert(!same_path(entries@[j].source_path@, entries@[i].source_path@));
        }
    }
    assert forall|a: int| 0 <= a < out.len() implies recorded(
        #[trigger] out[a],
        master,
        target,
        root,
        target.len() as int,
    ) by {
        assert(recorded(entries@[order[a] as int], master, target, root, target.len() as int));
    }
    assert forall|i: int| 0 <= i < target.len() && #[trigger] changed(master, target, root, i) implies has_record(
        out,
        master,
        target,
        root,
        i,
    ) by {
        assert(has_record(entries@, master, target, root, i));
        let k = choose|k: int|
            0 <= k < entries@.len() && records_change(
                #[trigger] entries@[k],
                master,
                target,
                root,
                i,
            );
        assert(order.contains(k as usize));
        let a = choose|a: int| 0 <= a < order.len() && order[a] == k as usize;
        assert(out[a] == entries@[k]);
    }
}

/// A file list gives all spellings of a path one size.
proof fn lemma_list_same(files: Seq<(String, u32)>, a: Seq<char>, b: Seq<char>, n: int)
    requires
        0 <= n <= files.len(),
        same_path(a, b),
    ensures
        list_size(files, a, n) == list_size(files, b, n),
    decreases n,
{
    if n > 0 {
        lemma_list_same(files, a, b, n - 1);
    }
}

// ───────────────────────────── laws ─────────────────────────────

proof fn lemma_entry_hex(entries: Seq<ChainEntry>, path: Seq<char>, n: int)
    requires
        0 <= n <= entries.len(),
    ensures
        entry_hex(entries, path, n) is Some ==> exists|a: int|
            0 <= a < n && same_path((#[trigger] entries[a]).source_path@, path) && entries[a].hex_content_id@
                == entry_hex(entries, path, n)->0,
        entry_hex(entries, path, n) is None ==> forall|a: int|
            0 <= a < n ==> !same_path((#[trigger] entries[a]).source_path@, path),
    decreases n,
{
    if n > 0 {
        lemma_entry_hex(entries, path, n - 1);
        if same_path(entries[n - 1].source_path@, path) {
            assert(entries[n - 1].hex_content_id@ == entry_hex(entries, path, n)->0);
        } else if entry_hex(entries, path, n) is Some {
            let a = choose|a: int|
                0 <= a < n - 1 && same_path((#[trigger] entries[a]).source_path@, path)
                    && entries[a].hex_content_id@ == entry_hex(entries, path, n - 1)->0;
            assert(0 <= a < n);
        }
    }
}

/// Whether the master holds a path both as an indexed file and as a listed one, and the target
/// keeps the indexed file as it is and lists the path no longer.
pub open spec fn unlisted_twin(
    master: Overlay,
    target: Seq<(String, Vec<u8>)>,
    root: Seq<char>,
    files: Seq<(String, u32)>,
    path: Seq<char>,
) -> bool {
    &&& master_hex(master, path) is Some
    &&& target_hex(target, root, path, target.len() as int) == master_hex(master, path)
    &&& list_size(master.file_entries@, path, master.file_entries@.len() as int) is Some
    &&& list_size(files, path, files.len() as int) is None
}

/// A derived chain serves the target's own rows: for every path, the master plus the manifest
/// give the content id that the target gives, whichever ancestor the master is.
pub proof fn lemma_derived_chain_serves_target(
    m: ChainManifest,
    master_commit: Seq<char>,
    master: Overlay,
    target: Seq<(String, Vec<u8>)>,
    root: Seq<char>,
    files: Seq<(String, u32)>,
    path: Seq<char>,
)
    requires
        target_distinct(target, root),
        serves(m, master_commit, master, target, root, files),
        !unlisted_twin(master, target, root, files, path),
    ensures
        served_hex(master, m, path) == target_hex(target, root, path, target.len() as int),
{
    let n = target.len() as int;
    lemma_target_hex(target, root, path, n);
    lemma_entry_hex(m.entries@, path, m.entries@.len() as int);
    let served = entry_hex(m.entries@, path, m.entries@.len() as int);
    if served is Some {
        let a = choose|a: int|
            0 <= a < m.entries@.len() && same_path((#[trigger] m.entries@[a]).source_path@, path)
                && m.entries@[a].hex_content_id@ == served->0;
        assert(recorded(m.entries@[a], master, target, root, n));
        let i = choose|i: int|
            i < n && #[trigger] records_change(m.entries@[a], master, target, root, i);
        assert(same_path(target_path(target, root, i), path));
    } else {
        if target_hex(target, root, path, n) is Some {
            let i = choose|i: int|
                0 <= i < n && same_path(#[trigger] target_path(target, root, i), path);
            lemma_table_same(
                master.segments@,
                target_path(target, root, i),
                path,
                master.segments@.len() as int,
            );
            if changed(master, target, root, i) {
                assert(has_record(m.entries@, master, target, root, i));
                let a = choose|a: int|
                    0 <= a < m.entries@.len() && records_change(
                        #[trigger] m.entries@[a],
                        master,
                        target,
                        root,
                        i,
                    );
                assert(same_path(m.entries@[a].source_path@, path));
            }
            assert(!changed(master, target, root, i));
        }
        assert(lists_path(m.removed_paths@, path) == hidden(master, target, root, files, path));
    }
}

/// A derived chain lists the target's own files: a path without a segment is listed, from the
/// master or as added, exactly where the target lists it.
pub proof fn lemma_derived_chain_lists_target(
    m: ChainManifest,
    master_commit: Seq<char>,
    master: Overlay,
    target: Seq<(String, Vec<u8>)>,
    root: Seq<char>,
    files: Seq<(String, u32)>,
    path: Seq<char>,
)
    requires
        serves(m, master_commit, master, target, root, files),
        master_hex(master, path) is None,
    ensures
        (list_size(master.file_entries@, path, master.file_entries@.len() as int) is Some
            && !lists_path(m.removed_paths@, path)) || lists_path(m.added_paths@, path) <==> list_size(
            files,
            path,
            files.len() as int,
        ) is Some,
{
    lemma_list_has(files, path, files.len() as int);
    assert(lists_path(m.removed_paths@, path) == hidden(master, target, root, files, path));
    if lists_path(m.added_paths@, path) {
        let i = choose|i: int|
            0 <= i < files.len() && #[trigger] listed_anew(master, files, i) && same_path(files[i].0@, path);
        assert(same_path(files[i].0@, path));
    }
    if list_size(files, path, files.len() as int) is Some && list_size(
        master.file_entries@,
        path,
        master.file_entries@.len() as int,
    ) is None {
        let i = choose|i: int| 0 <= i < files.len() && same_path((#[trigger] files[i]).0@, path);
        lemma_list_same(
            master.file_entries@,
            files[i].0@,
            path,
            master.file_entries@.len() as int,
        );
        assert(listed_anew(master, files, i));
    }
}

} // verus!
