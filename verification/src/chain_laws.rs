//! What the layers of an index promise: which of several records of a file counts, what two layers may not
//! both answer for, and what a name in the store tells.

use crate::build_context::{fans_out, mapped_from, path_key_text, segment_rel_text};
use crate::chain_derive::{entry_hex, list_size, served_hex, table_hex, target_hex, target_path};
use crate::chain_manifest::{ChainEntry, ChainManifest};
use crate::columnar_storage::attach::{names_file, BuildSources};
use crate::columnar_storage::chain::{touched_paths, unrecorded};
use crate::columnar_storage::commit::listed;
use crate::overlay::format::SegmentMeta;
use crate::overlay::Overlay;
use crate::path_parts::{lemma_same_path, plainly, same_path};
use crate::text::hex_of;
use vstd::prelude::*;
use vstd::string::*;

verus! {

// ───────────────────────────── several records of a file ─────────────────────────────

/// The last segment of a file is the one that counts.
pub proof fn lemma_the_last_segment_of_a_file_counts(
    segments: Seq<SegmentMeta>,
    path: Seq<char>,
    n: int,
    k: int,
)
    requires
        0 <= k < n <= segments.len(),
        same_path(segments[k].source_path@, path),
        forall|j: int| k < j < n ==> !same_path((#[trigger] segments[j]).source_path@, path),
    ensures
        table_hex(segments, path, n) == Some(segments[k].hex_content_id@),
    decreases n,
{
    if n - 1 > k {
        lemma_the_last_segment_of_a_file_counts(segments, path, n - 1, k);
    }
}

/// A file without a segment has no content id.
pub proof fn lemma_a_file_without_a_segment_has_no_id(
    segments: Seq<SegmentMeta>,
    path: Seq<char>,
    n: int,
)
    requires
        n <= segments.len(),
        forall|j: int| 0 <= j < n ==> !same_path((#[trigger] segments[j]).source_path@, path),
    ensures
        table_hex(segments, path, n) is None,
    decreases n,
{
    if n > 0 {
        lemma_a_file_without_a_segment_has_no_id(segments, path, n - 1);
    }
}

/// The last size listed for a file is the one that counts.
pub proof fn lemma_the_last_size_of_a_file_counts(
    files: Seq<(String, u32)>,
    path: Seq<char>,
    n: int,
    k: int,
)
    requires
        0 <= k < n <= files.len(),
        same_path(files[k].0@, path),
        forall|j: int| k < j < n ==> !same_path((#[trigger] files[j]).0@, path),
    ensures
        list_size(files, path, n) == Some(files[k].1),
    decreases n,
{
    if n - 1 > k {
        lemma_the_last_size_of_a_file_counts(files, path, n - 1, k);
    }
}

/// A file that a build wrote a segment for has the content id of the last one, in hexadecimal.
pub proof fn lemma_the_last_build_of_a_file_counts(
    target: Seq<(String, Vec<u8>)>,
    root: Seq<char>,
    path: Seq<char>,
    n: int,
    k: int,
)
    requires
        0 <= k < n <= target.len(),
        same_path(target_path(target, root, k), path),
        forall|j: int| k < j < n ==> !same_path(#[trigger] target_path(target, root, j), path),
    ensures
        target_hex(target, root, path, n) == Some(hex_of(target[k].1@)),
    decreases n,
{
    if n - 1 > k {
        lemma_the_last_build_of_a_file_counts(target, root, path, n - 1, k);
    }
}

/// The first entry of a segment map for a file is the one that counts.
pub proof fn lemma_the_first_entry_of_a_file_counts(
    map: Seq<(String, Vec<u8>)>,
    path: Seq<char>,
    i: int,
    k: int,
)
    requires
        0 <= i <= k < map.len(),
        same_path(map[k].0@, path),
        forall|j: int| i <= j < k ==> !same_path((#[trigger] map[j]).0@, path),
    ensures
        mapped_from(map, path, i) == Some(map[k].1@),
    decreases k - i,
{
    if i < k {
        lemma_the_first_entry_of_a_file_counts(map, path, i + 1, k);
    }
}

proof fn lemma_last_entry(entries: Seq<ChainEntry>, path: Seq<char>, n: int, k: int)
    requires
        0 <= k < n <= entries.len(),
        same_path(entries[k].source_path@, path),
        forall|j: int| k < j < n ==> !same_path((#[trigger] entries[j]).source_path@, path),
    ensures
        entry_hex(entries, path, n) == Some(entries[k].hex_content_id@),
    decreases n,
{
    if n - 1 > k {
        lemma_last_entry(entries, path, n - 1, k);
    }
}

proof fn lemma_no_entry(entries: Seq<ChainEntry>, path: Seq<char>, n: int)
    requires
        n <= entries.len(),
        forall|j: int| 0 <= j < n ==> !same_path((#[trigger] entries[j]).source_path@, path),
    ensures
        entry_hex(entries, path, n) is None,
    decreases n,
{
    if n > 0 {
        lemma_no_entry(entries, path, n - 1);
    }
}

/// What a manifest records of a file is served over the master, even where it hides the path.
pub proof fn lemma_a_recorded_file_is_served(
    master: Overlay,
    m: ChainManifest,
    path: Seq<char>,
    k: int,
)
    requires
        0 <= k < m.entries@.len(),
        same_path(m.entries@[k].source_path@, path),
        forall|j: int|
            k < j < m.entries@.len() ==> !same_path((#[trigger] m.entries@[j]).source_path@, path),
    ensures
        served_hex(master, m, path) == Some(m.entries@[k].hex_content_id@),
{
    lemma_last_entry(m.entries@, path, m.entries@.len() as int, k);
}

/// A file that a manifest hides without recording another is not served.
pub proof fn lemma_a_hidden_file_is_not_served(
    master: Overlay,
    m: ChainManifest,
    path: Seq<char>,
    k: int,
)
    requires
        forall|j: int|
            0 <= j < m.entries@.len() ==> !same_path((#[trigger] m.entries@[j]).source_path@, path),
        0 <= k < m.removed_paths@.len(),
        same_path(m.removed_paths@[k]@, path),
    ensures
        served_hex(master, m, path) is None,
{
    lemma_no_entry(m.entries@, path, m.entries@.len() as int);
    assert(crate::path_parts::lists_path(m.removed_paths@, path));
}

/// A file that a manifest leaves alone is served as the master has it.
pub proof fn lemma_an_untouched_file_is_the_masters(
    master: Overlay,
    m: ChainManifest,
    path: Seq<char>,
    k: int,
)
    requires
        forall|j: int|
            0 <= j < m.entries@.len() ==> !same_path((#[trigger] m.entries@[j]).source_path@, path),
        forall|j: int|
            0 <= j < m.removed_paths@.len() ==> !same_path((#[trigger] m.removed_paths@[j])@, path),
        0 <= k < master.segments@.len(),
        same_path(master.segments@[k].source_path@, path),
        forall|j: int|
            k < j < master.segments@.len() ==> !same_path(
                (#[trigger] master.segments@[j]).source_path@,
                path,
            ),
    ensures
        served_hex(master, m, path) == Some(master.segments@[k].hex_content_id@),
{
    lemma_no_entry(m.entries@, path, m.entries@.len() as int);
    lemma_the_last_segment_of_a_file_counts(
        master.segments@,
        path,
        master.segments@.len() as int,
        k,
    );
}

// ───────────────────────────── two layers ─────────────────────────────

/// An entry is in order exactly where it says what it replaces, or where there is nothing to replace.
pub proof fn lemma_an_entry_says_what_it_replaces(master: Overlay, entry: ChainEntry, s: int)
    requires
        0 <= s < master.segments@.len(),
        same_path(master.segments@[s].source_path@, entry.source_path@),
    ensures
        unrecorded(master, entry) == (entry.replaces_hex@.len() == 0),
{
    assert(names_file(master.segments@, entry.source_path@));
}

/// An entry for a file that the master does not hold has nothing to record.
pub proof fn lemma_a_new_file_replaces_nothing(master: Overlay, entry: ChainEntry)
    requires
        forall|s: int|
            0 <= s < master.segments@.len() ==> !same_path(
                (#[trigger] master.segments@[s]).source_path@,
                entry.source_path@,
            ),
    ensures
        !unrecorded(master, entry),
{
}

/// A path is among those that a manifest touches exactly where an entry or a hidden path names it, in
/// whatever spelling.
pub proof fn lemma_touched_paths_are_those_named(m: ChainManifest, path: Seq<char>)
    ensures
        touched_paths(m).contains(plainly(path)) <==> (exists|i: int|
            0 <= i < m.entries@.len() && same_path((#[trigger] m.entries@[i]).source_path@, path))
            || exists|i: int|
            0 <= i < m.removed_paths@.len() && same_path((#[trigger] m.removed_paths@[i])@, path),
{
    assert forall|i: int| 0 <= i < m.entries@.len() implies same_path(
        (#[trigger] m.entries@[i]).source_path@,
        path,
    ) == (plainly(m.entries@[i].source_path@) == plainly(path)) by {
        lemma_same_path(m.entries@[i].source_path@, path);
    }
    assert forall|i: int| 0 <= i < m.removed_paths@.len() implies same_path(
        (#[trigger] m.removed_paths@[i])@,
        path,
    ) == (plainly(m.removed_paths@[i]@) == plainly(path)) by {
        lemma_same_path(m.removed_paths@[i]@, path);
    }
}

// ───────────────────────────── rebuilding ─────────────────────────────

/// A rebuild writes missing segments again exactly where the table is all there is to work from; where
/// segments were written they are used, and without either nothing is built.
pub proof fn lemma_a_table_alone_regenerates(sources: BuildSources)
    ensures
        sources.segment_map ==> sources.planned() is Inline && !sources.regenerates(),
        !sources.segment_map && sources.table ==> sources.planned() is ShadowWrite
            && sources.regenerates(),
        !sources.segment_map && !sources.table ==> sources.planned() is Nothing
            && !sources.regenerates(),
{
}

// ───────────────────────────── names ─────────────────────────────

/// Segments in the store are told apart by the content and by the path: two names are one only where both
/// the content id and the key of the path are.
pub proof fn lemma_a_segment_name_tells_content_and_path(
    path: Seq<char>,
    hex: Seq<char>,
    other_path: Seq<char>,
    other_hex: Seq<char>,
)
    requires
        fans_out(hex),
        fans_out(other_hex),
        hex.len() == other_hex.len(),
    ensures
        segment_rel_text(path, hex) == segment_rel_text(other_path, other_hex) <==> hex == other_hex
            && path_key_text(path) == path_key_text(other_path),
{
    let a = segment_rel_text(path, hex);
    let b = segment_rel_text(other_path, other_hex);
    let n = hex.len() as int;
    let end = ".fqsf"@;
    assert(forall|i: int| 0 <= i < 2 ==> a[i] == hex[i] && b[i] == other_hex[i]);
    assert(forall|i: int| 2 <= i < n ==> a[i + 1] == hex[i] && b[i + 1] == other_hex[i]);
    let ka = path_key_text(path);
    let kb = path_key_text(other_path);
    assert(a.len() == n + 2 + ka.len() + end.len());
    assert(b.len() == n + 2 + kb.len() + end.len());
    assert(forall|i: int| 0 <= i < ka.len() ==> a[n + 2 + i] == ka[i]);
    assert(forall|i: int| 0 <= i < kb.len() ==> b[n + 2 + i] == kb[i]);
    if a == b {
        assert forall|i: int| 0 <= i < n implies hex[i] == other_hex[i] by {
            if i < 2 {
                assert(a[i] == hex[i]);
            } else {
                assert(a[i + 1] == hex[i]);
            }
        }
        assert(hex =~= other_hex);
        assert forall|i: int| 0 <= i < ka.len() implies ka[i] == kb[i] by {
            assert(a[n + 2 + i] == ka[i]);
        }
        assert(ka =~= kb);
    }
}

/// A segment lies in a directory that the first two characters of its content id name.
pub proof fn lemma_a_segment_lies_in_its_fan(path: Seq<char>, hex: Seq<char>)
    requires
        fans_out(hex),
    ensures
        segment_rel_text(path, hex).take(2) == hex.take(2),
        segment_rel_text(path, hex)[2] == '/',
        segment_rel_text(path, hex).subrange(3, hex.len() as int + 1) == hex.skip(2),
        segment_rel_text(path, hex)[hex.len() as int + 1] == '-',
{
    let a = segment_rel_text(path, hex);
    assert(a.take(2) =~= hex.take(2));
    assert(a.subrange(3, hex.len() as int + 1) =~= hex.skip(2));
}

/// Every text of a list is named in it whole.
pub proof fn lemma_a_listing_names_every_text(v: Seq<String>, n: int, i: int) -> (at: int)
    requires
        0 <= i < n <= v.len(),
    ensures
        0 <= at,
        at + v[i]@.len() <= listed(v, n).len(),
        listed(v, n).subrange(at, at + v[i]@.len() as int) == v[i]@,
        i > 0 ==> at >= 2 && listed(v, n).subrange(at - 2, at) == "; "@,
    decreases n,
{
    reveal_strlit("; ");
    if n == 1 {
        assert(listed(v, n).subrange(0, v[i]@.len() as int) =~= v[i]@);
        0
    } else if i == n - 1 {
        let at: int = listed(v, n - 1).len() as int + 2;
        assert(listed(v, n).subrange(at, at + v[i]@.len() as int) =~= v[i]@);
        assert(listed(v, n).subrange(at - 2, at) =~= "; "@);
        at
    } else {
        let at = lemma_a_listing_names_every_text(v, n - 1, i);
        let before = listed(v, n - 1);
        let whole = listed(v, n);
        assert(whole.subrange(at, at + v[i]@.len() as int) =~= before.subrange(
            at,
            at + v[i]@.len() as int,
        ));
        if i > 0 {
            assert(whole.subrange(at - 2, at) =~= before.subrange(at - 2, at));
        }
        at
    }
}

} // verus!
