//! `FIND files`: every file the workspace knows of, with its size.

use crate::columnar_storage::find::{is_runtime_artifact, runtime_artifact};
use crate::columnar_storage::ColumnarStorage;
use crate::paths::past_last_slash;
use crate::sort::{distinct_positions, pick, picked};
use crate::text::{chars_of, text_of};
use crate::text_index::TextIndex;
use crate::path_parts::{lemma_same_path, plain_path, plainly, same_path};
use vstd::prelude::*;
use vstd::string::*;

verus! {

/// One file of a listing.
#[derive(Debug)]
pub struct FileEntry {
    pub path: String,
    pub extension: String,
    pub size: u64,
    /// How many components the path has.
    pub depth: Option<usize>,
    /// The size of the group this entry stands for.
    pub count: Option<usize>,
    pub error_count: Option<usize>,
    pub parse_coverage: Option<u64>,
    pub node_id: Option<String>,
    pub rev: Option<u64>,
}

/// The position of the last dot below `n`, or `start` where there is none past it.
pub open spec fn last_dot(p: Seq<char>, start: int, n: int) -> int
    decreases n - start,
{
    if n <= start {
        start
    } else if p[n - 1] == '.' {
        n - 1
    } else {
        last_dot(p, start, n - 1)
    }
}

/// The extension of a path: what follows the last dot of its file name, unless that dot opens the
/// name.
pub open spec fn extension_of(p: Seq<char>) -> Seq<char> {
    let start = past_last_slash(p, p.len() as int);
    let dot = last_dot(p, start, p.len() as int);
    if dot <= start {
        seq![]
    } else {
        p.skip(dot + 1)
    }
}

fn extension(path: &str) -> (s: String)
    ensures
        s@ == extension_of(path@),
{
    let p = chars_of(path);
    let len: usize = p.len();
    let mut start: usize = len;
    while start > 0 && p[start - 1] != '/'
        invariant
            start <= len,
            len == p@.len(),
            past_last_slash(p@, len as int) == past_last_slash(p@, start as int),
        decreases start,
    {
        start -= 1;
    }
    let mut n: usize = len;
    while n > start && p[n - 1] != '.'
        invariant
            start <= n <= len,
            len == p@.len(),
            last_dot(p@, start as int, len as int) == last_dot(p@, start as int, n as int),
        decreases n,
    {
        n -= 1;
    }
    if n == start || n - 1 == start {
        return String::new();
    }
    let s = text_of(&p, n, len);
    assert(s@ =~= path@.skip(n as int));
    s
}

/// Whether the characters from `from` up to `to` are a component of a path: something other than
/// nothing, and other than the current directory unless the path starts with it.
pub open spec fn is_component(p: Seq<char>, from: int, to: int) -> bool {
    from < to && !(to == from + 1 && p[from] == '.' && from > 0)
}

/// How many components the rest of a path has, reading at `i` in a run that began at `from`.
pub open spec fn components_from(p: Seq<char>, from: int, i: int) -> nat
    decreases p.len() - i,
{
    let here = if is_component(p, from, i) {
        1nat
    } else {
        0nat
    };
    if i >= p.len() {
        here
    } else if p[i] == '/' {
        here + components_from(p, i + 1, i + 1)
    } else {
        components_from(p, from, i + 1)
    }
}

/// How many components a path has, the root among them.
pub open spec fn component_count(p: Seq<char>) -> nat {
    components_from(p, 0, 0) + if p.len() > 0 && p[0] == '/' {
        1nat
    } else {
        0nat
    }
}

fn count_components(path: &str) -> (n: usize)
    ensures
        n == component_count(path@),
{
    let p = chars_of(path);
    let len: usize = p.len();
    let mut count: usize = 0;
    let mut from: usize = 0;
    let mut i: usize = 0;
    while i < len
        invariant
            from <= i <= len,
            len == p@.len(),
            count <= from,
            count + components_from(p@, from as int, i as int) == components_from(p@, 0, 0),
        decreases len - i,
    {
        if p[i] == '/' {
            if i > from && !(i == from + 1 && p[from] == '.' && from > 0) {
                count += 1;
            }
            from = i + 1;
        }
        i += 1;
    }
    let last = i > from && !(i == from + 1 && p[from] == '.' && from > 0);
    if last {
        count += 1;
    }
    if len > 0 && p[0] == '/' {
        assert(count < len) by {
            lemma_components_bound(p@, 1, 1);
            assert(components_from(p@, 0, 0) == components_from(p@, 1, 1));
        }
        count += 1;
    }
    count
}

proof fn lemma_components_bound(p: Seq<char>, from: int, i: int)
    requires
        0 <= from <= i <= p.len(),
    ensures
        components_from(p, from, i) <= p.len() - from,
    decreases p.len() - i,
{
    if i < p.len() {
        if p[i] == '/' {
            lemma_components_bound(p, i + 1, i + 1);
        } else {
            lemma_components_bound(p, from, i + 1);
        }
    }
}

/// Whether an entry says of a file what its path and its size can say, and nothing else.
pub open spec fn is_plain_entry(e: FileEntry, path: Seq<char>, size: u64) -> bool {
    &&& e.path@ == path
    &&& e.extension@ == extension_of(path)
    &&& e.size == size
    &&& e.depth is Some && e.depth->0 == component_count(path)
    &&& e.count is None && e.error_count is None && e.parse_coverage is None
    &&& e.node_id is None && e.rev is None
}

/// The entry of a file of which only the path and the size are known.
pub fn plain_file_entry(path: &str, size: u64) -> (e: FileEntry)
    ensures
        is_plain_entry(e, path@, size),
{
    FileEntry {
        path: path.to_owned(),
        extension: extension(path),
        size,
        depth: Some(count_components(path)),
        count: None,
        error_count: None,
        parse_coverage: None,
        node_id: None,
        rev: None,
    }
}

// ───────────────────────────── one entry per path ─────────────────────────────

/// Whether a later entry has the path of entry `i`.
pub open spec fn listed_again(v: Seq<FileEntry>, i: int) -> bool {
    exists|j: int| i < j < v.len() && same_path((#[trigger] v[j]).path@, v[i].path@)
}

/// The entries from position `i` on that no later entry of the same path follows.
pub open spec fn last_entries(v: Seq<FileEntry>, i: int) -> Seq<FileEntry>
    decreases v.len() - i,
{
    if i >= v.len() {
        seq![]
    } else if listed_again(v, i) {
        last_entries(v, i + 1)
    } else {
        seq![v[i]] + last_entries(v, i + 1)
    }
}

/// Keeps one entry per path: the last, in the order the kept ones stand in.
pub fn dedupe_file_entries(entries: &mut Vec<FileEntry>)
    ensures
        final(entries)@ == last_entries(old(entries)@, 0),
{
    let n: usize = entries.len();
    let mut paths: Vec<String> = Vec::new();
    let mut i: usize = 0;
    while i < n
        invariant
            i <= n,
            n == entries@.len(),
            paths@.len() == i,
            forall|k: int| 0 <= k < i ==> (#[trigger] paths@[k])@ == plainly(entries@[k].path@),
        decreases n - i,
    {
        paths.push(plain_path(entries[i].path.as_str()));
        i += 1;
    }
    let index = TextIndex::new(paths);
    let mut keep: Vec<usize> = Vec::new();
    let mut j: usize = 0;
    assert(picked(entries@, keep@) + last_entries(entries@, 0) =~= last_entries(entries@, 0));
    while j < n
        invariant
            j <= n,
            n == entries@.len(),
            index.wf(),
            index.items@.len() == n,
            forall|k: int|
                0 <= k < n ==> (#[trigger] index.items@[k])@ == plainly(entries@[k].path@),
            distinct_positions(keep@, n as int),
            forall|a: int| 0 <= a < keep@.len() ==> (#[trigger] keep@[a]) < j,
            picked(entries@, keep@) + last_entries(entries@, j as int) == last_entries(entries@, 0),
        decreases n - j,
    {
        let ghost was = keep@;
        let ghost whole = last_entries(entries@, 0);
        let plain = plain_path(entries[j].path.as_str());
        let found = index.find_last(plain.as_str());
        proof {
            assert(index.items@[j as int]@ == plain@);
        }
        match found {
            Some(at) => {
                if at == j {
                    keep.push(j);
                }
                proof {
                    assert(listed_again(entries@, j as int) == (at != j)) by {
                        if at != j {
                            assert(at > j);
                            assert(plainly(entries@[at as int].path@) == index.items@[at as int]@);
                            lemma_same_path(entries@[at as int].path@, entries@[j as int].path@);
                        } else if listed_again(entries@, j as int) {
                            let k = choose|k: int|
                                j < k < n && same_path(
                                    (#[trigger] entries@[k]).path@,
                                    entries@[j as int].path@,
                                );
                            lemma_same_path(entries@[k].path@, entries@[j as int].path@);
                            assert(index.items@[k]@ == plainly(entries@[k].path@));
                        }
                    }
                    if at == j {
                        assert(picked(entries@, keep@) =~= picked(entries@, was).push(
                            entries@[j as int],
                        ));
                        assert(picked(entries@, keep@) + last_entries(entries@, j + 1) =~= picked(
                            entries@,
                            was,
                        ) + (seq![entries@[j as int]] + last_entries(entries@, j + 1)));
                    }
                }
            },
            None => {
                assert(false);
            },
        }
        j += 1;
    }
    assert(picked(entries@, keep@) =~= last_entries(entries@, 0));
    let mut all: Vec<FileEntry> = Vec::new();
    core::mem::swap(&mut all, entries);
    *entries = pick(all, &keep);
}

// ───────────────────────────── the listing ─────────────────────────────

impl ColumnarStorage {
    /// The files of the first `n` segments of the overlay, those the session hides left out.
    pub open spec fn segment_files(&self, n: int) -> Seq<(Seq<char>, u64)>
        decreases n,
    {
        if n <= 0 {
            seq![]
        } else {
            let meta = self.index().segments@[n - 1];
            if self.dirty.hides(meta) {
                self.segment_files(n - 1)
            } else {
                self.segment_files(n - 1).push(
                    (meta.source_path@, self.index().size_of_file(n - 1) as u64),
                )
            }
        }
    }

    /// The first `n` of the files that the overlay tracks by path and size alone.
    pub open spec fn tracked_files(&self, n: int) -> Seq<(Seq<char>, u64)>
        decreases n,
    {
        if n <= 0 {
            seq![]
        } else {
            let entry = self.index().file_entries@[n - 1];
            if runtime_artifact(entry.0@) {
                self.tracked_files(n - 1)
            } else {
                self.tracked_files(n - 1).push((entry.0@, entry.1 as u64))
            }
        }
    }

    /// The files of the first `n` segments of the session.
    pub open spec fn session_files(&self, sizes: Seq<u64>, n: int) -> Seq<(Seq<char>, u64)>
        decreases n,
    {
        if n <= 0 {
            seq![]
        } else {
            self.session_files(sizes, n - 1).push(
                (self.dirty.added@[n - 1].source_path@, sizes[n - 1]),
            )
        }
    }

    /// The first `n` of the files that the session touched without indexing them.
    pub open spec fn touched_files(&self, sizes: Seq<u64>, n: int) -> Seq<(Seq<char>, u64)>
        decreases n,
    {
        if n <= 0 {
            seq![]
        } else {
            let path = self.dirty.added_paths@[n - 1]@;
            if runtime_artifact(path) {
                self.touched_files(sizes, n - 1)
            } else {
                self.touched_files(sizes, n - 1).push((path, sizes[n - 1]))
            }
        }
    }

    /// Every file of the workspace with its size, oldest knowledge first.
    pub open spec fn known_files(&self, added: Seq<u64>, touched: Seq<u64>) -> Seq<
        (Seq<char>, u64),
    > {
        self.segment_files(self.seg_count() as int) + self.tracked_files(
            self.index().file_entries@.len() as int,
        ) + self.session_files(added, self.dirty.added@.len() as int) + self.touched_files(
            touched,
            self.dirty.added_paths@.len() as int,
        )
    }

    /// Lists every file of the workspace, once, with the freshest size known of it.
    ///
    /// `added` and `touched` are the sizes on disk of the files of the session's segments and of
    /// the files it touched without indexing them.
    pub fn indexed_files(&self, added: &Vec<u64>, touched: &Vec<u64>) -> (out: Vec<FileEntry>)
        requires
            self.wf(),
            added@.len() == self.dirty.added@.len(),
            touched@.len() == self.dirty.added_paths@.len(),
        ensures
            exists|all: Seq<FileEntry>| #[trigger]
                are_plain_entries(all, self.known_files(added@, touched@)) && out@ == last_entries(
                    all,
                    0,
                ),
    {
        let mut entries: Vec<FileEntry> = Vec::new();
        let mut i: usize = 0;
        while i < self.shared.segments.len()
            invariant
                self.wf(),
                i <= self.seg_count(),
                are_plain_entries(entries@, self.segment_files(i as int)),
            decreases self.shared.segments.len() - i,
        {
            let meta = &self.shared.overlay.segments[i];
            if !self.dirty.shadows_segment(meta) {
                let size: u32 = self.shared.overlay.file_size(i);
                entries.push(plain_file_entry(meta.source_path.as_str(), size as u64));
            }
            i += 1;
        }
        let ghost a = self.segment_files(self.seg_count() as int);
        let files = &self.shared.overlay.file_entries;
        let mut j: usize = 0;
        assert(a + self.tracked_files(0) =~= a);
        while j < files.len()
            invariant
                files@ == self.index().file_entries@,
                j <= files@.len(),
                are_plain_entries(entries@, a + self.tracked_files(j as int)),
            decreases files.len() - j,
        {
            if !is_runtime_artifact(files[j].0.as_str()) {
                entries.push(plain_file_entry(files[j].0.as_str(), files[j].1 as u64));
                assert(a + self.tracked_files(j + 1) =~= (a + self.tracked_files(j as int)).push(
                    (files@[j as int].0@, files@[j as int].1 as u64),
                ));
            }
            j += 1;
        }
        let ghost b = a + self.tracked_files(files@.len() as int);
        let mut k: usize = 0;
        assert(b + self.session_files(added@, 0) =~= b);
        while k < self.dirty.added.len()
            invariant
                k <= self.dirty.added@.len(),
                added@.len() == self.dirty.added@.len(),
                are_plain_entries(entries@, b + self.session_files(added@, k as int)),
            decreases self.dirty.added.len() - k,
        {
            entries.push(plain_file_entry(self.dirty.added[k].source_path.as_str(), added[k]));
            assert(b + self.session_files(added@, k + 1) =~= (b + self.session_files(
                added@,
                k as int,
            )).push((self.dirty.added@[k as int].source_path@, added@[k as int])));
            k += 1;
        }
        let ghost c = b + self.session_files(added@, self.dirty.added@.len() as int);
        let paths = &self.dirty.added_paths;
        let mut m: usize = 0;
        assert(c + self.touched_files(touched@, 0) =~= c);
        while m < paths.len()
            invariant
                paths@ == self.dirty.added_paths@,
                m <= paths@.len(),
                touched@.len() == paths@.len(),
                are_plain_entries(entries@, c + self.touched_files(touched@, m as int)),
            decreases paths.len() - m,
        {
            if !is_runtime_artifact(paths[m].as_str()) {
                entries.push(plain_file_entry(paths[m].as_str(), touched[m]));
                assert(c + self.touched_files(touched@, m + 1) =~= (c + self.touched_files(
                    touched@,
                    m as int,
                )).push((paths@[m as int]@, touched@[m as int])));
            }
            m += 1;
        }
        assert(are_plain_entries(entries@, self.known_files(added@, touched@)));
        dedupe_file_entries(&mut entries);
        entries
    }
}

/// Whether entries say of files what their paths and sizes can say, one for each.
pub open spec fn are_plain_entries(v: Seq<FileEntry>, files: Seq<(Seq<char>, u64)>) -> bool {
    v.len() == files.len() && forall|i: int|
        0 <= i < v.len() ==> is_plain_entry(#[trigger] v[i], files[i].0, files[i].1)
}

proof fn lemma_last_entries(v: Seq<FileEntry>, i: int)
    requires
        0 <= i <= v.len(),
    ensures
        forall|a: int|
            0 <= a < last_entries(v, i).len() ==> exists|j: int|
                i <= j < v.len() && v[j] == #[trigger] last_entries(v, i)[a],
        forall|a: int, b: int|
            #![trigger last_entries(v, i)[a], last_entries(v, i)[b]]
            0 <= a < b < last_entries(v, i).len() ==> !same_path(
                last_entries(v, i)[a].path@,
                last_entries(v, i)[b].path@,
            ),
    decreases v.len() - i,
{
    if i < v.len() {
        lemma_last_entries(v, i + 1);
        let rest = last_entries(v, i + 1);
        let all = last_entries(v, i);
        if !listed_again(v, i) {
            assert(all =~= seq![v[i]] + rest);
        }
        assert forall|a: int| 0 <= a < all.len() implies exists|j: int|
            i <= j < v.len() && v[j] == #[trigger] all[a] by {
            if !listed_again(v, i) {
                if a == 0 {
                    assert(all[a] == v[i]);
                } else {
                    assert(all[a] == rest[a - 1]);
                    let j = choose|j: int| i + 1 <= j < v.len() && v[j] == rest[a - 1];
                    assert(v[j] == all[a]);
                }
            } else {
                let j = choose|j: int| i + 1 <= j < v.len() && v[j] == rest[a];
                assert(v[j] == all[a]);
            }
        }
        assert forall|a: int, b: int|
            #![trigger all[a], all[b]]
            0 <= a < b < all.len() implies !same_path(all[a].path@, all[b].path@) by {
            if !listed_again(v, i) {
                assert(all[b] == rest[b - 1]);
                let j = choose|j: int| i + 1 <= j < v.len() && v[j] == rest[b - 1];
                if a == 0 {
                    assert(!same_path(v[j].path@, v[i].path@));
                } else {
                    assert(all[a] == rest[a - 1]);
                }
            }
        }
    }
}

/// A listing names no path twice.
pub proof fn lemma_listing_names_no_path_twice(v: Seq<FileEntry>, a: int, b: int)
    requires
        0 <= a < b < last_entries(v, 0).len(),
    ensures
        !same_path(last_entries(v, 0)[a].path@, last_entries(v, 0)[b].path@),
{
    lemma_last_entries(v, 0);
}

/// A listing drops no path, and of each keeps the last entry.
pub proof fn lemma_listing_keeps_the_freshest(v: Seq<FileEntry>, i: int)
    requires
        0 <= i < v.len(),
        !listed_again(v, i),
    ensures
        last_entries(v, 0).contains(v[i]),
{
    lemma_last_entry_stays(v, 0, i);
}

proof fn lemma_last_entry_stays(v: Seq<FileEntry>, from: int, i: int)
    requires
        0 <= from <= i < v.len(),
        !listed_again(v, i),
    ensures
        last_entries(v, from).contains(v[i]),
    decreases i - from,
{
    let all = last_entries(v, from);
    let rest = last_entries(v, from + 1);
    if from == i {
        assert(all[0] == v[i]);
    } else {
        lemma_last_entry_stays(v, from + 1, i);
        let k = choose|k: int| 0 <= k < rest.len() && rest[k] == v[i];
        if !listed_again(v, from) {
            assert(all[k + 1] == v[i]);
        }
    }
}

} // verus!
