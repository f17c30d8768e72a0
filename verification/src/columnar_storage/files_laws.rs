//! What a listing of files promises.

use crate::columnar_storage::files::{
    are_plain_entries, components_from, is_component, is_plain_entry, last_dot, last_entries,
    listed_again, FileEntry,
};
use crate::columnar_storage::find::runtime_artifact;
use crate::columnar_storage::ColumnarStorage;
use crate::path_parts::{part_of, parts_from, path_parts, same_path};
use crate::paths::past_last_slash;
use vstd::prelude::*;
use vstd::string::*;

verus! {

// ───────────────────────────── what a path tells ─────────────────────────────

proof fn lemma_last_dot(p: Seq<char>, start: int, n: int, dot: int)
    requires
        0 <= start <= dot < n <= p.len(),
        p[dot] == '.',
        forall|k: int| dot < k < n ==> p[k] != '.',
    ensures
        last_dot(p, start, n) == dot,
    decreases n,
{
    if n - 1 > dot {
        lemma_last_dot(p, start, n - 1, dot);
    }
}

proof fn lemma_no_dot(p: Seq<char>, start: int, n: int)
    requires
        0 <= start <= n <= p.len(),
        forall|k: int| start < k < n ==> p[k] != '.',
    ensures
        last_dot(p, start, n) == start,
    decreases n - start,
{
    if n > start {
        if p[n - 1] == '.' {
            assert(n - 1 == start);
        } else {
            lemma_no_dot(p, start, n - 1);
        }
    }
}

proof fn lemma_name_start(p: Seq<char>, start: int, n: int)
    requires
        0 <= start <= n <= p.len(),
        start == 0 || p[start - 1] == '/',
        forall|k: int| start <= k < n ==> p[k] != '/',
    ensures
        past_last_slash(p, n) == start,
    decreases n,
{
    if n > start {
        lemma_name_start(p, start, n - 1);
    }
}

/// Whether a text is a directory to stand in front of a name: nothing, or something that ends in a
/// separator.
pub open spec fn leads_in(dir: Seq<char>) -> bool {
    dir.len() == 0 || dir.last() == '/'
}

/// The extension of a file is what follows the last dot of its name: of `dir/stem.e` it is `e`.
pub proof fn lemma_the_extension_follows_the_last_dot(
    dir: Seq<char>,
    stem: Seq<char>,
    e: Seq<char>,
    entry: FileEntry,
    size: u64,
)
    requires
        leads_in(dir),
        stem.len() > 0,
        !stem.contains('/'),
        !e.contains('/'),
        !e.contains('.'),
        is_plain_entry(entry, dir + stem + seq!['.'] + e, size),
    ensures
        entry.extension@ == e,
{
    let p = dir + stem + seq!['.'] + e;
    let (start, dot) = (dir.len() as int, (dir.len() + stem.len()) as int);
    assert forall|k: int| start <= k < p.len() implies p[k] != '/' by {
        if k < dot {
            assert(p[k] == stem[k - start]);
            assert(stem.contains(stem[k - start]));
        } else if k > dot {
            assert(p[k] == e[k - dot - 1]);
            assert(e.contains(e[k - dot - 1]));
        }
    }
    assert forall|k: int| dot < k < p.len() implies p[k] != '.' by {
        assert(p[k] == e[k - dot - 1]);
        assert(e.contains(e[k - dot - 1]));
    }
    if start > 0 {
        assert(p[start - 1] == dir[start - 1]);
    }
    lemma_name_start(p, start, p.len() as int);
    lemma_last_dot(p, start, p.len() as int, dot);
    assert(p.skip(dot + 1) =~= e);
}

/// A file whose name has no dot past its first character has no extension.
pub proof fn lemma_a_name_without_a_dot_has_no_extension(
    dir: Seq<char>,
    name: Seq<char>,
    entry: FileEntry,
    size: u64,
)
    requires
        leads_in(dir),
        !name.contains('/'),
        forall|k: int| 0 < k < name.len() ==> name[k] != '.',
        is_plain_entry(entry, dir + name, size),
    ensures
        entry.extension@.len() == 0,
{
    let p = dir + name;
    let start = dir.len() as int;
    assert forall|k: int| start <= k < p.len() implies p[k] != '/' by {
        assert(name.contains(name[k - start]));
    }
    assert forall|k: int| start < k < p.len() implies p[k] != '.' by {
        assert(p[k] == name[k - start]);
    }
    if start > 0 {
        assert(p[start - 1] == dir[start - 1]);
    }
    lemma_name_start(p, start, p.len() as int);
    lemma_no_dot(p, start, p.len() as int);
}

proof fn lemma_components(p: Seq<char>, from: int, i: int)
    requires
        0 <= from <= i <= p.len(),
    ensures
        components_from(p, from, i) == parts_from(p, from, i).len(),
    decreases p.len() - i,
{
    let piece = p.subrange(from, i);
    assert(is_component(p, from, i) <==> part_of(piece, from == 0).len() == 1) by {
        assert(seq!['.'].len() == 1 && seq!['.'][0] == '.');
        if piece == seq!['.'] {
            assert(piece[0] == p[from]);
        }
        if i == from + 1 && p[from] == '.' {
            assert(piece =~= seq!['.']);
        }
    }
    if i < p.len() {
        if p[i] == '/' {
            lemma_components(p, i + 1, i + 1);
        } else {
            lemma_components(p, from, i + 1);
        }
    }
}

/// The depth of a file is the number of parts of its path.
pub proof fn lemma_the_depth_counts_the_parts(path: Seq<char>, entry: FileEntry, size: u64)
    requires
        is_plain_entry(entry, path, size),
    ensures
        entry.depth == Some(path_parts(path).len() as usize),
        entry.depth->0 == path_parts(path).len(),
{
    if path.len() > 0 && path[0] == '/' {
        lemma_components(path, 1, 1);
        assert(!is_component(path, 0, 0));
        assert(components_from(path, 0, 0) == components_from(path, 1, 1));
    } else {
        lemma_components(path, 0, 0);
    }
}

// ───────────────────────────── what a workspace lists ─────────────────────────────

impl ColumnarStorage {
    proof fn lemma_segment_files(&self, n: int, i: int)
        requires
            0 <= i < n,
            !self.dirty.hides(self.index().segments@[i]),
        ensures
            self.segment_files(n).contains(
                (
                    self.index().segments@[i].source_path@,
                    self.index().size_of_file(i) as u64,
                ),
            ),
        decreases n,
    {
        let all = self.segment_files(n);
        let rest = self.segment_files(n - 1);
        let it = (self.index().segments@[i].source_path@, self.index().size_of_file(i) as u64);
        if i == n - 1 {
            assert(all[rest.len() as int] == it);
        } else {
            self.lemma_segment_files(n - 1, i);
            let k = choose|k: int| 0 <= k < rest.len() && rest[k] == it;
            assert(all[k] == it);
        }
    }

    proof fn lemma_segment_files_only(&self, n: int)
        requires
            0 <= n,
        ensures
            forall|k: int|
                #![trigger self.segment_files(n)[k]]
                0 <= k < self.segment_files(n).len() ==> exists|i: int|
                    0 <= i < n && !self.dirty.hides(#[trigger] self.index().segments@[i])
                        && self.segment_files(n)[k] == (
                        self.index().segments@[i].source_path@,
                        self.index().size_of_file(i) as u64,
                    ),
        decreases n,
    {
        if n > 0 {
            self.lemma_segment_files_only(n - 1);
            let all = self.segment_files(n);
            let rest = self.segment_files(n - 1);
            assert forall|k: int| #![trigger all[k]] 0 <= k < all.len() implies exists|i: int|
                0 <= i < n && !self.dirty.hides(#[trigger] self.index().segments@[i]) && all[k] == (
                    self.index().segments@[i].source_path@,
                    self.index().size_of_file(i) as u64,
                ) by {
                if k < rest.len() {
                    assert(all[k] == rest[k]);
                    let i = choose|i: int|
                        0 <= i < n - 1 && !self.dirty.hides(#[trigger] self.index().segments@[i])
                            && rest[k] == (
                            self.index().segments@[i].source_path@,
                            self.index().size_of_file(i) as u64,
                        );
                    assert(0 <= i < n && !self.dirty.hides(self.index().segments@[i]));
                } else {
                    assert(!self.dirty.hides(self.index().segments@[n - 1]));
                }
            }
        }
    }

    proof fn lemma_tracked_files(&self, n: int, i: int)
        requires
            0 <= i < n,
            !runtime_artifact(self.index().file_entries@[i].0@),
        ensures
            self.tracked_files(n).contains(
                (self.index().file_entries@[i].0@, self.index().file_entries@[i].1 as u64),
            ),
        decreases n,
    {
        let all = self.tracked_files(n);
        let rest = self.tracked_files(n - 1);
        let it = (self.index().file_entries@[i].0@, self.index().file_entries@[i].1 as u64);
        if i == n - 1 {
            assert(all[rest.len() as int] == it);
        } else {
            self.lemma_tracked_files(n - 1, i);
            let k = choose|k: int| 0 <= k < rest.len() && rest[k] == it;
            assert(all[k] == it);
        }
    }

    proof fn lemma_session_files(&self, sizes: Seq<u64>, n: int, j: int)
        requires
            0 <= j < n,
        ensures
            self.session_files(sizes, n).contains((self.dirty.added@[j].source_path@, sizes[j])),
        decreases n,
    {
        let all = self.session_files(sizes, n);
        let rest = self.session_files(sizes, n - 1);
        let it = (self.dirty.added@[j].source_path@, sizes[j]);
        if j == n - 1 {
            assert(all[rest.len() as int] == it);
        } else {
            self.lemma_session_files(sizes, n - 1, j);
            let k = choose|k: int| 0 <= k < rest.len() && rest[k] == it;
            assert(all[k] == it);
        }
    }

    proof fn lemma_touched_files(&self, sizes: Seq<u64>, n: int, j: int)
        requires
            0 <= j < n,
            !runtime_artifact(self.dirty.added_paths@[j]@),
        ensures
            self.touched_files(sizes, n).contains((self.dirty.added_paths@[j]@, sizes[j])),
        decreases n,
    {
        let all = self.touched_files(sizes, n);
        let rest = self.touched_files(sizes, n - 1);
        let it = (self.dirty.added_paths@[j]@, sizes[j]);
        if j == n - 1 {
            assert(all[rest.len() as int] == it);
        } else {
            self.lemma_touched_files(sizes, n - 1, j);
            let k = choose|k: int| 0 <= k < rest.len() && rest[k] == it;
            assert(all[k] == it);
        }
    }
}

/// Of every entry of a list, the last of its path stays.
proof fn lemma_a_last_one(v: Seq<FileEntry>, i: int) -> (j: int)
    requires
        0 <= i < v.len(),
    ensures
        i <= j < v.len(),
        !listed_again(v, j),
        same_path(v[j].path@, v[i].path@),
    decreases v.len() - i,
{
    if listed_again(v, i) {
        let k = choose|k: int| i < k < v.len() && same_path((#[trigger] v[k]).path@, v[i].path@);
        lemma_a_last_one(v, k)
    } else {
        i
    }
}

proof fn lemma_listed_from(v: Seq<FileEntry>, i: int)
    requires
        0 <= i <= v.len(),
    ensures
        forall|a: int|
            0 <= a < last_entries(v, i).len() ==> exists|j: int|
                i <= j < v.len() && v[j] == #[trigger] last_entries(v, i)[a] && !listed_again(v, j),
    decreases v.len() - i,
{
    if i < v.len() {
        lemma_listed_from(v, i + 1);
        let rest = last_entries(v, i + 1);
        let all = last_entries(v, i);
        assert forall|a: int| 0 <= a < all.len() implies exists|j: int|
            i <= j < v.len() && v[j] == #[trigger] all[a] && !listed_again(v, j) by {
            if !listed_again(v, i) {
                if a == 0 {
                    assert(all[a] == v[i]);
                } else {
                    assert(all[a] == rest[a - 1]);
                    let j = choose|j: int|
                        i + 1 <= j < v.len() && v[j] == rest[a - 1] && !listed_again(v, j);
                    assert(v[j] == all[a]);
                }
            } else {
                let j = choose|j: int|
                    i + 1 <= j < v.len() && v[j] == rest[a] && !listed_again(v, j);
                assert(v[j] == all[a]);
            }
        }
    }
}

impl ColumnarStorage {
    proof fn lemma_tracked_files_only(&self, n: int)
        requires
            0 <= n,
        ensures
            forall|k: int|
                #![trigger self.tracked_files(n)[k]]
                0 <= k < self.tracked_files(n).len() ==> exists|i: int|
                    0 <= i < n && self.tracked_files(n)[k] == (
                        (#[trigger] self.index().file_entries@[i]).0@,
                        self.index().file_entries@[i].1 as u64,
                    ) && !runtime_artifact(self.index().file_entries@[i].0@),
        decreases n,
    {
        if n > 0 {
            self.lemma_tracked_files_only(n - 1);
            let all = self.tracked_files(n);
            let rest = self.tracked_files(n - 1);
            let files = self.index().file_entries@;
            assert forall|k: int| #![trigger all[k]] 0 <= k < all.len() implies exists|i: int|
                0 <= i < n && all[k] == ((#[trigger] files[i]).0@, files[i].1 as u64)
                    && !runtime_artifact(files[i].0@) by {
                if k < rest.len() {
                    assert(all[k] == rest[k]);
                    let i = choose|i: int|
                        0 <= i < n - 1 && rest[k] == ((#[trigger] files[i]).0@, files[i].1 as u64)
                            && !runtime_artifact(files[i].0@);
                    assert(all[k] == (files[i].0@, files[i].1 as u64));
                } else {
                    assert(all[k] == (files[n - 1].0@, files[n - 1].1 as u64));
                }
            }
        }
    }

    proof fn lemma_session_files_only(&self, sizes: Seq<u64>, n: int)
        requires
            0 <= n,
        ensures
            self.session_files(sizes, n).len() == n,
            forall|k: int|
                #![trigger self.session_files(sizes, n)[k]]
                0 <= k < n ==> self.session_files(sizes, n)[k] == (
                    self.dirty.added@[k].source_path@,
                    sizes[k],
                ),
        decreases n,
    {
        if n > 0 {
            self.lemma_session_files_only(sizes, n - 1);
        }
    }

    proof fn lemma_touched_files_only(&self, sizes: Seq<u64>, n: int)
        requires
            0 <= n,
        ensures
            forall|k: int|
                #![trigger self.touched_files(sizes, n)[k]]
                0 <= k < self.touched_files(sizes, n).len() ==> exists|j: int|
                    0 <= j < n && self.touched_files(sizes, n)[k] == (
                        (#[trigger] self.dirty.added_paths@[j])@,
                        sizes[j],
                    ) && !runtime_artifact(self.dirty.added_paths@[j]@),
        decreases n,
    {
        if n > 0 {
            self.lemma_touched_files_only(sizes, n - 1);
            let all = self.touched_files(sizes, n);
            let rest = self.touched_files(sizes, n - 1);
            let paths = self.dirty.added_paths@;
            assert forall|k: int| #![trigger all[k]] 0 <= k < all.len() implies exists|j: int|
                0 <= j < n && all[k] == ((#[trigger] paths[j])@, sizes[j]) && !runtime_artifact(
                    paths[j]@,
                ) by {
                if k < rest.len() {
                    assert(all[k] == rest[k]);
                    let j = choose|j: int|
                        0 <= j < n - 1 && rest[k] == ((#[trigger] paths[j])@, sizes[j])
                            && !runtime_artifact(paths[j]@);
                    assert(all[k] == (paths[j]@, sizes[j]));
                } else {
                    assert(all[k] == (paths[n - 1]@, sizes[n - 1]));
                }
            }
        }
    }

    /// Whether a file of a size stands in the workspace: a segment that is not hidden, a file that
    /// the overlay tracks, a segment of the session, or a file that the session touched. The
    /// pointer file of the worktree and the engine's own files are none.
    pub open spec fn stands_in_workspace(
        &self,
        added: Seq<u64>,
        touched: Seq<u64>,
        path: Seq<char>,
        size: u64,
    ) -> bool {
        ||| exists|i: int|
            0 <= i < self.index().segments@.len() && !self.dirty.hides(
                #[trigger] self.index().segments@[i],
            ) && self.index().segments@[i].source_path@ == path && self.index().size_of_file(i)
                as u64 == size
        ||| exists|i: int|
            0 <= i < self.index().file_entries@.len() && (
            #[trigger] self.index().file_entries@[i]).0@ == path
                && self.index().file_entries@[i].1 as u64 == size && !is_own_file(path)
        ||| exists|j: int|
            0 <= j < self.dirty.added@.len() && (#[trigger] self.dirty.added@[j]).source_path@
                == path && added[j] == size
        ||| exists|j: int|
            0 <= j < self.dirty.added_paths@.len() && (#[trigger] self.dirty.added_paths@[j])@
                == path && touched[j] == size && !is_own_file(path)
    }

    proof fn lemma_known_files(&self, added: Seq<u64>, touched: Seq<u64>)
        requires
            self.wf(),
        ensures
            forall|k: int|
                #![trigger self.known_files(added, touched)[k]]
                0 <= k < self.known_files(added, touched).len() ==> self.stands_in_workspace(
                    added,
                    touched,
                    self.known_files(added, touched)[k].0,
                    self.known_files(added, touched)[k].1,
                ),
            forall|path: Seq<char>, size: u64| #[trigger]
                self.stands_in_workspace(added, touched, path, size) ==> self.known_files(
                    added,
                    touched,
                ).contains((path, size)),
    {
        let a = self.segment_files(self.seg_count() as int);
        let b = self.tracked_files(self.index().file_entries@.len() as int);
        let c = self.session_files(added, self.dirty.added@.len() as int);
        let d = self.touched_files(touched, self.dirty.added_paths@.len() as int);
        let all = self.known_files(added, touched);
        assert(all == a + b + c + d);
        lemma_own_files();
        self.lemma_segment_files_only(self.seg_count() as int);
        self.lemma_tracked_files_only(self.index().file_entries@.len() as int);
        self.lemma_session_files_only(added, self.dirty.added@.len() as int);
        self.lemma_touched_files_only(touched, self.dirty.added_paths@.len() as int);
        assert forall|k: int| #![trigger all[k]] 0 <= k < all.len() implies self.stands_in_workspace(
            added,
            touched,
            all[k].0,
            all[k].1,
        ) by {
            if k < a.len() {
                assert(all[k] == a[k]);
            } else if k < a.len() + b.len() {
                assert(all[k] == b[k - a.len()]);
            } else if k < a.len() + b.len() + c.len() {
                let j = k - a.len() - b.len();
                assert(all[k] == c[j]);
                assert(self.dirty.added@[j].source_path@ == all[k].0);
            } else {
                assert(all[k] == d[k - a.len() - b.len() - c.len()]);
            }
        }
        assert forall|path: Seq<char>, size: u64| #[trigger]
            self.stands_in_workspace(added, touched, path, size) implies all.contains(
            (path, size),
        ) by {
            let it = (path, size);
            if exists|i: int|
                0 <= i < self.index().segments@.len() && !self.dirty.hides(
                    #[trigger] self.index().segments@[i],
                ) && self.index().segments@[i].source_path@ == path && self.index().size_of_file(i)
                    as u64 == size {
                let i = choose|i: int|
                    0 <= i < self.index().segments@.len() && !self.dirty.hides(
                        #[trigger] self.index().segments@[i],
                    ) && self.index().segments@[i].source_path@ == path && self.index().size_of_file(
                        i,
                    ) as u64 == size;
                self.lemma_segment_files(self.seg_count() as int, i);
                let k = choose|k: int| 0 <= k < a.len() && a[k] == it;
                assert(all[k] == it);
            } else if exists|i: int|
                0 <= i < self.index().file_entries@.len() && (
                #[trigger] self.index().file_entries@[i]).0@ == path
                    && self.index().file_entries@[i].1 as u64 == size && !is_own_file(path) {
                let i = choose|i: int|
                    0 <= i < self.index().file_entries@.len() && (
                    #[trigger] self.index().file_entries@[i]).0@ == path
                        && self.index().file_entries@[i].1 as u64 == size && !is_own_file(path);
                self.lemma_tracked_files(self.index().file_entries@.len() as int, i);
                let k = choose|k: int| 0 <= k < b.len() && b[k] == it;
                assert(all[a.len() + k] == it);
            } else if exists|j: int|
                0 <= j < self.dirty.added@.len() && (#[trigger] self.dirty.added@[j]).source_path@
                    == path && added[j] == size {
                let j = choose|j: int|
                    0 <= j < self.dirty.added@.len() && (
                    #[trigger] self.dirty.added@[j]).source_path@ == path && added[j] == size;
                self.lemma_session_files(added, self.dirty.added@.len() as int, j);
                let k = choose|k: int| 0 <= k < c.len() && c[k] == it;
                assert(all[a.len() + b.len() + k] == it);
            } else {
                let j = choose|j: int|
                    0 <= j < self.dirty.added_paths@.len() && (
                    #[trigger] self.dirty.added_paths@[j])@ == path && touched[j] == size
                        && !is_own_file(path);
                self.lemma_touched_files(touched, self.dirty.added_paths@.len() as int, j);
                let k = choose|k: int| 0 <= k < d.len() && d[k] == it;
                assert(all[a.len() + b.len() + c.len() + k] == it);
            }
        }
    }

    /// A listing of files is what the workspace holds: every entry is a file that stands in it, with
    /// a size that it has there, and every file that stands in it has an entry.
    pub proof fn lemma_a_listing_is_the_workspace(
        &self,
        added: Seq<u64>,
        touched: Seq<u64>,
        all: Seq<FileEntry>,
        out: Seq<FileEntry>,
    )
        requires
            self.wf(),
            are_plain_entries(all, self.known_files(added, touched)),
            out == last_entries(all, 0),
        ensures
            forall|a: int|
                0 <= a < out.len() ==> self.stands_in_workspace(
                    added,
                    touched,
                    (#[trigger] out[a]).path@,
                    out[a].size,
                ),
            forall|path: Seq<char>, size: u64| #[trigger]
                self.stands_in_workspace(added, touched, path, size) ==> exists|a: int|
                    0 <= a < out.len() && same_path((#[trigger] out[a]).path@, path),
    {
        let files = self.known_files(added, touched);
        self.lemma_known_files(added, touched);
        lemma_listed_from(all, 0);
        assert forall|a: int| 0 <= a < out.len() implies self.stands_in_workspace(
            added,
            touched,
            (#[trigger] out[a]).path@,
            out[a].size,
        ) by {
            let j = choose|j: int| 0 <= j < all.len() && all[j] == out[a] && !listed_again(all, j);
            assert(is_plain_entry(all[j], files[j].0, files[j].1));
        }
        assert forall|path: Seq<char>, size: u64| #[trigger]
            self.stands_in_workspace(added, touched, path, size) implies exists|a: int|
            0 <= a < out.len() && same_path((#[trigger] out[a]).path@, path) by {
            let k = choose|k: int| 0 <= k < files.len() && files[k] == (path, size);
            assert(is_plain_entry(all[k], files[k].0, files[k].1));
            let j = lemma_a_last_one(all, k);
            crate::columnar_storage::files::lemma_listing_keeps_the_freshest(all, j);
            let a = choose|a: int| 0 <= a < out.len() && out[a] == all[j];
            assert(same_path(out[a].path@, path));
        }
    }

    /// The session knows its files best: of a file that it edited last, and did not merely touch, a
    /// listing gives the size that the session's own version has.
    pub proof fn lemma_a_listing_gives_the_sessions_size(
        &self,
        added: Seq<u64>,
        touched: Seq<u64>,
        all: Seq<FileEntry>,
        out: Seq<FileEntry>,
        j: int,
        a: int,
    )
        requires
            self.wf(),
            are_plain_entries(all, self.known_files(added, touched)),
            out == last_entries(all, 0),
            0 <= j < self.dirty.added@.len(),
            forall|k: int|
                j < k < self.dirty.added@.len() ==> !same_path(
                    (#[trigger] self.dirty.added@[k]).source_path@,
                    self.dirty.added@[j].source_path@,
                ),
            forall|k: int|
                0 <= k < self.dirty.added_paths@.len() ==> !same_path(
                    (#[trigger] self.dirty.added_paths@[k])@,
                    self.dirty.added@[j].source_path@,
                ),
            0 <= a < out.len(),
            same_path(out[a].path@, self.dirty.added@[j].source_path@),
        ensures
            out[a].size == added[j],
    {
        let files = self.known_files(added, touched);
        let s = self.segment_files(self.seg_count() as int) + self.tracked_files(
            self.index().file_entries@.len() as int,
        );
        let c = self.session_files(added, self.dirty.added@.len() as int);
        let d = self.touched_files(touched, self.dirty.added_paths@.len() as int);
        assert(files == s + c + d);
        self.lemma_session_files_only(added, self.dirty.added@.len() as int);
        self.lemma_touched_files_only(touched, self.dirty.added_paths@.len() as int);
        lemma_listed_from(all, 0);
        let at = s.len() + j;
        assert(files[at] == c[j]);
        assert(is_plain_entry(all[at], files[at].0, files[at].1));
        let k = choose|k: int| 0 <= k < all.len() && all[k] == out[a] && !listed_again(all, k);
        assert(is_plain_entry(all[k], files[k].0, files[k].1));
        if k < at {
            assert(same_path(all[at].path@, all[k].path@));
        } else if k > at {
            if k < s.len() + c.len() {
                assert(files[k] == c[k - s.len()]);
                assert(same_path(
                    self.dirty.added@[k - s.len()].source_path@,
                    self.dirty.added@[j].source_path@,
                ));
            } else {
                assert(files[k] == d[k - s.len() - c.len()]);
            }
        }
    }
}

/// Whether a path is the pointer file of a worktree or a file that the engine keeps in its root.
pub open spec fn is_own_file(path: Seq<char>) -> bool {
    ||| path == seq!['.', 'g', 'i', 't']
    ||| seq!['.', 'f', 'o', 'r', 'g', 'e', 'q', 'l', '-'].is_prefix_of(path)
}

proof fn lemma_own_files()
    ensures
        forall|path: Seq<char>| #[trigger] is_own_file(path) <==> runtime_artifact(path),
{
    reveal_strlit(".git");
    reveal_strlit(".forgeql-");
    let head = seq!['.', 'f', 'o', 'r', 'g', 'e', 'q', 'l', '-'];
    assert(".git"@ =~= seq!['.', 'g', 'i', 't']);
    assert(".forgeql-"@ =~= head);
    assert forall|path: Seq<char>| #[trigger] is_own_file(path) <==> runtime_artifact(path) by {
        if head.is_prefix_of(path) {
            assert(path.take(9) =~= head);
        }
    }
}

impl ColumnarStorage {
    /// The files that a query may read are those that a listing has: a file is known exactly where it
    /// stands in the workspace, with some size.
    pub proof fn lemma_known_files_are_listed(
        &self,
        added: Seq<u64>,
        touched: Seq<u64>,
        path: Seq<char>,
    )
        requires
            self.wf(),
        ensures
            self.knows_file(path) <==> exists|size: u64| #[trigger]
                self.stands_in_workspace(added, touched, path, size),
    {
        lemma_own_files();
        assert(is_own_file(path) <==> runtime_artifact(path));
        if self.knows_file(path) {
            if exists|i: int|
                0 <= i < self.seg_count() && (#[trigger] self.index().segments@[i]).source_path@
                    == path && !self.dirty.hides(self.index().segments@[i]) {
                let i = choose|i: int|
                    0 <= i < self.seg_count() && (#[trigger] self.index().segments@[i]).source_path@
                        == path && !self.dirty.hides(self.index().segments@[i]);
                assert(self.stands_in_workspace(
                    added,
                    touched,
                    path,
                    self.index().size_of_file(i) as u64,
                ));
            } else if exists|i: int|
                0 <= i < self.index().file_entries@.len() && (
                #[trigger] self.index().file_entries@[i]).0@ == path && !runtime_artifact(path) {
                let i = choose|i: int|
                    0 <= i < self.index().file_entries@.len() && (
                    #[trigger] self.index().file_entries@[i]).0@ == path && !runtime_artifact(path);
                assert(self.stands_in_workspace(
                    added,
                    touched,
                    path,
                    self.index().file_entries@[i].1 as u64,
                ));
            } else if exists|i: int|
                0 <= i < self.dirty.added@.len() && (#[trigger] self.dirty.added@[i]).source_path@
                    == path {
                let i = choose|i: int|
                    0 <= i < self.dirty.added@.len() && (
                    #[trigger] self.dirty.added@[i]).source_path@ == path;
                assert(self.stands_in_workspace(added, touched, path, added[i]));
            } else {
                let i = choose|i: int|
                    0 <= i < self.dirty.added_paths@.len() && (
                    #[trigger] self.dirty.added_paths@[i])@ == path;
                assert(self.stands_in_workspace(added, touched, path, touched[i]));
            }
        }
        if exists|size: u64| #[trigger] self.stands_in_workspace(added, touched, path, size) {
            let size = choose|size: u64| #[trigger]
                self.stands_in_workspace(added, touched, path, size);
            if exists|j: int|
                0 <= j < self.dirty.added_paths@.len() && (#[trigger] self.dirty.added_paths@[j])@
                    == path && touched[j] == size && !is_own_file(path) {
                assert(crate::segment::lists_text(self.dirty.added_paths@, path));
            }
        }
    }
}

} // verus!
