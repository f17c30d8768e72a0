//! The edits of one session on top of a persistent overlay.
//!
//! A file changed in the session has a segment here, and the persistent segment it replaces is
//! hidden. Queries read the union of what is not hidden and what stands here.

use crate::clauses::Clauses;
use crate::overlay::format::SegmentMeta;
use crate::overlay::lookup::text_views;
use crate::path_parts::{contains_path, is_same_path, lists_path, same_path};
use crate::rows::{collect_rows, span_rows};
use crate::segment::{contains_text, lists_text, SegmentReader, SymbolMatch};
use crate::text::{hex_of, same_text};
use std::sync::Arc;
use vstd::prelude::*;
use vstd::string::*;

verus! {

/// The segment of one file changed in the session.
pub struct DirtySegment {
    /// The rows of the new version of the file.
    pub reader: Arc<SegmentReader>,
    /// The file, relative to the worktree root.
    pub source_path: String,
    /// The content id of the persistent segment this replaces; empty for a new file.
    pub replaces_hex: String,
}

/// The edits of one session.
pub struct DirtyOverlay {
    /// The segments of changed files, in the order they were changed.
    pub added: Vec<DirtySegment>,
    /// Content ids of the persistent segments that are hidden.
    pub removed_hex_ids: Vec<String>,
    /// Paths whose persistent segments are hidden.
    pub removed_paths: Vec<String>,
    /// Files the session touched that no language claims: they have no segment.
    pub added_paths: Vec<String>,
}

/// Adds a text to a list that holds each once.
pub fn insert_text(v: &mut Vec<String>, t: String)
    ensures
        forall|x: Seq<char>| #[trigger]
            lists_text(final(v)@, x) == (lists_text(old(v)@, x) || x == t@),
        lists_text(old(v)@, t@) ==> final(v)@ == old(v)@,
        !lists_text(old(v)@, t@) ==> final(v)@ == old(v)@.push(t),
{
    let ghost was = v@;
    if !contains_text(v, t.as_str()) {
        v.push(t);
        proof {
            assert forall|x: Seq<char>| #[trigger] lists_text(v@, x) == (lists_text(was, x) || x
                == t@) by {
                if lists_text(was, x) {
                    let k = choose|k: int| 0 <= k < was.len() && (#[trigger] was[k])@ == x;
                    assert(v@[k]@ == x);
                }
                if x == t@ {
                    assert(v@[was.len() as int]@ == x);
                }
                if lists_text(v@, x) {
                    let k = choose|k: int| 0 <= k < v@.len() && (#[trigger] v@[k])@ == x;
                    if k < was.len() {
                        assert(was[k]@ == x);
                    }
                }
            }
        }
    }
}

/// Adds a path to a list that holds each once, in the spelling that it came in first.
pub fn insert_path(v: &mut Vec<String>, path: String)
    ensures
        forall|p: Seq<char>| #[trigger]
            lists_path(final(v)@, p) == (lists_path(old(v)@, p) || same_path(p, path@)),
        lists_path(old(v)@, path@) ==> final(v)@ == old(v)@,
        !lists_path(old(v)@, path@) ==> final(v)@ == old(v)@.push(path),
{
    let ghost was = v@;
    let held = contains_path(v, path.as_str());
    if !held {
        v.push(path);
    }
    proof {
        assert forall|p: Seq<char>| #[trigger] lists_path(v@, p) == (lists_path(was, p)
            || same_path(p, path@)) by {
            if lists_path(was, p) {
                let k = choose|k: int| 0 <= k < was.len() && same_path((#[trigger] was[k])@, p);
                assert(same_path(v@[k]@, p));
            }
            if same_path(p, path@) {
                if held {
                    let k = choose|k: int|
                        0 <= k < was.len() && same_path((#[trigger] was[k])@, path@);
                    assert(same_path(was[k]@, p));
                } else {
                    assert(same_path(v@[was.len() as int]@, p));
                }
            }
            if lists_path(v@, p) {
                let k = choose|k: int| 0 <= k < v@.len() && same_path((#[trigger] v@[k])@, p);
                if k < was.len() {
                    assert(same_path(was[k]@, p));
                }
            }
        }
    }
}

/// Flattening one more part appends it.
pub proof fn lemma_flatten_push<A>(parts: Seq<Seq<A>>, part: Seq<A>)
    ensures
        parts.push(part).flatten() == parts.flatten() + part,
{
    parts.lemma_flatten_push(part);
}

impl DirtyOverlay {
    /// Every segment held is well formed.
    pub open spec fn wf(&self) -> bool {
        forall|i: int| 0 <= i < self.added@.len() ==> (#[trigger] self.added@[i]).reader.wf()
    }

    /// No edits.
    pub fn new() -> (d: DirtyOverlay)
        ensures
            d.wf(),
            d.nothing(),
            d.added_paths@.len() == 0,
    {
        DirtyOverlay {
            added: Vec::new(),
            removed_hex_ids: Vec::new(),
            removed_paths: Vec::new(),
            added_paths: Vec::new(),
        }
    }

    /// Whether no segment is added and none is hidden.
    pub open spec fn nothing(&self) -> bool {
        &&& self.added@.len() == 0
        &&& self.removed_hex_ids@.len() == 0
        &&& self.removed_paths@.len() == 0
    }

    /// Whether no segment is added and none is hidden.
    pub fn is_empty(&self) -> (r: bool)
        ensures
            r == self.nothing(),
    {
        self.added.len() == 0 && self.removed_hex_ids.len() == 0 && self.removed_paths.len() == 0
    }

    /// Whether the persistent segments with this content id are hidden.
    pub fn shadows(&self, hex_content_id: &str) -> (r: bool)
        ensures
            r == lists_text(self.removed_hex_ids@, hex_content_id@),
    {
        contains_text(&self.removed_hex_ids, hex_content_id)
    }

    /// Whether a persistent segment is hidden.
    pub open spec fn hides(&self, meta: SegmentMeta) -> bool {
        lists_text(self.removed_hex_ids@, meta.hex_content_id@) || lists_path(
            self.removed_paths@,
            meta.source_path@,
        )
    }

    /// Whether a persistent segment is hidden, by its content or by its path.
    pub fn shadows_segment(&self, meta: &SegmentMeta) -> (r: bool)
        ensures
            r == self.hides(*meta),
    {
        self.shadows(meta.hex_content_id.as_str()) || contains_path(
            &self.removed_paths,
            meta.source_path.as_str(),
        )
    }

    /// Adds the segment of a changed file, and hides the persistent segment it replaces.
    pub fn add_segment(&mut self, reader: Arc<SegmentReader>, source_path: String, replaces_hex: String)
        requires
            old(self).wf(),
            reader.wf(),
        ensures
            final(self).wf(),
            final(self).added@ == old(self).added@.push(
                (DirtySegment {
                    reader: reader,
                    source_path: source_path,
                    replaces_hex: replaces_hex,
                }),
            ),
            forall|h: Seq<char>| #[trigger]
                lists_text(final(self).removed_hex_ids@, h) == (lists_text(
                    old(self).removed_hex_ids@,
                    h,
                ) || (h == replaces_hex@ && h.len() > 0)),
            final(self).removed_paths@ == old(self).removed_paths@,
            final(self).added_paths@ == old(self).added_paths@,
    {
        if !replaces_hex.as_str().is_empty() {
            insert_text(&mut self.removed_hex_ids, replaces_hex.clone());
        }
        self.added.push(DirtySegment { reader, source_path, replaces_hex });
    }

    /// Hides the persistent segments of a path. Another file with the same bytes stays visible.
    pub fn hide_path(&mut self, path: String)
        ensures
            final(self).added@ == old(self).added@,
            final(self).removed_hex_ids@ == old(self).removed_hex_ids@,
            forall|p: Seq<char>| #[trigger]
                lists_path(final(self).removed_paths@, p) == (lists_path(
                    old(self).removed_paths@,
                    p,
                ) || same_path(p, path@)),
            final(self).added_paths@ == old(self).added_paths@,
            old(self).wf() ==> final(self).wf(),
    {
        insert_path(&mut self.removed_paths, path);
    }

    /// Records a file that the session touched and no language claims.
    pub fn touch_path(&mut self, path: String)
        ensures
            final(self).added@ == old(self).added@,
            final(self).removed_hex_ids@ == old(self).removed_hex_ids@,
            final(self).removed_paths@ == old(self).removed_paths@,
            forall|p: Seq<char>| #[trigger]
                lists_path(final(self).added_paths@, p) == (lists_path(old(self).added_paths@, p)
                    || same_path(p, path@)),
            old(self).wf() ==> final(self).wf(),
    {
        insert_path(&mut self.added_paths, path);
    }

    /// Hides the persistent segments with a content id, with nothing in their place.
    pub fn remove_hex(&mut self, hex: String)
        ensures
            final(self).added@ == old(self).added@,
            forall|h: Seq<char>| #[trigger]
                lists_text(final(self).removed_hex_ids@, h) == (lists_text(
                    old(self).removed_hex_ids@,
                    h,
                ) || h == hex@),
            final(self).removed_paths@ == old(self).removed_paths@,
            final(self).added_paths@ == old(self).added_paths@,
            old(self).wf() ==> final(self).wf(),
    {
        insert_text(&mut self.removed_hex_ids, hex);
    }

    /// Where the first segment of `path` stands, from `i` on; the length where there is none.
    pub open spec fn position_of(&self, path: Seq<char>, i: int) -> int
        decreases self.added@.len() - i,
    {
        if i < 0 || i >= self.added@.len() {
            self.added@.len() as int
        } else if same_path(self.added@[i].source_path@, path) {
            i
        } else {
            self.position_of(path, i + 1)
        }
    }

    /// Finds the first segment of a path.
    pub fn find_path(&self, path: &str) -> (r: Option<usize>)
        ensures
            (match r {
                Some(i) => i < self.added@.len() && i == self.position_of(path@, 0) && same_path(
                    self.added@[i as int].source_path@,
                    path@,
                ),
                None => self.position_of(path@, 0) == self.added@.len(),
            }),
            forall|k: int|
                0 <= k < self.position_of(path@, 0) ==> !same_path(
                    (#[trigger] self.added@[k]).source_path@,
                    path@,
                ),
    {
        let mut i: usize = 0;
        while i < self.added.len()
            invariant
                i <= self.added@.len(),
                self.position_of(path@, 0) == self.position_of(path@, i as int),
                forall|k: int|
                    0 <= k < i ==> !same_path((#[trigger] self.added@[k]).source_path@, path@),
            decreases self.added.len() - i,
        {
            if is_same_path(self.added[i].source_path.as_str(), path) {
                return Some(i);
            }
            i += 1;
        }
        None
    }

    /// Where the first segment stands, from `i` on, whose path is spelled `path`; the length where
    /// there is none.
    pub open spec fn spelled_at(&self, path: Seq<char>, i: int) -> int
        decreases self.added@.len() - i,
    {
        if i < 0 || i >= self.added@.len() {
            self.added@.len() as int
        } else if self.added@[i].source_path@ == path {
            i
        } else {
            self.spelled_at(path, i + 1)
        }
    }

    /// Finds the first segment whose path is spelled so.
    pub fn find_spelled(&self, path: &str) -> (r: Option<usize>)
        ensures
            (match r {
                Some(i) => i < self.added@.len() && i == self.spelled_at(path@, 0)
                    && self.added@[i as int].source_path@ == path@,
                None => self.spelled_at(path@, 0) == self.added@.len(),
            }),
            forall|k: int|
                0 <= k < self.spelled_at(path@, 0) ==> (#[trigger] self.added@[k]).source_path@
                    != path@,
    {
        let mut i: usize = 0;
        while i < self.added.len()
            invariant
                i <= self.added@.len(),
                self.spelled_at(path@, 0) == self.spelled_at(path@, i as int),
                forall|k: int| 0 <= k < i ==> (#[trigger] self.added@[k]).source_path@ != path@,
            decreases self.added.len() - i,
        {
            if same_text(self.added[i].source_path.as_str(), path) {
                return Some(i);
            }
            i += 1;
        }
        None
    }

    /// Takes out the segment of a file that was changed before, and gives the content id it
    /// replaced. The persistent segment stays hidden.
    pub fn remove_stale_for_path(&mut self, source_path: &str) -> (r: Option<String>)
        ensures
            ({
                let at = old(self).position_of(source_path@, 0);
                if at < old(self).added@.len() {
                    &&& r == Some(old(self).added@[at].replaces_hex)
                    &&& final(self).added@ == old(self).added@.remove(at)
                } else {
                    &&& r is None
                    &&& final(self).added@ == old(self).added@
                }
            }),
            final(self).removed_hex_ids@ == old(self).removed_hex_ids@,
            final(self).removed_paths@ == old(self).removed_paths@,
            final(self).added_paths@ == old(self).added_paths@,
            old(self).wf() ==> final(self).wf(),
    {
        match self.find_path(source_path) {
            Some(at) => {
                let ghost was = self.added@;
                let removed = self.added.remove(at);
                proof {
                    if old(self).wf() {
                        assert forall|i: int| 0 <= i < self.added@.len() implies (
                        #[trigger] self.added@[i]).reader.wf() by {
                            let k = if i < at {
                                i
                            } else {
                                i + 1
                            };
                            assert(self.added@[i] == was[k]);
                        }
                    }
                }
                Some(removed.replaces_hex)
            },
            None => None,
        }
    }

    /// The content ids of the segments held, in order.
    pub fn staged_hex_ids(&self) -> (v: Vec<String>)
        ensures
            text_views(v@) == self.added@.map_values(
                |ds: DirtySegment| hex_of(ds.reader.content_id@),
            ),
    {
        let mut v: Vec<String> = Vec::new();
        let mut i: usize = 0;
        while i < self.added.len()
            invariant
                i <= self.added@.len(),
                v@.len() == i,
                forall|k: int|
                    0 <= k < i ==> (#[trigger] v@[k])@ == hex_of(
                        self.added@[k].reader.content_id@,
                    ),
            decreases self.added.len() - i,
        {
            v.push(self.added[i].reader.content_id_hex());
            i += 1;
        }
        assert(text_views(v@) =~= self.added@.map_values(
            |ds: DirtySegment| hex_of(ds.reader.content_id@),
        ));
        v
    }

    /// Whether `part` holds the result rows that segment `i` gives of the rows in `rows`, after
    /// its postings.
    pub open spec fn gives(&self, i: int, rows: Set<u32>, clauses: Clauses, part: Seq<SymbolMatch>) -> bool {
        let ds = self.added@[i];
        let kept = ds.reader.posted_rows(
            rows,
            clauses.where_predicates@,
            clauses.where_predicates@.len() as int,
        );
        exists|list: Seq<u32>| #[trigger]
            ds.reader.lists_selected(kept, list) && ds.reader.builds_all(
                list,
                Some(ds.source_path@),
                part,
            )
    }

    /// The rows of segment `i`.
    pub open spec fn all_rows(&self, i: int) -> Set<u32> {
        crate::rows::row_span(0, self.added@[i].reader.rows@.len() as u32)
    }

    /// Builds every row held that its segment's postings do not rule out, segment by segment.
    ///
    /// The ordering and the paging are left to the caller, who merges these with persistent rows.
    pub fn materialize_all(&self, clauses: &Clauses) -> (out: Vec<SymbolMatch>)
        requires
            self.wf(),
        ensures
            exists|parts: Seq<Seq<SymbolMatch>>| #[trigger]
                parts.flatten() == out@ && parts.len() == self.added@.len() && forall|i: int|
                    0 <= i < parts.len() ==> self.gives(
                        i,
                        self.all_rows(i),
                        *clauses,
                        #[trigger] parts[i],
                    ),
    {
        let mut out: Vec<SymbolMatch> = Vec::new();
        let ghost mut parts: Seq<Seq<SymbolMatch>> = seq![];
        let mut i: usize = 0;
        assert(parts.flatten() =~= out@);
        while i < self.added.len()
            invariant
                self.wf(),
                i <= self.added@.len(),
                parts.len() == i,
                parts.flatten() == out@,
                forall|k: int|
                    0 <= k < i ==> self.gives(k, self.all_rows(k), *clauses, #[trigger] parts[k]),
            decreases self.added.len() - i,
        {
            let ds = &self.added[i];
            assert(ds.reader.wf());
            let all = span_rows(0, ds.reader.row_count());
            let kept = ds.reader.prefilter_enrichment_postings(&all, clauses);
            let mut rows = ds.reader.materialize_rows(&kept, Some(ds.source_path.as_str()));
            proof {
                assert(self.gives(i as int, self.all_rows(i as int), *clauses, rows@));
                lemma_flatten_push(parts, rows@);
                parts = parts.push(rows@);
            }
            out.append(&mut rows);
            i += 1;
        }
        out
    }

    /// Builds every row held that is named `name` and that its segment's postings do not rule
    /// out, segment by segment.
    pub fn lookup_name_results(&self, name: &str, clauses: &Clauses) -> (out: Vec<SymbolMatch>)
        requires
            self.wf(),
        ensures
            exists|parts: Seq<Seq<SymbolMatch>>| #[trigger]
                parts.flatten() == out@ && parts.len() == self.added@.len() && forall|i: int|
                    0 <= i < parts.len() ==> self.gives(
                        i,
                        self.added@[i].reader.rows_named(name@),
                        *clauses,
                        #[trigger] parts[i],
                    ),
    {
        let mut out: Vec<SymbolMatch> = Vec::new();
        let ghost mut parts: Seq<Seq<SymbolMatch>> = seq![];
        let mut i: usize = 0;
        assert(parts.flatten() =~= out@);
        while i < self.added.len()
            invariant
                self.wf(),
                i <= self.added@.len(),
                parts.len() == i,
                parts.flatten() == out@,
                forall|k: int|
                    0 <= k < i ==> self.gives(
                        k,
                        self.added@[k].reader.rows_named(name@),
                        *clauses,
                        #[trigger] parts[k],
                    ),
            decreases self.added.len() - i,
        {
            let ds = &self.added[i];
            assert(ds.reader.wf());
            let ids = ds.reader.lookup_name(name);
            let named = collect_rows(&ids);
            let kept = ds.reader.prefilter_enrichment_postings(&named, clauses);
            let mut rows = ds.reader.materialize_rows(&kept, Some(ds.source_path.as_str()));
            proof {
                assert(self.gives(
                    i as int,
                    self.added@[i as int].reader.rows_named(name@),
                    *clauses,
                    rows@,
                ));
                lemma_flatten_push(parts, rows@);
                parts = parts.push(rows@);
            }
            out.append(&mut rows);
            i += 1;
        }
        out
    }
}

} // verus!
