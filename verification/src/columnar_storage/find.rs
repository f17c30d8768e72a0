//! `FIND usages`: where a name occurs, from the postings and from the files themselves.

use crate::clauses::Clauses;
use crate::columnar_storage::node_find::lemma_lists_push;
use crate::columnar_storage::ColumnarStorage;
use crate::order::{paths_ascend, sorted_paths};
use crate::paths::{in_scope, scope_selects};
use crate::segment::{lists_text, SegmentReader};
use crate::text::{chars_of, same_text, text_of};
use crate::path_parts::{lemma_lists_text_path, lists_path};
use vstd::prelude::*;

verus! {

/// One occurrence: a file, a 1-based line, and the role it was recorded in.
pub struct Site {
    pub path: String,
    pub line: u32,
    pub role: String,
}

/// One occurrence, by the text of its parts.
pub struct SiteView {
    pub path: Seq<char>,
    pub line: u32,
    pub role: Seq<char>,
}

impl View for Site {
    type V = SiteView;

    open spec fn view(&self) -> SiteView {
        SiteView { path: self.path@, line: self.line, role: self.role@ }
    }
}

/// Occurrences, by the text of their parts.
pub open spec fn site_views(v: Seq<Site>) -> Seq<SiteView> {
    v.map_values(|s: Site| s@)
}

// ───────────────────────────── postings ─────────────────────────────

/// The recorded uses of a name among the first `n`.
pub open spec fn use_sites(usages: Seq<(String, u32)>, token: Seq<char>, path: Seq<char>, n: int) -> Seq<
    SiteView,
>
    decreases n,
{
    if n <= 0 {
        seq![]
    } else {
        let rest = use_sites(usages, token, path, n - 1);
        if usages[n - 1].0@ == token {
            rest.push(SiteView { path, line: usages[n - 1].1, role: "code"@ })
        } else {
            rest
        }
    }
}

/// The recorded mentions of a word among the first `n`.
pub open spec fn mention_sites(
    mentions: Seq<(String, String, u32)>,
    token: Seq<char>,
    path: Seq<char>,
    n: int,
) -> Seq<SiteView>
    decreases n,
{
    if n <= 0 {
        seq![]
    } else {
        let rest = mention_sites(mentions, token, path, n - 1);
        if mentions[n - 1].0@ == token {
            rest.push(SiteView { path, line: mentions[n - 1].2, role: mentions[n - 1].1@ })
        } else {
            rest
        }
    }
}

/// The sites that a segment posts for a token: its uses, then its mentions.
pub open spec fn segment_sites(seg: SegmentReader, path: Seq<char>, token: Seq<char>) -> Seq<
    SiteView,
> {
    use_sites(seg.usages@, token, path, seg.usages@.len() as int) + mention_sites(
        seg.mentions@,
        token,
        path,
        seg.mentions@.len() as int,
    )
}

fn append_segment_sites(out: &mut Vec<Site>, seg: &SegmentReader, path: &str, token: &str)
    ensures
        site_views(final(out)@) == site_views(old(out)@) + segment_sites(*seg, path@, token@),
{
    let ghost start = site_views(out@);
    let mut i: usize = 0;
    assert(start + use_sites(seg.usages@, token@, path@, 0) =~= start);
    while i < seg.usages.len()
        invariant
            i <= seg.usages@.len(),
            site_views(out@) == start + use_sites(seg.usages@, token@, path@, i as int),
        decreases seg.usages.len() - i,
    {
        let ghost was = out@;
        if same_text(seg.usages[i].0.as_str(), token) {
            let site = Site {
                path: path.to_owned(),
                line: seg.usages[i].1,
                role: "code".to_owned(),
            };
            out.push(site);
            assert(site_views(out@) =~= site_views(was).push(site@));
            assert(site_views(out@) =~= start + use_sites(seg.usages@, token@, path@, i + 1));
        }
        i += 1;
    }
    let ghost mid = site_views(out@);
    let mut j: usize = 0;
    assert(mid + mention_sites(seg.mentions@, token@, path@, 0) =~= mid);
    while j < seg.mentions.len()
        invariant
            j <= seg.mentions@.len(),
            site_views(out@) == mid + mention_sites(seg.mentions@, token@, path@, j as int),
        decreases seg.mentions.len() - j,
    {
        let ghost was = out@;
        if same_text(seg.mentions[j].0.as_str(), token) {
            let site = Site {
                path: path.to_owned(),
                line: seg.mentions[j].2,
                role: seg.mentions[j].1.clone(),
            };
            out.push(site);
            assert(site_views(out@) =~= site_views(was).push(site@));
            assert(site_views(out@) =~= mid + mention_sites(seg.mentions@, token@, path@, j + 1));
        }
        j += 1;
    }
    assert(site_views(out@) =~= start + segment_sites(*seg, path@, token@));
}

impl ColumnarStorage {
    /// The sites that the first `n` segments of the overlay post for a token, those the session
    /// hides left out.
    pub open spec fn overlay_sites(&self, token: Seq<char>, n: int) -> Seq<SiteView>
        decreases n,
    {
        if n <= 0 {
            seq![]
        } else {
            let rest = self.overlay_sites(token, n - 1);
            let meta = self.index().segments@[n - 1];
            if self.dirty.hides(meta) {
                rest
            } else {
                rest + segment_sites(self.seg(n - 1), meta.source_path@, token)
            }
        }
    }

    /// The sites that the first `n` segments of the session post for a token.
    pub open spec fn session_sites(&self, token: Seq<char>, n: int) -> Seq<SiteView>
        decreases n,
    {
        if n <= 0 {
            seq![]
        } else {
            self.session_sites(token, n - 1) + segment_sites(
                *self.dirty.added@[n - 1].reader,
                self.dirty.added@[n - 1].source_path@,
                token,
            )
        }
    }

    /// The sites posted for a token: the overlay's, then the session's.
    pub open spec fn posted_sites(&self, token: Seq<char>) -> Seq<SiteView> {
        self.overlay_sites(token, self.seg_count() as int) + self.session_sites(
            token,
            self.dirty.added@.len() as int,
        )
    }

    /// Every site posted for a token, with its role.
    pub fn sites_of(&self, token: &str) -> (out: Vec<Site>)
        requires
            self.wf(),
        ensures
            site_views(out@) == self.posted_sites(token@),
    {
        let mut out: Vec<Site> = Vec::new();
        let mut i: usize = 0;
        assert(site_views(out@) =~= self.overlay_sites(token@, 0));
        while i < self.shared.segments.len()
            invariant
                self.wf(),
                i <= self.seg_count(),
                site_views(out@) == self.overlay_sites(token@, i as int),
            decreases self.shared.segments.len() - i,
        {
            let meta = &self.shared.overlay.segments[i];
            if !self.dirty.shadows_segment(meta) {
                append_segment_sites(
                    &mut out,
                    &*self.shared.segments[i],
                    meta.source_path.as_str(),
                    token,
                );
            }
            i += 1;
        }
        let ghost start = site_views(out@);
        let mut j: usize = 0;
        assert(start + self.session_sites(token@, 0) =~= start);
        while j < self.dirty.added.len()
            invariant
                self.wf(),
                j <= self.dirty.added@.len(),
                site_views(out@) == start + self.session_sites(token@, j as int),
            decreases self.dirty.added.len() - j,
        {
            let ds = &self.dirty.added[j];
            append_segment_sites(&mut out, &*ds.reader, ds.source_path.as_str(), token);
            assert(site_views(out@) =~= start + self.session_sites(token@, j + 1));
            j += 1;
        }
        out
    }
}

// ───────────────────────────── the files to read ─────────────────────────────

/// Whether a path is infrastructure of a session rather than source: the pointer file of the
/// worktree, or a file that the engine keeps in its root.
pub open spec fn runtime_artifact(path: Seq<char>) -> bool {
    path == ".git"@ || (path.len() >= 9 && path.take(9) == ".forgeql-"@)
}

/// Whether a path is infrastructure of a session rather than source.
pub fn is_runtime_artifact(path: &str) -> (r: bool)
    ensures
        r == runtime_artifact(path@),
{
    if same_text(path, ".git") {
        return true;
    }
    let p = chars_of(path);
    if p.len() < 9 {
        return false;
    }
    let head = text_of(&p, 0, 9);
    assert(head@ =~= path@.take(9));
    same_text(head.as_str(), ".forgeql-")
}

impl ColumnarStorage {
    /// Whether the workspace knows of a file: a segment of the overlay that is not hidden, a file
    /// it lists, a segment of the session, or a file the session touched.
    pub open spec fn knows_file(&self, path: Seq<char>) -> bool {
        ||| exists|i: int|
            0 <= i < self.seg_count() && (#[trigger] self.index().segments@[i]).source_path@ == path
                && !self.dirty.hides(self.index().segments@[i])
        ||| exists|i: int|
            0 <= i < self.index().file_entries@.len() && (
            #[trigger] self.index().file_entries@[i]).0@ == path && !runtime_artifact(path)
        ||| exists|i: int|
            0 <= i < self.dirty.added@.len() && (#[trigger] self.dirty.added@[i]).source_path@
                == path
        ||| lists_text(self.dirty.added_paths@, path) && !runtime_artifact(path)
    }

    /// The files that a query has to read: every file the workspace knows of that the query's own
    /// scope selects, ascending.
    pub fn scan_paths(&self, clauses: &Clauses) -> (out: Vec<String>)
        requires
            self.wf(),
        ensures
            paths_ascend(out@),
            forall|i: int|
                0 <= i < out@.len() ==> self.knows_file((#[trigger] out@[i])@) && scope_selects(
                    out@[i]@,
                    *clauses,
                ),
            forall|p: Seq<char>| #[trigger]
                self.knows_file(p) && scope_selects(p, *clauses) ==> lists_path(out@, p),
    {
        let mut all: Vec<String> = Vec::new();
        let mut i: usize = 0;
        while i < self.shared.segments.len()
            invariant
                self.wf(),
                i <= self.seg_count(),
                forall|p: Seq<char>| #[trigger]
                    lists_text(all@, p) == (scope_selects(p, *clauses) && exists|k: int|
                        0 <= k < i && (#[trigger] self.index().segments@[k]).source_path@ == p
                            && !self.dirty.hides(self.index().segments@[k])),
            decreases self.shared.segments.len() - i,
        {
            let meta = &self.shared.overlay.segments[i];
            let ghost was = all@;
            let keep = !self.dirty.shadows_segment(meta) && in_scope(
                meta.source_path.as_str(),
                clauses,
            );
            if keep {
                all.push(meta.source_path.clone());
            }
            proof {
                lemma_lists_push(was, meta.source_path, all@, keep);
                assert forall|p: Seq<char>| #[trigger] lists_text(all@, p) == (scope_selects(
                    p,
                    *clauses,
                ) && exists|k: int|
                    0 <= k < i + 1 && (#[trigger] self.index().segments@[k]).source_path@ == p
                        && !self.dirty.hides(self.index().segments@[k])) by {
                    if lists_text(was, p) {
                        let k = choose|k: int|
                            0 <= k < i && (#[trigger] self.index().segments@[k]).source_path@ == p
                                && !self.dirty.hides(self.index().segments@[k]);
                        assert(k < i + 1);
                    }
                    if keep && p == meta.source_path@ {
                        assert(self.index().segments@[i as int].source_path@ == p);
                    }
                }
            }
            i += 1;
        }
        let ghost first = all@;
        let files = &self.shared.overlay.file_entries;
        let mut j: usize = 0;
        while j < files.len()
            invariant
                files@ == self.index().file_entries@,
                j <= files@.len(),
                forall|p: Seq<char>| #[trigger]
                    lists_text(all@, p) == (lists_text(first, p) || (scope_selects(p, *clauses)
                        && !runtime_artifact(p) && exists|k: int|
                        0 <= k < j && (#[trigger] files@[k]).0@ == p)),
            decreases files.len() - j,
        {
            let path = &files[j].0;
            let ghost was = all@;
            let keep = !is_runtime_artifact(path.as_str()) && in_scope(path.as_str(), clauses);
            if keep {
                all.push(path.clone());
            }
            proof {
                lemma_lists_push(was, *path, all@, keep);
                assert forall|p: Seq<char>| #[trigger] lists_text(all@, p) == (lists_text(first, p)
                    || (scope_selects(p, *clauses) && !runtime_artifact(p) && exists|k: int|
                    0 <= k < j + 1 && (#[trigger] files@[k]).0@ == p)) by {
                    if exists|k: int| 0 <= k < j && (#[trigger] files@[k]).0@ == p {
                        let k = choose|k: int| 0 <= k < j && (#[trigger] files@[k]).0@ == p;
                        assert(k < j + 1);
                    }
                    if exists|k: int| 0 <= k < j + 1 && (#[trigger] files@[k]).0@ == p {
                        let k = choose|k: int| 0 <= k < j + 1 && (#[trigger] files@[k]).0@ == p;
                        if k < j {
                            assert(files@[k].0@ == p);
                        }
                    }
                    if p == path@ {
                        assert(files@[j as int].0@ == p);
                    }
                }
            }
            j += 1;
        }
        let ghost second = all@;
        let mut k: usize = 0;
        while k < self.dirty.added.len()
            invariant
                k <= self.dirty.added@.len(),
                forall|p: Seq<char>| #[trigger]
                    lists_text(all@, p) == (lists_text(second, p) || (scope_selects(p, *clauses)
                        && exists|m: int|
                        0 <= m < k && (#[trigger] self.dirty.added@[m]).source_path@ == p)),
            decreases self.dirty.added.len() - k,
        {
            let path = &self.dirty.added[k].source_path;
            let ghost was = all@;
            let keep = in_scope(path.as_str(), clauses);
            if keep {
                all.push(path.clone());
            }
            proof {
                lemma_lists_push(was, *path, all@, keep);
                assert forall|p: Seq<char>| #[trigger] lists_text(all@, p) == (lists_text(second, p)
                    || (scope_selects(p, *clauses) && exists|m: int|
                    0 <= m < k + 1 && (#[trigger] self.dirty.added@[m]).source_path@ == p)) by {
                    if exists|m: int|
                        0 <= m < k && (#[trigger] self.dirty.added@[m]).source_path@ == p {
                        let m = choose|m: int|
                            0 <= m < k && (#[trigger] self.dirty.added@[m]).source_path@ == p;
                        assert(m < k + 1);
                    }
                    if exists|m: int|
                        0 <= m < k + 1 && (#[trigger] self.dirty.added@[m]).source_path@ == p {
                        let m = choose|m: int|
                            0 <= m < k + 1 && (#[trigger] self.dirty.added@[m]).source_path@ == p;
                        if m < k {
                            assert(self.dirty.added@[m].source_path@ == p);
                        }
                    }
                    if p == path@ {
                        assert(self.dirty.added@[k as int].source_path@ == p);
                    }
                }
            }
            k += 1;
        }
        let ghost third = all@;
        let more = &self.dirty.added_paths;
        let mut m: usize = 0;
        while m < more.len()
            invariant
                more@ == self.dirty.added_paths@,
                m <= more@.len(),
                forall|p: Seq<char>| #[trigger]
                    lists_text(all@, p) == (lists_text(third, p) || (scope_selects(p, *clauses)
                        && !runtime_artifact(p) && exists|x: int|
                        0 <= x < m && (#[trigger] more@[x])@ == p)),
            decreases more.len() - m,
        {
            let path = &more[m];
            let ghost was = all@;
            let keep = !is_runtime_artifact(path.as_str()) && in_scope(path.as_str(), clauses);
            if keep {
                all.push(path.clone());
            }
            proof {
                lemma_lists_push(was, *path, all@, keep);
                assert forall|p: Seq<char>| #[trigger] lists_text(all@, p) == (lists_text(third, p)
                    || (scope_selects(p, *clauses) && !runtime_artifact(p) && exists|x: int|
                    0 <= x < m + 1 && (#[trigger] more@[x])@ == p)) by {
                    if exists|x: int| 0 <= x < m && (#[trigger] more@[x])@ == p {
                        let x = choose|x: int| 0 <= x < m && (#[trigger] more@[x])@ == p;
                        assert(x < m + 1);
                    }
                    if exists|x: int| 0 <= x < m + 1 && (#[trigger] more@[x])@ == p {
                        let x = choose|x: int| 0 <= x < m + 1 && (#[trigger] more@[x])@ == p;
                        if x < m {
                            assert(more@[x]@ == p);
                        }
                    }
                    if p == path@ {
                        assert(more@[m as int]@ == p);
                    }
                }
            }
            m += 1;
        }
        let out = sorted_paths(&all);
        proof {
            assert forall|p: Seq<char>| #[trigger] lists_text(all@, p) == (self.knows_file(p)
                && scope_selects(p, *clauses)) by {
                assert(lists_text(third, p) == (lists_text(second, p) || (scope_selects(p, *clauses)
                    && exists|m: int|
                    0 <= m < self.dirty.added@.len() && (
                    #[trigger] self.dirty.added@[m]).source_path@ == p)));
                assert(lists_text(second, p) == (lists_text(first, p) || (scope_selects(p, *clauses)
                    && !runtime_artifact(p) && exists|k: int|
                    0 <= k < files@.len() && (#[trigger] files@[k]).0@ == p)));
            }
            assert forall|p: Seq<char>| #[trigger]
                self.knows_file(p) && scope_selects(p, *clauses) implies lists_path(out@, p) by {
                assert(lists_text(all@, p));
                lemma_lists_text_path(all@, p);
                assert(lists_path(out@, p) == lists_path(all@, p));
            }
        }
        out
    }
}

} // verus!
