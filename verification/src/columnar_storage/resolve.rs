//! From a name to the one place in the source that it stands for.
//!
//! Among the rows that a name could mean, the one of a preferred kind wins, then the one on the
//! greatest path, then the last of its file. A file edited in the session answers before the
//! overlay.

use crate::clauses::Clauses;
use crate::columnar_storage::candidates::rows_by_segment;
use crate::columnar_storage::literals::{qualified, split_qualified_name};
use crate::columnar_storage::node_lookup::{join_path, joined};
use crate::columnar_storage::ColumnarStorage;
use crate::order::{lemma_path_total, lemma_path_weak, path_before, path_less};
use crate::paths::{in_scope, scope_selects};
use crate::rows::{collect_rows, rows_ascending, rows_of};
use crate::segment::{contains_text, extra_of, find_extra, lists_text, opt_string, SegmentReader};
use crate::text::same_text;
use roaring::RoaringBitmap;
use vstd::prelude::*;
use vstd::string::*;

verus! {

/// Where a symbol stands in the source.
#[derive(Debug)]
pub struct SymbolLocation {
    /// The file.
    pub path: String,
    pub byte_start: usize,
    pub byte_end: usize,
    /// 1-based line; nought where it is not known.
    pub line: usize,
    pub node_kind: String,
    /// Enrichment values, by field.
    pub enrichment: Vec<(String, String)>,
    /// The git object name of the file's contents, where the segment is addressed by one.
    pub blob_sha: Option<Vec<u8>>,
    pub ordinal: Option<u32>,
}

/// Whether two lists of pairs hold the same texts.
pub open spec fn same_pairs(a: Seq<(String, String)>, b: Seq<(String, String)>) -> bool {
    a.len() == b.len() && forall|i: int|
        #![trigger a[i]]
        0 <= i < a.len() ==> a[i].0@ == b[i].0@ && a[i].1@ == b[i].1@
}

/// Whether a location is that of row `r` of a segment, in the file at `path`.
pub open spec fn locates(loc: SymbolLocation, seg: SegmentReader, path: Seq<char>, r: int) -> bool {
    let row = seg.rows@[r];
    &&& loc.path@ == path
    &&& loc.byte_start == row.byte_start
    &&& loc.byte_end == row.byte_end
    &&& loc.line == row.line
    &&& loc.node_kind@ == row.fql_kind@
    &&& same_pairs(loc.enrichment@, row.extra@)
    &&& (match loc.blob_sha {
        Some(sha) => seg.content_id@.len() == 20 && sha@ == seg.content_id@,
        None => seg.content_id@.len() != 20,
    })
    &&& loc.ordinal == row.ordinal
}

fn copy_pairs(v: &Vec<(String, String)>) -> (out: Vec<(String, String)>)
    ensures
        same_pairs(out@, v@),
{
    let mut out: Vec<(String, String)> = Vec::new();
    let mut i: usize = 0;
    while i < v.len()
        invariant
            i <= v@.len(),
            out@.len() == i,
            forall|k: int|
                #![trigger out@[k]]
                0 <= k < i ==> out@[k].0@ == v@[k].0@ && out@[k].1@ == v@[k].1@,
        decreases v.len() - i,
    {
        out.push((v[i].0.clone(), v[i].1.clone()));
        i += 1;
    }
    out
}

fn locate(seg: &SegmentReader, path: String, r: usize) -> (loc: SymbolLocation)
    requires
        r < seg.rows@.len(),
    ensures
        locates(loc, *seg, path@, r as int),
{
    let row = &seg.rows[r];
    let blob_sha: Option<Vec<u8>> = if seg.content_id.len() == 20 {
        Some(vstd::slice::slice_to_vec(seg.content_id.as_slice()))
    } else {
        None
    };
    SymbolLocation {
        path,
        byte_start: row.byte_start as usize,
        byte_end: row.byte_end as usize,
        line: row.line as usize,
        node_kind: row.fql_kind.clone(),
        enrichment: copy_pairs(&row.extra),
        blob_sha,
        ordinal: row.ordinal,
    }
}

// ───────────────────────────── ranking ─────────────────────────────

/// What a candidate is ranked by: the kind of match, the path, then where it stands.
pub struct Standing {
    pub tier: int,
    pub path: Seq<char>,
    pub segment: int,
    pub row: int,
}

/// Whether `a` is preferred over `b`.
pub open spec fn outranks(a: Standing, b: Standing) -> bool {
    ||| a.tier > b.tier
    ||| a.tier == b.tier && path_before(b.path, a.path)
    ||| a.tier == b.tier && !path_before(a.path, b.path) && !path_before(b.path, a.path) && (
    a.segment > b.segment || (a.segment == b.segment && a.row > b.row))
}

proof fn lemma_outranks(x: Standing, b: Standing, n: Standing)
    requires
        !outranks(x, b),
        outranks(n, b),
    ensures
        !outranks(x, n),
{
    lemma_path_weak(x.path, b.path, n.path);
    lemma_path_weak(n.path, b.path, x.path);
    lemma_path_weak(b.path, n.path, x.path);
    lemma_path_weak(b.path, x.path, n.path);
    lemma_path_weak(x.path, n.path, b.path);
    lemma_path_weak(n.path, x.path, b.path);
}

/// A row that a name could mean.
pub struct Candidate {
    pub tier: u8,
    pub path: String,
    pub segment: usize,
    pub row: u32,
}

impl Candidate {
    /// What the candidate is ranked by.
    pub open spec fn standing(&self) -> Standing {
        Standing {
            tier: self.tier as int,
            path: self.path@,
            segment: self.segment as int,
            row: self.row as int,
        }
    }

    fn beats(&self, other: &Candidate) -> (r: bool)
        ensures
            r == outranks(self.standing(), other.standing()),
    {
        if self.tier != other.tier {
            return self.tier > other.tier;
        }
        if path_less(other.path.as_str(), self.path.as_str()) {
            return true;
        }
        if path_less(self.path.as_str(), other.path.as_str()) {
            proof {
                lemma_path_total(self.path@, other.path@);
            }
            return false;
        }
        self.segment > other.segment || (self.segment == other.segment && self.row > other.row)
    }
}

/// The candidate that none outranks.
pub fn pick_best_resolved(all: &Vec<Candidate>) -> (r: Option<usize>)
    ensures
        (match r {
            None => all@.len() == 0,
            Some(i) => i < all@.len() && forall|k: int|
                0 <= k < all@.len() ==> !outranks(
                    (#[trigger] all@[k]).standing(),
                    all@[i as int].standing(),
                ),
        }),
{
    if all.len() == 0 {
        return None;
    }
    let mut best: usize = 0;
    let mut i: usize = 1;
    proof {
        let s = all@[0].standing();
        lemma_path_total(s.path, s.path);
    }
    while i < all.len()
        invariant
            best < i <= all@.len(),
            forall|k: int|
                0 <= k < i ==> !outranks(
                    (#[trigger] all@[k]).standing(),
                    all@[best as int].standing(),
                ),
        decreases all.len() - i,
    {
        let ghost was = best;
        if all[i].beats(&all[best]) {
            best = i;
        }
        proof {
            assert forall|k: int| 0 <= k < i + 1 implies !outranks(
                (#[trigger] all@[k]).standing(),
                all@[best as int].standing(),
            ) by {
                let s = all@[k].standing();
                lemma_path_total(s.path, s.path);
                if best == i && k < i {
                    lemma_outranks(s, all@[was as int].standing(), all@[i as int].standing());
                }
            }
        }
        i += 1;
    }
    Some(best)
}

/// Whether the owner of a row is the one asked for; any will do where none is.
pub open spec fn owner_fits(seg: SegmentReader, r: int, owner: Option<Seq<char>>) -> bool {
    match owner {
        None => true,
        Some(o) => o == (match seg.extra("enclosing_type"@, r) {
            Some(t) => t,
            None => seq![],
        }),
    }
}

fn fits_owner(seg: &SegmentReader, r: u32, owner: &Option<String>) -> (b: bool)
    requires
        r < seg.rows@.len(),
    ensures
        b == owner_fits(*seg, r as int, opt_string(*owner)),
{
    match owner {
        None => true,
        Some(o) => match seg.extra_field_str("enclosing_type", r) {
            Some(t) => same_text(o.as_str(), t),
            None => {
                let empty = o.as_str().unicode_len() == 0;
                proof {
                    if empty {
                        assert(o@ =~= seq![]);
                    }
                }
                empty
            },
        },
    }
}

/// Whether a kind is among the preferred ones.
pub open spec fn prefers(kinds: Option<Seq<String>>, kind: Seq<char>) -> bool {
    kinds is Some && lists_text(kinds->0, kind)
}

/// The preferred kinds, by their texts.
pub open spec fn opt_kinds(kinds: Option<&Vec<String>>) -> Option<Seq<String>> {
    match kinds {
        Some(v) => Some(v@),
        None => None,
    }
}

fn is_preferred(kinds: Option<&Vec<String>>, kind: &str) -> (b: bool)
    ensures
        b == prefers(opt_kinds(kinds), kind@),
{
    match kinds {
        Some(v) => contains_text(v, kind),
        None => false,
    }
}

// ───────────────────────────── the session ─────────────────────────────

impl ColumnarStorage {
    /// Whether row `r` of the session's segment `j` is a candidate.
    pub open spec fn session_candidate(
        &self,
        name: Seq<char>,
        owner: Option<Seq<char>>,
        clauses: Clauses,
        j: int,
        r: u32,
    ) -> bool {
        let ds = self.dirty.added@[j];
        &&& scope_selects(ds.source_path@, clauses)
        &&& ds.reader.rows_named(name).contains(r)
        &&& owner_fits(*ds.reader, r as int, owner)
    }

    /// The standing of row `r` of the session's segment `j`.
    pub open spec fn session_standing(
        &self,
        kinds: Option<Seq<String>>,
        root: Seq<char>,
        j: int,
        r: u32,
    ) -> Standing {
        let ds = self.dirty.added@[j];
        Standing {
            tier: if prefers(kinds, ds.reader.rows@[r as int].fql_kind@) {
                1
            } else {
                0
            },
            path: joined(root, ds.source_path@),
            segment: j,
            row: r as int,
        }
    }

    /// Whether a list holds the session's candidates of the first `n` segments, and no others.
    pub open spec fn lists_session(
        &self,
        all: Seq<Candidate>,
        name: Seq<char>,
        owner: Option<Seq<char>>,
        clauses: Clauses,
        kinds: Option<Seq<String>>,
        root: Seq<char>,
        n: int,
    ) -> bool {
        &&& forall|i: int|
            0 <= i < all.len() ==> {
                let c = #[trigger] all[i];
                &&& c.segment < n
                &&& self.session_candidate(name, owner, clauses, c.segment as int, c.row)
                &&& c.standing() == self.session_standing(kinds, root, c.segment as int, c.row)
            }
        &&& forall|j: int, r: u32|
            0 <= j < n && #[trigger] self.session_candidate(name, owner, clauses, j, r)
                ==> holds_candidate(all, j, r)
    }

    /// Whether a location is that of the session's candidate that none outranks; none where there
    /// is no candidate.
    pub open spec fn resolved_in_session(
        &self,
        name: Seq<char>,
        owner: Option<Seq<char>>,
        clauses: Clauses,
        kinds: Option<Seq<String>>,
        root: Seq<char>,
        loc: Option<SymbolLocation>,
    ) -> bool {
        let n = self.dirty.added@.len();
        match loc {
            None => forall|j: int, r: u32|
                0 <= j < n ==> !#[trigger] self.session_candidate(name, owner, clauses, j, r),
            Some(l) => exists|j: int, r: u32|
                {
                    &&& 0 <= j < n
                    &&& #[trigger] self.session_candidate(name, owner, clauses, j, r)
                    &&& locates(
                        l,
                        *self.dirty.added@[j].reader,
                        joined(root, self.dirty.added@[j].source_path@),
                        r as int,
                    )
                    &&& self.unbeaten_in_session(name, owner, clauses, kinds, root, j, r)
                },
        }
    }

    /// Whether no candidate of the session outranks row `r` of segment `j`.
    pub open spec fn unbeaten_in_session(
        &self,
        name: Seq<char>,
        owner: Option<Seq<char>>,
        clauses: Clauses,
        kinds: Option<Seq<String>>,
        root: Seq<char>,
        j: int,
        r: u32,
    ) -> bool {
        forall|s: int, q: u32|
            0 <= s < self.dirty.added@.len() && #[trigger] self.session_candidate(
                name,
                owner,
                clauses,
                s,
                q,
            ) ==> !outranks(
                self.session_standing(kinds, root, s, q),
                self.session_standing(kinds, root, j, r),
            )
    }

    fn push_session(
        &self,
        all: &mut Vec<Candidate>,
        name: &str,
        owner: &Option<String>,
        clauses: &Clauses,
        kinds: Option<&Vec<String>>,
        root: &str,
        j: usize,
    )
        requires
            self.wf(),
            j < self.dirty.added@.len(),
            self.lists_session(
                old(all)@,
                name@,
                opt_string(*owner),
                *clauses,
                opt_kinds(kinds),
                root@,
                j as int,
            ),
        ensures
            self.lists_session(
                final(all)@,
                name@,
                opt_string(*owner),
                *clauses,
                opt_kinds(kinds),
                root@,
                j + 1,
            ),
    {
        let ghost o = opt_string(*owner);
        let ghost k = opt_kinds(kinds);
        let ghost start = all@;
        let ds = &self.dirty.added[j];
        assert(self.dirty.added@[j as int].reader.wf());
        if !in_scope(ds.source_path.as_str(), clauses) {
            return ;
        }
        let named = ds.reader.lookup_name(name);
        let set = collect_rows(&named);
        let rows = rows_ascending(&set);
        let mut i: usize = 0;
        while i < rows.len()
            invariant
                self.wf(),
                j < self.dirty.added@.len(),
                ds == &self.dirty.added@[j as int],
                ds.reader.wf(),
                o == opt_string(*owner),
                k == opt_kinds(kinds),
                scope_selects(ds.source_path@, *clauses),
                rows@.to_set() == ds.reader.rows_named(name@),
                i <= rows@.len(),
                start.len() <= all@.len(),
                forall|a: int| 0 <= a < start.len() ==> #[trigger] all@[a] == start[a],
                forall|a: int|
                    start.len() <= a < all@.len() ==> {
                        let c = #[trigger] all@[a];
                        &&& c.segment == j
                        &&& self.session_candidate(name@, o, *clauses, j as int, c.row)
                        &&& c.standing() == self.session_standing(k, root@, j as int, c.row)
                    },
                forall|b: int|
                    #![trigger rows@[b]]
                    0 <= b < i && owner_fits(*ds.reader, rows@[b] as int, o) ==> holds_candidate(
                        all@,
                        j as int,
                        rows@[b],
                    ),
            decreases rows.len() - i,
        {
            let r: u32 = rows[i];
            let ghost was = all@;
            assert(rows@.to_set().contains(r));
            assert(ds.reader.rows_named(name@).contains(r));
            if fits_owner(&*ds.reader, r, owner) {
                let preferred = is_preferred(kinds, ds.reader.rows[r as usize].fql_kind.as_str());
                let c = Candidate {
                    tier: if preferred {
                        1
                    } else {
                        0
                    },
                    path: join_path(root, ds.source_path.as_str()),
                    segment: j,
                    row: r,
                };
                all.push(c);
                assert(self.session_candidate(name@, o, *clauses, j as int, r));
                assert(all@[was.len() as int] == c);
            }
            proof {
                lemma_holds_grows(was, all@);
            }
            i += 1;
        }
        proof {
            lemma_holds_grows(start, all@);
            assert forall|s: int, q: u32|
                0 <= s < j + 1 && #[trigger] self.session_candidate(
                    name@,
                    o,
                    *clauses,
                    s,
                    q,
                ) implies holds_candidate(all@, s, q) by {
                if s < j {
                    assert(holds_candidate(start, s, q));
                } else {
                    assert(rows@.to_set().contains(q));
                    let b = choose|b: int| 0 <= b < rows@.len() && rows@[b] == q;
                    assert(holds_candidate(all@, j as int, rows@[b]));
                }
            }
            assert forall|a: int| 0 <= a < all@.len() implies {
                let c = #[trigger] all@[a];
                &&& c.segment < j + 1
                &&& self.session_candidate(name@, o, *clauses, c.segment as int, c.row)
                &&& c.standing() == self.session_standing(k, root@, c.segment as int, c.row)
            } by {
                if a < start.len() {
                    assert(all@[a] == start[a]);
                }
            }
        }
    }

    /// Finds the place of a name among the files that the session edited.
    pub fn resolve_in_dirty(
        &self,
        name: &str,
        owner: &Option<String>,
        clauses: &Clauses,
        root: &str,
        kinds: Option<&Vec<String>>,
    ) -> (loc: Option<SymbolLocation>)
        requires
            self.wf(),
        ensures
            self.resolved_in_session(
                name@,
                opt_string(*owner),
                *clauses,
                opt_kinds(kinds),
                root@,
                loc,
            ),
    {
        let ghost o = opt_string(*owner);
        let ghost k = opt_kinds(kinds);
        let mut all: Vec<Candidate> = Vec::new();
        let mut j: usize = 0;
        while j < self.dirty.added.len()
            invariant
                self.wf(),
                j <= self.dirty.added@.len(),
                o == opt_string(*owner),
                k == opt_kinds(kinds),
                self.lists_session(all@, name@, o, *clauses, k, root@, j as int),
            decreases self.dirty.added.len() - j,
        {
            self.push_session(&mut all, name, owner, clauses, kinds, root, j);
            j += 1;
        }
        match pick_best_resolved(&all) {
            None => {
                proof {
                    assert forall|s: int, q: u32|
                        0 <= s < self.dirty.added@.len() implies !#[trigger] self.session_candidate(
                        name@,
                        o,
                        *clauses,
                        s,
                        q,
                    ) by {
                        if self.session_candidate(name@, o, *clauses, s, q) {
                            assert(holds_candidate(all@, s, q));
                        }
                    }
                }
                None
            },
            Some(best) => {
                let c = &all[best];
                let ds = &self.dirty.added[c.segment];
                assert(self.session_candidate(name@, o, *clauses, c.segment as int, c.row));
                assert(ds.reader.rows_named(name@).contains(c.row));
                let path = join_path(root, ds.source_path.as_str());
                let loc = locate(&*ds.reader, path, c.row as usize);
                proof {
                    assert forall|s: int, q: u32|
                        0 <= s < self.dirty.added@.len() && #[trigger] self.session_candidate(
                            name@,
                            o,
                            *clauses,
                            s,
                            q,
                        ) implies !outranks(
                        self.session_standing(k, root@, s, q),
                        self.session_standing(k, root@, c.segment as int, c.row),
                    ) by {
                        assert(holds_candidate(all@, s, q));
                        let a = choose|a: int|
                            0 <= a < all@.len() && (#[trigger] all@[a]).segment == s && all@[a].row
                                == q;
                        assert(!outranks(all@[a].standing(), all@[best as int].standing()));
                    }
                    assert(self.unbeaten_in_session(
                        name@,
                        o,
                        *clauses,
                        k,
                        root@,
                        c.segment as int,
                        c.row,
                    ));
                }
                Some(loc)
            },
        }
    }
}

/// Whether a list holds row `r` of segment `s`.
pub open spec fn holds_candidate(all: Seq<Candidate>, s: int, r: u32) -> bool {
    exists|i: int| 0 <= i < all.len() && (#[trigger] all[i]).segment == s && all[i].row == r
}

proof fn lemma_holds_grows(a: Seq<Candidate>, b: Seq<Candidate>)
    requires
        a.len() <= b.len(),
        forall|i: int| 0 <= i < a.len() ==> #[trigger] b[i] == a[i],
    ensures
        forall|s: int, r: u32| #[trigger] holds_candidate(a, s, r) ==> holds_candidate(b, s, r),
{
    assert forall|s: int, r: u32| #[trigger] holds_candidate(a, s, r) implies holds_candidate(
        b,
        s,
        r,
    ) by {
        let i = choose|i: int|
            0 <= i < a.len() && (#[trigger] a[i]).segment == s && a[i].row == r;
        assert(b[i].segment == s);
    }
}

// ───────────────────────────── the overlay ─────────────────────────────

impl ColumnarStorage {
    /// Whether row `r` of the overlay's segment `s` is a candidate.
    pub open spec fn overlay_candidate(
        &self,
        name: Seq<char>,
        owner: Option<Seq<char>>,
        clauses: Clauses,
        s: int,
        r: u32,
    ) -> bool {
        &&& !self.dirty.hides(self.index().segments@[s])
        &&& scope_selects(self.index().segments@[s].source_path@, clauses)
        &&& r < self.seg(s).rows@.len()
        &&& self.locals_of(self.index().name_rows(name), s).contains(r)
        &&& owner_fits(self.seg(s), r as int, owner)
    }

    /// The standing of row `r` of the overlay's segment `s`: a preferred kind first, then any kind,
    /// then a row without one.
    pub open spec fn overlay_standing(&self, kinds: Option<Seq<String>>, s: int, r: u32) -> Standing {
        let kind = self.seg(s).rows@[r as int].fql_kind@;
        Standing {
            tier: if prefers(kinds, kind) {
                2
            } else if kind.len() > 0 {
                1
            } else {
                0
            },
            path: self.index().segments@[s].source_path@,
            segment: s,
            row: r as int,
        }
    }

    /// Whether a list holds the overlay's candidates of the first `n` segments, and no others.
    pub open spec fn lists_overlay(
        &self,
        all: Seq<Candidate>,
        name: Seq<char>,
        owner: Option<Seq<char>>,
        clauses: Clauses,
        kinds: Option<Seq<String>>,
        n: int,
    ) -> bool {
        &&& forall|i: int|
            0 <= i < all.len() ==> {
                let c = #[trigger] all[i];
                &&& c.segment < n
                &&& self.overlay_candidate(name, owner, clauses, c.segment as int, c.row)
                &&& c.standing() == self.overlay_standing(kinds, c.segment as int, c.row)
            }
        &&& forall|j: int, r: u32|
            0 <= j < n && #[trigger] self.overlay_candidate(name, owner, clauses, j, r)
                ==> holds_candidate(all, j, r)
    }

    /// Whether no candidate of the overlay outranks row `r` of segment `j`.
    pub open spec fn unbeaten_in_overlay(
        &self,
        name: Seq<char>,
        owner: Option<Seq<char>>,
        clauses: Clauses,
        kinds: Option<Seq<String>>,
        j: int,
        r: u32,
    ) -> bool {
        forall|s: int, q: u32|
            0 <= s < self.seg_count() && #[trigger] self.overlay_candidate(
                name,
                owner,
                clauses,
                s,
                q,
            ) ==> !outranks(
                self.overlay_standing(kinds, s, q),
                self.overlay_standing(kinds, j, r),
            )
    }

    /// Whether a location is that of the overlay's candidate that none outranks; none where there
    /// is no candidate.
    pub open spec fn resolved_in_overlay(
        &self,
        name: Seq<char>,
        owner: Option<Seq<char>>,
        clauses: Clauses,
        kinds: Option<Seq<String>>,
        root: Seq<char>,
        loc: Option<SymbolLocation>,
    ) -> bool {
        match loc {
            None => forall|j: int, r: u32|
                0 <= j < self.seg_count() ==> !#[trigger] self.overlay_candidate(
                    name,
                    owner,
                    clauses,
                    j,
                    r,
                ),
            Some(l) => exists|j: int, r: u32|
                {
                    &&& 0 <= j < self.seg_count()
                    &&& #[trigger] self.overlay_candidate(name, owner, clauses, j, r)
                    &&& locates(
                        l,
                        self.seg(j),
                        joined(root, self.index().segments@[j].source_path@),
                        r as int,
                    )
                    &&& self.unbeaten_in_overlay(name, owner, clauses, kinds, j, r)
                },
        }
    }

    fn push_overlay(
        &self,
        all: &mut Vec<Candidate>,
        locals: &RoaringBitmap,
        name: &str,
        owner: &Option<String>,
        clauses: &Clauses,
        kinds: Option<&Vec<String>>,
        j: usize,
    )
        requires
            self.wf(),
            j < self.seg_count(),
            !self.dirty.hides(self.index().segments@[j as int]),
            scope_selects(self.index().segments@[j as int].source_path@, *clauses),
            rows_of(*locals) == self.locals_of(self.index().name_rows(name@), j as int),
            self.lists_overlay(
                old(all)@,
                name@,
                opt_string(*owner),
                *clauses,
                opt_kinds(kinds),
                j as int,
            ),
        ensures
            self.lists_overlay(
                final(all)@,
                name@,
                opt_string(*owner),
                *clauses,
                opt_kinds(kinds),
                j + 1,
            ),
    {
        let ghost o = opt_string(*owner);
        let ghost k = opt_kinds(kinds);
        let ghost start = all@;
        let seg = &*self.shared.segments[j];
        let meta = &self.shared.overlay.segments[j];
        assert(self.shared.segments@[j as int].wf());
        let rows = rows_ascending(locals);
        let count: u32 = seg.row_count();
        let mut i: usize = 0;
        while i < rows.len()
            invariant
                self.wf(),
                j < self.seg_count(),
                *seg == self.seg(j as int),
                *meta == self.index().segments@[j as int],
                count == seg.rows@.len(),
                o == opt_string(*owner),
                k == opt_kinds(kinds),
                !self.dirty.hides(self.index().segments@[j as int]),
                scope_selects(meta.source_path@, *clauses),
                rows@.to_set() == self.locals_of(self.index().name_rows(name@), j as int),
                i <= rows@.len(),
                start.len() <= all@.len(),
                forall|a: int| 0 <= a < start.len() ==> #[trigger] all@[a] == start[a],
                forall|a: int|
                    start.len() <= a < all@.len() ==> {
                        let c = #[trigger] all@[a];
                        &&& c.segment == j
                        &&& self.overlay_candidate(name@, o, *clauses, j as int, c.row)
                        &&& c.standing() == self.overlay_standing(k, j as int, c.row)
                    },
                forall|b: int|
                    #![trigger rows@[b]]
                    0 <= b < i && rows@[b] < count && owner_fits(*seg, rows@[b] as int, o)
                        ==> holds_candidate(all@, j as int, rows@[b]),
            decreases rows.len() - i,
        {
            let r: u32 = rows[i];
            let ghost was = all@;
            assert(rows@.to_set().contains(r));
            if r < count && fits_owner(seg, r, owner) {
                let kind = seg.rows[r as usize].fql_kind.as_str();
                let tier: u8 = if is_preferred(kinds, kind) {
                    2
                } else if kind.unicode_len() > 0 {
                    1
                } else {
                    0
                };
                let c = Candidate { tier, path: meta.source_path.clone(), segment: j, row: r };
                all.push(c);
                assert(self.overlay_candidate(name@, o, *clauses, j as int, r));
                assert(all@[was.len() as int] == c);
            }
            proof {
                lemma_holds_grows(was, all@);
            }
            i += 1;
        }
        proof {
            lemma_holds_grows(start, all@);
            assert forall|s: int, q: u32|
                0 <= s < j + 1 && #[trigger] self.overlay_candidate(
                    name@,
                    o,
                    *clauses,
                    s,
                    q,
                ) implies holds_candidate(all@, s, q) by {
                if s < j {
                    assert(holds_candidate(start, s, q));
                } else {
                    assert(rows@.to_set().contains(q));
                    let b = choose|b: int| 0 <= b < rows@.len() && rows@[b] == q;
                    assert(holds_candidate(all@, j as int, rows@[b]));
                }
            }
            assert forall|a: int| 0 <= a < all@.len() implies {
                let c = #[trigger] all@[a];
                &&& c.segment < j + 1
                &&& self.overlay_candidate(name@, o, *clauses, c.segment as int, c.row)
                &&& c.standing() == self.overlay_standing(k, c.segment as int, c.row)
            } by {
                if a < start.len() {
                    assert(all@[a] == start[a]);
                }
            }
        }
    }

    /// The overlay's candidates for a name, segment by segment.
    pub fn collect_resolve_candidates(
        &self,
        name: &str,
        owner: &Option<String>,
        clauses: &Clauses,
        kinds: Option<&Vec<String>>,
    ) -> (all: Vec<Candidate>)
        requires
            self.wf(),
        ensures
            self.lists_overlay(
                all@,
                name@,
                opt_string(*owner),
                *clauses,
                opt_kinds(kinds),
                self.seg_count() as int,
            ),
    {
        let ghost o = opt_string(*owner);
        let ghost k = opt_kinds(kinds);
        let ids = self.shared.overlay.lookup_name_bitmap(name);
        let by_segment = self.group_by_segment(&ids);
        let mut all: Vec<Candidate> = Vec::new();
        let n: usize = self.shared.segments.len();
        let mut j: usize = 0;
        while j < n
            invariant
                self.wf(),
                n == self.seg_count(),
                j <= n,
                o == opt_string(*owner),
                k == opt_kinds(kinds),
                by_segment@.len() == n,
                forall|s: int|
                    0 <= s < n ==> #[trigger] rows_by_segment(by_segment@)[s] == self.locals_of(
                        self.index().name_rows(name@),
                        s,
                    ),
                self.lists_overlay(all@, name@, o, *clauses, k, j as int),
            decreases n - j,
        {
            assert(rows_by_segment(by_segment@)[j as int] == rows_of(by_segment@[j as int]));
            let meta = &self.shared.overlay.segments[j];
            if !self.dirty.shadows_segment(meta) && in_scope(meta.source_path.as_str(), clauses) {
                self.push_overlay(&mut all, &by_segment[j], name, owner, clauses, kinds, j);
            }
            j += 1;
        }
        all
    }

    /// Finds the place of a name in the overlay.
    pub fn resolve_in_overlay(
        &self,
        name: &str,
        owner: &Option<String>,
        clauses: &Clauses,
        root: &str,
        kinds: Option<&Vec<String>>,
    ) -> (loc: Option<SymbolLocation>)
        requires
            self.wf(),
        ensures
            self.resolved_in_overlay(
                name@,
                opt_string(*owner),
                *clauses,
                opt_kinds(kinds),
                root@,
                loc,
            ),
    {
        let ghost o = opt_string(*owner);
        let ghost k = opt_kinds(kinds);
        let all = self.collect_resolve_candidates(name, owner, clauses, kinds);
        match pick_best_resolved(&all) {
            None => {
                proof {
                    assert forall|s: int, q: u32|
                        0 <= s < self.seg_count() implies !#[trigger] self.overlay_candidate(
                        name@,
                        o,
                        *clauses,
                        s,
                        q,
                    ) by {
                        if self.overlay_candidate(name@, o, *clauses, s, q) {
                            assert(holds_candidate(all@, s, q));
                        }
                    }
                }
                None
            },
            Some(best) => {
                let c = &all[best];
                let seg = &*self.shared.segments[c.segment];
                assert(self.overlay_candidate(name@, o, *clauses, c.segment as int, c.row));
                let path = join_path(
                    root,
                    self.shared.overlay.segments[c.segment].source_path.as_str(),
                );
                let loc = locate(seg, path, c.row as usize);
                proof {
                    assert forall|s: int, q: u32|
                        0 <= s < self.seg_count() && #[trigger] self.overlay_candidate(
                            name@,
                            o,
                            *clauses,
                            s,
                            q,
                        ) implies !outranks(
                        self.overlay_standing(k, s, q),
                        self.overlay_standing(k, c.segment as int, c.row),
                    ) by {
                        assert(holds_candidate(all@, s, q));
                        let a = choose|a: int|
                            0 <= a < all@.len() && (#[trigger] all@[a]).segment == s && all@[a].row
                                == q;
                        assert(!outranks(all@[a].standing(), all@[best as int].standing()));
                    }
                    assert(self.unbeaten_in_overlay(
                        name@,
                        o,
                        *clauses,
                        k,
                        c.segment as int,
                        c.row,
                    ));
                }
                Some(loc)
            },
        }
    }

    /// Whether a location is the place of a name: that of the session, and else that of the
    /// overlay.
    pub open spec fn resolved(
        &self,
        name: Seq<char>,
        clauses: Clauses,
        kinds: Option<Seq<String>>,
        root: Seq<char>,
        loc: Option<SymbolLocation>,
    ) -> bool {
        let (member, owner) = qualified(name);
        ||| loc is Some && self.resolved_in_session(member, owner, clauses, kinds, root, loc)
        ||| self.resolved_in_session(member, owner, clauses, kinds, root, None)
            && self.resolved_in_overlay(member, owner, clauses, kinds, root, loc)
    }

    /// Finds the place of a name, which may be written with its owner.
    ///
    /// The scope of a query narrows where the name is looked for. Its predicates do not: they choose
    /// among the lines shown of the place.
    pub fn resolve_symbol(
        &self,
        name: &str,
        clauses: &Clauses,
        root: &str,
        kinds: Option<&Vec<String>>,
    ) -> (loc: Option<SymbolLocation>)
        requires
            self.wf(),
        ensures
            self.resolved(name@, *clauses, opt_kinds(kinds), root@, loc),
    {
        let (member, owner) = split_qualified_name(name);
        match self.resolve_in_dirty(member.as_str(), &owner, clauses, root, kinds) {
            Some(loc) => Some(loc),
            None => self.resolve_in_overlay(member.as_str(), &owner, clauses, root, kinds),
        }
    }
}


// ───────────────────────────── kinds of places ─────────────────────────────

/// Whether a kind has a body to show.
pub open spec fn body_kind(kind: Seq<char>) -> bool {
    kind == "function"@ || kind == "method"@ || kind == "constructor"@ || kind == "destructor"@
}

/// Whether a kind is that of a type.
pub open spec fn type_kind(kind: Seq<char>) -> bool {
    ||| kind == "class"@
    ||| kind == "struct"@
    ||| kind == "enum"@
    ||| kind == "union"@
    ||| kind == "type_alias"@
    ||| kind == "trait"@
    ||| kind == "interface"@
}

/// The kinds that have a body to show.
pub fn body_kinds() -> (v: Vec<String>)
    ensures
        forall|k: Seq<char>| #[trigger] lists_text(v@, k) == body_kind(k),
{
    let mut v: Vec<String> = Vec::new();
    v.push("function".to_owned());
    v.push("method".to_owned());
    v.push("constructor".to_owned());
    v.push("destructor".to_owned());
    proof {
        assert forall|k: Seq<char>| #[trigger] lists_text(v@, k) == body_kind(k) by {
            assert(v@[0]@ == "function"@ && v@[1]@ == "method"@ && v@[2]@ == "constructor"@
                && v@[3]@ == "destructor"@);
        }
    }
    v
}

/// The kinds of types.
pub fn type_kinds() -> (v: Vec<String>)
    ensures
        forall|k: Seq<char>| #[trigger] lists_text(v@, k) == type_kind(k),
{
    let mut v: Vec<String> = Vec::new();
    v.push("class".to_owned());
    v.push("struct".to_owned());
    v.push("enum".to_owned());
    v.push("union".to_owned());
    v.push("type_alias".to_owned());
    v.push("trait".to_owned());
    v.push("interface".to_owned());
    proof {
        assert forall|k: Seq<char>| #[trigger] lists_text(v@, k) == type_kind(k) by {
            assert(v@[0]@ == "class"@ && v@[1]@ == "struct"@ && v@[2]@ == "enum"@ && v@[3]@
                == "union"@ && v@[4]@ == "type_alias"@ && v@[5]@ == "trait"@ && v@[6]@
                == "interface"@);
        }
    }
    v
}

/// A name that stands for something without a body.
#[derive(Debug)]
pub struct NotAFunction {
    pub name: String,
    /// The kind of what it stands for.
    pub kind: String,
}

impl NotAFunction {
    /// The refusal in words.
    pub open spec fn text(&self) -> Seq<char> {
        "'"@ + self.name@ + "' is not a function (found fql_kind: ["@ + self.kind@
            + "]). Use FIND symbols WHERE name = '"@ + self.name@
            + "' to locate the definition, then SHOW LINES n-m OF 'file' to read it."@
    }

    /// The refusal in words.
    pub fn message(&self) -> (s: String)
        ensures
            s@ == self.text(),
    {
        let mut s = String::new();
        s.append("'");
        s.append(self.name.as_str());
        s.append("' is not a function (found fql_kind: [");
        s.append(self.kind.as_str());
        s.append("]). Use FIND symbols WHERE name = '");
        s.append(self.name.as_str());
        s.append("' to locate the definition, then SHOW LINES n-m OF 'file' to read it.");
        assert(s@ =~= self.text());
        s
    }
}

/// Whether clauses are those of a query without any.
pub open spec fn no_clauses(c: Clauses) -> bool {
    &&& c.where_predicates@.len() == 0
    &&& c.having_predicates@.len() == 0
    &&& c.order_by is None
    &&& c.group_by is None
    &&& c.limit is None
    &&& c.offset is None
    &&& c.in_glob is None
    &&& c.exclude_globs@.len() == 0
}

impl ColumnarStorage {
    /// Finds the place of a type's name.
    pub fn resolve_type_symbol(&self, name: &str, clauses: &Clauses, root: &str) -> (loc: Option<
        SymbolLocation,
    >)
        requires
            self.wf(),
        ensures
            exists|kinds: Seq<String>|
                (forall|k: Seq<char>| #[trigger] lists_text(kinds, k) == type_kind(k))
                    && #[trigger] self.resolved(name@, *clauses, Some(kinds), root@, loc),
    {
        let kinds = type_kinds();
        let loc = self.resolve_symbol(name, clauses, root, Some(&kinds));
        assert(self.resolved(name@, *clauses, Some(kinds@), root@, loc));
        loc
    }

    /// What showing the body of a place comes to, before a redirect: nothing where the name stands
    /// for nothing, and a refusal where it stands for something without a body.
    pub open spec fn body_of(loc: SymbolLocation) -> bool {
        body_kind(loc.node_kind@) || extra_of(loc.enrichment@, "body_symbol"@) is Some
    }

    /// Whether `r` is the place whose body is shown for a name.
    ///
    /// A declaration that names its definition leads there, where the definition is found.
    pub open spec fn body_resolved(
        &self,
        name: Seq<char>,
        clauses: Clauses,
        kinds: Seq<String>,
        root: Seq<char>,
        found: Option<SymbolLocation>,
        r: Result<Option<SymbolLocation>, NotAFunction>,
    ) -> bool {
        &&& self.resolved(name, clauses, Some(kinds), root, found)
        &&& match found {
            None => r is Ok && r->Ok_0 is None,
            Some(loc) => if !ColumnarStorage::body_of(loc) {
                r is Err && r->Err_0.name@ == name && r->Err_0.kind@ == loc.node_kind@
            } else {
                match extra_of(loc.enrichment@, "body_symbol"@) {
                    None => r == Ok::<_, NotAFunction>(found),
                    Some(target) => exists|bare: Clauses, there: Option<SymbolLocation>|
                        no_clauses(bare) && #[trigger] self.resolved(
                            target,
                            bare,
                            Some(kinds),
                            root,
                            there,
                        ) && r == Ok::<_, NotAFunction>(
                            if there is Some {
                                there
                            } else {
                                found
                            },
                        ),
                }
            },
        }
    }

    /// Finds the place whose body is shown for a name.
    pub fn resolve_body_symbol(&self, name: &str, clauses: &Clauses, root: &str) -> (r: Result<
        Option<SymbolLocation>,
        NotAFunction,
    >)
        requires
            self.wf(),
        ensures
            exists|kinds: Seq<String>, found: Option<SymbolLocation>|
                (forall|k: Seq<char>| #[trigger] lists_text(kinds, k) == body_kind(k))
                    && #[trigger] self.body_resolved(name@, *clauses, kinds, root@, found, r),
    {
        let kinds = body_kinds();
        let found = self.resolve_symbol(name, clauses, root, Some(&kinds));
        let ghost first = found;
        let loc: SymbolLocation = match found {
            None => {
                let r: Result<Option<SymbolLocation>, NotAFunction> = Ok(None);
                assert(self.body_resolved(name@, *clauses, kinds@, root@, first, r));
                return r;
            },
            Some(loc) => loc,
        };
        let target: Option<String> = match find_extra(&loc.enrichment, "body_symbol") {
            Some(t) => Some(t.to_owned()),
            None => None,
        };
        if !contains_text(&kinds, loc.node_kind.as_str()) && target.is_none() {
            let r: Result<Option<SymbolLocation>, NotAFunction> = Err(
                NotAFunction { name: name.to_owned(), kind: loc.node_kind },
            );
            assert(self.body_resolved(name@, *clauses, kinds@, root@, first, r));
            return r;
        }
        proof {
            assert(extra_of(first->0.enrichment@, "body_symbol"@) == opt_string(target));
            assert(ColumnarStorage::body_of(first->0));
        }
        match target {
            Some(t) => {
                let bare = Clauses::default();
                let there = self.resolve_symbol(t.as_str(), &bare, root, Some(&kinds));
                assert(no_clauses(bare) && self.resolved(t@, bare, Some(kinds@), root@, there));
                let ghost second = there;
                let r: Result<Option<SymbolLocation>, NotAFunction> = match there {
                    Some(x) => Ok(Some(x)),
                    None => Ok(Some(loc)),
                };
                assert(r == Ok::<_, NotAFunction>(
                    if second is Some {
                        second
                    } else {
                        first
                    },
                ));
                assert(self.resolved(
                    extra_of(first->0.enrichment@, "body_symbol"@)->0,
                    bare,
                    Some(kinds@),
                    root@,
                    second,
                ));
                assert(self.body_resolved(name@, *clauses, kinds@, root@, first, r));
                r
            },
            None => {
                let r: Result<Option<SymbolLocation>, NotAFunction> = Ok(Some(loc));
                assert(self.body_resolved(name@, *clauses, kinds@, root@, first, r));
                r
            },
        }
    }

    /// Finds the file and the line of a name's definition.
    pub fn locate_definition(&self, name: &str) -> (r: Option<(String, usize)>)
        requires
            self.wf(),
        ensures
            exists|bare: Clauses, loc: Option<SymbolLocation>|
                no_clauses(bare) && #[trigger] self.resolved(
                    name@,
                    bare,
                    None,
                    self.worktree_root@,
                    loc,
                ) && (match r {
                    Some(at) => loc is Some && loc->0.path == at.0 && loc->0.line == at.1,
                    None => loc is None,
                }),
    {
        let bare = Clauses::default();
        let loc = self.resolve_symbol(name, &bare, self.worktree_root.as_str(), None);
        let ghost found = loc;
        assert(no_clauses(bare) && self.resolved(
            name@,
            bare,
            None,
            self.worktree_root@,
            found,
        ));
        match loc {
            Some(l) => Some((l.path, l.line)),
            None => None,
        }
    }
}

} // verus!
