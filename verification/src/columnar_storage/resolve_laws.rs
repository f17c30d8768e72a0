//! What resolving a name promises: which place it stands for where several rows could be meant.

use crate::clauses::Clauses;
use crate::columnar_storage::literals::{past_colons, past_dot, qualified};
use crate::columnar_storage::node_lookup::joined;
use crate::columnar_storage::resolve::{
    body_kind, locates, outranks, type_kind, NotAFunction, SymbolLocation,
};
use crate::columnar_storage::ColumnarStorage;
use crate::order::{lemma_path_total, path_before};
use crate::paths::scope_selects;
use crate::segment::{extra_of, lists_text, SegmentReader};
use vstd::prelude::*;
use vstd::string::*;

verus! {

// ───────────────────────────── names ─────────────────────────────

proof fn lemma_past_colons(s: Seq<char>, n: int, c: int)
    requires
        2 <= c <= n <= s.len(),
        s[c - 1] == ':',
        s[c - 2] == ':',
        forall|k: int| c <= k < n ==> s[k] != ':',
    ensures
        past_colons(s, n) == c,
    decreases n,
{
    if n > c {
        lemma_past_colons(s, n - 1, c);
    }
}

proof fn lemma_no_colons(s: Seq<char>, n: int)
    requires
        0 <= n <= s.len(),
        forall|k: int| 0 < k < n ==> !(s[k] == ':' && #[trigger] s[k - 1] == ':'),
    ensures
        past_colons(s, n) == 0,
    decreases n,
{
    if n >= 2 {
        assert(s[n - 1 - 1] == s[n - 2]);
        lemma_no_colons(s, n - 1);
    }
}

proof fn lemma_past_dot(s: Seq<char>, n: int, d: int)
    requires
        1 <= d <= n <= s.len(),
        s[d - 1] == '.',
        forall|k: int| d <= k < n ==> s[k] != '.',
    ensures
        past_dot(s, n) == d,
    decreases n,
{
    if n > d {
        lemma_past_dot(s, n - 1, d);
    }
}

proof fn lemma_no_dots(s: Seq<char>, n: int)
    requires
        0 <= n <= s.len(),
        !s.contains('.'),
    ensures
        past_dot(s, n) == 0,
    decreases n,
{
    if n > 0 {
        assert(s.contains(s[n - 1]));
        lemma_no_dots(s, n - 1);
    }
}

/// `Owner::member` names a member of an owner, and so does `Owner.member` where nothing in the name
/// is written with colons; a name with neither has no owner.
pub proof fn lemma_a_name_is_qualified_by_its_owner(owner: Seq<char>, member: Seq<char>)
    requires
        owner.len() > 0,
        member.len() > 0,
        !member.contains(':'),
    ensures
        qualified(owner + seq![':', ':'] + member) == (member, Some(owner)),
        !member.contains('.') && !owner.contains(':') ==> qualified(owner + seq!['.'] + member) == (
            member,
            Some(owner),
        ),
        !member.contains('.') ==> qualified(member) == (member, None::<Seq<char>>),
{
    let s = owner + seq![':', ':'] + member;
    let c = (owner.len() + 2) as int;
    assert(s[c - 1] == ':' && s[c - 2] == ':');
    assert forall|k: int| c <= k < s.len() implies s[k] != ':' by {
        assert(s[k] == member[k - c]);
        assert(member.contains(member[k - c]));
    }
    lemma_past_colons(s, s.len() as int, c);
    assert(s.skip(c) =~= member);
    assert(s.take(c - 2) =~= owner);
    if !member.contains('.') && !owner.contains(':') {
        let t = owner + seq!['.'] + member;
        let d = (owner.len() + 1) as int;
        assert(t[d - 1] == '.');
        assert forall|k: int| d <= k < t.len() implies t[k] != '.' by {
            assert(t[k] == member[k - d]);
            assert(member.contains(member[k - d]));
        }
        assert forall|k: int| 0 < k < t.len() implies !(t[k] == ':' && #[trigger] t[k - 1] == ':') by {
            if k < owner.len() {
                assert(owner.contains(owner[k]));
                assert(t[k] == owner[k]);
            } else if k >= d {
                assert(t[k] == member[k - d]);
                assert(member.contains(member[k - d]));
            }
        }
        lemma_no_colons(t, t.len() as int);
        lemma_past_dot(t, t.len() as int, d);
        assert(t.skip(d) =~= member);
        assert(t.take(d - 1) =~= owner);
    }
    if !member.contains('.') {
        assert forall|k: int| 0 < k < member.len() implies !(member[k] == ':' && #[trigger] member[k
            - 1] == ':') by {
            assert(member.contains(member[k]));
        }
        lemma_no_colons(member, member.len() as int);
        lemma_no_dots(member, member.len() as int);
    }
}

proof fn lemma_owners_are_named(name: Seq<char>)
    ensures
        qualified(name).1 is Some ==> qualified(name).1->0.len() > 0,
{
    lemma_past_ends(name, name.len() as int);
}

proof fn lemma_past_ends(s: Seq<char>, n: int)
    requires
        0 <= n <= s.len(),
    ensures
        0 <= past_colons(s, n) <= n,
        0 <= past_dot(s, n) <= n,
    decreases n,
{
    if n > 0 {
        lemma_past_ends(s, n - 1);
    }
}

// ───────────────────────────── the rows that a name could mean ─────────────────────────────

/// Whether a row belongs to the owner that a name is written with: any row where there is none, else
/// one that says so of itself.
pub open spec fn belongs(seg: SegmentReader, r: int, owner: Option<Seq<char>>) -> bool {
    owner is Some ==> extra_of(
        seg.rows@[r].extra@,
        seq!['e', 'n', 'c', 'l', 'o', 's', 'i', 'n', 'g', '_', 't', 'y', 'p', 'e'],
    ) == owner
}

impl ColumnarStorage {
    /// Whether a name could mean row `r` of segment `j` of the session: the row has the name and the
    /// owner, and its file is in scope.
    pub open spec fn could_mean_edited(&self, name: Seq<char>, clauses: Clauses, j: int, r: u32) -> bool {
        let ds = self.dirty.added@[j];
        &&& 0 <= j < self.dirty.added@.len()
        &&& r < ds.reader.rows@.len()
        &&& scope_selects(ds.source_path@, clauses)
        &&& ds.reader.rows@[r as int].name@ == qualified(name).0
        &&& belongs(*ds.reader, r as int, qualified(name).1)
    }

    /// Whether a name could mean row `r` of segment `s` of the overlay: the index posts the row for the
    /// name, it has the owner, its file is in scope and its segment is not hidden.
    pub open spec fn could_mean(&self, name: Seq<char>, clauses: Clauses, s: int, r: u32) -> bool {
        let meta = self.index().segments@[s];
        &&& 0 <= s < self.seg_count()
        &&& r < self.seg(s).rows@.len()
        &&& !self.dirty.hides(meta)
        &&& scope_selects(meta.source_path@, clauses)
        &&& self.locals_of(self.index().name_rows(qualified(name).0), s).contains(r)
        &&& belongs(self.seg(s), r as int, qualified(name).1)
    }

    proof fn lemma_candidates(&self, name: Seq<char>, clauses: Clauses)
        ensures
            forall|j: int, r: u32| #[trigger]
                self.could_mean_edited(name, clauses, j, r) ==> self.session_candidate(
                    qualified(name).0,
                    qualified(name).1,
                    clauses,
                    j,
                    r,
                ),
            forall|j: int, r: u32|
                0 <= j < self.dirty.added@.len() && #[trigger] self.session_candidate(
                    qualified(name).0,
                    qualified(name).1,
                    clauses,
                    j,
                    r,
                ) ==> self.could_mean_edited(name, clauses, j, r),
            forall|s: int, r: u32| #[trigger]
                self.could_mean(name, clauses, s, r) ==> self.overlay_candidate(
                    qualified(name).0,
                    qualified(name).1,
                    clauses,
                    s,
                    r,
                ),
            forall|s: int, r: u32|
                0 <= s < self.seg_count() && #[trigger] self.overlay_candidate(
                    qualified(name).0,
                    qualified(name).1,
                    clauses,
                    s,
                    r,
                ) ==> self.could_mean(name, clauses, s, r),
    {
        lemma_owners_are_named(name);
        reveal_strlit("enclosing_type");
        assert("enclosing_type"@ =~= seq![
            'e',
            'n',
            'c',
            'l',
            'o',
            's',
            'i',
            'n',
            'g',
            '_',
            't',
            'y',
            'p',
            'e',
        ]);
    }

    // ───────────────────────────── which one is meant ─────────────────────────────

    /// An edited file answers first, and a preferred kind wins: where a name could mean a row of the
    /// session, it is resolved to one; and where it could mean one of a kind asked for, it is resolved
    /// to one of a kind asked for.
    pub proof fn lemma_an_edited_row_is_resolved(
        &self,
        name: Seq<char>,
        clauses: Clauses,
        kinds: Option<Seq<String>>,
        root: Seq<char>,
        loc: Option<SymbolLocation>,
        j: int,
        r: u32,
    )
        requires
            self.resolved(name, clauses, kinds, root, loc),
            self.could_mean_edited(name, clauses, j, r),
        ensures
            loc is Some,
            kinds is Some && lists_text(
                kinds->0,
                self.dirty.added@[j].reader.rows@[r as int].fql_kind@,
            ) ==> lists_text(kinds->0, loc->0.node_kind@),
            exists|i: int, q: u32|
                0 <= i < self.dirty.added@.len() && q < self.dirty.added@[i].reader.rows@.len()
                    && #[trigger] locates(
                    loc->0,
                    *self.dirty.added@[i].reader,
                    joined(root, self.dirty.added@[i].source_path@),
                    q as int,
                ),
    {
        self.lemma_candidates(name, clauses);
        let (member, owner) = qualified(name);
        assert(self.session_candidate(member, owner, clauses, j, r));
        assert(self.resolved_in_session(member, owner, clauses, kinds, root, loc));
        let (i, q) = choose|i: int, q: u32|
            {
                &&& 0 <= i < self.dirty.added@.len()
                &&& #[trigger] self.session_candidate(member, owner, clauses, i, q)
                &&& locates(
                    loc->0,
                    *self.dirty.added@[i].reader,
                    joined(root, self.dirty.added@[i].source_path@),
                    q as int,
                )
                &&& self.unbeaten_in_session(member, owner, clauses, kinds, root, i, q)
            };
        assert(!outranks(
            self.session_standing(kinds, root, j, r),
            self.session_standing(kinds, root, i, q),
        ));
    }

    /// A preferred kind wins in the overlay too: where no row of the session is meant and a name could
    /// mean a row of the overlay, it is resolved; where it could mean one of a kind asked for, to one
    /// of a kind asked for; and else, where it could mean one of a kind at all, to one of a kind.
    pub proof fn lemma_an_indexed_row_is_resolved(
        &self,
        name: Seq<char>,
        clauses: Clauses,
        kinds: Option<Seq<String>>,
        root: Seq<char>,
        loc: Option<SymbolLocation>,
        s: int,
        r: u32,
    )
        requires
            self.resolved(name, clauses, kinds, root, loc),
            forall|j: int, q: u32| !#[trigger] self.could_mean_edited(name, clauses, j, q),
            self.could_mean(name, clauses, s, r),
        ensures
            loc is Some,
            kinds is Some && lists_text(kinds->0, self.seg(s).rows@[r as int].fql_kind@)
                ==> lists_text(kinds->0, loc->0.node_kind@),
            self.seg(s).rows@[r as int].fql_kind@.len() > 0 ==> loc->0.node_kind@.len() > 0 || (kinds
                is Some && lists_text(kinds->0, loc->0.node_kind@)),
    {
        let (c, q) = self.lemma_resolved_row(name, clauses, kinds, root, loc, s, r);
    }

    proof fn lemma_resolved_row(
        &self,
        name: Seq<char>,
        clauses: Clauses,
        kinds: Option<Seq<String>>,
        root: Seq<char>,
        loc: Option<SymbolLocation>,
        s: int,
        r: u32,
    ) -> (at: (int, u32))
        requires
            self.resolved(name, clauses, kinds, root, loc),
            forall|j: int, q: u32| !#[trigger] self.could_mean_edited(name, clauses, j, q),
            self.could_mean(name, clauses, s, r),
        ensures
            loc is Some,
            0 <= at.0 < self.seg_count(),
            at.1 < self.seg(at.0).rows@.len(),
            self.overlay_candidate(qualified(name).0, qualified(name).1, clauses, at.0, at.1),
            locates(
                loc->0,
                self.seg(at.0),
                joined(root, self.index().segments@[at.0].source_path@),
                at.1 as int,
            ),
            !outranks(
                self.overlay_standing(kinds, s, r),
                self.overlay_standing(kinds, at.0, at.1),
            ),
            self.unbeaten_in_overlay(
                qualified(name).0,
                qualified(name).1,
                clauses,
                kinds,
                at.0,
                at.1,
            ),
    {
        self.lemma_candidates(name, clauses);
        let (member, owner) = qualified(name);
        assert(self.overlay_candidate(member, owner, clauses, s, r));
        if loc is Some && self.resolved_in_session(member, owner, clauses, kinds, root, loc) {
            let (i, q) = choose|i: int, q: u32|
                {
                    &&& 0 <= i < self.dirty.added@.len()
                    &&& #[trigger] self.session_candidate(member, owner, clauses, i, q)
                    &&& locates(
                        loc->0,
                        *self.dirty.added@[i].reader,
                        joined(root, self.dirty.added@[i].source_path@),
                        q as int,
                    )
                    &&& self.unbeaten_in_session(member, owner, clauses, kinds, root, i, q)
                };
            assert(false);
        }
        assert(self.resolved_in_overlay(member, owner, clauses, kinds, root, loc));
        choose|c: int, q: u32|
            {
                &&& 0 <= c < self.seg_count()
                &&& #[trigger] self.overlay_candidate(member, owner, clauses, c, q)
                &&& locates(
                    loc->0,
                    self.seg(c),
                    joined(root, self.index().segments@[c].source_path@),
                    q as int,
                )
                &&& self.unbeaten_in_overlay(member, owner, clauses, kinds, c, q)
            }
    }

    /// The last one wins: of the rows of the kinds asked for, the one resolved to stands on a path that
    /// none of the others comes after, and below the others of its own segment.
    pub proof fn lemma_the_last_preferred_row_wins(
        &self,
        name: Seq<char>,
        clauses: Clauses,
        kinds: Seq<String>,
        root: Seq<char>,
        loc: Option<SymbolLocation>,
        s: int,
        r: u32,
    )
        requires
            self.resolved(name, clauses, Some(kinds), root, loc),
            forall|j: int, q: u32| !#[trigger] self.could_mean_edited(name, clauses, j, q),
            self.could_mean(name, clauses, s, r),
            lists_text(kinds, self.seg(s).rows@[r as int].fql_kind@),
        ensures
            exists|c: int, q: u32|
                0 <= c < self.seg_count() && q < self.seg(c).rows@.len() && #[trigger] locates(
                    loc->0,
                    self.seg(c),
                    joined(root, self.index().segments@[c].source_path@),
                    q as int,
                ) && !path_before(
                    self.index().segments@[c].source_path@,
                    self.index().segments@[s].source_path@,
                ) && (c == s ==> r <= q),
    {
        let (c, q) = self.lemma_resolved_row(name, clauses, Some(kinds), root, loc, s, r);
        let (a, b) = (
            self.index().segments@[c].source_path@,
            self.index().segments@[s].source_path@,
        );
        lemma_path_total(a, b);
        lemma_path_total(a, a);
        assert(locates(loc->0, self.seg(c), joined(root, a), q as int));
    }

    /// A name that could mean no row, of the session or of the overlay, is resolved to nothing; and what
    /// a name is resolved to has the name and stands in scope, where the row says it does.
    pub proof fn lemma_what_is_resolved_could_be_meant(
        &self,
        name: Seq<char>,
        clauses: Clauses,
        kinds: Option<Seq<String>>,
        root: Seq<char>,
        loc: Option<SymbolLocation>,
    )
        requires
            self.resolved(name, clauses, kinds, root, loc),
            loc is Some,
        ensures
            (exists|j: int, r: u32| #[trigger]
                self.could_mean_edited(name, clauses, j, r) && stands_at(
                    loc->0,
                    *self.dirty.added@[j].reader,
                    joined(root, self.dirty.added@[j].source_path@),
                    r as int,
                )) || (exists|s: int, r: u32| #[trigger]
                self.could_mean(name, clauses, s, r) && stands_at(
                    loc->0,
                    self.seg(s),
                    joined(root, self.index().segments@[s].source_path@),
                    r as int,
                )),
    {
        let (member, owner) = qualified(name);
        self.lemma_candidates(name, clauses);
        if self.resolved_in_session(member, owner, clauses, kinds, root, loc) {
            let (j, r) = choose|j: int, r: u32|
                {
                    &&& 0 <= j < self.dirty.added@.len()
                    &&& #[trigger] self.session_candidate(member, owner, clauses, j, r)
                    &&& locates(
                        loc->0,
                        *self.dirty.added@[j].reader,
                        joined(root, self.dirty.added@[j].source_path@),
                        r as int,
                    )
                    &&& self.unbeaten_in_session(member, owner, clauses, kinds, root, j, r)
                };
            assert(self.could_mean_edited(name, clauses, j, r));
        } else {
            let (s, r) = choose|s: int, r: u32|
                {
                    &&& 0 <= s < self.seg_count()
                    &&& #[trigger] self.overlay_candidate(member, owner, clauses, s, r)
                    &&& locates(
                        loc->0,
                        self.seg(s),
                        joined(root, self.index().segments@[s].source_path@),
                        r as int,
                    )
                    &&& self.unbeaten_in_overlay(member, owner, clauses, kinds, s, r)
                };
            assert(self.could_mean(name, clauses, s, r));
        }
    }

    // ───────────────────────────── bodies and types ─────────────────────────────

    /// A body is not refused where there is one: with no row of the session meant, a name that could
    /// mean a function, a method, a constructor or a destructor resolves to a place, and to one of
    /// those kinds unless it is handed on to another name.
    pub proof fn lemma_a_body_is_found(
        &self,
        name: Seq<char>,
        clauses: Clauses,
        kinds: Seq<String>,
        root: Seq<char>,
        found: Option<SymbolLocation>,
        r: Result<Option<SymbolLocation>, NotAFunction>,
        s: int,
        row: u32,
    )
        requires
            forall|k: Seq<char>| #[trigger] lists_text(kinds, k) == body_kind(k),
            self.body_resolved(name, clauses, kinds, root, found, r),
            forall|j: int, q: u32| !#[trigger] self.could_mean_edited(name, clauses, j, q),
            self.could_mean(name, clauses, s, row),
            is_callable(self.seg(s).rows@[row as int].fql_kind@),
        ensures
            r is Ok,
            r->Ok_0 is Some,
            found is Some,
            is_callable(found->0.node_kind@),
    {
        assert(lists_text(kinds, self.seg(s).rows@[row as int].fql_kind@));
        self.lemma_an_indexed_row_is_resolved(
            name,
            clauses,
            Some(kinds),
            root,
            found,
            s,
            row,
        );
        assert(lists_text(kinds, found->0.node_kind@));
    }

    /// The same of a row of the session.
    pub proof fn lemma_an_edited_body_is_found(
        &self,
        name: Seq<char>,
        clauses: Clauses,
        kinds: Seq<String>,
        root: Seq<char>,
        found: Option<SymbolLocation>,
        r: Result<Option<SymbolLocation>, NotAFunction>,
        j: int,
        row: u32,
    )
        requires
            forall|k: Seq<char>| #[trigger] lists_text(kinds, k) == body_kind(k),
            self.body_resolved(name, clauses, kinds, root, found, r),
            self.could_mean_edited(name, clauses, j, row),
            is_callable(self.dirty.added@[j].reader.rows@[row as int].fql_kind@),
        ensures
            r is Ok,
            r->Ok_0 is Some,
            found is Some,
            is_callable(found->0.node_kind@),
    {
        assert(lists_text(kinds, self.dirty.added@[j].reader.rows@[row as int].fql_kind@));
        self.lemma_an_edited_row_is_resolved(
            name,
            clauses,
            Some(kinds),
            root,
            found,
            j,
            row,
        );
        assert(lists_text(kinds, found->0.node_kind@));
    }

    /// A body is refused only of a place that is none of those kinds and does not hand on to another
    /// name; the refusal names the kind that was found.
    pub proof fn lemma_a_refused_body_is_none(
        &self,
        name: Seq<char>,
        clauses: Clauses,
        kinds: Seq<String>,
        root: Seq<char>,
        found: Option<SymbolLocation>,
        r: Result<Option<SymbolLocation>, NotAFunction>,
    )
        requires
            self.body_resolved(name, clauses, kinds, root, found, r),
        ensures
            r is Err <==> found is Some && !is_callable(found->0.node_kind@) && extra_of(
                found->0.enrichment@,
                seq!['b', 'o', 'd', 'y', '_', 's', 'y', 'm', 'b', 'o', 'l'],
            ) is None,
            r is Err ==> r->Err_0.name@ == name && r->Err_0.kind@ == found->0.node_kind@,
            r is Ok && r->Ok_0 is None <==> found is None,
    {
        reveal_strlit("body_symbol");
        assert("body_symbol"@ =~= seq!['b', 'o', 'd', 'y', '_', 's', 'y', 'm', 'b', 'o', 'l']);
    }

    /// A declaration that names where its body stands is handed on: the body is what that name resolves to
    /// without clauses, and the declaration itself where it resolves to nothing.
    pub proof fn lemma_a_declaration_hands_on_to_its_body(
        &self,
        name: Seq<char>,
        clauses: Clauses,
        kinds: Seq<String>,
        root: Seq<char>,
        found: Option<SymbolLocation>,
        r: Result<Option<SymbolLocation>, NotAFunction>,
        target: Seq<char>,
    )
        requires
            self.body_resolved(name, clauses, kinds, root, found, r),
            found is Some,
            extra_of(
                found->0.enrichment@,
                seq!['b', 'o', 'd', 'y', '_', 's', 'y', 'm', 'b', 'o', 'l'],
            ) == Some(target),
        ensures
            r is Ok,
            exists|bare: Clauses, there: Option<SymbolLocation>|
                bare.in_glob is None && bare.exclude_globs@.len() == 0 && #[trigger] self.resolved(
                    target,
                    bare,
                    Some(kinds),
                    root,
                    there,
                ) && (there is Some ==> r->Ok_0 == there) && (there is None ==> r->Ok_0 == found),
    {
        reveal_strlit("body_symbol");
        assert("body_symbol"@ =~= seq!['b', 'o', 'd', 'y', '_', 's', 'y', 'm', 'b', 'o', 'l']);
    }

    /// A type is found where there is one: with no row of the session meant, a name that could mean a
    /// type resolves to a type.
    pub proof fn lemma_a_type_is_found(
        &self,
        name: Seq<char>,
        clauses: Clauses,
        kinds: Seq<String>,
        root: Seq<char>,
        loc: Option<SymbolLocation>,
        s: int,
        row: u32,
    )
        requires
            forall|k: Seq<char>| #[trigger] lists_text(kinds, k) == type_kind(k),
            self.resolved(name, clauses, Some(kinds), root, loc),
            forall|j: int, q: u32| !#[trigger] self.could_mean_edited(name, clauses, j, q),
            self.could_mean(name, clauses, s, row),
            is_type(self.seg(s).rows@[row as int].fql_kind@),
        ensures
            loc is Some,
            is_type(loc->0.node_kind@),
    {
        assert(lists_text(kinds, self.seg(s).rows@[row as int].fql_kind@));
        self.lemma_an_indexed_row_is_resolved(name, clauses, Some(kinds), root, loc, s, row);
        assert(lists_text(kinds, loc->0.node_kind@));
    }
}

/// Whether a kind is that of something with a body.
pub open spec fn is_callable(kind: Seq<char>) -> bool {
    kind == "function"@ || kind == "method"@ || kind == "constructor"@ || kind == "destructor"@
}

/// Whether a kind is that of a type.
pub open spec fn is_type(kind: Seq<char>) -> bool {
    kind == "class"@ || kind == "struct"@ || kind == "enum"@ || kind == "union"@ || kind
        == "type_alias"@ || kind == "trait"@ || kind == "interface"@
}

/// Whether a location says where row `r` stands: its file, its line and its bytes, with its kind.
pub open spec fn stands_at(loc: SymbolLocation, seg: SegmentReader, path: Seq<char>, r: int) -> bool {
    &&& loc.path@ == path
    &&& loc.line == seg.rows@[r].line
    &&& loc.byte_start == seg.rows@[r].byte_start
    &&& loc.byte_end == seg.rows@[r].byte_end
    &&& loc.node_kind@ == seg.rows@[r].fql_kind@
    &&& loc.ordinal == seg.rows@[r].ordinal
}

impl ColumnarStorage {
    /// The last one wins among edited files too: of the rows of the kinds asked for, the one resolved to
    /// stands on a path that none of the others comes after.
    pub proof fn lemma_the_last_preferred_edited_row_wins(
        &self,
        name: Seq<char>,
        clauses: Clauses,
        kinds: Seq<String>,
        root: Seq<char>,
        loc: Option<SymbolLocation>,
        j: int,
        r: u32,
    )
        requires
            self.resolved(name, clauses, Some(kinds), root, loc),
            self.could_mean_edited(name, clauses, j, r),
            lists_text(kinds, self.dirty.added@[j].reader.rows@[r as int].fql_kind@),
        ensures
            exists|i: int, q: u32|
                0 <= i < self.dirty.added@.len() && q < self.dirty.added@[i].reader.rows@.len()
                    && #[trigger] locates(
                    loc->0,
                    *self.dirty.added@[i].reader,
                    joined(root, self.dirty.added@[i].source_path@),
                    q as int,
                ) && !path_before(
                    joined(root, self.dirty.added@[i].source_path@),
                    joined(root, self.dirty.added@[j].source_path@),
                ) && (i == j ==> r <= q),
    {
        self.lemma_candidates(name, clauses);
        let (member, owner) = qualified(name);
        assert(self.session_candidate(member, owner, clauses, j, r));
        assert(self.resolved_in_session(member, owner, clauses, Some(kinds), root, loc));
        let (i, q) = choose|i: int, q: u32|
            {
                &&& 0 <= i < self.dirty.added@.len()
                &&& #[trigger] self.session_candidate(member, owner, clauses, i, q)
                &&& locates(
                    loc->0,
                    *self.dirty.added@[i].reader,
                    joined(root, self.dirty.added@[i].source_path@),
                    q as int,
                )
                &&& self.unbeaten_in_session(member, owner, clauses, Some(kinds), root, i, q)
            };
        assert(!outranks(
            self.session_standing(Some(kinds), root, j, r),
            self.session_standing(Some(kinds), root, i, q),
        ));
        let (a, b) = (
            joined(root, self.dirty.added@[i].source_path@),
            joined(root, self.dirty.added@[j].source_path@),
        );
        lemma_path_total(a, b);
        lemma_path_total(a, a);
        assert(locates(loc->0, *self.dirty.added@[i].reader, a, q as int));
    }
}

} // verus!
