//! What looking up nodes promises: by line, by byte, in an outline, and among the rows that are
//! numbered again.

use crate::columnar_storage::node_find::{covers_byte, is_smallest_at, row_on_line};
use crate::columnar_storage::node_lookup::{
    are_newlines, end_line_in, lemma_end_lines_agree, names_line, HandleSource,
};
use crate::columnar_storage::outline::{outline_items, outlines, OutlineEntry};
use crate::columnar_storage::reindex::{are_hints, numbered, OrdinalHint};
use crate::columnar_storage::streams::NamedHit;
use crate::columnar_storage::ColumnarStorage;
use crate::filter::first;
use crate::order::{lemma_text_total, text_before};
use crate::segment::SegmentReader;
use crate::top_k::{lemma_ordered, ordered, placed, weak_order};
use crate::columnar_storage::node_lookup::NodeSite;
use crate::columnar_storage::outline::OutlineSource;
use crate::path_parts::same_path;
use crate::paths::glob_selects;
use vstd::prelude::*;
use vstd::string::*;

verus! {

// ───────────────────────────── lines and bytes ─────────────────────────────

/// The last line of a node in a file: that of its last byte that is no line break, or its first line
/// where its end is not known.
pub open spec fn ends_on(seg: SegmentReader, r: int, file: Seq<u8>) -> nat {
    if seg.rows@[r].byte_end == 0 {
        seg.rows@[r].line as nat
    } else {
        end_line_in(file, seg.rows@[r].byte_end as nat)
    }
}

/// Whether a node stands on a line of a file.
pub open spec fn stands_on(seg: SegmentReader, r: int, file: Seq<u8>, line: int) -> bool {
    &&& 0 <= r < seg.rows@.len()
    &&& seg.rows@[r].ordinal is Some
    &&& 1 <= seg.rows@[r].line <= line <= ends_on(seg, r, file)
}

/// A line is named by the node that stands on it and on the fewest lines; a line on which none stands is
/// not named.
pub proof fn lemma_a_line_is_named_by_its_innermost_node(
    out: Option<(String, usize)>,
    seg: SegmentReader,
    handles: HandleSource,
    newlines: Seq<usize>,
    file: Seq<u8>,
    line: int,
)
    requires
        are_newlines(newlines, file, file.len() as int),
        file.len() <= usize::MAX,
        forall|r: int| 0 <= r < seg.rows@.len() ==> (#[trigger] seg.rows@[r]).byte_end <= file.len(),
        names_line(out, seg, handles, newlines, line),
    ensures
        out is None <==> forall|q: int| !#[trigger] stands_on(seg, q, file, line),
        out is Some ==> exists|r: int| #[trigger]
            stands_on(seg, r, file, line) && ((out->0).0@, (out->0).1 as int)
                == crate::columnar_storage::node_lookup::surfaced(
                seg,
                r,
                handles.text(seg.rows@[r].ordinal->0 as nat),
            ) && forall|q: int| #[trigger]
                stands_on(seg, q, file, line) ==> ends_on(seg, r, file) - seg.rows@[r].line
                    <= ends_on(seg, q, file) - seg.rows@[q].line,
{
    assert forall|q: int| 0 <= q < seg.rows@.len() implies ends_on(seg, q, file)
        == crate::columnar_storage::node_lookup::row_end_line(seg, q, newlines)
        && #[trigger] stands_on(seg, q, file, line)
        == crate::columnar_storage::node_lookup::covers_line(seg, q, newlines, line) by {
        lemma_end_lines_agree(newlines, file, seg.rows@[q].byte_end as nat);
    }
    match out {
        Some(s) => {
            let r = choose|r: int| #[trigger]
                crate::columnar_storage::node_lookup::is_innermost(
                    seg,
                    newlines,
                    line,
                    seg.rows@.len() as int,
                    r,
                ) && (s.0@, s.1 as int) == crate::columnar_storage::node_lookup::surfaced(
                    seg,
                    r,
                    handles.text(seg.rows@[r].ordinal->0 as nat),
                );
            assert(stands_on(seg, r, file, line));
            assert forall|q: int| #[trigger] stands_on(seg, q, file, line) implies ends_on(
                seg,
                r,
                file,
            ) - seg.rows@[r].line <= ends_on(seg, q, file) - seg.rows@[q].line by {
                assert(crate::columnar_storage::node_lookup::covers_line(seg, q, newlines, line));
            }
        },
        None => {},
    }
}

proof fn lemma_row_on_line(seg: SegmentReader, line: int, i: int)
    requires
        0 <= i <= seg.rows@.len(),
    ensures
        ({
            let r = row_on_line(seg, line, i);
            &&& i <= r <= seg.rows@.len()
            &&& r < seg.rows@.len() ==> seg.rows@[r].line == line
            &&& forall|k: int| i <= k < r ==> (#[trigger] seg.rows@[k]).line != line
        }),
    decreases seg.rows@.len() - i,
{
    if i < seg.rows@.len() && seg.rows@[i].line != line {
        lemma_row_on_line(seg, line, i + 1);
    }
}

impl ColumnarStorage {
    /// The handle at a line is that of the first row of the file that starts on it: of the session's
    /// version where there is one, else of the overlay's.
    pub proof fn lemma_the_handle_at_a_line_is_of_its_first_row(
        &self,
        path: Seq<char>,
        line: int,
        j: int,
        r: int,
    )
        requires
            0 <= j < self.dirty.added@.len(),
            self.dirty.added@[j].source_path@ == path,
            forall|k: int| 0 <= k < j ==> (#[trigger] self.dirty.added@[k]).source_path@ != path,
            0 <= r < self.dirty.added@[j].reader.rows@.len(),
            self.dirty.added@[j].reader.rows@[r].line == line,
            forall|k: int|
                0 <= k < r ==> (#[trigger] self.dirty.added@[j].reader.rows@[k]).line != line,
        ensures
            self.id_at_line(path, line) == (match self.dirty.added@[j].reader.rows@[r].ordinal {
                Some(o) => Some(crate::node_id::path_node_id(path, o as nat)),
                None => None,
            }),
    {
        self.lemma_spelled(path, 0, j);
        let seg = &*self.dirty.added@[j].reader;
        lemma_row_on_line(*seg, line, 0);
        let at = row_on_line(*seg, line, 0);
        if at < r {
            assert(seg.rows@[at].line != line);
        }
    }

    proof fn lemma_spelled(&self, path: Seq<char>, i: int, j: int)
        requires
            0 <= i <= j < self.dirty.added@.len(),
            self.dirty.added@[j].source_path@ == path,
            forall|k: int| i <= k < j ==> (#[trigger] self.dirty.added@[k]).source_path@ != path,
        ensures
            self.dirty.spelled_at(path, i) == j,
        decreases j - i,
    {
        if i < j {
            self.lemma_spelled(path, i + 1, j);
        }
    }

    /// The handle at a byte is that of the numbered row with the fewest bytes that holds it; where no such
    /// row holds it there is none.
    pub proof fn lemma_the_handle_at_a_byte_is_of_the_smallest_row(
        &self,
        seg: SegmentReader,
        handles: HandleSource,
        byte: int,
        found: Option<Seq<char>>,
    )
        requires
            self.names_byte(seg, handles, byte, found),
        ensures
            found is None <==> forall|q: int| !#[trigger] holds_byte(seg, q, byte),
            found is Some ==> exists|r: int| #[trigger]
                holds_byte(seg, r, byte) && found->0 == handles.text(
                    seg.rows@[r].ordinal->0 as nat,
                ) && forall|q: int| #[trigger]
                    holds_byte(seg, q, byte) ==> seg.rows@[r].byte_end - seg.rows@[r].byte_start
                        <= seg.rows@[q].byte_end - seg.rows@[q].byte_start,
    {
        assert forall|q: int| 0 <= q < seg.rows@.len() implies #[trigger] holds_byte(seg, q, byte)
            == covers_byte(seg, q, byte) by {}
        match found {
            Some(id) => {
                let r = choose|r: int| #[trigger]
                    is_smallest_at(seg, byte, seg.rows@.len() as int, r) && id == handles.text(
                        seg.rows@[r].ordinal->0 as nat,
                    );
                assert(holds_byte(seg, r, byte));
                assert forall|q: int| #[trigger] holds_byte(seg, q, byte) implies seg.rows@[r].byte_end
                    - seg.rows@[r].byte_start <= seg.rows@[q].byte_end - seg.rows@[q].byte_start by {
                    assert(covers_byte(seg, q, byte));
                }
            },
            None => {},
        }
    }
}

/// Whether a numbered row holds a byte of its file.
pub open spec fn holds_byte(seg: SegmentReader, r: int, byte: int) -> bool {
    &&& 0 <= r < seg.rows@.len()
    &&& seg.rows@[r].ordinal is Some
    &&& seg.rows@[r].byte_start <= byte < seg.rows@[r].byte_end
}

// ───────────────────────────── outlines ─────────────────────────────

/// An entry of an outline says of its row what it is and where it stands, and gives the handle under which
/// the node is found; a row without a kind is shown as of an unknown one.
pub proof fn lemma_an_outline_entry_tells_its_row(
    entries: Seq<OutlineEntry>,
    seg: SegmentReader,
    path: Seq<char>,
    handles: HandleSource,
    all: bool,
    root: Option<u32>,
    i: int,
)
    requires
        outlines(entries, seg, path, handles, all, root),
        0 <= i < entries.len(),
    ensures
        ({
            let item = outline_items(seg, all, root)[i];
            let row = seg.rows@[item.row];
            &&& entries.len() == outline_items(seg, all, root).len()
            &&& entries[i].name@ == row.name@
            &&& entries[i].path@ == path
            &&& entries[i].line == row.line
            &&& entries[i].depth == item.depth
            &&& row.fql_kind@.len() > 0 ==> entries[i].fql_kind@ == row.fql_kind@
            &&& row.fql_kind@.len() == 0 ==> entries[i].fql_kind@ == seq![
                'u',
                'n',
                'k',
                'n',
                'o',
                'w',
                'n',
            ]
            &&& row.ordinal is None <==> entries[i].node_id is None
            &&& row.ordinal is Some ==> entries[i].node_id->0@ == handles.text(
                row.ordinal->0 as nat,
            )
        }),
{
    reveal_strlit("unknown");
    assert("unknown"@ =~= seq!['u', 'n', 'k', 'n', 'o', 'w', 'n']);
    assert(crate::columnar_storage::outline::is_outline_entry(
        entries[i],
        seg,
        path,
        handles,
        outline_items(seg, all, root)[i],
    ));
}

// ───────────────────────────── numbers that stay ─────────────────────────────

proof fn lemma_numbered(seg: SegmentReader, n: int, r: int)
    requires
        0 <= n <= seg.rows@.len(),
    ensures
        numbered(seg, n).contains(r) <==> 0 <= r < n && seg.rows@[r].ordinal is Some,
    decreases n,
{
    if n > 0 {
        lemma_numbered(seg, n - 1, r);
        let all = numbered(seg, n);
        let rest = numbered(seg, n - 1);
        if rest.contains(r) {
            let k = choose|k: int| 0 <= k < rest.len() && rest[k] == r;
            assert(all[k] == r);
        }
        if all.contains(r) {
            let k = choose|k: int| 0 <= k < all.len() && all[k] == r;
            if k < rest.len() {
                assert(rest[k] == r);
            }
        }
        if r == n - 1 && seg.rows@[r].ordinal is Some {
            assert(all[rest.len() as int] == r);
        }
    } else {
        assert(numbered(seg, n).len() == 0);
    }
}

/// Every numbered row of a file's last version is told to whoever numbers the next: with its number, its
/// name, its kind and the number above it.
pub proof fn lemma_every_numbered_row_is_a_hint(hints: Seq<OrdinalHint>, seg: SegmentReader, r: int)
    requires
        are_hints(hints, seg),
        0 <= r < seg.rows@.len(),
        seg.rows@[r].ordinal is Some,
    ensures
        exists|i: int|
            0 <= i < hints.len() && (#[trigger] hints[i]).ordinal == seg.rows@[r].ordinal->0
                && hints[i].name@ == seg.rows@[r].name@ && hints[i].fql_kind@
                == seg.rows@[r].fql_kind@ && hints[i].parent_ordinal == seg.rows@[r].parent_ordinal,
{
    let rows = numbered(seg, seg.rows@.len() as int);
    lemma_numbered(seg, seg.rows@.len() as int, r);
    let i = choose|i: int| 0 <= i < rows.len() && rows[i] == r;
    assert(crate::columnar_storage::reindex::is_hint(hints[i], seg, rows[i]));
}

// ───────────────────────────── descending streams ─────────────────────────────

proof fn lemma_placed_holds<T>(s: Seq<T>, x: T, before: spec_fn(T, T) -> bool, y: T)
    requires
        s.contains(y) || y == x,
    ensures
        placed(s, x, before).contains(y),
    decreases s.len(),
{
    let all = placed(s, x, before);
    if s.len() == 0 {
        assert(all[0] == x);
    } else if before(x, s.last()) {
        let init = s.drop_last();
        let part = placed(init, x, before);
        if y == x {
            lemma_placed_holds(init, x, before, y);
            let k = choose|k: int| 0 <= k < part.len() && part[k] == y;
            assert(all[k] == y);
        } else {
            let k = choose|k: int| 0 <= k < s.len() && s[k] == y;
            if k < init.len() {
                assert(init[k] == y);
                lemma_placed_holds(init, x, before, y);
                let m = choose|m: int| 0 <= m < part.len() && part[m] == y;
                assert(all[m] == y);
            } else {
                assert(all[part.len() as int] == y);
            }
        }
    } else {
        if y == x {
            assert(all[s.len() as int] == y);
        } else {
            let k = choose|k: int| 0 <= k < s.len() && s[k] == y;
            assert(all[k] == y);
        }
    }
}

pub(crate) proof fn lemma_ordered_holds<T>(s: Seq<T>, before: spec_fn(T, T) -> bool, y: T)
    requires
        s.contains(y),
    ensures
        ordered(s, before).contains(y),
    decreases s.len(),
{
    let k = choose|k: int| 0 <= k < s.len() && s[k] == y;
    let init = s.drop_last();
    if k < init.len() {
        assert(init[k] == y);
        lemma_ordered_holds(init, before, y);
    }
    lemma_placed_holds(ordered(init, before), s.last(), before, y);
}

impl ColumnarStorage {
    /// A stream in descending order of names leaves out only what comes later: where it leaves out a row,
    /// it has as many rows as it needs, and none of their names comes before the row's.
    pub proof fn lemma_descending_stream_leaves_out_earlier_names(
        &self,
        all: Seq<NamedHit>,
        need: nat,
        left_out: NamedHit,
        i: int,
    )
        requires
            weak_order(self.name_desc()),
            all.contains(left_out),
            !first(ordered(all, self.name_desc()), need).contains(left_out),
            0 <= i < first(ordered(all, self.name_desc()), need).len(),
        ensures
            first(ordered(all, self.name_desc()), need).len() == need,
            !text_before(
                first(ordered(all, self.name_desc()), need)[i].name,
                left_out.name,
            ),
    {
        let before = self.name_desc();
        let whole = ordered(all, before);
        let kept = first(whole, need);
        lemma_ordered(all, before);
        lemma_ordered_holds(all, before, left_out);
        let p = choose|p: int| 0 <= p < whole.len() && whole[p] == left_out;
        if p < kept.len() {
            assert(kept[p] == left_out);
        }
        assert(kept[i] == whole[i]);
        assert(!before(whole[p], whole[i]));
        lemma_text_total(whole[i].name, left_out.name);
    }
}

// ───────────────────────────── globs of outlines ─────────────────────────────

impl ColumnarStorage {
    proof fn lemma_committed(&self, glob: Seq<char>, n: int, i: int)
        requires
            0 <= n <= self.index().segments@.len(),
        ensures
            self.committed_sources(glob, n).contains(OutlineSource::Committed(i)) <==> 0 <= i < n
                && glob_selects(self.index().segments@[i].source_path@, glob) && !self.edited(
                self.index().segments@[i].source_path@,
            ),
        decreases n,
    {
        let it = OutlineSource::Committed(i);
        if n > 0 {
            self.lemma_committed(glob, n - 1, i);
            let all = self.committed_sources(glob, n);
            let rest = self.committed_sources(glob, n - 1);
            if rest.contains(it) {
                let k = choose|k: int| 0 <= k < rest.len() && rest[k] == it;
                assert(all[k] == it);
            }
            if all.contains(it) {
                let k = choose|k: int| 0 <= k < all.len() && all[k] == it;
                if k < rest.len() {
                    assert(rest[k] == it);
                }
            }
            if all.len() > rest.len() {
                assert(all[rest.len() as int] == OutlineSource::Committed(n - 1));
            }
        } else {
            assert(self.committed_sources(glob, n).len() == 0);
        }
    }

    proof fn lemma_session(&self, glob: Seq<char>, n: int, j: int)
        requires
            0 <= n <= self.dirty.added@.len(),
        ensures
            self.session_sources(glob, n).contains(OutlineSource::Session(j)) <==> 0 <= j < n
                && glob_selects(self.dirty.added@[j].source_path@, glob),
        decreases n,
    {
        let it = OutlineSource::Session(j);
        if n > 0 {
            self.lemma_session(glob, n - 1, j);
            let all = self.session_sources(glob, n);
            let rest = self.session_sources(glob, n - 1);
            if rest.contains(it) {
                let k = choose|k: int| 0 <= k < rest.len() && rest[k] == it;
                assert(all[k] == it);
            }
            if all.contains(it) {
                let k = choose|k: int| 0 <= k < all.len() && all[k] == it;
                if k < rest.len() {
                    assert(rest[k] == it);
                }
            }
            if all.len() > rest.len() {
                assert(all[rest.len() as int] == OutlineSource::Session(n - 1));
            }
        } else {
            assert(self.session_sources(glob, n).len() == 0);
        }
    }

    /// An outline of a glob is that of every file it selects: from the overlay where the session has not
    /// edited the file, and from the session where it has.
    pub proof fn lemma_an_outline_covers_every_file_selected(&self, glob: Seq<char>, i: int, j: int)
        requires
            0 <= i < self.index().segments@.len(),
            self.seg_count() == self.index().segments@.len(),
        ensures
            glob_selects(self.index().segments@[i].source_path@, glob) && (forall|k: int|
                0 <= k < self.dirty.added@.len() ==> !same_path(
                    (#[trigger] self.dirty.added@[k]).source_path@,
                    self.index().segments@[i].source_path@,
                )) ==> self.glob_sources(glob).contains(OutlineSource::Committed(i)),
            0 <= j < self.dirty.added@.len() && glob_selects(
                self.dirty.added@[j].source_path@,
                glob,
            ) ==> self.glob_sources(glob).contains(OutlineSource::Session(j)),
    {
        let a = self.committed_sources(glob, self.seg_count() as int);
        let b = self.session_sources(glob, self.dirty.added@.len() as int);
        let all = self.glob_sources(glob);
        self.lemma_committed(glob, self.seg_count() as int, i);
        if a.contains(OutlineSource::Committed(i)) {
            let k = choose|k: int| 0 <= k < a.len() && a[k] == OutlineSource::Committed(i);
            assert(all[k] == OutlineSource::Committed(i));
        }
        if 0 <= j < self.dirty.added@.len() {
            self.lemma_session(glob, self.dirty.added@.len() as int, j);
            if b.contains(OutlineSource::Session(j)) {
                let k = choose|k: int| 0 <= k < b.len() && b[k] == OutlineSource::Session(j);
                assert(all[a.len() + k] == OutlineSource::Session(j));
            }
        }
    }

    // ───────────────────────────── moved nodes ─────────────────────────────

    /// A node of an edited file is followed to where it stands now: to a row of the session's version with
    /// its name and kind, and to none that is farther from where it stood than another.
    pub proof fn lemma_a_moved_node_is_followed(
        &self,
        id: Seq<char>,
        o: u32,
        s: int,
        row: int,
        r: Option<NodeSite>,
        j: int,
        q: int,
    )
        requires
            self.found_committed(id, o, s, row, r),
            self.dirty.position_of(self.index().segments@[s].source_path@, 0) == j,
            0 <= j < self.dirty.added@.len(),
            0 <= q < self.dirty.added@[j].reader.rows@.len(),
            self.dirty.added@[j].reader.rows@[q].name@ == self.seg(s).rows@[row].name@,
            self.dirty.added@[j].reader.rows@[q].fql_kind@ == self.seg(s).rows@[row].fql_kind@,
        ensures
            r is Some,
            r->0.node_id@ == id,
            r->0.name@ == self.seg(s).rows@[row].name@,
            r->0.fql_kind@ == self.seg(s).rows@[row].fql_kind@,
            r->0.rel_path@ == self.index().segments@[s].source_path@,
            exists|p: int|
                0 <= p < self.dirty.added@[j].reader.rows@.len() && r->0.line == (
                #[trigger] self.dirty.added@[j].reader.rows@[p]).line && r->0.byte_end
                    == self.dirty.added@[j].reader.rows@[p].byte_end && apart(
                    self.dirty.added@[j].reader.rows@[p].line,
                    self.seg(s).rows@[row].line,
                ) <= apart(
                    self.dirty.added@[j].reader.rows@[q].line,
                    self.seg(s).rows@[row].line,
                ),
    {
        let live = &*self.dirty.added@[j].reader;
        let was = &self.seg(s).rows@[row];
        assert(crate::columnar_storage::node_lookup::is_named(*live, was.name@, was.fql_kind@, q));
        let p = choose|p: int| #[trigger]
            crate::columnar_storage::node_lookup::is_closest(
                *live,
                was.name@,
                was.fql_kind@,
                was.line,
                p,
            ) && crate::columnar_storage::node_lookup::is_site(
                r->0,
                id,
                self.index().segments@[s].source_path@,
                *live,
                p,
                self.seg(s),
                row,
                HandleSource::OfSegment(self.index().segments@[s]),
            );
        assert(live.rows@[p].line == r->0.line);
    }

    /// A file is numbered by its last version: the session's where it holds one, else the overlay's.
    pub proof fn lemma_the_last_version_is_the_sessions(&self, path: Seq<char>, j: int)
        ensures
            0 <= j < self.dirty.added@.len() && self.dirty.position_of(path, 0) == j
                ==> self.last_version(path) == Some(*self.dirty.added@[j].reader),
            self.dirty.position_of(path, 0) >= self.dirty.added@.len() && self.seg_position(path, 0)
                < self.index().segments@.len() ==> self.last_version(path) == Some(
                self.seg(self.seg_position(path, 0)),
            ),
    {
    }
}

/// How many lines two lines are apart.
pub open spec fn apart(a: u32, b: u32) -> nat {
    if a < b {
        (b - a) as nat
    } else {
        (a - b) as nat
    }
}

} // verus!
