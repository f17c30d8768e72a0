//! One source file's rows, and the two ways of reading them: as views of the stored columns and
//! as built result rows.

use crate::clauses::{Clauses, CompareOp, Predicate, PredicateValue};
use crate::fields::{
    canonical, canonical_text, late_field, posting_field, view_cannot_answer,
    written_after_materialisation,
};
use crate::filter::{
    bool_text, opt_number, opt_text, row_satisfies, satisfies_all, ClauseTarget,
};
use crate::node_id::{make_node_id, path_node_id};
use crate::rows::{copy_rows, rows_ascending, rows_in_both, rows_of};
use crate::text::{parse_i64, same_text, signed_of};
use roaring::RoaringBitmap;
use vstd::prelude::*;
use vstd::string::*;

verus! {

/// The ordinal that stands for no node.
pub const NO_ORDINAL: u32 = 0xffff_ffff;

/// One row of a segment.
pub struct SegmentRow {
    pub name: String,
    pub fql_kind: String,
    pub language: String,
    /// 1-based source line; nought where it is not known.
    pub line: u32,
    pub byte_start: u32,
    /// One past the last byte; nought where it is not known.
    pub byte_end: u32,
    /// A stored column that nothing fills: the workspace count is stamped onto built rows.
    pub usages_count: u32,
    /// The node's number inside its file; analysis-only rows have none.
    pub ordinal: Option<u32>,
    pub parent_ordinal: u32,
    pub first_child_ordinal: u32,
    pub next_sibling_ordinal: u32,
    pub prev_sibling_ordinal: u32,
    /// Fingerprint of the node's text.
    pub rev: u64,
    /// The enrichment values that are set on this row, by field.
    pub extra: Vec<(String, String)>,
}

/// The range of values that a 32-bit column holds in a segment.
pub struct ZoneMap {
    pub column: String,
    pub min: u32,
    pub max: u32,
}

/// The short-prefix index of a segment's names.
pub enum NamePrefixIndex {
    /// The segment stores none.
    Missing,
    /// It stores one that cannot be decoded.
    Unreadable,
    /// Each lower-cased prefix of one or two characters, with its rows.
    Entries(Vec<(Vec<u8>, Vec<u32>)>),
}

/// The rows of one source file.
pub struct SegmentReader {
    /// The content id of the file the rows were read from.
    pub content_id: Vec<u8>,
    pub rows: Vec<SegmentRow>,
    /// The enrichment columns.
    pub columns: Vec<String>,
    /// The columns whose rows are posted per value.
    pub posted: Vec<String>,
    pub zone_maps: Vec<ZoneMap>,
    pub name_prefix: NamePrefixIndex,
    /// Where each name is used: the name and the line.
    pub usages: Vec<(String, u32)>,
    /// Where each word is mentioned: the word, the role it was written in, and the line.
    pub mentions: Vec<(String, String, u32)>,
}

/// The value that a list of pairs gives a field, from pair `i` on.
pub open spec fn extra_from(extra: Seq<(String, String)>, field: Seq<char>, i: int) -> Option<
    Seq<char>,
>
    decreases extra.len() - i,
{
    if i < 0 || i >= extra.len() {
        None
    } else if extra[i].0@ == field {
        Some(extra[i].1@)
    } else {
        extra_from(extra, field, i + 1)
    }
}

/// The value that a list of pairs gives a field.
pub open spec fn extra_of(extra: Seq<(String, String)>, field: Seq<char>) -> Option<Seq<char>> {
    extra_from(extra, field, 0)
}

/// The value that a list of pairs gives a field.
pub fn find_extra<'a>(extra: &'a Vec<(String, String)>, field: &str) -> (r: Option<&'a str>)
    ensures
        opt_text(r) == extra_of(extra@, field@),
{
    let mut i: usize = 0;
    while i < extra.len()
        invariant
            i <= extra@.len(),
            extra_of(extra@, field@) == extra_from(extra@, field@, i as int),
        decreases extra.len() - i,
    {
        if same_text(extra[i].0.as_str(), field) {
            return Some(extra[i].1.as_str());
        }
        i += 1;
    }
    None
}

/// The number that a text writes, where it writes one.
pub open spec fn number_in(text: Option<Seq<char>>) -> Option<int> {
    match text {
        Some(t) => signed_of(t),
        None => None,
    }
}

fn parse_opt(text: Option<&str>) -> (r: Option<i64>)
    ensures
        opt_number(r) == number_in(opt_text(text)),
{
    match text {
        Some(t) => parse_i64(t),
        None => None,
    }
}

/// Whether a list of texts holds one.
pub open spec fn lists_text(v: Seq<String>, t: Seq<char>) -> bool {
    exists|i: int| 0 <= i < v.len() && (#[trigger] v[i])@ == t
}

/// Whether a list of texts holds one.
pub fn contains_text(v: &Vec<String>, t: &str) -> (r: bool)
    ensures
        r == lists_text(v@, t@),
{
    let mut i: usize = 0;
    while i < v.len()
        invariant
            i <= v@.len(),
            forall|k: int| 0 <= k < i ==> (#[trigger] v@[k])@ != t@,
        decreases v.len() - i,
    {
        if same_text(v[i].as_str(), t) {
            return true;
        }
        i += 1;
    }
    false
}

impl SegmentReader {
    /// A row number fits in 32 bits, only posting fields are posted, and every value set on a
    /// row has a column.
    pub open spec fn wf(&self) -> bool {
        &&& self.rows@.len() <= u32::MAX
        &&& forall|f: Seq<char>| #[trigger] self.posts(f) ==> posting_field(f)
        &&& forall|r: int, k: int|
            #![trigger self.rows@[r].extra@[k]]
            0 <= r < self.rows@.len() && 0 <= k < self.rows@[r].extra@.len() ==> lists_text(
                self.columns@,
                self.rows@[r].extra@[k].0@,
            )
    }

    /// The value of a 32-bit column on row `r`, where the column keeps a range.
    pub open spec fn zone_value(&self, column: Seq<char>, r: int) -> Option<u32> {
        if column == "line"@ {
            Some(self.rows@[r].line)
        } else if column == "usages_count"@ {
            Some(self.rows@[r].usages_count)
        } else {
            None
        }
    }

    /// Whether every stored range holds every value of its column.
    pub open spec fn zones_hold(&self) -> bool {
        forall|z: int, r: int|
            #![trigger self.zone_maps@[z], self.rows@[r]]
            0 <= z < self.zone_maps@.len() && 0 <= r < self.rows@.len() ==> (match self.zone_value(
                self.zone_maps@[z].column@,
                r,
            ) {
                Some(v) => self.zone_maps@[z].min <= v <= self.zone_maps@[z].max,
                None => true,
            })
    }

    /// The number of rows.
    pub fn row_count(&self) -> (n: u32)
        requires
            self.wf(),
        ensures
            n == self.rows@.len(),
    {
        self.rows.len() as u32
    }

    /// Whether the segment stores an enrichment column.
    pub open spec fn stores(&self, field: Seq<char>) -> bool {
        lists_text(self.columns@, field)
    }

    /// Whether the segment stores an enrichment column.
    pub fn has_extra_col(&self, field: &str) -> (r: bool)
        ensures
            r == self.stores(field@),
    {
        contains_text(&self.columns, field)
    }

    /// Whether the segment posts the rows of each value of a column.
    pub open spec fn posts(&self, field: Seq<char>) -> bool {
        lists_text(self.posted@, field)
    }

    /// Whether the segment posts the rows of each value of a column.
    pub fn posts_field(&self, field: &str) -> (r: bool)
        ensures
            r == self.posts(field@),
    {
        contains_text(&self.posted, field)
    }

    /// The value of an enrichment column on row `r`, where it is set.
    pub open spec fn extra(&self, field: Seq<char>, r: int) -> Option<Seq<char>> {
        extra_of(self.rows@[r].extra@, field)
    }

    /// The value of an enrichment column on row `r`, where it is set.
    pub fn extra_field_str(&self, field: &str, r: u32) -> (v: Option<&str>)
        requires
            r < self.rows@.len(),
        ensures
            opt_text(v) == self.extra(field@, r as int),
    {
        find_extra(&self.rows[r as usize].extra, field)
    }

    /// The content id as lowercase hexadecimal.
    pub fn content_id_hex(&self) -> (s: String)
        ensures
            s@ == crate::text::hex_of(self.content_id@),
    {
        crate::text::bytes_to_hex(self.content_id.as_slice())
    }

    /// The rows named `name`, ascending.
    pub open spec fn rows_named(&self, name: Seq<char>) -> Set<u32> {
        Set::new(|r: u32| r < self.rows@.len() && self.rows@[r as int].name@ == name)
    }

    /// The rows named `name`, ascending.
    pub fn lookup_name(&self, name: &str) -> (v: Vec<u32>)
        requires
            self.wf(),
        ensures
            v@.to_set() == self.rows_named(name@),
            forall|i: int, j: int| 0 <= i < j < v@.len() ==> v@[i] < v@[j],
            forall|i: int|
                0 <= i < v@.len() ==> (#[trigger] v@[i]) < self.rows@.len()
                    && self.rows@[v@[i] as int].name@ == name@,
    {
        let mut v: Vec<u32> = Vec::new();
        let n: u32 = self.row_count();
        let mut r: u32 = 0;
        while r < n
            invariant
                n == self.rows@.len(),
                r <= n,
                forall|i: int, j: int| 0 <= i < j < v@.len() ==> v@[i] < v@[j],
                forall|i: int|
                    0 <= i < v@.len() ==> (#[trigger] v@[i]) < r && self.rows@[v@[i] as int].name@
                        == name@,
                forall|q: u32|
                    q < r && self.rows@[q as int].name@ == name@ ==> #[trigger] v@.contains(q),
            decreases n - r,
        {
            if same_text(self.rows[r as usize].name.as_str(), name) {
                let ghost was = v@;
                v.push(r);
                assert(v@[v@.len() - 1] == r);
                assert forall|q: u32|
                    q < r + 1 && self.rows@[q as int].name@ == name@ implies #[trigger] v@.contains(
                    q,
                ) by {
                    if q < r {
                        assert(was.contains(q));
                        let k = choose|k: int| 0 <= k < was.len() && was[k] == q;
                        assert(v@[k] == q);
                    }
                }
            }
            r += 1;
        }
        assert(v@.to_set() =~= self.rows_named(name@)) by {
            assert forall|q: u32| v@.to_set().contains(q) == self.rows_named(name@).contains(q) by {
                if self.rows_named(name@).contains(q) {
                    assert(v@.contains(q));
                }
            }
        }
        v
    }
}

// ───────────────────────────── built rows ─────────────────────────────

/// One row of a query's answer.
pub struct SymbolMatch {
    pub name: String,
    pub node_kind: Option<String>,
    pub fql_kind: Option<String>,
    pub language: Option<String>,
    pub path: Option<String>,
    pub line: Option<usize>,
    pub usages_count: Option<usize>,
    /// Enrichment values, by field.
    pub fields: Vec<(String, String)>,
    /// The size of the group this row stands for.
    pub count: Option<usize>,
    pub node_id: Option<String>,
    pub rev: Option<u64>,
}

impl Default for SymbolMatch {
    /// A row that carries nothing.
    fn default() -> (m: SymbolMatch)
        ensures
            m.name@ == Seq::<char>::empty(),
            m.node_kind is None,
            m.fql_kind is None,
            m.language is None,
            m.path is None,
            m.line is None,
            m.usages_count is None,
            m.fields@.len() == 0,
            m.count is None,
            m.node_id is None,
            m.rev is None,
    {
        SymbolMatch {
            name: String::new(),
            node_kind: None,
            fql_kind: None,
            language: None,
            path: None,
            line: None,
            usages_count: None,
            fields: Vec::new(),
            count: None,
            node_id: None,
            rev: None,
        }
    }
}

/// The text of an optional string.
pub open spec fn opt_string(s: Option<String>) -> Option<Seq<char>> {
    match s {
        Some(t) => Some(t@),
        None => None,
    }
}

/// The text of an optional string.
pub fn as_opt_str<'a>(s: &'a Option<String>) -> (r: Option<&'a str>)
    ensures
        opt_text(r) == opt_string(*s),
{
    match s {
        Some(t) => Some(t.as_str()),
        None => None,
    }
}

/// A count as a signed number, held at the 64-bit limit.
pub open spec fn count_number(n: Option<usize>) -> Option<int> {
    match n {
        Some(v) => if v <= 0x7fff_ffff_ffff_ffff {
            Some(v as int)
        } else {
            Some(0x7fff_ffff_ffff_ffff)
        },
        None => None,
    }
}

fn count_as_number(n: Option<usize>) -> (r: Option<i64>)
    ensures
        opt_number(r) == count_number(n),
{
    match n {
        Some(v) => if v as u64 <= 0x7fff_ffff_ffff_ffff {
            Some(v as i64)
        } else {
            Some(0x7fff_ffff_ffff_ffff)
        },
        None => None,
    }
}

impl ClauseTarget for SymbolMatch {
    open spec fn readable(&self) -> bool {
        true
    }

    open spec fn text_of(&self, field: Seq<char>) -> Option<Seq<char>> {
        if field == "name"@ {
            Some(self.name@)
        } else if field == "node_kind"@ {
            opt_string(self.node_kind)
        } else if field == "fql_kind"@ {
            opt_string(self.fql_kind)
        } else if field == "language"@ {
            opt_string(self.language)
        } else if field == "path"@ {
            opt_string(self.path)
        } else if field == "node_id"@ {
            opt_string(self.node_id)
        } else {
            extra_of(self.fields@, field)
        }
    }

    open spec fn number_of(&self, field: Seq<char>) -> Option<int> {
        if field == "line"@ {
            count_number(self.line)
        } else if field == "usages"@ {
            count_number(self.usages_count)
        } else if field == "count"@ {
            count_number(self.count)
        } else {
            number_in(extra_of(self.fields@, field))
        }
    }

    fn field_str(&self, field: &str) -> (r: Option<&str>) {
        if same_text(field, "name") {
            Some(self.name.as_str())
        } else if same_text(field, "node_kind") {
            as_opt_str(&self.node_kind)
        } else if same_text(field, "fql_kind") {
            as_opt_str(&self.fql_kind)
        } else if same_text(field, "language") {
            as_opt_str(&self.language)
        } else if same_text(field, "path") {
            as_opt_str(&self.path)
        } else if same_text(field, "node_id") {
            as_opt_str(&self.node_id)
        } else {
            find_extra(&self.fields, field)
        }
    }

    fn field_num(&self, field: &str) -> (r: Option<i64>) {
        if same_text(field, "line") {
            count_as_number(self.line)
        } else if same_text(field, "usages") {
            count_as_number(self.usages_count)
        } else if same_text(field, "count") {
            count_as_number(self.count)
        } else {
            parse_opt(find_extra(&self.fields, field))
        }
    }
}

/// A text, unless it is empty.
pub open spec fn unless_empty(s: Seq<char>) -> Option<Seq<char>> {
    if s.len() == 0 {
        None
    } else {
        Some(s)
    }
}

fn string_unless_empty(s: &String) -> (r: Option<String>)
    ensures
        opt_string(r) == unless_empty(s@),
{
    if s.as_str().is_empty() {
        None
    } else {
        Some(s.clone())
    }
}

fn copy_pairs(v: &Vec<(String, String)>) -> (r: Vec<(String, String)>)
    ensures
        r@ == v@,
{
    let mut r: Vec<(String, String)> = Vec::new();
    let mut i: usize = 0;
    while i < v.len()
        invariant
            i <= v@.len(),
            r@ == v@.take(i as int),
        decreases v.len() - i,
    {
        let pair = (v[i].0.clone(), v[i].1.clone());
        assert(pair == v@[i as int]);
        r.push(pair);
        assert(v@.take(i as int + 1) =~= v@.take(i as int).push(v@[i as int]));
        i += 1;
    }
    assert(v@.take(v@.len() as int) =~= v@);
    r
}

impl SegmentReader {
    /// Whether `m` is the result row that row `r` of this segment builds.
    pub open spec fn builds(&self, r: int, path: Option<Seq<char>>, m: SymbolMatch) -> bool {
        let row = self.rows@[r];
        &&& m.name@ == row.name@
        &&& m.node_kind is None
        &&& opt_string(m.fql_kind) == unless_empty(row.fql_kind@)
        &&& opt_string(m.language) == unless_empty(row.language@)
        &&& opt_string(m.path) == path
        &&& m.line == (if row.line == 0 {
            None
        } else {
            Some(row.line as usize)
        })
        &&& m.usages_count == Some(row.usages_count as usize)
        &&& m.fields@ == row.extra@
        &&& m.count is None
        &&& opt_string(m.node_id) == (match (path, row.ordinal) {
            (Some(p), Some(o)) => Some(path_node_id(p, o as nat)),
            _ => None,
        })
        &&& m.rev == (match row.ordinal {
            Some(_) => Some(row.rev),
            None => None,
        })
    }

    fn build_row(&self, r: u32, path: Option<&str>) -> (m: SymbolMatch)
        requires
            r < self.rows@.len(),
        ensures
            self.builds(r as int, opt_text(path), m),
    {
        let row = &self.rows[r as usize];
        SymbolMatch {
            name: row.name.clone(),
            node_kind: None,
            fql_kind: string_unless_empty(&row.fql_kind),
            language: string_unless_empty(&row.language),
            path: match path {
                Some(p) => Some(p.to_owned()),
                None => None,
            },
            line: if row.line == 0 {
                None
            } else {
                Some(row.line as usize)
            },
            usages_count: Some(row.usages_count as usize),
            fields: copy_pairs(&row.extra),
            count: None,
            node_id: match (path, row.ordinal) {
                (Some(p), Some(o)) => Some(make_node_id(p, o)),
                _ => None,
            },
            rev: match row.ordinal {
                Some(_) => Some(row.rev),
                None => None,
            },
        }
    }

    /// The result row of one row; nothing past the last row.
    pub fn materialize_one_row(&self, r: u32, path: &str) -> (m: Option<SymbolMatch>)
        requires
            self.wf(),
        ensures
            (match m {
                Some(row) => r < self.rows@.len() && self.builds(r as int, Some(path@), row),
                None => r >= self.rows@.len(),
            }),
    {
        if r >= self.row_count() {
            return None;
        }
        Some(self.build_row(r, Some(path)))
    }

    /// Whether `out` holds the result rows of the rows listed, in that order.
    pub open spec fn builds_all(&self, rows: Seq<u32>, path: Option<Seq<char>>, out: Seq<SymbolMatch>) -> bool {
        &&& out.len() == rows.len()
        &&& forall|i: int|
            #![trigger out[i]]
            0 <= i < out.len() ==> rows[i] < self.rows@.len() && self.builds(
                rows[i] as int,
                path,
                out[i],
            )
    }

    /// The result rows of the rows selected, ascending; rows past the last are left out.
    pub fn materialize_rows(&self, rows: &RoaringBitmap, path: Option<&str>) -> (out: Vec<SymbolMatch>)
        requires
            self.wf(),
        ensures
            exists|list: Seq<u32>| #[trigger]
                self.lists_selected(rows_of(*rows), list) && self.builds_all(
                    list,
                    opt_text(path),
                    out@,
                ),
    {
        let all = rows_ascending(rows);
        let n: u32 = self.row_count();
        let mut list: Vec<u32> = Vec::new();
        let mut out: Vec<SymbolMatch> = Vec::new();
        let mut i: usize = 0;
        while i < all.len()
            invariant
                self.wf(),
                n == self.rows@.len(),
                i <= all@.len(),
                forall|a: int, b: int| 0 <= a < b < all@.len() ==> all@[a] < all@[b],
                all@.to_set() == rows_of(*rows),
                forall|a: int, b: int| 0 <= a < b < list@.len() ==> list@[a] < list@[b],
                forall|a: int|
                    0 <= a < list@.len() ==> (#[trigger] list@[a]) < n && all@.take(
                        i as int,
                    ).contains(list@[a]),
                forall|a: int|
                    0 <= a < i && all@[a] < n ==> list@.contains(#[trigger] all@[a]),
                self.builds_all(list@, opt_text(path), out@),
            decreases all.len() - i,
        {
            let r: u32 = all[i];
            let ghost was = list@;
            assert(all@.take(i as int + 1) =~= all@.take(i as int).push(r));
            assert(all@.take(i as int + 1)[i as int] == r);
            assert forall|q: u32| all@.take(i as int).contains(q) implies #[trigger] all@.take(
                i as int + 1,
            ).contains(q) by {
                let k = choose|k: int|
                    0 <= k < all@.take(i as int).len() && all@.take(i as int)[k] == q;
                assert(all@.take(i as int + 1)[k] == q);
            }
            if r < n {
                out.push(self.build_row(r, path));
                list.push(r);
                assert(list@[list@.len() - 1] == r);
                assert forall|a: int, b: int| 0 <= a < b < list@.len() implies list@[a]
                    < list@[b] by {
                    if b == list@.len() - 1 {
                        assert(all@.take(i as int).contains(was[a]));
                        let k = choose|k: int|
                            0 <= k < all@.take(i as int).len() && all@.take(i as int)[k] == was[a];
                        assert(all@[k] < all@[i as int]);
                    }
                }
                assert forall|a: int| 0 <= a < i + 1 && all@[a] < n implies list@.contains(
                    #[trigger] all@[a],
                ) by {
                    if a < i {
                        assert(was.contains(all@[a]));
                        let k = choose|k: int| 0 <= k < was.len() && was[k] == all@[a];
                        assert(list@[k] == all@[a]);
                    }
                }
            }
            i += 1;
        }
        proof {
            assert(self.lists_selected(rows_of(*rows), list@)) by {
                assert forall|r: u32| list@.contains(r) == (rows_of(*rows).contains(r) && r < n) by {
                    if list@.contains(r) {
                        let k = choose|k: int| 0 <= k < list@.len() && list@[k] == r;
                        assert(all@.take(all@.len() as int).contains(list@[k]));
                        assert(all@.take(all@.len() as int) =~= all@);
                        assert(all@.to_set().contains(r));
                    }
                    if rows_of(*rows).contains(r) && r < n {
                        assert(all@.to_set().contains(r));
                        assert(all@.contains(r));
                        let k = choose|k: int| 0 <= k < all@.len() && all@[k] == r;
                        assert(list@.contains(all@[k]));
                    }
                }
            }
        }
        out
    }

    /// Whether `list` holds the rows of this segment that are in `rows`, ascending.
    pub open spec fn lists_selected(&self, rows: Set<u32>, list: Seq<u32>) -> bool {
        &&& forall|i: int, j: int| 0 <= i < j < list.len() ==> list[i] < list[j]
        &&& forall|r: u32| #[trigger] list.contains(r) == (rows.contains(r) && r < self.rows@.len())
    }
}

/// How a field is read.
#[derive(Clone, Copy, Debug, PartialEq, Eq, Structural)]
pub enum Accessor {
    Str,
    Num,
}

/// Whether a view answers a field as the row it builds does: the field is not settled on the built
/// row, nor written onto it afterwards, and the text of the path only where the view knows it.
pub open spec fn view_answers(field: Seq<char>, has_path: bool, accessor: Accessor) -> bool {
    &&& !view_cannot_answer(field)
    &&& !late_field(field)
    &&& !(field == "path"@ && accessor == Accessor::Str && !has_path)
}

impl SegmentReader {
    /// Whether a view of a row of this segment answers a field as the row it builds does.
    ///
    /// A field that no column holds is answered too: both read nothing.
    pub fn answers_field(&self, field: &str, has_path: bool, accessor: Accessor) -> (r: bool)
        ensures
            r == view_answers(field@, has_path, accessor),
    {
        !(same_text(field, "usages") || same_text(field, "node_id") || same_text(field, "count"))
            && !written_after_materialisation(field) && !(same_text(field, "path") && accessor
            == Accessor::Str && !has_path)
    }
}

// ───────────────────────────── row views ─────────────────────────────

/// A row read in place from the columns of its segment: it owns nothing.
#[derive(Clone, Copy)]
pub struct RowView<'a> {
    pub seg: &'a SegmentReader,
    pub name: &'a str,
    pub source_path: Option<&'a str>,
    pub row: u32,
    pub line: u32,
}

impl<'a> RowView<'a> {
    /// Whether this is a view of a row of its segment.
    pub open spec fn wf(&self) -> bool {
        &&& self.row < self.seg.rows@.len()
        &&& self.name@ == self.seg.rows@[self.row as int].name@
        &&& self.line == self.seg.rows@[self.row as int].line
    }

    /// The view of row `row`.
    pub fn of(seg: &'a SegmentReader, source_path: Option<&'a str>, row: u32) -> (v: RowView<'a>)
        requires
            row < seg.rows@.len(),
        ensures
            v.wf(),
            v.seg == seg,
            v.row == row,
            v.source_path == source_path,
    {
        RowView {
            seg,
            name: seg.rows[row as usize].name.as_str(),
            source_path,
            row,
            line: seg.rows[row as usize].line,
        }
    }

    /// The result row that this view stands for.
    pub fn materialize(&self) -> (m: SymbolMatch)
        requires
            self.wf(),
        ensures
            self.seg.builds(self.row as int, opt_text(self.source_path), m),
    {
        self.seg.build_row(self.row, self.source_path)
    }

    /// What rows of one segment are told apart by: name, kind and line.
    pub open spec fn key(&self) -> (Seq<char>, Option<Seq<char>>, u32) {
        (self.name@, unless_empty(self.seg.rows@[self.row as int].fql_kind@), self.line)
    }

    /// What rows of one segment are told apart by: name, kind and line.
    pub fn collapse_key(&self) -> (k: (&'a str, Option<&'a str>, u32))
        requires
            self.wf(),
        ensures
            (k.0@, opt_text(k.1), k.2) == self.key(),
    {
        let kind = self.seg.rows[self.row as usize].fql_kind.as_str();
        (
            self.name,
            if kind.is_empty() {
                None
            } else {
                Some(kind)
            },
            self.line,
        )
    }
}

impl<'a> ClauseTarget for RowView<'a> {
    open spec fn readable(&self) -> bool {
        self.wf()
    }

    open spec fn text_of(&self, field: Seq<char>) -> Option<Seq<char>> {
        let row = self.seg.rows@[self.row as int];
        if field == "name"@ {
            Some(self.name@)
        } else if field == "node_kind"@ {
            None
        } else if field == "fql_kind"@ {
            unless_empty(row.fql_kind@)
        } else if field == "language"@ {
            unless_empty(row.language@)
        } else if field == "path"@ {
            opt_text(self.source_path)
        } else if field == "node_id"@ {
            None
        } else {
            extra_of(row.extra@, field)
        }
    }

    open spec fn number_of(&self, field: Seq<char>) -> Option<int> {
        let row = self.seg.rows@[self.row as int];
        if field == "line"@ {
            if self.line == 0 {
                None
            } else {
                Some(self.line as int)
            }
        } else if field == "usages"@ || field == "count"@ {
            None
        } else {
            number_in(extra_of(row.extra@, field))
        }
    }

    fn field_str(&self, field: &str) -> (r: Option<&str>) {
        let row = &self.seg.rows[self.row as usize];
        if same_text(field, "name") {
            Some(self.name)
        } else if same_text(field, "node_kind") {
            None
        } else if same_text(field, "fql_kind") {
            if row.fql_kind.as_str().is_empty() {
                None
            } else {
                Some(row.fql_kind.as_str())
            }
        } else if same_text(field, "language") {
            if row.language.as_str().is_empty() {
                None
            } else {
                Some(row.language.as_str())
            }
        } else if same_text(field, "path") {
            self.source_path
        } else if same_text(field, "node_id") {
            None
        } else {
            find_extra(&row.extra, field)
        }
    }

    fn field_num(&self, field: &str) -> (r: Option<i64>) {
        let row = &self.seg.rows[self.row as usize];
        if same_text(field, "line") {
            if self.line == 0 {
                None
            } else {
                Some(self.line as i64)
            }
        } else if same_text(field, "usages") || same_text(field, "count") {
            None
        } else {
            parse_opt(find_extra(&row.extra, field))
        }
    }
}

/// A view reads every field as the row it builds, but for those settled only on a built row.
pub proof fn lemma_view_reads_as_built_row(view: RowView<'_>, built: SymbolMatch, field: Seq<char>)
    requires
        view.wf(),
        view.seg.builds(view.row as int, opt_text(view.source_path), built),
        !crate::fields::view_cannot_answer(field),
    ensures
        view.text_of(field) == built.text_of(field),
        view.number_of(field) == built.number_of(field),
{
}

/// Two rows of one segment have the same key exactly where the rows they build agree on name,
/// kind, path and line.
pub proof fn lemma_collapse_key_agrees(
    a: RowView<'_>,
    b: RowView<'_>,
    left: SymbolMatch,
    right: SymbolMatch,
)
    requires
        a.wf(),
        b.wf(),
        opt_text(a.source_path) == opt_text(b.source_path),
        a.seg.builds(a.row as int, opt_text(a.source_path), left),
        b.seg.builds(b.row as int, opt_text(b.source_path), right),
    ensures
        (a.key() == b.key()) <==> (left.name@ == right.name@ && opt_string(left.fql_kind)
            == opt_string(right.fql_kind) && opt_string(left.path) == opt_string(right.path)
            && left.line == right.line),
{
}

// ───────────────────────────── postings ─────────────────────────────

/// The text that an equality compares with, where it is one with text or a truth value.
pub open spec fn equality_text(p: Predicate) -> Option<Seq<char>> {
    if p.op != CompareOp::Eq {
        None
    } else {
        match p.value {
            PredicateValue::String(v) => Some(v@),
            PredicateValue::Bool(b) => Some(bool_text(b)),
            PredicateValue::Number(_) => None,
        }
    }
}

impl SegmentReader {
    /// Whether the postings of this segment settle a predicate.
    pub open spec fn settles(&self, p: Predicate) -> bool {
        self.posts(canonical_text(p.field@)) && equality_text(p) is Some
    }

    /// Whether the postings keep row `r` under a predicate.
    pub open spec fn posting_keeps(&self, p: Predicate, r: int) -> bool {
        self.settles(p) ==> r < self.rows@.len() && self.extra(canonical_text(p.field@), r)
            == equality_text(p)
    }

    /// The rows that the postings keep under the first `n` predicates.
    pub open spec fn posted_rows(&self, rows: Set<u32>, predicates: Seq<Predicate>, n: int) -> Set<
        u32,
    > {
        Set::new(
            |r: u32|
                rows.contains(r) && forall|i: int|
                    0 <= i < n ==> self.posting_keeps(#[trigger] predicates[i], r as int),
        )
    }

    fn rows_with_value(&self, field: &str, value: &str) -> (b: RoaringBitmap)
        requires
            self.wf(),
        ensures
            rows_of(b) == Set::<u32>::new(
                |r: u32| r < self.rows@.len() && self.extra(field@, r as int) == Some(value@),
            ),
    {
        let n: u32 = self.row_count();
        let mut b = RoaringBitmap::new();
        let mut r: u32 = 0;
        while r < n
            invariant
                self.wf(),
                n == self.rows@.len(),
                r <= n,
                forall|q: u32|
                    #![trigger rows_of(b).contains(q)]
                    rows_of(b).contains(q) == (q < r && self.extra(field@, q as int) == Some(
                        value@,
                    )),
            decreases n - r,
        {
            let ghost was = rows_of(b);
            let hit = match self.extra_field_str(field, r) {
                Some(v) => same_text(v, value),
                None => false,
            };
            if hit {
                let _ = b.insert(r);
            }
            assert forall|q: u32|
                #![trigger rows_of(b).contains(q)]
                rows_of(b).contains(q) == (q < r + 1 && self.extra(field@, q as int) == Some(
                    value@,
                )) by {
                assert(was.contains(q) == (q < r && self.extra(field@, q as int) == Some(value@)));
            }
            r += 1;
        }
        assert(rows_of(b) =~= Set::<u32>::new(
            |r: u32| r < self.rows@.len() && self.extra(field@, r as int) == Some(value@),
        ));
        b
    }

    /// Narrows rows by the postings of this segment: every equality on a posted field keeps only
    /// the rows that carry its value.
    pub fn prefilter_enrichment_postings(&self, rows: &RoaringBitmap, clauses: &Clauses) -> (b:
        RoaringBitmap)
        requires
            self.wf(),
        ensures
            rows_of(b) == self.posted_rows(
                rows_of(*rows),
                clauses.where_predicates@,
                clauses.where_predicates@.len() as int,
            ),
    {
        let mut b = copy_rows(rows);
        let ghost all = rows_of(*rows);
        let ghost preds = clauses.where_predicates@;
        let mut i: usize = 0;
        assert(rows_of(b) =~= self.posted_rows(all, preds, 0));
        while i < clauses.where_predicates.len()
            invariant
                self.wf(),
                all == rows_of(*rows),
                preds == clauses.where_predicates@,
                i <= preds.len(),
                rows_of(b) == self.posted_rows(all, preds, i as int),
            decreases clauses.where_predicates.len() - i,
        {
            let p = &clauses.where_predicates[i];
            let field = canonical(p.field.as_str());
            let ghost was = rows_of(b);
            if p.op == CompareOp::Eq && self.posts_field(field) {
                match &p.value {
                    PredicateValue::String(v) => {
                        let hits = self.rows_with_value(field, v.as_str());
                        b = rows_in_both(&b, &hits);
                    },
                    PredicateValue::Bool(t) => {
                        let text = if *t {
                            "true"
                        } else {
                            "false"
                        };
                        let hits = self.rows_with_value(field, text);
                        b = rows_in_both(&b, &hits);
                    },
                    PredicateValue::Number(_) => {},
                }
            }
            proof {
                let next = self.posted_rows(all, preds, i + 1);
                assert forall|r: u32| rows_of(b).contains(r) == next.contains(r) by {
                    assert(was.contains(r) == (all.contains(r) && forall|k: int|
                        0 <= k < i ==> self.posting_keeps(#[trigger] preds[k], r as int)));
                    assert(rows_of(b).contains(r) == (was.contains(r) && self.posting_keeps(
                        preds[i as int],
                        r as int,
                    )));
                }
                assert(rows_of(b) =~= next);
            }
            i += 1;
        }
        b
    }
}

/// The postings never drop a row that the predicates select.
pub proof fn lemma_postings_keep_matches(view: RowView<'_>, predicates: Seq<Predicate>, rows: Set<u32>)
    requires
        view.wf(),
        view.seg.wf(),
        rows.contains(view.row),
        satisfies_all(&view, predicates),
    ensures
        view.seg.posted_rows(rows, predicates, predicates.len() as int).contains(view.row),
{
    assert forall|i: int| 0 <= i < predicates.len() implies view.seg.posting_keeps(
        #[trigger] predicates[i],
        view.row as int,
    ) by {
        let p = predicates[i];
        assert(row_satisfies(&view, p));
        if view.seg.settles(p) {
            let f = canonical_text(p.field@);
            assert(view.seg.posts(f));
            crate::fields::lemma_posting_fields_are_enrichment(f);
            assert(view.text_of(f) == view.seg.extra(f, view.row as int));
        }
    }
}

} // verus!
