//! The files themselves as the authority on where a name occurs, and the answer that joins them
//! with the postings.

use crate::bytes::utf8_text;
use crate::clauses::Clauses;
use crate::columnar_storage::find::{site_views, Site, SiteView};
use crate::columnar_storage::literals::occurs;
use crate::columnar_storage::node_find::lemma_lists_push;
use crate::columnar_storage::scan::{
    contains_run, core_text, decode_text, hint_text, holds, is_core_alphabet, line_holds, lines_from, lines_of,
    needle_pieces, pieces_from, text_of_file, unread_hint,
};
use crate::columnar_storage::budgets::FindRefusal;
use crate::columnar_storage::delivery::{deliver, is_delivery, FindPage};
use crate::columnar_storage::ColumnarStorage;
use crate::overlay::lookup::text_views;
use crate::name_index::{lists_entries, CountIndex};
use crate::order::{sorted_texts, texts_ascend};
use crate::segment::{lists_text, opt_string, SymbolMatch};
use crate::text::chars_of;
use crate::path_parts::{contains_path, is_same_path, lists_path, same_path};
use vstd::prelude::*;
use vstd::string::*;
use vstd::utf8::*;

verus! {

/// What came of reading one file of the workspace.
pub enum FileRead {
    /// The file is not there.
    Missing,
    /// The file is there and could not be read.
    Unreadable,
    /// The bytes of the file.
    Bytes(Vec<u8>),
}

impl FileRead {
    /// The text that was read, where the bytes are text.
    pub open spec fn text(&self) -> Option<Seq<char>> {
        match self {
            FileRead::Bytes(bytes) => text_of_file(bytes@),
            _ => None,
        }
    }

    /// Whether the read tells every site of the file: its text was read, or it is not there.
    pub open spec fn settles(&self) -> bool {
        self is Missing || self.text() is Some
    }
}

/// The role under which a line was first posted among `labels`.
pub open spec fn role_from(labels: Seq<SiteView>, path: Seq<char>, line: u32, i: int) -> Seq<char>
    decreases labels.len() - i,
{
    if i >= labels.len() {
        "text"@
    } else if same_path(labels[i].path, path) && labels[i].line == line {
        labels[i].role
    } else {
        role_from(labels, path, line, i + 1)
    }
}

/// The 1-based number of the line at position `i`, the last one standing for all beyond it.
pub open spec fn line_number(i: int) -> u32 {
    if i + 1 > u32::MAX {
        u32::MAX
    } else {
        (i + 1) as u32
    }
}

/// The sites that the first `n` lines of a file hold.
pub open spec fn line_sites(
    path: Seq<char>,
    lines: Seq<Seq<char>>,
    needle: Seq<char>,
    labels: Seq<SiteView>,
    n: int,
) -> Seq<SiteView>
    decreases n,
{
    if n <= 0 {
        seq![]
    } else {
        let rest = line_sites(path, lines, needle, labels, n - 1);
        if line_holds(lines[n - 1], needle, core_text(needle)) {
            rest.push(
                SiteView {
                    path,
                    line: line_number(n - 1),
                    role: role_from(labels, path, line_number(n - 1), 0),
                },
            )
        } else {
            rest
        }
    }
}

/// The sites of a needle in a text.
pub open spec fn sites_in_text(
    path: Seq<char>,
    text: Seq<char>,
    needle: Seq<char>,
    labels: Seq<SiteView>,
) -> Seq<SiteView> {
    let lines = lines_from(text, 0, 0);
    line_sites(path, lines, needle, labels, lines.len() as int)
}

/// The sites that the reads of the first `n` files hold.
pub open spec fn read_sites(
    paths: Seq<String>,
    reads: Seq<FileRead>,
    needle: Seq<char>,
    labels: Seq<SiteView>,
    n: int,
) -> Seq<SiteView>
    decreases n,
{
    if n <= 0 {
        seq![]
    } else {
        let rest = read_sites(paths, reads, needle, labels, n - 1);
        match reads[n - 1].text() {
            Some(text) => rest + sites_in_text(paths[n - 1]@, text, needle, labels),
            None => rest,
        }
    }
}

/// The paths among the first `n` whose sites are told whole by the read.
pub open spec fn settled_paths(paths: Seq<String>, reads: Seq<FileRead>, n: int) -> Seq<Seq<char>>
    decreases n,
{
    if n <= 0 {
        seq![]
    } else if reads[n - 1].settles() {
        settled_paths(paths, reads, n - 1).push(paths[n - 1]@)
    } else {
        settled_paths(paths, reads, n - 1)
    }
}

/// How many of the first `n` files could not be read.
pub open spec fn unread_among(reads: Seq<FileRead>, n: int) -> nat
    decreases n,
{
    if n <= 0 {
        0
    } else {
        unread_among(reads, n - 1) + if reads[n - 1] is Unreadable {
            1nat
        } else {
            0nat
        }
    }
}

fn label_of(labels: &Vec<Site>, path: &str, line: u32) -> (role: String)
    ensures
        role@ == role_from(site_views(labels@), path@, line, 0),
{
    let ghost views = site_views(labels@);
    let mut i: usize = 0;
    while i < labels.len()
        invariant
            i <= labels@.len(),
            views == site_views(labels@),
            role_from(views, path@, line, 0) == role_from(views, path@, line, i as int),
        decreases labels.len() - i,
    {
        assert(views[i as int] == labels@[i as int]@);
        if labels[i].line == line && is_same_path(labels[i].path.as_str(), path) {
            return labels[i].role.clone();
        }
        i += 1;
    }
    "text".to_owned()
}

/// A search of the files for one needle, file after file.
pub struct LiteralScan {
    pub needle: String,
    pub labels: Vec<Site>,
    pub sites: Vec<Site>,
    pub settled: Vec<String>,
    pub unread: usize,
}

impl LiteralScan {
    /// Takes in what came of reading one more file.
    pub fn take(&mut self, path: &str, read: &FileRead)
        requires
            old(self).unread < usize::MAX,
        ensures
            final(self).needle == old(self).needle,
            final(self).labels == old(self).labels,
            site_views(final(self).sites@) == site_views(old(self).sites@) + (match read.text() {
                Some(text) => sites_in_text(
                    path@,
                    text,
                    old(self).needle@,
                    site_views(old(self).labels@),
                ),
                None => seq![],
            }),
            text_views(final(self).settled@) == if read.settles() {
                text_views(old(self).settled@).push(path@)
            } else {
                text_views(old(self).settled@)
            },
            final(self).unread == old(self).unread + if *read is Unreadable {
                1int
            } else {
                0int
            },
    {
        let ghost start = site_views(self.sites@);
        let ghost was = self.settled@;
        let bytes = match read {
            FileRead::Missing => {
                self.settled.push(path.to_owned());
                assert(text_views(self.settled@) =~= text_views(was).push(path@));
                assert(start + Seq::<SiteView>::empty() =~= start);
                return ;
            },
            FileRead::Unreadable => {
                self.unread = self.unread + 1;
                assert(start + Seq::<SiteView>::empty() =~= start);
                return ;
            },
            FileRead::Bytes(bytes) => bytes,
        };
        let text = match decode_text(bytes.as_slice()) {
            Some(text) => text,
            None => {
                assert(start + Seq::<SiteView>::empty() =~= start);
                return ;
            },
        };
        self.settled.push(path.to_owned());
        assert(text_views(self.settled@) =~= text_views(was).push(path@));
        let whole = is_core_alphabet(self.needle.as_str());
        let lines = lines_of(text.as_str());
        let ghost rows = text_views(lines@);
        let ghost labels = site_views(self.labels@);
        let ghost here = self.settled@;
        let mut i: usize = 0;
        assert(start + line_sites(path@, rows, self.needle@, labels, 0) =~= start);
        while i < lines.len()
            invariant
                i <= lines@.len(),
                rows == text_views(lines@),
                whole == core_text(self.needle@),
                labels == site_views(self.labels@),
                self.needle == old(self).needle,
                self.labels == old(self).labels,
                self.unread == old(self).unread,
                self.settled@ == here,
                site_views(self.sites@) == start + line_sites(
                    path@,
                    rows,
                    self.needle@,
                    labels,
                    i as int,
                ),
            decreases lines.len() - i,
        {
            let ghost seen = self.sites@;
            assert(rows[i as int] == lines@[i as int]@);
            if holds(lines[i].as_str(), self.needle.as_str(), whole) {
                let at: u64 = i as u64;
                let line: u32 = if at >= 0xffff_ffff {
                    0xffff_ffff
                } else {
                    (at + 1) as u32
                };
                let role = label_of(&self.labels, path, line);
                let site = Site { path: path.to_owned(), line, role };
                self.sites.push(site);
                assert(site_views(self.sites@) =~= site_views(seen).push(site@));
                assert(site_views(self.sites@) =~= start + line_sites(
                    path@,
                    rows,
                    self.needle@,
                    labels,
                    i + 1,
                ));
            }
            i += 1;
        }
        assert(rows.len() == lines@.len());
    }

    /// Takes in what came of reading each of some files.
    pub fn take_all(&mut self, paths: &Vec<String>, reads: &Vec<FileRead>)
        requires
            paths@.len() == reads@.len(),
            old(self).sites@.len() == 0,
            old(self).settled@.len() == 0,
            old(self).unread == 0,
        ensures
            final(self).needle == old(self).needle,
            final(self).labels == old(self).labels,
            site_views(final(self).sites@) == read_sites(
                paths@,
                reads@,
                old(self).needle@,
                site_views(old(self).labels@),
                paths@.len() as int,
            ),
            text_views(final(self).settled@) == settled_paths(paths@, reads@, paths@.len() as int),
            final(self).unread == unread_among(reads@, paths@.len() as int),
    {
        let ghost needle = self.needle@;
        let ghost labels = site_views(self.labels@);
        let count: usize = paths.len();
        let mut i: usize = 0;
        assert(site_views(self.sites@) =~= seq![]);
        assert(text_views(self.settled@) =~= seq![]);
        while i < count
            invariant
                i <= count,
                count == paths@.len(),
                paths@.len() == reads@.len(),
                self.needle == old(self).needle,
                self.labels == old(self).labels,
                needle == self.needle@,
                labels == site_views(self.labels@),
                site_views(self.sites@) == read_sites(paths@, reads@, needle, labels, i as int),
                text_views(self.settled@) == settled_paths(paths@, reads@, i as int),
                self.unread == unread_among(reads@, i as int),
                self.unread <= i,
            decreases count - i,
        {
            let ghost was = site_views(self.sites@);
            self.take(paths[i].as_str(), &reads[i]);
            assert(was + Seq::<SiteView>::empty() =~= was);
            i += 1;
        }
    }
}

impl ColumnarStorage {
    /// The sites posted for the first `n` of some tokens.
    pub open spec fn sites_of_all(&self, tokens: Seq<Seq<char>>, n: int) -> Seq<SiteView>
        decreases n,
    {
        if n <= 0 {
            seq![]
        } else {
            self.sites_of_all(tokens, n - 1) + self.posted_sites(tokens[n - 1])
        }
    }

    /// The posted sites that label the lines holding a needle: those of its pieces, where the
    /// needle is no single token.
    pub open spec fn labels_for(&self, needle: Seq<char>) -> Seq<SiteView> {
        if core_text(needle) {
            seq![]
        } else {
            let pieces = pieces_from(needle, 0, 0);
            self.sites_of_all(pieces, pieces.len() as int)
        }
    }

    fn sites_of_each(&self, tokens: &Vec<String>) -> (out: Vec<Site>)
        requires
            self.wf(),
        ensures
            site_views(out@) == self.sites_of_all(text_views(tokens@), tokens@.len() as int),
    {
        let ghost views = text_views(tokens@);
        let mut out: Vec<Site> = Vec::new();
        let mut i: usize = 0;
        assert(site_views(out@) =~= self.sites_of_all(views, 0));
        while i < tokens.len()
            invariant
                self.wf(),
                i <= tokens@.len(),
                views == text_views(tokens@),
                site_views(out@) == self.sites_of_all(views, i as int),
            decreases tokens.len() - i,
        {
            let ghost was = out@;
            let mut more = self.sites_of(tokens[i].as_str());
            let ghost added = more@;
            out.append(&mut more);
            assert(site_views(out@) =~= site_views(was) + site_views(added));
            i += 1;
        }
        out
    }

    /// A search for a needle that has read no file yet.
    pub fn begin_scan(&self, needle: &str) -> (scan: LiteralScan)
        requires
            self.wf(),
        ensures
            scan.needle@ == needle@,
            site_views(scan.labels@) == self.labels_for(needle@),
            scan.sites@.len() == 0,
            scan.settled@.len() == 0,
            scan.unread == 0,
    {
        let labels: Vec<Site> = if is_core_alphabet(needle) {
            let none: Vec<Site> = Vec::new();
            assert(site_views(none@) =~= seq![]);
            none
        } else {
            let pieces = needle_pieces(needle);
            self.sites_of_each(&pieces)
        };
        LiteralScan {
            needle: needle.to_owned(),
            labels,
            sites: Vec::new(),
            settled: Vec::new(),
            unread: 0,
        }
    }

    /// Every site of a needle that the files hold, the paths whose sites are thereby told whole,
    /// and what to say of the files that could not be read.
    ///
    /// `paths` are the files in scope and `reads` what came of reading each.
    pub fn literal_sites(&self, needle: &str, paths: &Vec<String>, reads: &Vec<FileRead>) -> (r: (
        Vec<Site>,
        Vec<String>,
        Option<String>,
    ))
        requires
            self.wf(),
            paths@.len() == reads@.len(),
        ensures
            site_views(r.0@) == read_sites(
                paths@,
                reads@,
                needle@,
                self.labels_for(needle@),
                paths@.len() as int,
            ),
            text_views(r.1@) == settled_paths(paths@, reads@, paths@.len() as int),
            opt_string(r.2) == hint_text(
                unread_among(reads@, paths@.len() as int),
                needle@,
            ),
    {
        let mut scan = self.begin_scan(needle);
        scan.take_all(paths, reads);
        let hint = unread_hint(scan.unread, needle);
        (scan.sites, scan.settled, hint)
    }
}


// ───────────────────────────── joining the two ─────────────────────────────

/// Whether a line of a file is among some sites.
pub open spec fn lists_line(sites: Seq<SiteView>, path: Seq<char>, line: u32) -> bool {
    exists|i: int|
        0 <= i < sites.len() && same_path((#[trigger] sites[i]).path, path) && sites[i].line == line
}

/// Whether a posted site stands: the bytes of its file confirmed the line, or could not speak of
/// it.
pub open spec fn stands(site: SiteView, scanned: Seq<SiteView>, settled: Seq<String>) -> bool {
    !lists_path(settled, site.path) || lists_line(scanned, site.path, site.line)
}

/// The posted sites among the first `n` that stand.
pub open spec fn standing_sites(
    posted: Seq<SiteView>,
    scanned: Seq<SiteView>,
    settled: Seq<String>,
    n: int,
) -> Seq<SiteView>
    decreases n,
{
    if n <= 0 {
        seq![]
    } else {
        let rest = standing_sites(posted, scanned, settled, n - 1);
        if stands(posted[n - 1], scanned, settled) {
            rest.push(posted[n - 1])
        } else {
            rest
        }
    }
}

/// The scanned sites among the first `n` that no kept site already reports.
pub open spec fn fresh_sites(scanned: Seq<SiteView>, kept: Seq<SiteView>, n: int) -> Seq<SiteView>
    decreases n,
{
    if n <= 0 {
        seq![]
    } else {
        let rest = fresh_sites(scanned, kept, n - 1);
        if lists_line(kept, scanned[n - 1].path, scanned[n - 1].line) {
            rest
        } else {
            rest.push(scanned[n - 1])
        }
    }
}

/// The sites of a name: the posted ones that stand, then those only the files told.
pub open spec fn joined_sites(
    posted: Seq<SiteView>,
    scanned: Seq<SiteView>,
    settled: Seq<String>,
) -> Seq<SiteView> {
    let kept = standing_sites(posted, scanned, settled, posted.len() as int);
    kept + fresh_sites(scanned, kept, scanned.len() as int)
}

fn holds_line(sites: &Vec<Site>, path: &str, line: u32) -> (r: bool)
    ensures
        r == lists_line(site_views(sites@), path@, line),
{
    let ghost views = site_views(sites@);
    let mut i: usize = 0;
    while i < sites.len()
        invariant
            i <= sites@.len(),
            views == site_views(sites@),
            forall|k: int|
                0 <= k < i ==> !(same_path((#[trigger] views[k]).path, path@) && views[k].line
                    == line),
        decreases sites.len() - i,
    {
        assert(views[i as int] == sites@[i as int]@);
        if sites[i].line == line && is_same_path(sites[i].path.as_str(), path) {
            return true;
        }
        i += 1;
    }
    assert(views.len() == sites@.len());
    false
}

fn copy_site(s: &Site) -> (t: Site)
    ensures
        t@ == s@,
{
    Site { path: s.path.clone(), line: s.line, role: s.role.clone() }
}

/// Joins the posted sites of a name with those the files hold.
///
/// Where the bytes of a file were read they decide: a posted site that they do not confirm is
/// dropped. A confirmed one keeps its posted role, and a line is reported once however the two
/// name it.
pub fn join_sites(posted: &Vec<Site>, scanned: &Vec<Site>, settled: &Vec<String>) -> (out: Vec<
    Site,
>)
    ensures
        site_views(out@) == joined_sites(site_views(posted@), site_views(scanned@), settled@),
{
    let ghost p = site_views(posted@);
    let ghost s = site_views(scanned@);
    let mut kept: Vec<Site> = Vec::new();
    assert(site_views(kept@) =~= standing_sites(p, s, settled@, 0));
    let mut i: usize = 0;
    while i < posted.len()
        invariant
            i <= posted@.len(),
            p == site_views(posted@),
            s == site_views(scanned@),
            site_views(kept@) == standing_sites(p, s, settled@, i as int),
        decreases posted.len() - i,
    {
        assert(p[i as int] == posted@[i as int]@);
        let path = posted[i].path.as_str();
        if !contains_path(settled, path) || holds_line(scanned, path, posted[i].line) {
            let ghost was = kept@;
            kept.push(copy_site(&posted[i]));
            assert(site_views(kept@) =~= site_views(was).push(p[i as int]));
        }
        i += 1;
    }
    let ghost k = site_views(kept@);
    let mut fresh: Vec<Site> = Vec::new();
    assert(site_views(fresh@) =~= fresh_sites(s, k, 0));
    let mut j: usize = 0;
    while j < scanned.len()
        invariant
            j <= scanned@.len(),
            s == site_views(scanned@),
            k == site_views(kept@),
            site_views(fresh@) == fresh_sites(s, k, j as int),
        decreases scanned.len() - j,
    {
        assert(s[j as int] == scanned@[j as int]@);
        if !holds_line(&kept, scanned[j].path.as_str(), scanned[j].line) {
            let ghost was = fresh@;
            fresh.push(copy_site(&scanned[j]));
            assert(site_views(fresh@) =~= site_views(was).push(s[j as int]));
        }
        j += 1;
    }
    let ghost f = site_views(fresh@);
    let mut out = kept;
    out.append(&mut fresh);
    assert(site_views(out@) =~= k + f);
    assert(p.len() == posted@.len() && s.len() == scanned@.len());
    out
}

proof fn lemma_standing(
    posted: Seq<SiteView>,
    scanned: Seq<SiteView>,
    settled: Seq<String>,
    n: int,
)
    requires
        0 <= n <= posted.len(),
    ensures
        forall|i: int|
            #![trigger standing_sites(posted, scanned, settled, n)[i]]
            0 <= i < standing_sites(posted, scanned, settled, n).len() ==> stands(
                standing_sites(posted, scanned, settled, n)[i],
                scanned,
                settled,
            ),
    decreases n,
{
    if n > 0 {
        lemma_standing(posted, scanned, settled, n - 1);
        let before = standing_sites(posted, scanned, settled, n - 1);
        let now = standing_sites(posted, scanned, settled, n);
        assert forall|i: int| #![trigger now[i]] 0 <= i < now.len() implies stands(
            now[i],
            scanned,
            settled,
        ) by {
            if i < before.len() {
                assert(now[i] == before[i]);
            }
        }
    }
}

proof fn lemma_fresh(scanned: Seq<SiteView>, kept: Seq<SiteView>, n: int)
    requires
        0 <= n <= scanned.len(),
    ensures
        forall|i: int|
            #![trigger fresh_sites(scanned, kept, n)[i]]
            0 <= i < fresh_sites(scanned, kept, n).len() ==> scanned.contains(
                fresh_sites(scanned, kept, n)[i],
            ),
        forall|i: int|
            #![trigger scanned[i]]
            0 <= i < n ==> lists_line(kept, scanned[i].path, scanned[i].line)
                || fresh_sites(scanned, kept, n).contains(scanned[i]),
    decreases n,
{
    if n > 0 {
        lemma_fresh(scanned, kept, n - 1);
        let before = fresh_sites(scanned, kept, n - 1);
        let now = fresh_sites(scanned, kept, n);
        assert(scanned.contains(scanned[n - 1]));
        assert forall|i: int| #![trigger scanned[i]] 0 <= i < n implies lists_line(
            kept,
            scanned[i].path,
            scanned[i].line,
        ) || now.contains(scanned[i]) by {
            if i == n - 1 {
                if now != before {
                    assert(now[now.len() - 1] == scanned[i]);
                }
            } else if before.contains(scanned[i]) {
                let k = choose|k: int| 0 <= k < before.len() && before[k] == scanned[i];
                assert(now[k] == scanned[i]);
            }
        }
    }
}

/// Nothing that the files hold is missing from the answer: every line the scan found is reported.
pub proof fn lemma_scanned_lines_are_reported(
    posted: Seq<SiteView>,
    scanned: Seq<SiteView>,
    settled: Seq<String>,
    i: int,
)
    requires
        0 <= i < scanned.len(),
    ensures
        lists_line(joined_sites(posted, scanned, settled), scanned[i].path, scanned[i].line),
{
    let kept = standing_sites(posted, scanned, settled, posted.len() as int);
    let fresh = fresh_sites(scanned, kept, scanned.len() as int);
    let all = joined_sites(posted, scanned, settled);
    lemma_fresh(scanned, kept, scanned.len() as int);
    let site = scanned[i];
    if lists_line(kept, site.path, site.line) {
        let k = choose|k: int|
            0 <= k < kept.len() && same_path((#[trigger] kept[k]).path, site.path) && kept[k].line
                == site.line;
        assert(all[k] == kept[k]);
    } else {
        let k = choose|k: int| 0 <= k < fresh.len() && fresh[k] == site;
        assert(all[kept.len() + k] == site);
    }
}

/// Where the bytes of a file were read, the answer reports no line of it that they do not hold.
pub proof fn lemma_settled_files_report_what_they_hold(
    posted: Seq<SiteView>,
    scanned: Seq<SiteView>,
    settled: Seq<String>,
    i: int,
)
    requires
        0 <= i < joined_sites(posted, scanned, settled).len(),
        lists_path(settled, joined_sites(posted, scanned, settled)[i].path),
    ensures
        lists_line(
            scanned,
            joined_sites(posted, scanned, settled)[i].path,
            joined_sites(posted, scanned, settled)[i].line,
        ),
{
    let kept = standing_sites(posted, scanned, settled, posted.len() as int);
    let fresh = fresh_sites(scanned, kept, scanned.len() as int);
    let all = joined_sites(posted, scanned, settled);
    lemma_standing(posted, scanned, settled, posted.len() as int);
    lemma_fresh(scanned, kept, scanned.len() as int);
    if i < kept.len() {
        assert(all[i] == kept[i]);
    } else {
        assert(all[i] == fresh[i - kept.len()]);
        let k = choose|k: int| 0 <= k < scanned.len() && scanned[k] == all[i];
        assert(same_path(scanned[k].path, all[i].path));
    }
}


// ───────────────────────────── the names to look up ─────────────────────────────

/// Whether a name index holds a token.
pub open spec fn indexes_token(index: Option<CountIndex>, t: Seq<char>) -> bool {
    index is Some && index->0@.contains_key(encode_utf8(t))
}

/// Whether one of the first `n` recorded uses is of a token.
pub open spec fn uses_token(usages: Seq<(String, u32)>, t: Seq<char>, n: int) -> bool {
    exists|k: int| 0 <= k < n && (#[trigger] usages[k]).0@ == t
}

/// Whether a stored token is reached by a needle that is no single token: it is no identifier
/// either, and contains the needle.
pub open spec fn reached_by(t: Seq<char>, needle: Seq<char>) -> bool {
    !core_text(t) && occurs(t, needle)
}

fn reaches(token: &str, needle: &Vec<char>) -> (r: bool)
    ensures
        r == reached_by(token@, needle@),
{
    if is_core_alphabet(token) {
        return false;
    }
    let chars = chars_of(token);
    contains_run(&chars, needle)
}

fn push_indexed_tokens(names: &mut Vec<String>, index: &CountIndex, needle: &Vec<char>)
    ensures
        forall|t: Seq<char>| #[trigger]
            lists_text(final(names)@, t) == (lists_text(old(names)@, t) || (index@.contains_key(
                encode_utf8(t),
            ) && reached_by(t, needle@))),
{
    let ghost start = names@;
    let entries = index.entries();
    let mut i: usize = 0;
    while i < entries.len()
        invariant
            i <= entries@.len(),
            lists_entries(entries@, index@),
            forall|t: Seq<char>| #[trigger]
                lists_text(names@, t) == (lists_text(start, t) || (reached_by(t, needle@)
                    && exists|k: int| 0 <= k < i && (#[trigger] entries@[k]).0@ == encode_utf8(t))),
        decreases entries.len() - i,
    {
        let ghost was = names@;
        let ghost key = entries@[i as int].0@;
        let text = utf8_text(entries[i].0.as_slice());
        let mut pushed = false;
        match text {
            Some(token) => {
                let ghost view = token@;
                proof {
                    decode_utf8_encode_utf8(key);
                    assert(encode_utf8(view) == key);
                }
                if reaches(token.as_str(), needle) {
                    names.push(token);
                    pushed = true;
                }
                proof {
                    lemma_lists_push(was, token, names@, pushed);
                    assert forall|t: Seq<char>| #[trigger] lists_text(names@, t) == (lists_text(
                        start,
                        t,
                    ) || (reached_by(t, needle@) && exists|k: int|
                        0 <= k < i + 1 && (#[trigger] entries@[k]).0@ == encode_utf8(t))) by {
                        lemma_one_more_entry(entries@, t, i as int);
                        if encode_utf8(t) == key {
                            encode_utf8_decode_utf8(t);
                            encode_utf8_decode_utf8(view);
                            assert(t == view);
                        }
                    }
                }
            },
            None => {
                proof {
                    assert forall|t: Seq<char>| #[trigger] lists_text(names@, t) == (lists_text(
                        start,
                        t,
                    ) || (reached_by(t, needle@) && exists|k: int|
                        0 <= k < i + 1 && (#[trigger] entries@[k]).0@ == encode_utf8(t))) by {
                        lemma_one_more_entry(entries@, t, i as int);
                        if encode_utf8(t) == key {
                            encode_utf8_valid_utf8(t);
                        }
                    }
                }
            },
        }
        i += 1;
    }
}

proof fn lemma_one_more_entry(entries: Seq<(Vec<u8>, u64)>, t: Seq<char>, i: int)
    requires
        0 <= i < entries.len(),
    ensures
        (exists|k: int| 0 <= k < i + 1 && (#[trigger] entries[k]).0@ == encode_utf8(t)) == ((exists|
            k: int,
        |
            0 <= k < i && (#[trigger] entries[k]).0@ == encode_utf8(t)) || entries[i].0@
            == encode_utf8(t)),
{
    if exists|k: int| 0 <= k < i + 1 && (#[trigger] entries[k]).0@ == encode_utf8(t) {
        let k = choose|k: int| 0 <= k < i + 1 && (#[trigger] entries[k]).0@ == encode_utf8(t);
        if k < i {
            assert(entries[k].0@ == encode_utf8(t));
        }
    }
    if exists|k: int| 0 <= k < i && (#[trigger] entries[k]).0@ == encode_utf8(t) {
        let k = choose|k: int| 0 <= k < i && (#[trigger] entries[k]).0@ == encode_utf8(t);
        assert(0 <= k < i + 1);
    }
}

fn push_used_tokens(names: &mut Vec<String>, usages: &Vec<(String, u32)>, needle: &Vec<char>)
    ensures
        forall|t: Seq<char>| #[trigger]
            lists_text(final(names)@, t) == (lists_text(old(names)@, t) || (uses_token(
                usages@,
                t,
                usages@.len() as int,
            ) && reached_by(t, needle@))),
{
    let ghost start = names@;
    let mut i: usize = 0;
    while i < usages.len()
        invariant
            i <= usages@.len(),
            forall|t: Seq<char>| #[trigger]
                lists_text(names@, t) == (lists_text(start, t) || (uses_token(usages@, t, i as int)
                    && reached_by(t, needle@))),
        decreases usages.len() - i,
    {
        let ghost was = names@;
        let keep = reaches(usages[i].0.as_str(), needle);
        if keep {
            names.push(usages[i].0.clone());
        }
        proof {
            lemma_lists_push(was, usages@[i as int].0, names@, keep);
            assert forall|t: Seq<char>| #[trigger] lists_text(names@, t) == (lists_text(start, t)
                || (uses_token(usages@, t, i + 1) && reached_by(t, needle@))) by {
                if uses_token(usages@, t, i + 1) {
                    let k = choose|k: int| 0 <= k < i + 1 && (#[trigger] usages@[k]).0@ == t;
                    if k < i {
                        assert(usages@[k].0@ == t);
                        assert(uses_token(usages@, t, i as int));
                    }
                }
                if uses_token(usages@, t, i as int) {
                    let k = choose|k: int| 0 <= k < i && (#[trigger] usages@[k]).0@ == t;
                    assert(0 <= k < i + 1);
                }
                if t == usages@[i as int].0@ {
                    assert(uses_token(usages@, t, i + 1));
                }
            }
        }
        i += 1;
    }
}

impl ColumnarStorage {
    /// Whether one of the first `n` segments of the session records a use of a token.
    pub open spec fn session_uses(&self, t: Seq<char>, n: int) -> bool {
        exists|j: int|
            0 <= j < n && uses_token(
                (#[trigger] self.dirty.added@[j]).reader.usages@,
                t,
                self.dirty.added@[j].reader.usages@.len() as int,
            )
    }

    /// Whether a use of a token is recorded anywhere in the workspace.
    pub open spec fn stores_token(&self, t: Seq<char>) -> bool {
        indexes_token(self.index().usages_count, t) || self.session_uses(
            t,
            self.dirty.added@.len() as int,
        )
    }

    /// The names to look up for a needle that is no single token: the needle itself, and every
    /// stored token outside the identifier alphabet that contains it. A needle shorter than three
    /// bytes stands for itself alone.
    pub fn substring_names(&self, needle: &str) -> (names: Vec<String>)
        requires
            self.wf(),
        ensures
            encode_utf8(needle@).len() < 3 ==> text_views(names@) == seq![needle@],
            encode_utf8(needle@).len() >= 3 ==> texts_ascend(names@) && forall|t: Seq<char>|
                #[trigger]
                lists_text(names@, t) == (t == needle@ || (self.stores_token(t) && reached_by(
                    t,
                    needle@,
                ))),
    {
        let mut names: Vec<String> = Vec::new();
        let own = needle.to_owned();
        proof {
            lemma_lists_push(names@, own, names@.push(own), true);
        }
        names.push(own);
        if needle.as_bytes().len() < 3 {
            assert(text_views(names@) =~= seq![needle@]);
            return names;
        }
        let chars = chars_of(needle);
        match &self.shared.overlay.usages_count {
            Some(index) => push_indexed_tokens(&mut names, index, &chars),
            None => {},
        }
        let ghost base = names@;
        let mut j: usize = 0;
        while j < self.dirty.added.len()
            invariant
                j <= self.dirty.added@.len(),
                chars@ == needle@,
                forall|t: Seq<char>| #[trigger]
                    lists_text(names@, t) == (lists_text(base, t) || (self.session_uses(t, j as int)
                        && reached_by(t, needle@))),
            decreases self.dirty.added.len() - j,
        {
            let ghost was = names@;
            push_used_tokens(&mut names, &self.dirty.added[j].reader.usages, &chars);
            proof {
                let uses = self.dirty.added@[j as int].reader.usages@;
                assert forall|t: Seq<char>| #[trigger] lists_text(names@, t) == (lists_text(base, t)
                    || (self.session_uses(t, j + 1) && reached_by(t, needle@))) by {
                    if self.session_uses(t, j + 1) {
                        let k = choose|k: int|
                            0 <= k < j + 1 && uses_token(
                                (#[trigger] self.dirty.added@[k]).reader.usages@,
                                t,
                                self.dirty.added@[k].reader.usages@.len() as int,
                            );
                        if k < j {
                            assert(self.session_uses(t, j as int));
                        }
                    }
                    if self.session_uses(t, j as int) {
                        let k = choose|k: int|
                            0 <= k < j && uses_token(
                                (#[trigger] self.dirty.added@[k]).reader.usages@,
                                t,
                                self.dirty.added@[k].reader.usages@.len() as int,
                            );
                        assert(0 <= k < j + 1);
                    }
                    if uses_token(uses, t, uses.len() as int) {
                        assert(self.session_uses(t, j + 1));
                    }
                }
            }
            j += 1;
        }
        sorted_texts(&names)
    }

    /// Whether `names` are the names to look up for a query.
    pub open spec fn looked_up(&self, name: Seq<char>, names: Seq<String>) -> bool {
        if core_text(name) || encode_utf8(name).len() < 3 {
            text_views(names) == seq![name]
        } else {
            texts_ascend(names) && forall|t: Seq<char>| #[trigger]
                lists_text(names, t) == (t == name || (self.stores_token(t) && reached_by(t, name)))
        }
    }

    /// The sites posted under the names that a query's name stands for.
    pub open spec fn posted_for(&self, name: Seq<char>, posted: Seq<SiteView>) -> bool {
        exists|names: Seq<String>| #[trigger]
            self.looked_up(name, names) && posted == self.sites_of_all(
                text_views(names),
                names.len() as int,
            )
    }

    /// The sites posted under the names that a query's name stands for.
    pub fn posted_sites_of(&self, name: &str) -> (out: Vec<Site>)
        requires
            self.wf(),
        ensures
            self.posted_for(name@, site_views(out@)),
    {
        let names: Vec<String> = if is_core_alphabet(name) {
            let mut one: Vec<String> = Vec::new();
            one.push(name.to_owned());
            assert(text_views(one@) =~= seq![name@]);
            one
        } else {
            self.substring_names(name)
        };
        assert(self.looked_up(name@, names@));
        self.sites_of_each(&names)
    }

    /// Whether `r` answers `FIND usages`: one row for each site, those posted joined with those that
    /// the files hold, delivered as the clauses ask. More sites than `max`, posted or in all, are
    /// refused.
    pub open spec fn answers_usages(
        &self,
        name: Seq<char>,
        clauses: Clauses,
        scanned: Seq<Site>,
        settled: Seq<String>,
        max: usize,
        posted: Seq<SiteView>,
        r: Result<FindPage, FindRefusal>,
    ) -> bool {
        let sites = joined_sites(posted, site_views(scanned), settled);
        &&& self.posted_for(name, posted)
        &&& if posted.len() > max {
            r == Err::<FindPage, _>(too_many_sites(posted.len() as usize, max))
        } else if sites.len() > max {
            r == Err::<FindPage, _>(too_many_sites(sites.len() as usize, max))
        } else {
            r is Ok && exists|rows: Seq<SymbolMatch>, found: Seq<Site>| #[trigger]
                are_occurrences(rows, name, found) && site_views(found) == sites && is_delivery(
                    rows,
                    clauses,
                    r->Ok_0,
                )
        }
    }

    /// `FIND usages`. `scanned` and `settled` are what the files told, and `max` is how many rows may
    /// be built.
    pub fn find_usages(
        &self,
        name: &str,
        clauses: &Clauses,
        scanned: &Vec<Site>,
        settled: &Vec<String>,
        max: usize,
    ) -> (r: Result<FindPage, FindRefusal>)
        requires
            self.wf(),
        ensures
            exists|posted: Seq<SiteView>| #[trigger]
                self.answers_usages(name@, *clauses, scanned@, settled@, max, posted, r),
    {
        let posted = self.posted_sites_of(name);
        let ghost given = site_views(posted@);
        if posted.len() > max {
            let r = Err(FindRefusal::Usages { sites: posted.len(), max });
            assert(self.answers_usages(name@, *clauses, scanned@, settled@, max, given, r));
            return r;
        }
        let sites = join_sites(&posted, scanned, settled);
        assert(site_views(sites@).len() == sites@.len());
        if sites.len() > max {
            let r = Err(FindRefusal::Usages { sites: sites.len(), max });
            assert(self.answers_usages(name@, *clauses, scanned@, settled@, max, given, r));
            return r;
        }
        let rows = occurrence_rows(name, &sites);
        let ghost built = rows@;
        assert(are_occurrences(built, name@, sites@));
        let page = deliver(rows, clauses);
        let r: Result<FindPage, FindRefusal> = Ok(page);
        assert(self.answers_usages(name@, *clauses, scanned@, settled@, max, given, r));
        r
    }
}

/// The refusal of `n` sites.
pub open spec fn too_many_sites(n: usize, max: usize) -> FindRefusal {
    FindRefusal::Usages { sites: n, max }
}

/// Whether a row reports a site of a name: the name, the place and the role, and nothing else.
pub open spec fn is_occurrence(row: SymbolMatch, name: Seq<char>, site: SiteView) -> bool {
    &&& row.name@ == name
    &&& opt_string(row.path) == Some(site.path)
    &&& row.line == Some(site.line as usize)
    &&& row.fields@.len() == 1
    &&& row.fields@[0].0@ == "role"@
    &&& row.fields@[0].1@ == site.role
    &&& row.node_kind is None && row.fql_kind is None && row.language is None
    &&& row.usages_count is None && row.count is None && row.node_id is None && row.rev is None
}

/// Whether rows report sites of a name, one for each.
pub open spec fn are_occurrences(rows: Seq<SymbolMatch>, name: Seq<char>, sites: Seq<Site>) -> bool {
    rows.len() == sites.len() && forall|i: int|
        0 <= i < rows.len() ==> is_occurrence(#[trigger] rows[i], name, sites[i]@)
}

/// The rows that report sites of a name.
pub fn occurrence_rows(name: &str, sites: &Vec<Site>) -> (rows: Vec<SymbolMatch>)
    ensures
        are_occurrences(rows@, name@, sites@),
{
    let mut rows: Vec<SymbolMatch> = Vec::new();
    let mut i: usize = 0;
    while i < sites.len()
        invariant
            i <= sites@.len(),
            rows@.len() == i,
            forall|k: int| 0 <= k < i ==> is_occurrence(#[trigger] rows@[k], name@, sites@[k]@),
        decreases sites.len() - i,
    {
        let mut fields: Vec<(String, String)> = Vec::new();
        fields.push(("role".to_owned(), sites[i].role.clone()));
        rows.push(
            SymbolMatch {
                name: name.to_owned(),
                node_kind: None,
                fql_kind: None,
                language: None,
                path: Some(sites[i].path.clone()),
                line: Some(sites[i].line as usize),
                usages_count: None,
                fields,
                count: None,
                node_id: None,
                rev: None,
            },
        );
        i += 1;
    }
    rows
}

} // verus!
