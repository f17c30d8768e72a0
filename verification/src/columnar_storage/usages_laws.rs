//! What an answer to `FIND usages` promises: which occurrences it reports, and in which roles.

use crate::columnar_storage::find::{mention_sites, segment_sites, use_sites, SiteView};
use crate::columnar_storage::literals::occurs;
use crate::columnar_storage::scan::{core_text, line_holds, lines_from, without_return};
use crate::columnar_storage::usage_adjust::uses_among;
use crate::columnar_storage::usages::{
    is_occurrence, line_number, line_sites, read_sites, role_from, sites_in_text, FileRead,
};
use crate::columnar_storage::ColumnarStorage;
use crate::filter::ClauseTarget;
use crate::overlay::lookup::text_views;
use crate::path_parts::same_path;
use crate::segment::{extra_of, lists_text, SegmentReader, SymbolMatch};
use crate::columnar_storage::usages::{settled_paths, unread_among};
use crate::columnar_storage::usages::{
    fresh_sites, joined_sites, lists_line, standing_sites,
};
use crate::path_parts::lists_path;
use vstd::prelude::*;
use vstd::string::*;

verus! {

// ───────────────────────────── what segments record ─────────────────────────────

/// Whether a segment records an occurrence of a token on a line in a role: as a use, which stands in
/// code, or as a mention, in the role that it was recorded in.
pub open spec fn records(seg: SegmentReader, token: Seq<char>, line: u32, role: Seq<char>) -> bool {
    ||| role == seq!['c', 'o', 'd', 'e'] && exists|k: int|
        0 <= k < seg.usages@.len() && (#[trigger] seg.usages@[k]).0@ == token && seg.usages@[k].1
            == line
    ||| exists|k: int|
        0 <= k < seg.mentions@.len() && (#[trigger] seg.mentions@[k]).0@ == token
            && seg.mentions@[k].1@ == role && seg.mentions@[k].2 == line
}

proof fn lemma_use_sites(usages: Seq<(String, u32)>, token: Seq<char>, path: Seq<char>, n: int, site: SiteView)
    requires
        0 <= n <= usages.len(),
    ensures
        use_sites(usages, token, path, n).contains(site) <==> site.path == path && site.role == seq![
            'c',
            'o',
            'd',
            'e',
        ] && exists|k: int|
            0 <= k < n && (#[trigger] usages[k]).0@ == token && usages[k].1 == site.line,
    decreases n,
{
    reveal_strlit("code");
    assert("code"@ =~= seq!['c', 'o', 'd', 'e']);
    if n > 0 {
        lemma_use_sites(usages, token, path, n - 1, site);
        let rest = use_sites(usages, token, path, n - 1);
        let all = use_sites(usages, token, path, n);
        lemma_pushed_site(rest, all, site);
        if all.contains(site) && !rest.contains(site) {
            assert(usages[n - 1].0@ == token && usages[n - 1].1 == site.line);
        }
        if rest.contains(site) {
            let k = choose|k: int|
                0 <= k < n - 1 && (#[trigger] usages[k]).0@ == token && usages[k].1 == site.line;
            assert(usages[k].0@ == token && usages[k].1 == site.line);
        }
        if site.path == path && site.role == seq!['c', 'o', 'd', 'e'] && exists|k: int|
            0 <= k < n && (#[trigger] usages[k]).0@ == token && usages[k].1 == site.line {
            let k = choose|k: int|
                0 <= k < n && (#[trigger] usages[k]).0@ == token && usages[k].1 == site.line;
            if k == n - 1 {
                assert(all.last() == site);
            }
        }
    } else {
        assert(use_sites(usages, token, path, n).len() == 0);
    }
}

proof fn lemma_pushed_site(rest: Seq<SiteView>, all: Seq<SiteView>, site: SiteView)
    requires
        all == rest || (all.len() > 0 && all == rest.push(all.last())),
    ensures
        rest.contains(site) ==> all.contains(site),
        all.contains(site) ==> rest.contains(site) || (all.len() == rest.len() + 1 && all.last()
            == site),
        all.len() == rest.len() + 1 && all.last() == site ==> all.contains(site),
{
    if rest.contains(site) {
        let k = choose|k: int| 0 <= k < rest.len() && rest[k] == site;
        assert(all[k] == site);
    }
    if all.contains(site) {
        let k = choose|k: int| 0 <= k < all.len() && all[k] == site;
        if k < rest.len() {
            assert(rest[k] == site);
        }
    }
    if all.len() == rest.len() + 1 && all.last() == site {
        assert(all[all.len() - 1] == site);
    }
}

proof fn lemma_mention_sites(
    mentions: Seq<(String, String, u32)>,
    token: Seq<char>,
    path: Seq<char>,
    n: int,
    site: SiteView,
)
    requires
        0 <= n <= mentions.len(),
    ensures
        mention_sites(mentions, token, path, n).contains(site) <==> site.path == path && exists|
            k: int,
        |
            0 <= k < n && (#[trigger] mentions[k]).0@ == token && mentions[k].1@ == site.role
                && mentions[k].2 == site.line,
    decreases n,
{
    if n > 0 {
        lemma_mention_sites(mentions, token, path, n - 1, site);
        let rest = mention_sites(mentions, token, path, n - 1);
        let all = mention_sites(mentions, token, path, n);
        lemma_pushed_site(rest, all, site);
        if all.contains(site) && !rest.contains(site) {
            assert(mentions[n - 1].0@ == token && mentions[n - 1].1@ == site.role && mentions[n
                - 1].2 == site.line);
        }
        if rest.contains(site) {
            let k = choose|k: int|
                0 <= k < n - 1 && (#[trigger] mentions[k]).0@ == token && mentions[k].1@
                    == site.role && mentions[k].2 == site.line;
            assert(mentions[k].0@ == token && mentions[k].1@ == site.role && mentions[k].2
                == site.line);
        }
        if site.path == path && exists|k: int|
            0 <= k < n && (#[trigger] mentions[k]).0@ == token && mentions[k].1@ == site.role
                && mentions[k].2 == site.line {
            let k = choose|k: int|
                0 <= k < n && (#[trigger] mentions[k]).0@ == token && mentions[k].1@ == site.role
                    && mentions[k].2 == site.line;
            if k == n - 1 {
                assert(all.last() == site);
            }
        }
    } else {
        assert(mention_sites(mentions, token, path, n).len() == 0);
    }
}

proof fn lemma_joined_sites(a: Seq<SiteView>, b: Seq<SiteView>, site: SiteView)
    ensures
        (a + b).contains(site) <==> a.contains(site) || b.contains(site),
{
    let all = a + b;
    if a.contains(site) {
        let k = choose|k: int| 0 <= k < a.len() && a[k] == site;
        assert(all[k] == site);
    }
    if b.contains(site) {
        let k = choose|k: int| 0 <= k < b.len() && b[k] == site;
        assert(all[a.len() + k] == site);
    }
    if all.contains(site) {
        let k = choose|k: int| 0 <= k < all.len() && all[k] == site;
        if k < a.len() {
            assert(a[k] == site);
        } else {
            assert(b[k - a.len()] == site);
        }
    }
}

proof fn lemma_segment_sites(seg: &SegmentReader, path: Seq<char>, token: Seq<char>, site: SiteView)
    ensures
        segment_sites(*seg, path, token).contains(site) <==> site.path == path && records(
            *seg,
            token,
            site.line,
            site.role,
        ),
{
    let n = seg.usages@.len() as int;
    let m = seg.mentions@.len() as int;
    lemma_use_sites(seg.usages@, token, path, n, site);
    lemma_mention_sites(seg.mentions@, token, path, m, site);
    lemma_joined_sites(
        use_sites(seg.usages@, token, path, n),
        mention_sites(seg.mentions@, token, path, m),
        site,
    );
}

impl ColumnarStorage {
    /// Whether a visible segment records an occurrence of a token: one of the overlay that is not
    /// hidden, or one of the session.
    pub open spec fn is_recorded(&self, token: Seq<char>, site: SiteView) -> bool {
        ||| exists|i: int|
            0 <= i < self.seg_count() && !self.dirty.hides(#[trigger] self.index().segments@[i])
                && site.path == self.index().segments@[i].source_path@ && records(
                self.seg(i),
                token,
                site.line,
                site.role,
            )
        ||| exists|j: int|
            0 <= j < self.dirty.added@.len() && site.path == (
            #[trigger] self.dirty.added@[j]).source_path@ && records(
                *self.dirty.added@[j].reader,
                token,
                site.line,
                site.role,
            )
    }

    proof fn lemma_overlay_sites(&self, token: Seq<char>, n: int, site: SiteView)
        requires
            0 <= n,
        ensures
            self.overlay_sites(token, n).contains(site) <==> exists|i: int|
                0 <= i < n && !self.dirty.hides(#[trigger] self.index().segments@[i]) && site.path
                    == self.index().segments@[i].source_path@ && records(
                    self.seg(i),
                    token,
                    site.line,
                    site.role,
                ),
        decreases n,
    {
        if n > 0 {
            self.lemma_overlay_sites(token, n - 1, site);
            let meta = self.index().segments@[n - 1];
            let rest = self.overlay_sites(token, n - 1);
            let more = segment_sites(self.seg(n - 1), meta.source_path@, token);
            lemma_segment_sites(&self.seg(n - 1), meta.source_path@, token, site);
            lemma_joined_sites(rest, more, site);
            if rest.contains(site) {
                let i = choose|i: int|
                    0 <= i < n - 1 && !self.dirty.hides(#[trigger] self.index().segments@[i])
                        && site.path == self.index().segments@[i].source_path@ && records(
                        self.seg(i),
                        token,
                        site.line,
                        site.role,
                    );
                assert(!self.dirty.hides(self.index().segments@[i]));
            }
        } else {
            assert(self.overlay_sites(token, n).len() == 0);
        }
    }

    proof fn lemma_session_sites(&self, token: Seq<char>, n: int, site: SiteView)
        requires
            0 <= n,
        ensures
            self.session_sites(token, n).contains(site) <==> exists|j: int|
                0 <= j < n && site.path == (#[trigger] self.dirty.added@[j]).source_path@ && records(
                    *self.dirty.added@[j].reader,
                    token,
                    site.line,
                    site.role,
                ),
        decreases n,
    {
        if n > 0 {
            self.lemma_session_sites(token, n - 1, site);
            let path = self.dirty.added@[n - 1].source_path@;
            let rest = self.session_sites(token, n - 1);
            let seg = &*self.dirty.added@[n - 1].reader;
            let more = segment_sites(*seg, path, token);
            lemma_segment_sites(seg, path, token, site);
            lemma_joined_sites(rest, more, site);
            if rest.contains(site) {
                let j = choose|j: int|
                    0 <= j < n - 1 && site.path == (#[trigger] self.dirty.added@[j]).source_path@
                        && records(*self.dirty.added@[j].reader, token, site.line, site.role);
                assert(site.path == self.dirty.added@[j].source_path@);
            }
        } else {
            assert(self.session_sites(token, n).len() == 0);
        }
    }

    /// What is posted for a token is what the visible segments record of it: every use as code and
    /// every mention in its own role, in its file and on its line, and nothing else.
    pub proof fn lemma_posted_sites_are_the_records(&self, token: Seq<char>, site: SiteView)
        ensures
            self.posted_sites(token).contains(site) <==> self.is_recorded(token, site),
    {
        self.lemma_overlay_sites(token, self.seg_count() as int, site);
        self.lemma_session_sites(token, self.dirty.added@.len() as int, site);
        lemma_joined_sites(
            self.overlay_sites(token, self.seg_count() as int),
            self.session_sites(token, self.dirty.added@.len() as int),
            site,
        );
    }

    proof fn lemma_sites_of_all(&self, tokens: Seq<Seq<char>>, n: int, site: SiteView)
        requires
            0 <= n <= tokens.len(),
        ensures
            self.sites_of_all(tokens, n).contains(site) <==> exists|k: int|
                0 <= k < n && self.is_recorded(#[trigger] tokens[k], site),
        decreases n,
    {
        if n > 0 {
            self.lemma_sites_of_all(tokens, n - 1, site);
            self.lemma_posted_sites_are_the_records(tokens[n - 1], site);
            lemma_joined_sites(
                self.sites_of_all(tokens, n - 1),
                self.posted_sites(tokens[n - 1]),
                site,
            );
            if self.sites_of_all(tokens, n - 1).contains(site) {
                let k = choose|k: int|
                    0 <= k < n - 1 && self.is_recorded(#[trigger] tokens[k], site);
                assert(self.is_recorded(tokens[k], site));
            }
        } else {
            assert(self.sites_of_all(tokens, n).len() == 0);
        }
    }

    /// What is posted for a name that is one token is what is recorded of it. For any other name what
    /// is recorded of it is posted as well, and whatever else is posted is recorded of a token that
    /// holds the name within it.
    pub proof fn lemma_a_name_is_posted_for(
        &self,
        name: Seq<char>,
        posted: Seq<SiteView>,
        site: SiteView,
    )
        requires
            self.posted_for(name, posted),
        ensures
            self.is_recorded(name, site) ==> posted.contains(site),
            core_text(name) && posted.contains(site) ==> self.is_recorded(name, site),
            posted.contains(site) ==> self.is_recorded(name, site) || exists|t: Seq<char>|
                #[trigger]
                occurs(t, name) && self.is_recorded(t, site),
    {
        let names = choose|names: Seq<String>| #[trigger]
            self.looked_up(name, names) && posted == self.sites_of_all(
                text_views(names),
                names.len() as int,
            );
        let tokens = text_views(names);
        self.lemma_sites_of_all(tokens, tokens.len() as int, site);
        if core_text(name) || vstd::utf8::encode_utf8(name).len() < 3 {
            assert(tokens[0] == name);
            assert(tokens.len() == 1);
        } else {
            assert(lists_text(names, name));
            let k = choose|k: int| 0 <= k < names.len() && (#[trigger] names[k])@ == name;
            assert(tokens[k] == name);
            if posted.contains(site) {
                let m = choose|m: int|
                    0 <= m < tokens.len() && self.is_recorded(#[trigger] tokens[m], site);
                assert(names[m]@ == tokens[m]);
                assert(lists_text(names, tokens[m]));
            }
        }
    }
}

// ───────────────────────────── what files hold ─────────────────────────────

/// The lines of a text: what stands before the first line break is the first line, without a
/// carriage return at its end, and what stands behind it has the others. A text without a line break
/// is one line, and no text has none.
pub proof fn lemma_line_breaks_part_lines(head: Seq<char>, rest: Seq<char>)
    requires
        !head.contains('\n'),
    ensures
        head.len() == 0 || head.last() != '\r' ==> lines_from(head + seq!['\n'] + rest, 0, 0)
            == seq![head] + lines_from(rest, 0, 0),
        lines_from(head + seq!['\r', '\n'] + rest, 0, 0) == seq![head] + lines_from(rest, 0, 0),
        head.len() > 0 ==> lines_from(head, 0, 0) == seq![head],
        lines_from(Seq::empty(), 0, 0).len() == 0,
{
    lemma_first_line(head, rest, 0);
    let returned = head + seq!['\r'];
    assert(!returned.contains('\n')) by {
        if returned.contains('\n') {
            let k = choose|k: int| 0 <= k < returned.len() && returned[k] == '\n';
            assert(head[k] == '\n');
        }
    }
    lemma_first_line(returned, rest, 0);
    assert(returned.drop_last() =~= head);
    assert(head + seq!['\r', '\n'] + rest =~= returned + seq!['\n'] + rest);
    if head.len() > 0 {
        lemma_only_line(head, 0);
    }
}

proof fn lemma_first_line(head: Seq<char>, rest: Seq<char>, i: int)
    requires
        0 <= i <= head.len(),
        !head.contains('\n'),
    ensures
        lines_from(head + seq!['\n'] + rest, 0, i) == seq![without_return(head)] + lines_from(
            rest,
            0,
            0,
        ),
    decreases head.len() - i,
{
    let s = head + seq!['\n'] + rest;
    if i < head.len() {
        assert(s[i] == head[i]);
        assert(head.contains(head[i]));
        lemma_first_line(head, rest, i + 1);
    } else {
        assert(s[i] == '\n');
        assert(s.subrange(0, i) =~= head);
        assert(s.skip(i + 1) =~= rest);
        lemma_shifted_lines(s, i + 1, rest, 0, 0);
    }
}

proof fn lemma_shifted_lines(s: Seq<char>, n: int, rest: Seq<char>, start: int, i: int)
    requires
        0 <= n <= s.len(),
        s.skip(n) == rest,
        0 <= start <= i <= rest.len(),
    ensures
        lines_from(s, n + start, n + i) == lines_from(rest, start, i),
    decreases rest.len() - i,
{
    assert(rest.len() == s.len() - n);
    if i < rest.len() {
        assert(s[n + i] == rest[i]);
        if rest[i] == '\n' {
            assert(s.subrange(n + start, n + i) =~= rest.subrange(start, i));
            lemma_shifted_lines(s, n, rest, i + 1, i + 1);
        } else {
            lemma_shifted_lines(s, n, rest, start, i + 1);
        }
    } else {
        assert(s.subrange(n + start, s.len() as int) =~= rest.subrange(start, rest.len() as int));
    }
}

proof fn lemma_only_line(head: Seq<char>, i: int)
    requires
        0 <= i <= head.len(),
        !head.contains('\n'),
        head.len() > 0,
    ensures
        lines_from(head, 0, i) == seq![head],
    decreases head.len() - i,
{
    if i < head.len() {
        assert(head.contains(head[i]));
        lemma_only_line(head, i + 1);
    } else {
        assert(head.subrange(0, head.len() as int) =~= head);
    }
}

proof fn lemma_line_sites(
    path: Seq<char>,
    lines: Seq<Seq<char>>,
    needle: Seq<char>,
    labels: Seq<SiteView>,
    n: int,
    site: SiteView,
)
    requires
        0 <= n <= lines.len() <= u32::MAX,
    ensures
        line_sites(path, lines, needle, labels, n).contains(site) ==> site.path == path && 1
            <= site.line <= n && line_holds(lines[site.line - 1], needle, core_text(needle))
            && site.role == role_from(labels, path, site.line, 0),
        site.path == path && 1 <= site.line <= n && line_holds(
            lines[site.line - 1],
            needle,
            core_text(needle),
        ) && site.role == role_from(labels, path, site.line, 0) ==> line_sites(
            path,
            lines,
            needle,
            labels,
            n,
        ).contains(site),
    decreases n,
{
    if n > 0 {
        lemma_line_sites(path, lines, needle, labels, n - 1, site);
        let rest = line_sites(path, lines, needle, labels, n - 1);
        let all = line_sites(path, lines, needle, labels, n);
        lemma_pushed_site(rest, all, site);
        assert(line_number(n - 1) == n);
        if line_holds(lines[n - 1], needle, core_text(needle)) {
            let new = SiteView {
                path,
                line: line_number(n - 1),
                role: role_from(labels, path, line_number(n - 1), 0),
            };
            assert(all.last() == new);
            if site.path == path && site.line == n && site.role == role_from(
                labels,
                path,
                site.line,
                0,
            ) {
                assert(site == new);
            }
        }
    } else {
        assert(line_sites(path, lines, needle, labels, n).len() == 0);
    }
}

/// The role of a line: that of a site on the same line of the same file, and `text` where there is
/// none.
pub proof fn lemma_a_line_has_a_recorded_role(labels: Seq<SiteView>, path: Seq<char>, line: u32)
    ensures
        ({
            let role = role_from(labels, path, line, 0);
            ||| exists|k: int|
                0 <= k < labels.len() && same_path((#[trigger] labels[k]).path, path)
                    && labels[k].line == line && labels[k].role == role
            ||| role == seq!['t', 'e', 'x', 't'] && forall|k: int|
                0 <= k < labels.len() ==> !(same_path((#[trigger] labels[k]).path, path)
                    && labels[k].line == line)
        }),
{
    lemma_role_from(labels, path, line, 0);
}

proof fn lemma_role_from(labels: Seq<SiteView>, path: Seq<char>, line: u32, i: int)
    requires
        0 <= i <= labels.len(),
    ensures
        ({
            let role = role_from(labels, path, line, i);
            ||| exists|k: int|
                i <= k < labels.len() && same_path((#[trigger] labels[k]).path, path)
                    && labels[k].line == line && labels[k].role == role
            ||| role == seq!['t', 'e', 'x', 't'] && forall|k: int|
                i <= k < labels.len() ==> !(same_path((#[trigger] labels[k]).path, path)
                    && labels[k].line == line)
        }),
    decreases labels.len() - i,
{
    reveal_strlit("text");
    assert("text"@ =~= seq!['t', 'e', 'x', 't']);
    if i < labels.len() {
        if same_path(labels[i].path, path) && labels[i].line == line {
            assert(labels[i].role == role_from(labels, path, line, i));
        } else {
            lemma_role_from(labels, path, line, i + 1);
            let role = role_from(labels, path, line, i);
            if exists|k: int|
                i + 1 <= k < labels.len() && same_path((#[trigger] labels[k]).path, path)
                    && labels[k].line == line && labels[k].role == role {
                let k = choose|k: int|
                    i + 1 <= k < labels.len() && same_path((#[trigger] labels[k]).path, path)
                        && labels[k].line == line && labels[k].role == role;
                assert(i <= k < labels.len() && labels[k].role == role);
            }
        }
    }
}

/// Reading a file finds every line that holds the needle, under the number of the line, and no other.
pub proof fn lemma_a_read_finds_every_line(
    path: Seq<char>,
    text: Seq<char>,
    needle: Seq<char>,
    labels: Seq<SiteView>,
    line: u32,
)
    requires
        lines_from(text, 0, 0).len() <= u32::MAX,
    ensures
        (exists|role: Seq<char>| #[trigger]
            sites_in_text(path, text, needle, labels).contains(SiteView { path, line, role }))
            <==> 1 <= line <= lines_from(text, 0, 0).len() && line_holds(
            lines_from(text, 0, 0)[line - 1],
            needle,
            core_text(needle),
        ),
        forall|site: SiteView| #[trigger]
            sites_in_text(path, text, needle, labels).contains(site) ==> site.path == path,
{
    let lines = lines_from(text, 0, 0);
    let n = lines.len() as int;
    let found = sites_in_text(path, text, needle, labels);
    assert forall|site: SiteView| #[trigger] found.contains(site) implies site.path == path by {
        lemma_line_sites(path, lines, needle, labels, n, site);
    }
    if exists|role: Seq<char>| #[trigger] found.contains(SiteView { path, line, role }) {
        let role = choose|role: Seq<char>| #[trigger] found.contains(SiteView { path, line, role });
        lemma_line_sites(path, lines, needle, labels, n, SiteView { path, line, role });
    }
    if 1 <= line <= n && line_holds(lines[line - 1], needle, core_text(needle)) {
        let site = SiteView { path, line, role: role_from(labels, path, line, 0) };
        lemma_line_sites(path, lines, needle, labels, n, site);
        assert(found.contains(site));
    }
}

/// What a scan of files finds is what it finds in each that could be read.
pub proof fn lemma_a_scan_reads_every_file(
    paths: Seq<String>,
    reads: Seq<FileRead>,
    needle: Seq<char>,
    labels: Seq<SiteView>,
    n: int,
    site: SiteView,
)
    requires
        0 <= n <= reads.len(),
    ensures
        read_sites(paths, reads, needle, labels, n).contains(site) <==> exists|k: int|
            0 <= k < n && (#[trigger] reads[k]).text() is Some && sites_in_text(
                paths[k]@,
                reads[k].text()->0,
                needle,
                labels,
            ).contains(site),
    decreases n,
{
    if n > 0 {
        lemma_a_scan_reads_every_file(paths, reads, needle, labels, n - 1, site);
        let rest = read_sites(paths, reads, needle, labels, n - 1);
        if reads[n - 1].text() is Some {
            lemma_joined_sites(
                rest,
                sites_in_text(paths[n - 1]@, reads[n - 1].text()->0, needle, labels),
                site,
            );
        }
        if rest.contains(site) {
            let k = choose|k: int|
                0 <= k < n - 1 && (#[trigger] reads[k]).text() is Some && sites_in_text(
                    paths[k]@,
                    reads[k].text()->0,
                    needle,
                    labels,
                ).contains(site);
            assert(reads[k].text() is Some);
        }
    } else {
        assert(read_sites(paths, reads, needle, labels, n).len() == 0);
    }
}

// ───────────────────────────── rows and counts ─────────────────────────────

/// The row of an occurrence can be asked for by its file, its line and its role.
pub proof fn lemma_an_occurrence_reads_as_its_site(row: SymbolMatch, name: Seq<char>, site: SiteView)
    requires
        is_occurrence(row, name, site),
    ensures
        row.text_of(seq!['n', 'a', 'm', 'e']) == Some(name),
        row.text_of(seq!['p', 'a', 't', 'h']) == Some(site.path),
        row.number_of(seq!['l', 'i', 'n', 'e']) == Some(site.line as int),
        row.text_of(seq!['r', 'o', 'l', 'e']) == Some(site.role),
{
    reveal_strlit("name");
    reveal_strlit("node_kind");
    reveal_strlit("fql_kind");
    reveal_strlit("language");
    reveal_strlit("path");
    reveal_strlit("node_id");
    reveal_strlit("line");
    reveal_strlit("role");
    let role = seq!['r', 'o', 'l', 'e'];
    assert("name"@ =~= seq!['n', 'a', 'm', 'e']);
    assert("path"@ =~= seq!['p', 'a', 't', 'h']);
    assert("line"@ =~= seq!['l', 'i', 'n', 'e']);
    assert("role"@ =~= role);
    assert(role[0] == 'r');
    assert("name"@[0] == 'n' && "node_kind"@[0] == 'n' && "fql_kind"@[0] == 'f' && "language"@[0]
        == 'l' && "path"@[0] == 'p' && "node_id"@[0] == 'n');
    assert("node_kind"@.len() == 9 && "fql_kind"@.len() == 8 && "language"@.len() == 8);
    assert(extra_of(row.fields@, role) == Some(site.role));
}

proof fn lemma_uses_are_sites(usages: Seq<(String, u32)>, token: Seq<char>, path: Seq<char>, n: int)
    requires
        0 <= n <= usages.len(),
    ensures
        uses_among(usages, token, n) == use_sites(usages, token, path, n).len(),
    decreases n,
{
    if n > 0 {
        lemma_uses_are_sites(usages, token, path, n - 1);
    }
}

impl ColumnarStorage {
    /// How many uses of a name the first `n` segments of the overlay record, hidden or not.
    pub open spec fn uses_on_record(&self, name: Seq<char>, n: int) -> nat
        decreases n,
    {
        if n <= 0 {
            0
        } else {
            self.uses_on_record(name, n - 1) + use_sites(
                self.seg(n - 1).usages@,
                name,
                Seq::empty(),
                self.seg(n - 1).usages@.len() as int,
            ).len()
        }
    }

    /// How many uses of a name the visible ones of the first `n` segments of the overlay record.
    pub open spec fn uses_in_sight(&self, name: Seq<char>, n: int) -> nat
        decreases n,
    {
        if n <= 0 {
            0
        } else if self.dirty.hides(self.index().segments@[n - 1]) {
            self.uses_in_sight(name, n - 1)
        } else {
            self.uses_in_sight(name, n - 1) + use_sites(
                self.seg(n - 1).usages@,
                name,
                Seq::empty(),
                self.seg(n - 1).usages@.len() as int,
            ).len()
        }
    }

    /// How many uses of a name the first `n` segments of the session record.
    pub open spec fn uses_of_edits(&self, name: Seq<char>, n: int) -> nat
        decreases n,
    {
        if n <= 0 {
            0
        } else {
            self.uses_of_edits(name, n - 1) + use_sites(
                self.dirty.added@[n - 1].reader.usages@,
                name,
                Seq::empty(),
                self.dirty.added@[n - 1].reader.usages@.len() as int,
            ).len()
        }
    }

    proof fn lemma_sight(&self, name: Seq<char>, n: int)
        ensures
            self.uses_on_record(name, n) == self.uses_in_sight(name, n) + self.lost_uses(name, n),
        decreases n,
    {
        if n > 0 {
            self.lemma_sight(name, n - 1);
            let usages = self.seg(n - 1).usages@;
            lemma_uses_are_sites(usages, name, Seq::empty(), usages.len() as int);
        }
    }

    proof fn lemma_nothing_lost(&self, name: Seq<char>, n: int)
        requires
            self.dirty.nothing(),
        ensures
            self.lost_uses(name, n) == 0,
        decreases n,
    {
        if n > 0 {
            self.lemma_nothing_lost(name, n - 1);
            assert(!self.dirty.hides(self.index().segments@[n - 1]));
        }
    }

    proof fn lemma_edits(&self, name: Seq<char>, n: int)
        ensures
            self.uses_of_edits(name, n) == self.gained_uses(name, n),
        decreases n,
    {
        if n > 0 {
            self.lemma_edits(name, n - 1);
            let usages = self.dirty.added@[n - 1].reader.usages@;
            lemma_uses_are_sites(usages, name, Seq::empty(), usages.len() as int);
        }
    }

    /// A count follows the edits: where the overlay's own count is that of its segments, the count of
    /// a name is the number of its uses in sight, those of the visible segments and of the session.
    pub proof fn lemma_a_count_is_what_is_in_sight(&self, name: Seq<char>)
        requires
            self.index().usages_of(name) == self.uses_on_record(name, self.seg_count() as int),
            self.index().usages_of(name) <= i64::MAX,
            self.uses_in_sight(name, self.seg_count() as int) + self.uses_of_edits(
                name,
                self.dirty.added@.len() as int,
            ) <= i64::MAX,
            self.uses_in_sight(name, self.seg_count() as int) + self.uses_of_edits(
                name,
                self.dirty.added@.len() as int,
            ) <= usize::MAX,
        ensures
            self.usages_now(name) == self.uses_in_sight(name, self.seg_count() as int)
                + self.uses_of_edits(name, self.dirty.added@.len() as int),
    {
        self.lemma_sight(name, self.seg_count() as int);
        self.lemma_edits(name, self.dirty.added@.len() as int);
        if self.dirty.nothing() {
            self.lemma_nothing_lost(name, self.seg_count() as int);
        }
    }
}

// ───────────────────────────── what files settle ─────────────────────────────

/// A file is settled where its bytes became text and where it is gone; one that could not be read, or is
/// no text, is not. The files that could not be read are counted.
pub proof fn lemma_reads_settle_files(
    paths: Seq<String>,
    reads: Seq<FileRead>,
    n: int,
    path: Seq<char>,
)
    requires
        0 <= n <= reads.len(),
        n <= paths.len(),
    ensures
        settled_paths(paths, reads, n).contains(path) <==> exists|k: int|
            0 <= k < n && (#[trigger] paths[k])@ == path && (reads[k] is Missing || (reads[k] is Bytes
                && crate::columnar_storage::scan::text_of_file(reads[k]->Bytes_0@) is Some)),
        unread_among(reads, n) == reads.take(n).filter(|r: FileRead| r is Unreadable).len(),
    decreases n,
{
    reveal(Seq::filter);
    if n > 0 {
        lemma_reads_settle_files(paths, reads, n - 1, path);
        let rest = settled_paths(paths, reads, n - 1);
        let all = settled_paths(paths, reads, n);
        assert(reads.take(n).drop_last() =~= reads.take(n - 1));
        assert(reads.take(n).last() == reads[n - 1]);
        if rest.contains(path) {
            let k = choose|k: int| 0 <= k < rest.len() && rest[k] == path;
            assert(all[k] == path);
            let m = choose|m: int|
                0 <= m < n - 1 && (#[trigger] paths[m])@ == path && (reads[m] is Missing || (
                reads[m] is Bytes && crate::columnar_storage::scan::text_of_file(
                    reads[m]->Bytes_0@,
                ) is Some));
            assert(paths[m]@ == path);
        }
        if all.contains(path) && !rest.contains(path) {
            let k = choose|k: int| 0 <= k < all.len() && all[k] == path;
            if k < rest.len() {
                assert(rest[k] == path);
            }
            assert(paths[n - 1]@ == path);
        }
        if reads[n - 1].settles() && paths[n - 1]@ == path {
            assert(all[rest.len() as int] == path);
        }
    } else {
        assert(settled_paths(paths, reads, n).len() == 0);
        assert(reads.take(0) =~= Seq::empty());
    }
}

impl ColumnarStorage {
    /// A name that is no single token reaches the tokens that hold it: what is recorded of a stored token
    /// that is no identifier and holds the name within it is posted for the name.
    pub proof fn lemma_a_phrase_reaches_the_tokens_that_hold_it(
        &self,
        name: Seq<char>,
        posted: Seq<SiteView>,
        t: Seq<char>,
        site: SiteView,
    )
        requires
            self.posted_for(name, posted),
            !core_text(name),
            vstd::utf8::encode_utf8(name).len() >= 3,
            !core_text(t),
            occurs(t, name),
            self.stores_token(t),
            self.is_recorded(t, site),
        ensures
            posted.contains(site),
    {
        let names = choose|names: Seq<String>| #[trigger]
            self.looked_up(name, names) && posted == self.sites_of_all(
                text_views(names),
                names.len() as int,
            );
        let tokens = text_views(names);
        self.lemma_sites_of_all(tokens, tokens.len() as int, site);
        assert(lists_text(names, t));
        let k = choose|k: int| 0 <= k < names.len() && (#[trigger] names[k])@ == t;
        assert(tokens[k] == t);
    }
}

proof fn lemma_standing_holds(
    posted: Seq<SiteView>,
    scanned: Seq<SiteView>,
    settled: Seq<String>,
    n: int,
    site: SiteView,
)
    requires
        0 <= n <= posted.len(),
    ensures
        standing_sites(posted, scanned, settled, n).contains(site) <==> (!lists_path(
            settled,
            site.path,
        ) || lists_line(scanned, site.path, site.line)) && exists|k: int|
            0 <= k < n && #[trigger] posted[k] == site,
    decreases n,
{
    if n > 0 {
        lemma_standing_holds(posted, scanned, settled, n - 1, site);
        let rest = standing_sites(posted, scanned, settled, n - 1);
        let all = standing_sites(posted, scanned, settled, n);
        lemma_pushed_site(rest, all, site);
        if rest.contains(site) {
            let k = choose|k: int| 0 <= k < n - 1 && #[trigger] posted[k] == site;
            assert(posted[k] == site);
        }
        if all.contains(site) && !rest.contains(site) {
            assert(posted[n - 1] == site);
        }
    } else {
        assert(standing_sites(posted, scanned, settled, n).len() == 0);
    }
}

/// A posted occurrence is reported, in its own role, unless its file was read and does not hold the line;
/// and whatever is reported was posted or found in a file.
pub proof fn lemma_a_posted_site_is_reported_unless_its_file_denies_it(
    posted: Seq<SiteView>,
    scanned: Seq<SiteView>,
    settled: Seq<String>,
    site: SiteView,
)
    ensures
        posted.contains(site) && !lists_path(settled, site.path) ==> joined_sites(
            posted,
            scanned,
            settled,
        ).contains(site),
        posted.contains(site) && (exists|i: int|
            0 <= i < scanned.len() && same_path((#[trigger] scanned[i]).path, site.path)
                && scanned[i].line == site.line) ==> joined_sites(
            posted,
            scanned,
            settled,
        ).contains(site),
        joined_sites(posted, scanned, settled).contains(site) ==> posted.contains(site)
            || scanned.contains(site),
{
    let kept = standing_sites(posted, scanned, settled, posted.len() as int);
    let fresh = fresh_sites(scanned, kept, scanned.len() as int);
    lemma_standing_holds(posted, scanned, settled, posted.len() as int, site);
    lemma_joined_sites(kept, fresh, site);
    lemma_fresh_from(scanned, kept, scanned.len() as int, site);
}

proof fn lemma_fresh_from(scanned: Seq<SiteView>, kept: Seq<SiteView>, n: int, site: SiteView)
    requires
        0 <= n <= scanned.len(),
    ensures
        fresh_sites(scanned, kept, n).contains(site) ==> scanned.contains(site),
    decreases n,
{
    if n > 0 {
        lemma_fresh_from(scanned, kept, n - 1, site);
        lemma_pushed_site(fresh_sites(scanned, kept, n - 1), fresh_sites(scanned, kept, n), site);
        if fresh_sites(scanned, kept, n).contains(site) && !fresh_sites(
            scanned,
            kept,
            n - 1,
        ).contains(site) {
            assert(scanned[n - 1] == site);
        }
    } else {
        assert(fresh_sites(scanned, kept, n).len() == 0);
    }
}

} // verus!
