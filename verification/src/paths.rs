//! Workspace paths: scope globs, literal prefixes, and where segments are kept.
//!
//! A path is text, relative to the worktree root and separated by `/`.

use crate::clauses::Clauses;
use crate::overlay::lookup::text_views;
use crate::columnar_storage::node_lookup::joined;
use crate::path_parts::{
    is_root, lemma_behind, lemma_first_part, lemma_joined_parts, lemma_parts_text_prefix,
    lemma_plainly, parts_behind, parts_from, parts_of, parts_start, parts_text, path_parts,
    plainly, same_path, write_parts,
};
use crate::segment::opt_string;
use crate::text::{chars_of, same_text, text_of};
use vstd::prelude::*;
use vstd::string::*;

verus! {

// ───────────────────────────── globs ─────────────────────────────

/// Whether a path component starts at `j`.
pub open spec fn at_component(t: Seq<char>, j: int) -> bool {
    j == 0 || (0 < j <= t.len() && t[j - 1] == '/')
}

/// Whether the glob `p[i..]` matches the path `t[j..]`.
///
/// `?` is one character and `*` any run of characters, neither across a separator; `**` is any
/// run at all, and `**/` may also stand for no directory.
pub open spec fn glob_at(t: Seq<char>, j: int, p: Seq<char>, i: int) -> bool
    decreases p.len() - i, t.len() - j,
{
    if i < 0 || j < 0 || j > t.len() {
        false
    } else if i >= p.len() {
        j == t.len()
    } else if p[i] == '*' && i + 1 < p.len() && p[i + 1] == '*' {
        ||| glob_at(t, j, p, i + 2)
        ||| (i + 2 < p.len() && p[i + 2] == '/' && at_component(t, j) && glob_at(t, j, p, i + 3))
        ||| (j < t.len() && glob_at(t, j + 1, p, i))
    } else if p[i] == '*' {
        ||| glob_at(t, j, p, i + 1)
        ||| (j < t.len() && t[j] != '/' && glob_at(t, j + 1, p, i))
    } else if p[i] == '?' {
        j < t.len() && t[j] != '/' && glob_at(t, j + 1, p, i + 1)
    } else {
        j < t.len() && t[j] == p[i] && glob_at(t, j + 1, p, i + 1)
    }
}

/// Whether a glob has a wildcard.
pub open spec fn has_wildcard(p: Seq<char>) -> bool {
    p.contains('*') || p.contains('?')
}

/// A path without the separator it ends in.
pub open spec fn without_slash(p: Seq<char>) -> Seq<char> {
    if p.len() > 0 && p.last() == '/' {
        p.drop_last()
    } else {
        p
    }
}

/// Whether a path lies at or below a directory.
pub open spec fn at_or_below(path: Seq<char>, dir: Seq<char>) -> bool {
    ||| path == dir
    ||| path.len() > dir.len() && path.take(dir.len() as int) == dir && path[dir.len() as int] == '/'
}

/// Whether a glob selects a path. One without a wildcard selects that path and, where it is a
/// directory, everything below it.
pub open spec fn glob_selects(path: Seq<char>, glob: Seq<char>) -> bool {
    if has_wildcard(glob) {
        glob_at(path, 0, glob, 0)
    } else {
        at_or_below(path, without_slash(glob))
    }
}

/// The row of the match table for `p[i..]`, from the rows for `p[i + 1..]`, `p[i + 2..]` and
/// `p[i + 3..]`.
fn glob_row(t: &Vec<char>, p: &Vec<char>, i: usize, one: &Vec<bool>, two: &Vec<bool>, three: &Vec<
    bool,
>) -> (row: Vec<bool>)
    requires
        i < p@.len(),
        is_glob_row(t@, p@, i + 1, one@),
        i + 2 <= p@.len() ==> is_glob_row(t@, p@, i + 2, two@),
        i + 3 <= p@.len() ==> is_glob_row(t@, p@, i + 3, three@),
    ensures
        is_glob_row(t@, p@, i as int, row@),
{
    let n: usize = t.len();
    let c = p[i];
    let left: usize = p.len() - i;
    let double = c == '*' && left > 1 && p[i + 1] == '*';
    let dirs = double && left > 2 && p[i + 2] == '/';
    // Filled from the end of the path: `back[k]` is the match at `n - k`.
    let mut back: Vec<bool> = Vec::new();
    let last = if double {
        two[n] || (dirs && (n == 0 || t[n - 1] == '/') && three[n])
    } else {
        c == '*' && one[n]
    };
    back.push(last);
    let mut k: usize = 0;
    while k < n
        invariant
            n == t@.len(),
            k <= n,
            i < p@.len(),
            c == p@[i as int],
            double == (c == '*' && i + 1 < p@.len() && p@[i + 1] == '*'),
            dirs == (double && i + 2 < p@.len() && p@[i + 2] == '/'),
            is_glob_row(t@, p@, i + 1, one@),
            i + 2 <= p@.len() ==> is_glob_row(t@, p@, i + 2, two@),
            i + 3 <= p@.len() ==> is_glob_row(t@, p@, i + 3, three@),
            back@.len() == k + 1,
            forall|m: int| 0 <= m <= k ==> #[trigger] back@[m] == glob_at(t@, n - m, p@, i as int),
        decreases n - k,
    {
        let j: usize = n - k - 1;
        assert(back@[k as int] == glob_at(t@, j + 1, p@, i as int));
        let m = if double {
            two[j] || (dirs && (j == 0 || t[j - 1] == '/') && three[j]) || back[k]
        } else if c == '*' {
            one[j] || (t[j] != '/' && back[k])
        } else if c == '?' {
            t[j] != '/' && one[j + 1]
        } else {
            t[j] == c && one[j + 1]
        };
        back.push(m);
        k += 1;
    }
    let mut row: Vec<bool> = Vec::new();
    row.push(back[n]);
    assert(back@[n as int] == glob_at(t@, n - n, p@, i as int));
    let mut j: usize = 0;
    while j < n
        invariant
            n == t@.len(),
            j <= n,
            back@.len() == n + 1,
            forall|m: int|
                0 <= m <= n ==> #[trigger] back@[m] == glob_at(t@, n - m, p@, i as int),
            row@.len() == j + 1,
            forall|m: int| 0 <= m <= j ==> #[trigger] row@[m] == glob_at(t@, m, p@, i as int),
        decreases n - j,
    {
        assert(back@[n - (j + 1)] == glob_at(t@, n - (n - (j + 1)), p@, i as int));
        row.push(back[n - j - 1]);
        j += 1;
    }
    row
}

/// Whether `row[j]` says whether `p[i..]` matches `t[j..]`, for every `j`.
pub open spec fn is_glob_row(t: Seq<char>, p: Seq<char>, i: int, row: Seq<bool>) -> bool {
    &&& row.len() == t.len() + 1
    &&& forall|j: int| 0 <= j <= t.len() ==> #[trigger] row[j] == glob_at(t, j, p, i)
}

fn copy_row(v: &Vec<bool>) -> (r: Vec<bool>)
    ensures
        r@ == v@,
{
    let mut r: Vec<bool> = Vec::new();
    let mut i: usize = 0;
    while i < v.len()
        invariant
            i <= v@.len(),
            r@ == v@.take(i as int),
        decreases v.len() - i,
    {
        assert(v@.take(i as int + 1) =~= v@.take(i as int).push(v@[i as int]));
        r.push(v[i]);
        i += 1;
    }
    assert(v@.take(v@.len() as int) =~= v@);
    r
}

fn match_glob(t: &Vec<char>, p: &Vec<char>) -> (r: bool)
    ensures
        r == glob_at(t@, 0, p@, 0),
{
    let n: usize = t.len();
    let mut one: Vec<bool> = Vec::new();
    let mut j: usize = 0;
    while j < n
        invariant
            n == t@.len(),
            j <= n,
            one@.len() == j,
            forall|m: int|
                0 <= m < j ==> #[trigger] one@[m] == glob_at(t@, m, p@, p@.len() as int),
        decreases n - j,
    {
        one.push(false);
        j += 1;
    }
    one.push(true);
    let mut two = copy_row(&one);
    let mut three = copy_row(&one);
    let mut i: usize = p.len();
    while i > 0
        invariant
            n == t@.len(),
            i <= p@.len(),
            is_glob_row(t@, p@, i as int, one@),
            i + 1 <= p@.len() ==> is_glob_row(t@, p@, i + 1, two@),
            i + 2 <= p@.len() ==> is_glob_row(t@, p@, i + 2, three@),
            two@.len() == n + 1,
            three@.len() == n + 1,
        decreases i,
    {
        let row = glob_row(t, p, i - 1, &one, &two, &three);
        three = two;
        two = one;
        one = row;
        i -= 1;
    }
    one[0]
}

fn contains_char(s: &Vec<char>, c: char) -> (r: bool)
    ensures
        r == s@.contains(c),
{
    let mut i: usize = 0;
    while i < s.len()
        invariant
            i <= s@.len(),
            forall|k: int| 0 <= k < i ==> s@[k] != c,
        decreases s.len() - i,
    {
        if s[i] == c {
            assert(s@[i as int] == c);
            return true;
        }
        i += 1;
    }
    false
}

/// Whether a glob selects a path.
pub fn glob_matches(path: &str, glob: &str) -> (r: bool)
    ensures
        r == glob_selects(path@, glob@),
{
    let t = chars_of(path);
    let p = chars_of(glob);
    if contains_char(&p, '*') || contains_char(&p, '?') {
        return match_glob(&t, &p);
    }
    let n: usize = if p.len() > 0 && p[p.len() - 1] == '/' {
        p.len() - 1
    } else {
        p.len()
    };
    let ghost dir = without_slash(glob@);
    assert(dir =~= p@.take(n as int));
    if t.len() < n {
        return false;
    }
    let mut i: usize = 0;
    while i < n
        invariant
            n <= t@.len(),
            n <= p@.len(),
            i <= n,
            t@ == path@,
            dir == p@.take(n as int),
            dir == without_slash(glob@),
            !has_wildcard(glob@),
            forall|k: int| 0 <= k < i ==> t@[k] == p@[k],
        decreases n - i,
    {
        if t[i] != p[i] {
            proof {
                assert(path@[i as int] != dir[i as int]);
                if path@.len() > dir.len() {
                    assert(path@.take(n as int)[i as int] == path@[i as int]);
                }
            }
            return false;
        }
        i += 1;
    }
    assert(path@.take(n as int) =~= dir);
    if t.len() == n {
        assert(path@ =~= dir);
        return true;
    }
    assert(path@ != dir);
    t[n] == '/'
}

/// Whether the `IN` and `EXCLUDE` of a query select a path.
pub open spec fn scope_selects(path: Seq<char>, clauses: Clauses) -> bool {
    &&& clauses.in_glob is Some ==> glob_selects(path, clauses.in_glob->0@)
    &&& forall|i: int|
        0 <= i < clauses.exclude_globs@.len() ==> !glob_selects(
            path,
            (#[trigger] clauses.exclude_globs@[i])@,
        )
}

/// Whether the `IN` and `EXCLUDE` of a query select a path.
pub fn in_scope(path: &str, clauses: &Clauses) -> (r: bool)
    ensures
        r == scope_selects(path@, *clauses),
{
    match &clauses.in_glob {
        Some(glob) => {
            if !glob_matches(path, glob.as_str()) {
                return false;
            }
        },
        None => {},
    }
    let mut i: usize = 0;
    while i < clauses.exclude_globs.len()
        invariant
            i <= clauses.exclude_globs@.len(),
            forall|k: int|
                0 <= k < i ==> !glob_selects(path@, (#[trigger] clauses.exclude_globs@[k])@),
        decreases clauses.exclude_globs.len() - i,
    {
        if glob_matches(path, clauses.exclude_globs[i].as_str()) {
            return false;
        }
        i += 1;
    }
    true
}

// ───────────────────────────── literal prefixes ─────────────────────────────

/// Whether a character opens a wildcard.
pub open spec fn opens_wildcard(c: char) -> bool {
    c == '*' || c == '?' || c == '['
}

/// Where the first wildcard of a glob stands, from `i` on; its length where it has none.
pub open spec fn wildcard_at(g: Seq<char>, i: int) -> int
    decreases g.len() - i,
{
    if i < 0 || i >= g.len() {
        g.len() as int
    } else if opens_wildcard(g[i]) {
        i
    } else {
        wildcard_at(g, i + 1)
    }
}

/// One past the last separator of `g[..n]`; nought where there is none.
pub open spec fn past_last_slash(g: Seq<char>, n: int) -> int
    decreases n,
{
    if n <= 0 {
        0
    } else if g[n - 1] == '/' {
        n
    } else {
        past_last_slash(g, n - 1)
    }
}

/// The literal directory that a glob stands in: up to the last separator before its first
/// wildcard. Nothing where it has no wildcard or no such separator.
pub open spec fn literal_prefix(g: Seq<char>) -> Option<Seq<char>> {
    let w = wildcard_at(g, 0);
    if w >= g.len() || past_last_slash(g, w) == 0 {
        None
    } else {
        Some(g.take(past_last_slash(g, w)))
    }
}

/// The literal directory that a glob stands in, separator included: `include/` of `include/**`.
pub fn glob_to_path_prefix(glob: &str) -> (r: Option<String>)
    ensures
        (match r {
            Some(s) => literal_prefix(glob@) == Some(s@),
            None => literal_prefix(glob@) is None,
        }),
{
    let g = chars_of(glob);
    let mut w: usize = 0;
    while w < g.len() && !(g[w] == '*' || g[w] == '?' || g[w] == '[')
        invariant
            w <= g@.len(),
            wildcard_at(g@, 0) == wildcard_at(g@, w as int),
        decreases g.len() - w,
    {
        w += 1;
    }
    if w >= g.len() {
        return None;
    }
    let mut n: usize = w;
    while n > 0 && g[n - 1] != '/'
        invariant
            n <= w < g@.len(),
            past_last_slash(g@, w as int) == past_last_slash(g@, n as int),
        decreases n,
    {
        n -= 1;
    }
    if n == 0 {
        return None;
    }
    let s = text_of(&g, 0, n);
    assert(s@ =~= g@.take(n as int));
    Some(s)
}

proof fn lemma_wildcard_at(g: Seq<char>, i: int)
    requires
        0 <= i,
    ensures
        wildcard_at(g, i) <= g.len(),
        i <= g.len() ==> i <= wildcard_at(g, i),
        0 <= wildcard_at(g, i) < g.len() ==> opens_wildcard(g[wildcard_at(g, i)]),
        forall|k: int| i <= k < wildcard_at(g, i) ==> !opens_wildcard(#[trigger] g[k]),
    decreases g.len() - i,
{
    if i < g.len() && !opens_wildcard(g[i]) {
        lemma_wildcard_at(g, i + 1);
    }
}

proof fn lemma_past_last_slash(g: Seq<char>, n: int)
    ensures
        0 <= past_last_slash(g, n),
        n >= 0 ==> past_last_slash(g, n) <= n,
    decreases n,
{
    if n > 0 && g[n - 1] != '/' {
        lemma_past_last_slash(g, n - 1);
    }
}

/// What precedes the first wildcard of a glob is matched letter for letter.
proof fn lemma_literal_head(t: Seq<char>, j: int, p: Seq<char>, i: int, n: int)
    requires
        glob_at(t, j, p, i),
        0 <= i <= n <= p.len(),
        0 <= j,
        forall|k: int| i <= k < n ==> !opens_wildcard(#[trigger] p[k]),
    ensures
        j + (n - i) <= t.len(),
        forall|k: int| i <= k < n ==> t[j + (k - i)] == #[trigger] p[k],
    decreases n - i,
{
    if i < n {
        assert(!opens_wildcard(p[i]));
        lemma_literal_head(t, j + 1, p, i + 1, n);
        assert forall|k: int| i <= k < n implies t[j + (k - i)] == #[trigger] p[k] by {
            if k > i {
                assert(t[(j + 1) + (k - (i + 1))] == p[k]);
            }
        }
    }
}

/// A path that a glob selects starts with the glob's literal directory: narrowing a scan to that
/// directory loses nothing.
pub proof fn lemma_glob_prefix_sound(path: Seq<char>, glob: Seq<char>)
    requires
        glob_selects(path, glob),
        literal_prefix(glob) is Some,
    ensures
        path.len() >= literal_prefix(glob)->0.len(),
        path.take(literal_prefix(glob)->0.len() as int) == literal_prefix(glob)->0,
{
    let w = wildcard_at(glob, 0);
    let n = past_last_slash(glob, w);
    lemma_wildcard_at(glob, 0);
    lemma_past_last_slash(glob, w);
    if !has_wildcard(glob) {
        let dir = without_slash(glob);
        assert(n <= dir.len()) by {
            assert(opens_wildcard(glob[w]));
        }
        assert(dir.take(n) =~= glob.take(n));
        if path != dir {
            assert(path.take(dir.len() as int).take(n) =~= path.take(n));
        }
    } else {
        lemma_literal_head(path, 0, glob, 0, n);
        assert(path.take(n) =~= glob.take(n)) by {
            assert forall|k: int| 0 <= k < n implies path[k] == glob[k] by {
                assert(path[0 + (k - 0)] == glob[k]);
            }
        }
    }
}

// ───────────────────────────── roots ─────────────────────────────

/// A path relative to a root, where it lies at or below it; any other path as it is.
pub open spec fn relative_to(path: Seq<char>, root: Seq<char>) -> Seq<char> {
    let parts = path_parts(path);
    let head = path_parts(root);
    if parts_start(parts, head) {
        let rest = parts.skip(head.len() as int);
        parts_text(rest, rest.len() as int)
    } else {
        path
    }
}

fn starts_parts(parts: &Vec<String>, head: &Vec<String>) -> (r: bool)
    ensures
        r == parts_start(text_views(parts@), text_views(head@)),
{
    let ghost x = text_views(parts@);
    let ghost y = text_views(head@);
    if head.len() > parts.len() {
        return false;
    }
    let mut i: usize = 0;
    while i < head.len()
        invariant
            x == text_views(parts@),
            y == text_views(head@),
            i <= head@.len() <= parts@.len(),
            forall|k: int| 0 <= k < i ==> #[trigger] y[k] == x[k],
        decreases head.len() - i,
    {
        if !same_text(parts[i].as_str(), head[i].as_str()) {
            assert(x.take(y.len() as int)[i as int] == x[i as int]);
            assert(x[i as int] == parts@[i as int]@ && y[i as int] == head@[i as int]@);
            return false;
        }
        assert(x[i as int] == parts@[i as int]@ && y[i as int] == head@[i as int]@);
        i += 1;
    }
    assert(x.take(y.len() as int) =~= y);
    true
}

/// Reduces a source path to the worktree-relative form that keys a segment.
///
/// The segment store is shared by every worktree, so a key must not embed an absolute path. A
/// path that is relative already is its own key. An absolute path outside the worktree has no
/// sound key and is handed back as it is.
pub fn segment_source_rel(source_path: &str, worktree_root: &str) -> (r: String)
    ensures
        r@ == relative_to(source_path@, worktree_root@),
{
    let parts = parts_of(source_path);
    let head = parts_of(worktree_root);
    if !starts_parts(&parts, &head) {
        return source_path.to_owned();
    }
    let n: usize = head.len();
    assert(text_views(head@).len() == n);
    let rest = write_parts(&parts, n, parts.len());
    assert(text_views(parts@).subrange(n as int, parts@.len() as int) =~= path_parts(
        source_path@,
    ).skip(n as int));
    rest
}

/// Whether a path starts at the root.
pub open spec fn is_absolute(path: Seq<char>) -> bool {
    path.len() > 0 && path[0] == '/'
}

/// Whether a path opens with the directory itself.
pub open spec fn opens_here(path: Seq<char>) -> bool {
    path_parts(path).len() > 0 && path_parts(path)[0] == seq!['.']
}

proof fn lemma_joined_under(root: Seq<char>, path: Seq<char>)
    requires
        root.len() > 0,
        !is_absolute(path),
    ensures
        path_parts(joined(root, path)) == path_parts(root) + parts_behind(path),
{
    if root.last() == '/' {
        let stem = root.drop_last();
        if stem.len() == 0 {
            assert(root =~= seq!['/']);
            assert(path_parts(joined(root, path)) == seq![seq!['/']] + parts_behind(path));
            assert(root.subrange(1, 1) =~= seq![]);
            assert(parts_from(root, 1, 1) =~= seq![]);
            assert(path_parts(root) =~= seq![seq!['/']]);
        } else {
            assert(root =~= stem + seq!['/'] + Seq::<char>::empty());
            assert(joined(root, path) =~= stem + seq!['/'] + path);
            lemma_joined_parts(stem, path);
            lemma_joined_parts(stem, Seq::<char>::empty());
            let none = seq!['/'] + Seq::<char>::empty();
            assert(none.subrange(1, 1) =~= seq![]);
            assert(parts_behind(Seq::<char>::empty()) =~= seq![]);
            assert(path_parts(root) =~= path_parts(stem));
        }
    } else {
        lemma_joined_parts(root, path);
    }
}

/// A key does not depend on the worktree: a relative path that is put under a root, whichever it is,
/// and reduced by that root again is the path that it was, written plainly. A path that opens with
/// the directory itself comes back without that part, where there is a root at all.
pub proof fn lemma_key_is_free_of_the_root(path: Seq<char>, root: Seq<char>)
    requires
        !is_absolute(path),
    ensures
        !opens_here(path) ==> relative_to(joined(root, path), root) == plainly(path),
        !opens_here(path) ==> same_path(relative_to(joined(root, path), root), path),
        opens_here(path) && root.len() > 0 ==> relative_to(joined(root, path), root) == parts_text(
            path_parts(path).skip(1),
            path_parts(path).len() - 1,
        ),
        opens_here(path) && root.len() == 0 ==> relative_to(joined(root, path), root) == plainly(
            path,
        ),
{
    let whole = path_parts(joined(root, path));
    let head = path_parts(root);
    lemma_behind(path);
    lemma_plainly(path);
    if root.len() == 0 {
        assert(joined(root, path) =~= path);
        assert(root.subrange(0, 0) =~= seq![]);
        assert(head =~= seq![]);
        assert(whole.take(0) =~= head);
        assert(whole.skip(0) =~= whole);
    } else {
        lemma_joined_under(root, path);
        assert(whole.take(head.len() as int) =~= head);
        assert(whole.skip(head.len() as int) =~= parts_behind(path));
    }
}

/// A path that is relative already is its own key: under a root that is absolute it comes back
/// unchanged.
pub proof fn lemma_relative_path_is_its_own_key(path: Seq<char>, root: Seq<char>)
    requires
        !is_absolute(path),
        is_absolute(root),
    ensures
        relative_to(path, root) == path,
{
    lemma_first_part(path);
    let parts = path_parts(path);
    let head = path_parts(root);
    assert(head[0] == seq!['/']);
    if parts_start(parts, head) {
        assert(parts.take(head.len() as int)[0] == parts[0]);
    }
}

/// Two worktrees key a file alike, wherever they stand.
pub proof fn lemma_worktrees_share_keys(path: Seq<char>, a: Seq<char>, b: Seq<char>)
    requires
        !is_absolute(path),
        is_absolute(a),
        is_absolute(b),
    ensures
        relative_to(joined(a, path), a) == relative_to(joined(b, path), b),
{
    lemma_key_is_free_of_the_root(path, a);
    lemma_key_is_free_of_the_root(path, b);
}

/// The directory a path lies in; nothing for the root and for no path at all.
pub open spec fn parent_of(path: Seq<char>) -> Option<Seq<char>> {
    let parts = path_parts(path);
    if parts.len() == 0 || parts.last() == seq!['/'] {
        None
    } else {
        Some(parts_text(parts, parts.len() - 1))
    }
}

/// The directory a path lies in.
pub fn parent_dir(path: &str) -> (r: Option<String>)
    ensures
        opt_string(r) == parent_of(path@),
{
    let parts = parts_of(path);
    let ghost list = path_parts(path@);
    if parts.len() == 0 {
        return None;
    }
    let n: usize = parts.len();
    assert(list[n - 1] == parts@[n - 1]@);
    if is_root(parts[n - 1].as_str()) {
        return None;
    }
    let s = write_parts(&parts, 0, n - 1);
    proof {
        lemma_parts_text_prefix(list, n - 1);
    }
    Some(s)
}

} // verus!
