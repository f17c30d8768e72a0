//! What globs and scopes select.

use crate::clauses::Clauses;
use crate::paths::{glob_at, glob_selects, has_wildcard, scope_selects};
use crate::path_parts::{lemma_first_parts, path_parts};
use crate::paths::parent_of;
use vstd::prelude::*;
use vstd::string::*;

verus! {

/// Whether a text stands for itself in a glob.
pub open spec fn is_literal(text: Seq<char>) -> bool {
    !text.contains('*') && !text.contains('?')
}

/// A glob without wildcards selects what it names and all that is below it, with or without a
/// separator at its end.
pub proof fn lemma_a_plain_glob_selects_a_directory(path: Seq<char>, dir: Seq<char>)
    requires
        is_literal(dir),
        dir.len() > 0,
        dir.last() != '/',
    ensures
        glob_selects(path, dir) <==> path == dir || (dir + seq!['/']).is_prefix_of(path),
        glob_selects(path, dir + seq!['/']) <==> path == dir || (dir + seq!['/']).is_prefix_of(
            path,
        ),
{
    let open = dir + seq!['/'];
    assert forall|c: char| open.contains(c) implies dir.contains(c) || c == '/' by {
        let k = choose|k: int| 0 <= k < open.len() && open[k] == c;
        if k < dir.len() {
            assert(dir[k] == c);
        }
    }
    assert(!has_wildcard(open));
    assert(open.drop_last() =~= dir);
    if open.is_prefix_of(path) {
        assert(path.take(dir.len() as int) =~= dir) by {
            assert forall|k: int| 0 <= k < dir.len() implies path[k] == dir[k] by {
                assert(open[k] == dir[k]);
                assert(path.subrange(0, open.len() as int)[k] == path[k]);
            }
        }
        assert(path.subrange(0, open.len() as int)[dir.len() as int] == '/');
    }
    if path.len() > dir.len() && path.take(dir.len() as int) == dir && path[dir.len() as int]
        == '/' {
        assert(path.subrange(0, open.len() as int) =~= open) by {
            assert forall|k: int| 0 <= k < dir.len() implies path[k] == dir[k] by {
                assert(path.take(dir.len() as int)[k] == path[k]);
            }
        }
    }
}

proof fn lemma_head(t: Seq<char>, p: Seq<char>, n: int, i: int)
    requires
        0 <= i <= n <= p.len(),
        i <= t.len(),
        forall|k: int| 0 <= k < n ==> p[k] != '*' && p[k] != '?',
    ensures
        glob_at(t, i, p, i) <==> n <= t.len() && (forall|k: int| i <= k < n ==> t[k] == p[k])
            && glob_at(t, n, p, n),
    decreases n - i,
{
    if i < n {
        if i < t.len() {
            lemma_head(t, p, n, i + 1);
        }
    }
}

proof fn lemma_no_slash_from(t: Seq<char>, j: int, p: Seq<char>, n: int)
    requires
        0 <= j <= t.len(),
        0 <= n,
        p.len() == n + 1,
        p[n] == '*',
    ensures
        glob_at(t, j, p, n) <==> forall|k: int| j <= k < t.len() ==> t[k] != '/',
    decreases t.len() - j,
{
    reveal_with_fuel(glob_at, 2);
    if j < t.len() {
        lemma_no_slash_from(t, j + 1, p, n);
    }
}

proof fn lemma_all_from(t: Seq<char>, j: int, p: Seq<char>, n: int)
    requires
        0 <= j <= t.len(),
        0 <= n,
        p.len() == n + 2,
        p[n] == '*',
        p[n + 1] == '*',
    ensures
        glob_at(t, j, p, n),
    decreases t.len() - j,
{
    reveal_with_fuel(glob_at, 2);
    if j < t.len() {
        lemma_all_from(t, j + 1, p, n);
    }
}

proof fn lemma_literal_char(lit: Seq<char>, k: int)
    requires
        is_literal(lit),
        0 <= k < lit.len(),
    ensures
        lit[k] != '*' && lit[k] != '?',
{
    assert(lit.contains(lit[k]));
}

/// Behind what stands for itself, `*` selects the rest of one name, `**` any rest, and `?` one
/// character of a name.
pub proof fn lemma_wildcards_behind_a_head(path: Seq<char>, head: Seq<char>)
    requires
        is_literal(head),
    ensures
        glob_selects(path, head + seq!['*']) <==> head.is_prefix_of(path) && forall|k: int|
            head.len() <= k < path.len() ==> path[k] != '/',
        glob_selects(path, head + seq!['*', '*']) <==> head.is_prefix_of(path),
        glob_selects(path, head + seq!['?']) <==> head.is_prefix_of(path) && path.len()
            == head.len() + 1 && path.last() != '/',
{
    let n = head.len() as int;
    let (one, two, any) = (head + seq!['*'], head + seq!['*', '*'], head + seq!['?']);
    assert(one[n] == '*' && two[n] == '*' && two[n + 1] == '*' && any[n] == '?');
    assert(has_wildcard(one) && has_wildcard(two) && has_wildcard(any));
    assert forall|k: int| 0 <= k < n implies head[k] != '*' && head[k] != '?' by {
        lemma_literal_char(head, k);
    }
    lemma_head(path, one, n, 0);
    lemma_head(path, two, n, 0);
    lemma_head(path, any, n, 0);
    assert(head.is_prefix_of(path) <==> n <= path.len() && forall|k: int|
        0 <= k < n ==> path[k] == head[k]) by {
        if head.is_prefix_of(path) {
            assert forall|k: int| 0 <= k < n implies path[k] == head[k] by {
                assert(path.subrange(0, n)[k] == path[k]);
            }
        }
        if n <= path.len() && forall|k: int| 0 <= k < n ==> path[k] == head[k] {
            assert(path.subrange(0, n) =~= head);
        }
    }
    assert forall|k: int| 0 <= k < n implies one[k] == head[k] && two[k] == head[k] && any[k]
        == head[k] by {}
    if n <= path.len() {
        lemma_no_slash_from(path, n, one, n);
        lemma_all_from(path, n, two, n);
        reveal_with_fuel(glob_at, 2);
    }
}

proof fn lemma_rest_is(t: Seq<char>, j: int, p: Seq<char>, i: int)
    requires
        0 <= j <= t.len(),
        0 <= i <= p.len(),
        forall|k: int| i <= k < p.len() ==> p[k] != '*' && p[k] != '?',
    ensures
        glob_at(t, j, p, i) <==> t.len() - j == p.len() - i && forall|k: int|
            i <= k < p.len() ==> p[k] == t[j + (k - i)],
    decreases p.len() - i,
{
    if i < p.len() && j < t.len() {
        lemma_rest_is(t, j + 1, p, i + 1);
        if t.len() - j == p.len() - i && forall|k: int|
            i <= k < p.len() ==> p[k] == t[j + (k - i)] {
            assert(p[i] == t[j + (i - i)]);
            assert forall|k: int| i + 1 <= k < p.len() implies p[k] == t[j + 1 + (k - (i + 1))] by {
                assert(p[k] == t[j + (k - i)]);
            }
        }
        if glob_at(t, j, p, i) {
            assert forall|k: int| i <= k < p.len() implies p[k] == t[j + (k - i)] by {
                if k > i {
                    assert(p[k] == t[j + 1 + (k - (i + 1))]);
                }
            }
        }
    }
}

/// Whether a text ends in another, whose first character stands at `m`.
spec fn ends_at(t: Seq<char>, tail: Seq<char>, m: int) -> bool {
    0 <= m && t.len() - m == tail.len() && t.skip(m) == tail
}

proof fn lemma_rest_is_tail(t: Seq<char>, j: int, p: Seq<char>, i: int, tail: Seq<char>)
    requires
        0 <= j <= t.len(),
        0 <= i <= p.len(),
        p.skip(i) == tail,
        is_literal(tail),
    ensures
        glob_at(t, j, p, i) <==> ends_at(t, tail, j),
{
    assert(tail.len() == p.len() - i);
    assert forall|k: int| i <= k < p.len() implies p[k] == tail[k - i] by {
        assert(p.skip(i)[k - i] == p[k]);
    }
    assert forall|k: int| i <= k < p.len() implies p[k] != '*' && p[k] != '?' by {
        lemma_literal_char(tail, k - i);
    }
    lemma_rest_is(t, j, p, i);
    if glob_at(t, j, p, i) {
        assert(t.skip(j) =~= tail) by {
            assert forall|k: int| 0 <= k < tail.len() implies t.skip(j)[k] == tail[k] by {
                assert(p[i + k] == t[j + (i + k - i)]);
            }
        }
    }
    if ends_at(t, tail, j) {
        assert forall|k: int| i <= k < p.len() implies p[k] == t[j + (k - i)] by {
            assert(t.skip(j)[k - i] == t[j + (k - i)]);
        }
    }
}

proof fn lemma_star_then(t: Seq<char>, j: int, p: Seq<char>, tail: Seq<char>)
    requires
        0 <= j <= t.len(),
        p == seq!['*'] + tail,
        is_literal(tail),
    ensures
        glob_at(t, j, p, 0) <==> ({
            let m = t.len() - tail.len();
            j <= m && ends_at(t, tail, m) && forall|k: int| j <= k < m ==> t[k] != '/'
        }),
    decreases t.len() - j,
{
    assert(p.skip(1) =~= tail);
    assert(p[0] == '*');
    if tail.len() > 0 {
        assert(p[1] == tail[0]);
        lemma_literal_char(tail, 0);
    }
    lemma_rest_is_tail(t, j, p, 1, tail);
    if j < t.len() {
        lemma_star_then(t, j + 1, p, tail);
    }
}

proof fn lemma_any_depth_then(t: Seq<char>, j: int, p: Seq<char>, tail: Seq<char>)
    requires
        0 <= j <= t.len(),
        p == seq!['*', '*', '/'] + tail,
        is_literal(tail),
    ensures
        glob_at(t, j, p, 0) <==> ({
            let m = t.len() - tail.len();
            j <= m && ends_at(t, tail, m) && (m == 0 || t[m - 1] == '/')
        }),
    decreases t.len() - j,
{
    let m = t.len() - tail.len();
    let slash = seq!['/'] + tail;
    assert(p.skip(3) =~= tail);
    assert(p.skip(2) =~= slash);
    assert(p[0] == '*' && p[1] == '*' && p[2] == '/');
    assert(is_literal(slash)) by {
        assert forall|c: char| slash.contains(c) implies tail.contains(c) || c == '/' by {
            let k = choose|k: int| 0 <= k < slash.len() && slash[k] == c;
            if k > 0 {
                assert(tail[k - 1] == c);
            }
        }
    }
    lemma_rest_is_tail(t, j, p, 3, tail);
    lemma_rest_is_tail(t, j, p, 2, slash);
    if ends_at(t, slash, j) {
        assert(t.skip(j)[0] == t[j]);
        assert(t.skip(j + 1) =~= tail) by {
            assert(t.skip(j).skip(1) =~= t.skip(j + 1));
            assert(slash.skip(1) =~= tail);
        }
    }
    if j < t.len() {
        lemma_any_depth_then(t, j + 1, p, tail);
    }
}

/// In front of what stands for itself, `*` selects any name that ends so, and `**/` any path that
/// ends in it as a whole.
pub proof fn lemma_wildcards_before_a_tail(path: Seq<char>, tail: Seq<char>)
    requires
        is_literal(tail),
    ensures
        ({
            let m = path.len() - tail.len();
            &&& glob_selects(path, seq!['*'] + tail) <==> m >= 0 && path.skip(m) == tail && forall|
                k: int,
            |
                0 <= k < m ==> path[k] != '/'
            &&& glob_selects(path, seq!['*', '*', '/'] + tail) <==> m >= 0 && path.skip(m) == tail
                && (m == 0 || path[m - 1] == '/')
        }),
{
    let one = seq!['*'] + tail;
    let deep = seq!['*', '*', '/'] + tail;
    assert(one[0] == '*' && deep[0] == '*');
    assert(has_wildcard(one) && has_wildcard(deep));
    lemma_star_then(path, 0, one, tail);
    lemma_any_depth_then(path, 0, deep, tail);
}

/// A query without globs selects every path; `IN` keeps those that its glob selects, and each
/// `EXCLUDE` takes out those that its own selects.
pub proof fn lemma_a_scope_is_in_and_not_excluded(
    path: Seq<char>,
    bare: Clauses,
    scoped: Clauses,
    more: Clauses,
    glob: String,
)
    requires
        bare.in_glob is None,
        bare.exclude_globs@.len() == 0,
        scoped.in_glob is Some,
        scoped.exclude_globs@.len() == 0,
        more.in_glob == scoped.in_glob,
        more.exclude_globs@ == seq![glob],
    ensures
        scope_selects(path, bare),
        scope_selects(path, scoped) <==> glob_selects(path, scoped.in_glob->0@),
        scope_selects(path, more) <==> scope_selects(path, scoped) && !glob_selects(path, glob@),
{
    if scope_selects(path, more) {
        assert(!glob_selects(path, more.exclude_globs@[0]@));
    }
}

/// One more `EXCLUDE` takes out what its glob selects and nothing else.
pub proof fn lemma_an_exclude_takes_out_what_it_selects(
    path: Seq<char>,
    c: Clauses,
    more: Clauses,
    glob: String,
)
    requires
        more.in_glob == c.in_glob,
        more.exclude_globs@ == c.exclude_globs@.push(glob),
    ensures
        scope_selects(path, more) <==> scope_selects(path, c) && !glob_selects(path, glob@),
{
    let n = c.exclude_globs@.len() as int;
    if scope_selects(path, more) {
        assert(!glob_selects(path, more.exclude_globs@[n]@));
        assert forall|i: int| 0 <= i < n implies !glob_selects(
            path,
            (#[trigger] c.exclude_globs@[i])@,
        ) by {
            assert(more.exclude_globs@[i] == c.exclude_globs@[i]);
        }
    }
    if scope_selects(path, c) && !glob_selects(path, glob@) {
        assert forall|i: int| 0 <= i < n + 1 implies !glob_selects(
            path,
            (#[trigger] more.exclude_globs@[i])@,
        ) by {
            if i < n {
                assert(more.exclude_globs@[i] == c.exclude_globs@[i]);
            }
        }
    }
}

/// A path lies in the directory that is left without its last part; the root, and nothing, lie in none.
pub proof fn lemma_a_path_lies_in_its_directory(path: Seq<char>)
    ensures
        (match parent_of(path) {
            Some(dir) => path_parts(path).len() > 0 && path_parts(dir) == path_parts(
                path,
            ).drop_last(),
            None => path_parts(path).len() == 0 || path_parts(path).last() == seq!['/'],
        }),
{
    let parts = path_parts(path);
    if parts.len() > 0 {
        lemma_first_parts(path, parts.len() - 1);
        assert(parts.take(parts.len() - 1) =~= parts.drop_last());
    }
}

// ───────────────────────────── paths under a root ─────────────────────────────

/// A path below a root, taken relative to it, has the parts that follow those of the root.
pub proof fn lemma_a_relative_path_is_what_follows_the_root(
    path: Seq<char>,
    root: Seq<char>,
    rest: Seq<Seq<char>>,
)
    requires
        path_parts(path) == path_parts(root) + rest,
    ensures
        path_parts(crate::paths::relative_to(path, root)) == rest,
{
    let n = path_parts(root).len() as int;
    assert(path_parts(path).take(n) =~= path_parts(root));
    assert(path_parts(path).skip(n) =~= rest);
    crate::path_parts::lemma_last_parts(path, n);
}

/// A path behind a root and a separator, taken relative to that root, is the path.
pub proof fn lemma_a_path_put_under_a_root_is_given_back(root: Seq<char>, rel: Seq<char>)
    requires
        root.len() > 0,
        rel.len() > 0 ==> rel[0] != '/',
        path_parts(rel).len() > 0 ==> path_parts(rel)[0] != seq!['.'],
    ensures
        crate::path_parts::same_path(
            crate::paths::relative_to(root + seq!['/'] + rel, root),
            rel,
        ),
{
    crate::path_parts::lemma_joined_parts(root, rel);
    crate::path_parts::lemma_behind(rel);
    lemma_a_relative_path_is_what_follows_the_root(
        root + seq!['/'] + rel,
        root,
        path_parts(rel),
    );
}

/// A path that some part of a root tells apart is not below it, and stays as it is written.
pub proof fn lemma_a_path_elsewhere_stays_as_written(path: Seq<char>, root: Seq<char>, k: int)
    requires
        0 <= k < path_parts(root).len(),
        k < path_parts(path).len() ==> path_parts(path)[k] != path_parts(root)[k],
    ensures
        crate::paths::relative_to(path, root) == path,
{
    if crate::path_parts::parts_start(path_parts(path), path_parts(root)) {
        assert(path_parts(path).take(path_parts(root).len() as int)[k] == path_parts(path)[k]);
    }
}

} // verus!
