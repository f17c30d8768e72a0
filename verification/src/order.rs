//! Orders: byte strings, text and paths.

use crate::path_parts::{
    as_ints, is_same_path, lemma_same_ranks, lists_path, path_ranks, ranks_of, same_path,
};
use crate::segment::lists_text;
use crate::sort::{is_sorted_order, sorted_order, sorts_before, RankTable};
use crate::text::same_text;
use vstd::prelude::*;
use vstd::string::*;
use vstd::utf8::*;

verus! {

// ───────────────────────────── ranks ─────────────────────────────

/// Dictionary order on sequences of ranks; a proper prefix comes first.
pub open spec fn ranks_before(a: Seq<int>, b: Seq<int>) -> bool
    decreases a.len(),
{
    if b.len() == 0 {
        false
    } else if a.len() == 0 {
        true
    } else if a[0] != b[0] {
        a[0] < b[0]
    } else {
        ranks_before(a.drop_first(), b.drop_first())
    }
}

/// Of two different sequences exactly one comes first.
pub proof fn lemma_ranks_total(a: Seq<int>, b: Seq<int>)
    ensures
        ranks_before(a, b) || ranks_before(b, a) || a == b,
        !(ranks_before(a, b) && ranks_before(b, a)),
    decreases a.len(),
{
    if a.len() == 0 || b.len() == 0 {
        if a.len() == 0 && b.len() == 0 {
            assert(a =~= b);
        }
    } else if a[0] == b[0] {
        lemma_ranks_total(a.drop_first(), b.drop_first());
        if a.drop_first() == b.drop_first() {
            assert(a =~= seq![a[0]] + a.drop_first());
            assert(b =~= seq![b[0]] + b.drop_first());
        }
    }
}

/// The order is transitive.
pub proof fn lemma_ranks_transitive(a: Seq<int>, b: Seq<int>, c: Seq<int>)
    requires
        ranks_before(a, b),
        ranks_before(b, c),
    ensures
        ranks_before(a, c),
    decreases a.len(),
{
    if a.len() > 0 && b.len() > 0 && c.len() > 0 && a[0] == b[0] && b[0] == c[0] {
        lemma_ranks_transitive(a.drop_first(), b.drop_first(), c.drop_first());
    }
}

/// Stepping past a common first character.
proof fn lemma_ranks_step(a: Seq<int>, b: Seq<int>, i: int)
    requires
        0 <= i < a.len(),
        i < b.len(),
        a[i] == b[i],
    ensures
        ranks_before(a.skip(i), b.skip(i)) == ranks_before(a.skip(i + 1), b.skip(i + 1)),
{
    assert(a.skip(i).drop_first() =~= a.skip(i + 1));
    assert(b.skip(i).drop_first() =~= b.skip(i + 1));
}

// ───────────────────────────── byte strings ─────────────────────────────

/// The ranks by which byte strings are ordered.
pub open spec fn byte_ranks(a: Seq<u8>) -> Seq<int> {
    a.map_values(|b: u8| b as int)
}

/// Byte strings in dictionary order; a proper prefix comes first.
pub open spec fn bytes_before(a: Seq<u8>, b: Seq<u8>) -> bool {
    ranks_before(byte_ranks(a), byte_ranks(b))
}

/// Of two different byte strings exactly one comes first.
pub proof fn lemma_bytes_total(a: Seq<u8>, b: Seq<u8>)
    ensures
        bytes_before(a, b) || bytes_before(b, a) || a == b,
        !(bytes_before(a, b) && bytes_before(b, a)),
        a == b ==> !bytes_before(a, b),
{
    lemma_ranks_total(byte_ranks(a), byte_ranks(b));
    if byte_ranks(a) == byte_ranks(b) {
        assert(a.len() == byte_ranks(a).len());
        assert(b.len() == byte_ranks(b).len());
        assert forall|i: int| 0 <= i < a.len() implies a[i] == b[i] by {
            assert(byte_ranks(a)[i] == a[i] as int);
            assert(byte_ranks(b)[i] == b[i] as int);
        }
        assert(a =~= b);
    }
}

/// The order of byte strings is transitive.
pub proof fn lemma_bytes_transitive(a: Seq<u8>, b: Seq<u8>, c: Seq<u8>)
    requires
        bytes_before(a, b),
        bytes_before(b, c),
    ensures
        bytes_before(a, c),
{
    lemma_ranks_transitive(byte_ranks(a), byte_ranks(b), byte_ranks(c));
}

/// Whether `a` comes before `b` in dictionary order.
pub fn bytes_less(a: &[u8], b: &[u8]) -> (r: bool)
    ensures
        r == bytes_before(a@, b@),
{
    let mut i: usize = 0;
    proof {
        assert(byte_ranks(a@).skip(0) =~= byte_ranks(a@));
        assert(byte_ranks(b@).skip(0) =~= byte_ranks(b@));
    }
    while i < a.len() && i < b.len() && a[i] == b[i]
        invariant
            i <= a.len(),
            i <= b.len(),
            bytes_before(a@, b@) == ranks_before(
                byte_ranks(a@).skip(i as int),
                byte_ranks(b@).skip(i as int),
            ),
        decreases a.len() - i,
    {
        proof {
            let x = byte_ranks(a@);
            let y = byte_ranks(b@);
            assert(x.skip(i as int).drop_first() =~= x.skip(i as int + 1));
            assert(y.skip(i as int).drop_first() =~= y.skip(i as int + 1));
        }
        i += 1;
    }
    if i >= b.len() {
        false
    } else if i >= a.len() {
        true
    } else {
        a[i] < b[i]
    }
}

// ───────────────────────────── text ─────────────────────────────

/// Dictionary order on text: that of the UTF-8 bytes.
pub open spec fn text_before(a: Seq<char>, b: Seq<char>) -> bool {
    bytes_before(encode_utf8(a), encode_utf8(b))
}

/// Of two different texts exactly one comes first.
pub proof fn lemma_text_total(a: Seq<char>, b: Seq<char>)
    ensures
        text_before(a, b) || text_before(b, a) || a == b,
        !(text_before(a, b) && text_before(b, a)),
        a == b ==> !text_before(a, b),
{
    lemma_bytes_total(encode_utf8(a), encode_utf8(b));
    encode_utf8_decode_utf8(a);
    encode_utf8_decode_utf8(b);
}

/// The order of text is transitive.
pub proof fn lemma_text_transitive(a: Seq<char>, b: Seq<char>, c: Seq<char>)
    requires
        text_before(a, b),
        text_before(b, c),
    ensures
        text_before(a, c),
{
    lemma_bytes_transitive(encode_utf8(a), encode_utf8(b), encode_utf8(c));
}

/// Whether `a` comes before `b` in dictionary order.
pub fn text_less(a: &str, b: &str) -> (r: bool)
    ensures
        r == text_before(a@, b@),
{
    bytes_less(a.as_bytes(), b.as_bytes())
}

/// A list of texts, ranked in dictionary order.
pub struct TextTable<'a> {
    pub items: &'a Vec<String>,
}

impl<'a> RankTable for TextTable<'a> {
    open spec fn size(&self) -> nat {
        self.items@.len()
    }

    open spec fn readable(&self) -> bool {
        true
    }

    open spec fn ranks_before(&self, i: int, j: int) -> bool {
        text_before(self.items@[i]@, self.items@[j]@)
    }

    proof fn strict_weak_order(&self, i: int, j: int, k: int) {
        let (a, b, c) = (self.items@[i]@, self.items@[j]@, self.items@[k]@);
        lemma_text_weak(a, b, c);
    }

    fn count(&self) -> (n: usize) {
        self.items.len()
    }

    fn is_before(&self, i: usize, j: usize) -> (r: bool) {
        text_less(self.items[i].as_str(), self.items[j].as_str())
    }
}

/// The order of text is a strict weak order.
pub proof fn lemma_text_weak(a: Seq<char>, b: Seq<char>, c: Seq<char>)
    ensures
        !text_before(a, a),
        text_before(a, b) && text_before(b, c) ==> text_before(a, c),
        !text_before(a, b) && !text_before(b, c) ==> !text_before(a, c),
{
    lemma_text_total(a, a);
    lemma_text_total(a, b);
    lemma_text_total(b, c);
    lemma_text_total(a, c);
    if text_before(a, b) && text_before(b, c) {
        lemma_text_transitive(a, b, c);
    }
    if text_before(b, a) && text_before(c, b) {
        lemma_text_transitive(c, b, a);
    }
}

// ───────────────────────────── paths ─────────────────────────────

/// Part-by-part order on paths written with `/`. Of two texts that write the same path none comes
/// first.
pub open spec fn path_before(a: Seq<char>, b: Seq<char>) -> bool {
    ranks_before(path_ranks(a), path_ranks(b))
}

/// Of two different paths exactly one comes first.
pub proof fn lemma_path_total(a: Seq<char>, b: Seq<char>)
    ensures
        path_before(a, b) || path_before(b, a) || same_path(a, b),
        !(path_before(a, b) && path_before(b, a)),
        same_path(a, b) ==> !path_before(a, b) && !path_before(b, a),
{
    lemma_ranks_total(path_ranks(a), path_ranks(b));
    lemma_same_ranks(a, b);
}

/// The order of paths is a strict weak order.
pub proof fn lemma_path_weak(a: Seq<char>, b: Seq<char>, c: Seq<char>)
    ensures
        !path_before(a, a),
        path_before(a, b) && path_before(b, c) ==> path_before(a, c),
        !path_before(a, b) && !path_before(b, c) ==> !path_before(a, c),
{
    lemma_path_total(a, a);
    lemma_path_total(a, b);
    lemma_path_total(b, c);
    lemma_path_total(a, c);
    let (x, y, z) = (path_ranks(a), path_ranks(b), path_ranks(c));
    lemma_ranks_total(x, y);
    lemma_ranks_total(y, z);
    lemma_ranks_total(x, z);
    if path_before(a, b) && path_before(b, c) {
        lemma_ranks_transitive(x, y, z);
    }
    if path_before(b, a) && path_before(c, b) {
        lemma_ranks_transitive(z, y, x);
    }
}

/// Whether ranks come before others in dictionary order.
fn ranks_less(a: &Vec<u32>, b: &Vec<u32>) -> (r: bool)
    ensures
        r == ranks_before(as_ints(a@), as_ints(b@)),
{
    let ghost x = as_ints(a@);
    let ghost y = as_ints(b@);
    let mut i: usize = 0;
    proof {
        assert(x.skip(0) =~= x);
        assert(y.skip(0) =~= y);
    }
    while i < a.len() && i < b.len() && a[i] == b[i]
        invariant
            x == as_ints(a@),
            y == as_ints(b@),
            i <= a.len(),
            i <= b.len(),
            ranks_before(x, y) == ranks_before(x.skip(i as int), y.skip(i as int)),
        decreases a.len() - i,
    {
        proof {
            lemma_ranks_step(x, y, i as int);
        }
        i += 1;
    }
    if i >= b.len() {
        false
    } else if i >= a.len() {
        true
    } else {
        a[i] < b[i]
    }
}

/// Whether the path `a` comes before the path `b`.
pub fn path_less(a: &str, b: &str) -> (r: bool)
    ensures
        r == path_before(a@, b@),
{
    let x = ranks_of(a);
    let y = ranks_of(b);
    ranks_less(&x, &y)
}

/// A list of paths, ranked part by part.
pub struct PathTable<'a> {
    pub items: &'a Vec<String>,
}

impl<'a> RankTable for PathTable<'a> {
    open spec fn size(&self) -> nat {
        self.items@.len()
    }

    open spec fn readable(&self) -> bool {
        true
    }

    open spec fn ranks_before(&self, i: int, j: int) -> bool {
        path_before(self.items@[i]@, self.items@[j]@)
    }

    proof fn strict_weak_order(&self, i: int, j: int, k: int) {
        lemma_path_weak(self.items@[i]@, self.items@[j]@, self.items@[k]@);
    }

    fn count(&self) -> (n: usize) {
        self.items.len()
    }

    fn is_before(&self, i: usize, j: usize) -> (r: bool) {
        path_less(self.items[i].as_str(), self.items[j].as_str())
    }
}

// ───────────────────────────── sorted sets ─────────────────────────────

/// Whether paths stand in strictly ascending order, so that none occurs twice.
pub open spec fn paths_ascend(v: Seq<String>) -> bool {
    forall|i: int, j: int|
        #![trigger v[i], v[j]]
        0 <= i < j < v.len() ==> path_before(v[i]@, v[j]@)
}

/// Whether texts stand in strictly ascending order, so that none occurs twice.
pub open spec fn texts_ascend(v: Seq<String>) -> bool {
    forall|i: int, j: int|
        #![trigger v[i], v[j]]
        0 <= i < j < v.len() ==> text_before(v[i]@, v[j]@)
}

/// Whether two lists hold the same texts.
pub open spec fn same_members(a: Seq<String>, b: Seq<String>) -> bool {
    forall|t: Seq<char>| #[trigger]
        lists_text(a, t) == lists_text(b, t)
}

/// Whether two lists hold the same paths, each in spellings of its own.
pub open spec fn same_paths(a: Seq<String>, b: Seq<String>) -> bool {
    forall|p: Seq<char>| #[trigger]
        lists_path(a, p) == lists_path(b, p)
}

/// The paths of a list in ascending order, each once, in a spelling that the list has.
pub fn sorted_paths(v: &Vec<String>) -> (out: Vec<String>)
    ensures
        paths_ascend(out@),
        same_paths(out@, v@),
        forall|i: int| 0 <= i < out@.len() ==> lists_text(v@, (#[trigger] out@[i])@),
{
    let table = PathTable { items: v };
    let order = sorted_order(&table);
    let mut out: Vec<String> = Vec::new();
    let mut k: usize = 0;
    while k < order.len()
        invariant
            table.items == v,
            is_sorted_order(&table, order@),
            k <= order@.len(),
            paths_ascend(out@),
            out@.len() <= k,
            k > 0 ==> out@.len() > 0 && same_path(
                out@[out@.len() - 1]@,
                v@[order@[k - 1] as int]@,
            ),
            forall|i: int|
                0 <= i < out@.len() ==> lists_text(v@, (#[trigger] out@[i])@),
            forall|a: int|
                0 <= a < k ==> lists_path(
                    out@,
                    v@[#[trigger] order@[a] as int]@,
                ),
        decreases order.len() - k,
    {
        let at: usize = order[k];
        let ghost was = out@;
        let fresh = k == 0 || !is_same_path(
            v[at].as_str(),
            v[order[k - 1]].as_str(),
        );
        if fresh {
            proof {
                if k > 0 {
                    let last = v@[order@[k - 1] as int]@;
                    assert(sorts_before(&table, order@[k - 1] as int, order@[k as int] as int));
                    lemma_path_total(last, v@[at as int]@);
                    assert(path_before(was[was.len() - 1]@, v@[at as int]@)) by {
                        lemma_path_total(was[was.len() - 1]@, last);
                        lemma_path_weak(was[was.len() - 1]@, v@[at as int]@, last);
                    }
                    assert forall|i: int| 0 <= i < was.len() implies path_before(
                        (#[trigger] was[i])@,
                        v@[at as int]@,
                    ) by {
                        if i < was.len() - 1 {
                            assert(path_before(was[i]@, was[was.len() - 1]@));
                            lemma_path_weak(was[i]@, was[was.len() - 1]@, v@[at as int]@);
                        }
                    }
                }
            }
            out.push(v[at].clone());
            assert(out@[was.len() as int]@ == v@[at as int]@);
        } else {
            assert(same_path(was[was.len() - 1]@, v@[at as int]@));
        }
        proof {
            assert forall|t: Seq<char>| lists_path(was, t) implies #[trigger]
                lists_path(out@, t) by {
                let i = choose|i: int| 0 <= i < was.len() && same_path((#[trigger] was[i])@, t);
                assert(same_path(out@[i]@, t));
            }
            assert forall|i: int| 0 <= i < out@.len() implies lists_text(
                v@,
                (#[trigger] out@[i])@,
            ) by {
                if i < was.len() {
                    assert(out@[i] == was[i]);
                } else {
                    assert(v@[at as int]@ == out@[i]@);
                }
            }
            assert forall|a: int| 0 <= a < k + 1 implies lists_path(
                out@,
                v@[#[trigger] order@[a] as int]@,
            ) by {
                if a < k {
                    assert(lists_path(was, v@[order@[a] as int]@));
                } else {
                    assert(same_path(out@[out@.len() - 1]@, v@[at as int]@));
                }
            }
        }
        k += 1;
    }
    proof {
        assert forall|t: Seq<char>| #[trigger] lists_path(out@, t)
            == lists_path(v@, t) by {
            if lists_path(v@, t) {
                let i = choose|i: int| 0 <= i < v@.len() && same_path((#[trigger] v@[i])@, t);
                assert(order@.contains(i as usize));
                let a = choose|a: int| 0 <= a < order@.len() && order@[a] == i as usize;
                let x = v@[order@[a] as int]@;
                assert(lists_path(out@, x));
                let k = choose|k: int| 0 <= k < out@.len() && same_path((#[trigger] out@[k])@, x);
                assert(same_path(out@[k]@, t));
            }
            if lists_path(out@, t) {
                let i = choose|i: int| 0 <= i < out@.len() && same_path((#[trigger] out@[i])@, t);
                assert(lists_text(v@, out@[i]@));
                let k = choose|k: int| 0 <= k < v@.len() && (#[trigger] v@[k])@ == out@[i]@;
                assert(same_path(v@[k]@, t));
            }
        }
    }
    out
}

/// The texts of a list in ascending order, each once.
pub fn sorted_texts(v: &Vec<String>) -> (out: Vec<String>)
    ensures
        texts_ascend(out@),
        same_members(out@, v@),
{
    let table = TextTable { items: v };
    let order = sorted_order(&table);
    let mut out: Vec<String> = Vec::new();
    let mut k: usize = 0;
    while k < order.len()
        invariant
            table.items == v,
            is_sorted_order(&table, order@),
            k <= order@.len(),
            texts_ascend(out@),
            out@.len() <= k,
            k > 0 ==> out@.len() > 0 && out@[out@.len() - 1]@ == v@[order@[k - 1] as int]@,
            forall|i: int|
                0 <= i < out@.len() ==> lists_text(v@, (#[trigger] out@[i])@),
            forall|a: int|
                0 <= a < k ==> lists_text(
                    out@,
                    v@[#[trigger] order@[a] as int]@,
                ),
        decreases order.len() - k,
    {
        let at: usize = order[k];
        let ghost was = out@;
        let fresh = k == 0 || !same_text(
            v[at].as_str(),
            v[order[k - 1]].as_str(),
        );
        if fresh {
            proof {
                if k > 0 {
                    let last = v@[order@[k - 1] as int]@;
                    assert(sorts_before(&table, order@[k - 1] as int, order@[k as int] as int));
                    lemma_text_total(last, v@[at as int]@);
                    assert forall|i: int| 0 <= i < was.len() implies text_before(
                        (#[trigger] was[i])@,
                        v@[at as int]@,
                    ) by {
                        if i < was.len() - 1 {
                            assert(text_before(was[i]@, was[was.len() - 1]@));
                            lemma_text_weak(was[i]@, last, v@[at as int]@);
                        }
                    }
                }
            }
            out.push(v[at].clone());
            assert(out@[was.len() as int]@ == v@[at as int]@);
        } else {
            assert(was[was.len() - 1]@ == v@[at as int]@);
        }
        proof {
            assert forall|t: Seq<char>| lists_text(was, t) implies #[trigger]
                lists_text(out@, t) by {
                let i = choose|i: int| 0 <= i < was.len() && (#[trigger] was[i])@ == t;
                assert(out@[i]@ == t);
            }
            assert(v@[at as int]@ == v@[order@[k as int] as int]@);
            assert forall|a: int| 0 <= a < k + 1 implies lists_text(
                out@,
                v@[#[trigger] order@[a] as int]@,
            ) by {
                if a < k {
                    assert(lists_text(was, v@[order@[a] as int]@));
                } else {
                    assert(out@[out@.len() - 1]@ == v@[at as int]@);
                }
            }
        }
        k += 1;
    }
    proof {
        assert forall|t: Seq<char>| #[trigger] lists_text(out@, t)
            == lists_text(v@, t) by {
            if lists_text(v@, t) {
                let i = choose|i: int| 0 <= i < v@.len() && (#[trigger] v@[i])@ == t;
                assert(order@.contains(i as usize));
                let a = choose|a: int| 0 <= a < order@.len() && order@[a] == i as usize;
                assert(lists_text(out@, v@[order@[a] as int]@));
            }
            if lists_text(out@, t) {
                let i = choose|i: int| 0 <= i < out@.len() && (#[trigger] out@[i])@ == t;
                assert(lists_text(v@, out@[i]@));
            }
        }
    }
    out
}

} // verus!
