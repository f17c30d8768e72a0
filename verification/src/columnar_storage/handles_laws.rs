//! What handles of nodes promise: they read back, they tell segments apart, and they lead to the node
//! that they were given for.

use crate::build_context::lemma_hex_ascii;
use crate::columnar_storage::node_find::{handle_body, NodeLookup};
use crate::columnar_storage::node_lookup::{
    end_line_in, newlines_before, row_of_ordinal, trimmed_in, HandleSource, NodeSite,
};
use crate::columnar_storage::outline::node_target;
use crate::columnar_storage::ColumnarStorage;
use crate::node_id::{
    hex_bytes, hex_pair, hex_value, index_of_char, node_id_text, path_node_id, prefix_len_among,
    unique_head_from,
};
use crate::segment::SegmentReader;
use crate::text::{
    all_digits, decimal, digits_value, hex_digit, hex_head, hex_of, is_digit,
    lemma_decimal_reads_back, padded_decimal, unsigned_of,
};
use vstd::prelude::*;
use vstd::string::*;
use vstd::utf8::*;

verus! {

// ───────────────────────────── numerals ─────────────────────────────

proof fn lemma_leading_zeros(n: nat, d: Seq<char>)
    requires
        all_digits(d),
    ensures
        ({
            let z = Seq::new(n, |i: int| '0') + d;
            all_digits(z) && digits_value(z) == digits_value(d)
        }),
    decreases d.len(),
{
    let z = Seq::new(n, |i: int| '0') + d;
    assert forall|i: int| 0 <= i < z.len() implies is_digit(#[trigger] z[i]) by {
        if i >= n {
            assert(z[i] == d[i - n]);
        }
    }
    if d.len() > 0 {
        lemma_leading_zeros(n, d.drop_last());
        assert(z.drop_last() =~= Seq::new(n, |i: int| '0') + d.drop_last());
        assert(z.last() == d.last());
    } else {
        assert(z =~= Seq::new(n, |i: int| '0'));
        lemma_only_zeros(n);
    }
}

proof fn lemma_only_zeros(n: nat)
    ensures
        digits_value(Seq::new(n, |i: int| '0')) == 0,
    decreases n,
{
    let z = Seq::new(n, |i: int| '0');
    if n > 0 {
        lemma_only_zeros((n - 1) as nat);
        assert(z.drop_last() =~= Seq::new((n - 1) as nat, |i: int| '0'));
        assert(z.last() == '0');
    }
}

/// A numeral reads back as its number, with or without zeros in front of it.
pub proof fn lemma_a_numeral_reads_back(n: nat, width: nat, max: nat)
    requires
        n <= max,
    ensures
        unsigned_of(decimal(n), max) == Some(n),
        unsigned_of(padded_decimal(n, width), max) == Some(n),
{
    let d = decimal(n);
    lemma_decimal_reads_back(n);
    assert(is_digit(d[0]));
    let p = padded_decimal(n, width);
    if d.len() < width {
        let z = (width - d.len()) as nat;
        lemma_leading_zeros(z, d);
        assert(p == Seq::new(z, |i: int| '0') + d);
        assert(p[0] == '0');
    }
}

// ───────────────────────────── hexadecimal text ─────────────────────────────

proof fn lemma_hex_char(n: nat)
    requires
        n < 16,
    ensures
        ('0' <= hex_digit(n) && hex_digit(n) <= '9') || ('a' <= hex_digit(n) && hex_digit(n) <= 'f'),
        hex_value(hex_digit(n) as u8) == Some(n as u8),
{
}

proof fn lemma_hex_chars(bytes: Seq<u8>, i: int)
    requires
        0 <= i < hex_of(bytes).len(),
    ensures
        ({
            let c = hex_of(bytes)[i];
            ('0' <= c && c <= '9') || ('a' <= c && c <= 'f')
        }),
        hex_value(hex_of(bytes)[i] as u8) == Some(
            if i % 2 == 0 {
                (bytes[i / 2] / 16) as u8
            } else {
                (bytes[i / 2] % 16) as u8
            },
        ),
{
    let b = bytes[i / 2];
    assert(b / 16 < 16 && b % 16 < 16);
    lemma_hex_char((b / 16) as nat);
    lemma_hex_char((b % 16) as nat);
}

/// The hexadecimal text of bytes reads back as the bytes.
pub proof fn lemma_hex_text_reads_back(bytes: Seq<u8>)
    requires
        0 < bytes.len() <= 32,
    ensures
        hex_bytes(encode_utf8(hex_of(bytes))) == Some(bytes),
{
    let h = hex_of(bytes);
    lemma_hex_ascii(bytes);
    is_ascii_chars_encode_utf8(h);
    let s = encode_utf8(h);
    assert forall|i: int| 0 <= i < bytes.len() implies #[trigger] hex_pair(s[2 * i], s[2 * i + 1])
        == Some(bytes[i]) by {
        assert(h[2 * i] as u8 == s[2 * i]);
        assert(h[2 * i + 1] as u8 == s[2 * i + 1]);
        lemma_hex_chars(bytes, 2 * i);
        lemma_hex_chars(bytes, 2 * i + 1);
        assert((2 * i) / 2 == i && (2 * i) % 2 == 0 && (2 * i + 1) / 2 == i && (2 * i + 1) % 2 == 1);
        let b = bytes[i];
        assert((b / 16) * 16 + (b % 16) == b);
    }
    assert(hex_bytes(s)->0 =~= bytes);
}

proof fn lemma_hex_head(bytes: Seq<u8>, n: nat)
    requires
        n <= bytes.len(),
    ensures
        hex_head(bytes, 2 * n) == hex_of(bytes.take(n as int)),
{
    let h = hex_of(bytes);
    let t = hex_of(bytes.take(n as int));
    assert(t.len() == 2 * n);
    assert(h.take(2 * n as int) =~= t) by {
        assert forall|i: int| 0 <= i < 2 * n implies h[i] == t[i] by {
            assert(bytes.take(n as int)[i / 2] == bytes[i / 2]);
        }
    }
    if 2 * n == h.len() {
        assert(h.take(h.len() as int) =~= h);
    }
}

// ───────────────────────────── handles ─────────────────────────────

proof fn lemma_first_dot(head: Seq<char>, tail: Seq<char>, from: int)
    requires
        0 <= from <= head.len(),
        forall|k: int| from <= k < head.len() ==> head[k] != '.',
    ensures
        index_of_char(head + seq!['.'] + tail, '.', from) == head.len(),
    decreases head.len() - from,
{
    let s = head + seq!['.'] + tail;
    if from < head.len() {
        assert(s[from] == head[from]);
        lemma_first_dot(head, tail, from + 1);
    } else {
        assert(s[from] == '.');
    }
}

/// A handle reads back as the fingerprint and the node number that it was written for, and a file
/// path is no handle.
pub proof fn lemma_a_handle_reads_back(digest: Seq<u8>, width: nat, ordinal: u32)
    requires
        0 < width,
        digest.len() > 0,
    ensures
        node_target(node_id_text(digest, width, ordinal as nat)) == Some(
            (hex_head(digest, width), ordinal as nat),
        ),
        handle_body(node_id_text(digest, width, ordinal as nat)) == hex_head(digest, width) + seq![
            '.',
        ] + padded_decimal(ordinal as nat, 4),
        index_of_char(handle_body(node_id_text(digest, width, ordinal as nat)), '.', 0)
            == hex_head(digest, width).len(),
        unsigned_of(padded_decimal(ordinal as nat, 4), u32::MAX as nat) == Some(ordinal as nat),
{
    let h = hex_head(digest, width);
    let d = padded_decimal(ordinal as nat, 4);
    let id = node_id_text(digest, width, ordinal as nat);
    lemma_hex_ascii(digest);
    assert(h.len() > 0);
    assert forall|k: int| 0 <= k < h.len() implies h[k] != '.' && h[k] != '/'
        && crate::columnar_storage::outline::hex_digit(#[trigger] h[k]) by {
        lemma_hex_chars(digest, k);
        assert(h[k] == hex_of(digest)[k]);
    }
    lemma_a_numeral_reads_back(ordinal as nat, 4, u32::MAX as nat);
    lemma_decimal_reads_back(ordinal as nat);
    assert(id =~= seq!['n'] + h + seq!['.'] + d);
    assert(id.skip(1) =~= h + seq!['.'] + d);
    lemma_first_dot(h, d, 0);
    let nh = seq!['n'] + h;
    assert forall|k: int| 1 <= k < nh.len() implies nh[k] != '.' by {
        assert(nh[k] == h[k - 1]);
    }
    lemma_first_dot(nh, d, 1);
    assert(id =~= nh + seq!['.'] + d);
    let dot = nh.len() as int;
    assert(id.skip(dot + 1) =~= d);
    assert(id.subrange(1, dot) =~= h);
    assert(!id.contains('/')) by {
        if id.contains('/') {
            let k = choose|k: int| 0 <= k < id.len() && id[k] == '/';
            if 1 <= k < dot {
                assert(id[k] == h[k - 1]);
            } else if k > dot {
                assert(id[k] == d[k - dot - 1]);
                lemma_padded_digits(ordinal as nat, 4);
                assert(is_digit(d[k - dot - 1]));
            }
        }
    }
    assert forall|i: int| 1 <= i < dot implies crate::columnar_storage::outline::hex_digit(
        #[trigger] id[i],
    ) by {
        assert(id[i] == h[i - 1]);
    }
}

proof fn lemma_padded_digits(n: nat, width: nat)
    ensures
        all_digits(padded_decimal(n, width)),
{
    lemma_decimal_reads_back(n);
    let d = decimal(n);
    if d.len() < width {
        lemma_leading_zeros((width - d.len()) as nat, d);
    }
}

proof fn lemma_unique_head(hash: Seq<u8>, all: Seq<Seq<u8>>, n: int)
    requires
        n <= 32,
    ensures
        ({
            let u = unique_head_from(hash, all, n);
            n <= u <= 32 && (u < 32 ==> forall|i: int|
                0 <= i < all.len() ==> (#[trigger] all[i]) == hash || all[i].take(u) != hash.take(
                    u,
                ))
        }),
    decreases 32 - n,
{
    if n < 32 {
        lemma_unique_head(hash, all, n + 1);
    }
}

/// A handle's fingerprint is written long enough to tell its segment from every other: no other
/// digest begins with the bytes that it shows, and it shows at least six.
pub proof fn lemma_a_fingerprint_tells_segments_apart(hash: Seq<u8>, all: Seq<Seq<u8>>, i: int)
    requires
        0 <= i < all.len(),
        hash.len() == 32,
        all[i].len() == 32,
        all[i] != hash,
    ensures
        ({
            let n = prefix_len_among(hash, all) / 2;
            &&& 6 <= n <= 32
            &&& prefix_len_among(hash, all) == 2 * n
            &&& all[i].take(n) != hash.take(n)
        }),
{
    lemma_unique_head(hash, all, 6);
    assert(all[i].take(32) =~= all[i]);
    assert(hash.take(32) =~= hash);
}

// ───────────────────────────── nodes ─────────────────────────────

proof fn lemma_row_of_ordinal(seg: SegmentReader, o: u32, i: int, r: int)
    requires
        0 <= i <= r < seg.rows@.len(),
        seg.rows@[r].ordinal == Some(o),
        forall|k: int| i <= k < r ==> (#[trigger] seg.rows@[k]).ordinal != Some(o),
    ensures
        row_of_ordinal(seg, o, i) == r,
        crate::columnar_storage::outline::row_of_ordinal(seg, o, i) == r,
    decreases r - i,
{
    if i < r {
        lemma_row_of_ordinal(seg, o, i + 1, r);
    }
}

/// Whether a place says of a node what its row says: what it is, where it stands and its revision,
/// and which nodes are above, below and beside it, each by its handle or by nothing where there is
/// none.
pub open spec fn tells_of(
    site: NodeSite,
    id: Seq<char>,
    path: Seq<char>,
    seg: SegmentReader,
    r: int,
    handles: HandleSource,
) -> bool {
    let row = seg.rows@[r];
    &&& site.node_id@ == id
    &&& site.rel_path@ == path
    &&& site.name@ == row.name@
    &&& site.fql_kind@ == row.fql_kind@
    &&& site.line == row.line
    &&& site.byte_end == row.byte_end
    &&& site.rev == row.rev
    &&& points_to(site.parent_node_id, row.parent_ordinal, handles)
    &&& points_to(site.first_child_node_id, row.first_child_ordinal, handles)
    &&& points_to(site.next_sibling_node_id, row.next_sibling_ordinal, handles)
    &&& points_to(site.prev_sibling_node_id, row.prev_sibling_ordinal, handles)
}

/// Whether a handle is that of a node number, or missing where there is no such node.
pub open spec fn points_to(id: Option<String>, ordinal: u32, handles: HandleSource) -> bool {
    match id {
        Some(id) => ordinal != u32::MAX && id@ == (match handles {
            HandleSource::OfPath(path) => path_node_id(path, ordinal as nat),
            HandleSource::OfSegment(meta) => node_id_text(
                meta.sha256@,
                meta.prefix_len as nat,
                ordinal as nat,
            ),
        }),
        None => ordinal == u32::MAX,
    }
}

impl ColumnarStorage {
    /// A handle of an edited file leads to its node: to the row of the session that has its number.
    pub proof fn lemma_a_handle_of_an_edited_node_leads_to_it(
        &self,
        j: int,
        r: int,
        o: u32,
        found: NodeLookup,
    )
        requires
            0 <= j < self.dirty.added@.len(),
            0 <= r < self.dirty.added@[j].reader.rows@.len(),
            self.dirty.added@[j].reader.rows@[r].ordinal == Some(o),
            forall|k: int|
                0 <= k < r ==> (#[trigger] self.dirty.added@[j].reader.rows@[k]).ordinal != Some(o),
            forall|k: int|
                0 <= k < j ==> path_node_id(
                    (#[trigger] self.dirty.added@[k]).source_path@,
                    o as nat,
                ) != path_node_id(self.dirty.added@[j].source_path@, o as nat),
            crate::digest::path_digest(self.dirty.added@[j].source_path@).len() == 32,
            self.resolves(path_node_id(self.dirty.added@[j].source_path@, o as nat), found),
        ensures
            found is Node,
            tells_of(
                found->Node_0,
                path_node_id(self.dirty.added@[j].source_path@, o as nat),
                self.dirty.added@[j].source_path@,
                *self.dirty.added@[j].reader,
                r,
                HandleSource::OfPath(self.dirty.added@[j].source_path@),
            ),
    {
        let path = self.dirty.added@[j].source_path@;
        let id = path_node_id(path, o as nat);
        lemma_a_handle_reads_back(crate::digest::path_digest(path), 12, o);
        let body = handle_body(id);
        let dot = index_of_char(body, '.', 0);
        assert(body.skip(dot + 1) =~= padded_decimal(o as nat, 4));
        self.lemma_owner(id, o, 0, j);
        let seg = &*self.dirty.added@[j].reader;
        lemma_row_of_ordinal(*seg, o, 0, r);
    }

    proof fn lemma_owner(&self, id: Seq<char>, o: u32, i: int, j: int)
        requires
            0 <= i <= j < self.dirty.added@.len(),
            path_node_id(self.dirty.added@[j].source_path@, o as nat) == id,
            forall|k: int|
                i <= k < j ==> path_node_id(
                    (#[trigger] self.dirty.added@[k]).source_path@,
                    o as nat,
                ) != id,
        ensures
            self.dirty_owner(id, o, i) == j,
        decreases j - i,
    {
        if i < j {
            self.lemma_owner(id, o, i + 1, j);
        }
    }

    /// A handle of an indexed file leads to its node: without edits, the handle that a segment gives a
    /// node number leads to the row of that segment with the number, where no other segment's digest
    /// begins as the handle does.
    pub proof fn lemma_a_handle_of_an_indexed_node_leads_to_it(
        &self,
        s: int,
        r: int,
        o: u32,
        n: nat,
        found: NodeLookup,
    )
        requires
            self.dirty.added@.len() == 0,
            0 <= s < self.seg_count(),
            self.seg_count() == self.index().segments@.len(),
            self.index().segments@[s].sha256@.len() == 32,
            self.index().segments@[s].prefix_len == 2 * n,
            0 < n <= 32,
            forall|k: int|
                0 <= k < self.seg_count() && k != s ==> (
                #[trigger] self.index().segments@[k]).sha256@.take(n as int)
                    != self.index().segments@[s].sha256@.take(n as int),
            0 <= r < self.seg(s).rows@.len(),
            self.seg(s).rows@[r].ordinal == Some(o),
            forall|k: int|
                0 <= k < r ==> (#[trigger] self.seg(s).rows@[k]).ordinal != Some(o),
            self.resolves(self.index().segments@[s].handle(o as nat), found),
        ensures
            found is Node,
            tells_of(
                found->Node_0,
                self.index().segments@[s].handle(o as nat),
                self.index().segments@[s].source_path@,
                self.seg(s),
                r,
                HandleSource::OfSegment(self.index().segments@[s]),
            ),
    {
        let meta = self.index().segments@[s];
        let id = meta.handle(o as nat);
        let head = meta.sha256@.take(n as int);
        lemma_a_handle_reads_back(meta.sha256@, 2 * n, o);
        lemma_hex_head(meta.sha256@, n);
        lemma_hex_text_reads_back(head);
        let body = handle_body(id);
        let dot = index_of_char(body, '.', 0);
        let prefix = body.take(dot);
        assert(body.skip(dot + 1) =~= padded_decimal(o as nat, 4));
        assert(prefix =~= hex_of(head));
        lemma_row_of_ordinal(self.seg(s), o, 0, r);
        assert(self.dirty_owner(id, o, 0) == 0);
        assert forall|k: int|
            0 <= k < self.index().segments@.len() && k != s implies !#[trigger] self.index().digest_starts(
            k,
            head,
        ) by {
            assert(self.index().segments@[k].sha256@.take(n as int) != head);
        }
        assert(self.index().digest_starts(s, head));
        assert(self.index().is_first_with_head(s, head));
        assert(self.committed_at(prefix, o, s));
        assert forall|k: int| #[trigger] self.committed_at(prefix, o, k) implies k == s by {
            assert(self.index().digest_starts(k, head));
        }
        assert(self.dirty.position_of(meta.source_path@, 0) == 0);
    }
}

/// A node inside a block is shown under the handle of the block: the same fingerprint with the number of
/// the block, on the line where the block starts.
pub proof fn lemma_a_block_stands_for_its_nodes(
    seg: SegmentReader,
    r: int,
    digest: Seq<u8>,
    width: nat,
    ordinal: u32,
    n: nat,
)
    requires
        0 < width,
        digest.len() > 0,
        1 <= n <= seg.rows@[r].line,
        n <= usize::MAX,
        seg.extra(seq!['b', 'l', 'o', 'c', 'k', '_', 'o', 'r', 'd'], r) is Some,
        seg.extra(seq!['b', 'l', 'o', 'c', 'k', '_', 'o', 'f', 'f'], r) == Some(decimal(n)),
    ensures
        crate::columnar_storage::node_lookup::surfaced(
            seg,
            r,
            node_id_text(digest, width, ordinal as nat),
        ) == (
            seq!['n'] + hex_head(digest, width) + seq!['.'] + seg.extra(
                seq!['b', 'l', 'o', 'c', 'k', '_', 'o', 'r', 'd'],
                r,
            )->0,
            seg.rows@[r].line - (n - 1),
        ),
{
    reveal_strlit("block_ord");
    reveal_strlit("block_off");
    assert("block_ord"@ =~= seq!['b', 'l', 'o', 'c', 'k', '_', 'o', 'r', 'd']);
    assert("block_off"@ =~= seq!['b', 'l', 'o', 'c', 'k', '_', 'o', 'f', 'f']);
    lemma_a_numeral_reads_back(n, 0, usize::MAX as nat);
    let h = hex_head(digest, width);
    let id = node_id_text(digest, width, ordinal as nat);
    let nh = seq!['n'] + h;
    let d = padded_decimal(ordinal as nat, 4);
    lemma_hex_ascii(digest);
    assert forall|k: int| 0 <= k < nh.len() implies nh[k] != '.' by {
        if k > 0 {
            assert(nh[k] == h[k - 1]);
            assert(h[k - 1] == hex_of(digest)[k - 1]);
            lemma_hex_chars(digest, k - 1);
        }
    }
    assert(id =~= nh + seq!['.'] + d);
    lemma_first_dot(nh, d, 0);
    assert(id.take(nh.len() as int) =~= nh);
    let ord = seg.extra("block_ord"@, r)->0;
    assert(crate::node_id::block_id_text(id, ord) =~= seq!['n'] + h + seq!['.'] + ord);
}

// ───────────────────────────── lines ─────────────────────────────

/// How many line breaks a text of bytes holds.
pub open spec fn breaks_in(bytes: Seq<u8>) -> nat {
    bytes.filter(|b: u8| b == 10).len()
}

proof fn lemma_breaks(bytes: Seq<u8>, n: int)
    requires
        0 <= n <= bytes.len(),
    ensures
        newlines_before(bytes, n) == breaks_in(bytes.take(n)),
    decreases n,
{
    reveal(Seq::filter);
    if n > 0 {
        lemma_breaks(bytes, n - 1);
        assert(bytes.take(n).drop_last() =~= bytes.take(n - 1));
        assert(bytes.take(n).last() == bytes[n - 1]);
    } else {
        assert(bytes.take(0) =~= Seq::empty());
    }
}

/// A node ends on the line of its last byte that is no line break: one more than the line breaks in
/// front of that byte. Line breaks that it ends in do not move its end.
pub proof fn lemma_a_node_ends_where_its_content_ends(bytes: Seq<u8>, end: nat, last: int)
    requires
        0 <= last < end <= bytes.len(),
        bytes[last] != 10,
        forall|k: int| last < k < end ==> bytes[k] == 10,
    ensures
        end_line_in(bytes, end) == breaks_in(bytes.take(last)) + 1,
{
    lemma_trimmed(bytes, end as int, last);
    lemma_breaks(bytes, last);
}

proof fn lemma_trimmed(bytes: Seq<u8>, end: int, last: int)
    requires
        0 <= last < end <= bytes.len(),
        bytes[last] != 10,
        forall|k: int| last < k < end ==> bytes[k] == 10,
    ensures
        trimmed_in(bytes, end) == last + 1,
    decreases end,
{
    if end > last + 1 {
        lemma_trimmed(bytes, end - 1, last);
    }
}

/// A path carries every fingerprint that its digest begins with, and the shortest one that handles show.
pub proof fn lemma_a_path_carries_its_fingerprint(path: Seq<char>, n: nat)
    ensures
        crate::columnar_storage::node_find::path_has_hex(
            path,
            hex_head(crate::digest::path_digest(path), n),
        ),
{
    let full = hex_of(crate::digest::path_digest(path));
    let h = hex_head(crate::digest::path_digest(path), n);
    if n < full.len() {
        assert(full.take(h.len() as int) =~= h);
    } else {
        assert(full.take(full.len() as int) =~= full);
    }
}

} // verus!
