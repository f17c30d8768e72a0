//! Reading an overlay file: header, table of contents, segment table, file list and
//! enrichment index.

use crate::bytes::{le16, le32, slice_of, u16_at, u32_at, utf8_of, utf8_text};
use crate::digest::{path_digest, sha256_of_path};
use crate::node_id::{prefix_len_among, shortest_prefix_len};
use crate::order::{bytes_before, bytes_less, lemma_bytes_total, lemma_bytes_transitive};
use crate::overlay::format::{
    blob_name, blob_name_text, magic, OverlayError, SegmentMeta, Span,
    HEADER_LEN, SCHEMA_VERSION, SEGMENT_RECORD_SIZE, TOC_COUNT, TOC_ENTRY_NAME_LEN, TOC_ENTRY_SIZE,
};
use crate::text::same_bytes;
use vstd::prelude::*;
use vstd::string::*;
use vstd::utf8::*;

verus! {

// ───────────────────────────── header ─────────────────────────────

/// What the header of a file says: the number of blobs it lists, or why it is no overlay.
pub open spec fn header_verdict(file: Seq<u8>) -> Result<u32, OverlayError> {
    if file.len() < HEADER_LEN {
        Err(OverlayError::TooShort)
    } else if file.take(4) != magic() {
        Err(OverlayError::BadMagic)
    } else if le32(file, 4) != SCHEMA_VERSION {
        Err(OverlayError::SchemaMismatch { got: le32(file, 4) })
    } else {
        Ok(le32(file, 16))
    }
}

/// Parses the fixed-size header; gives the number of entries in the table of contents.
pub fn parse_header(file: &[u8]) -> (r: Result<u32, OverlayError>)
    ensures
        r == header_verdict(file@),
{
    if file.len() < HEADER_LEN {
        return Err(OverlayError::TooShort);
    }
    if !(file[0] == 0x46 && file[1] == 0x51 && file[2] == 0x4f && file[3] == 0x56) {
        proof {
            let t = file@.take(4);
            assert(t[0] == file@[0] && t[1] == file@[1] && t[2] == file@[2] && t[3] == file@[3]);
            assert(magic()[0] == 0x46 && magic()[1] == 0x51 && magic()[2] == 0x4f && magic()[3]
                == 0x56);
        }
        return Err(OverlayError::BadMagic);
    }
    assert(file@.take(4) =~= magic());
    let version: u32 = u32_at(file, 4);
    if version != SCHEMA_VERSION {
        return Err(OverlayError::SchemaMismatch { got: version });
    }
    Ok(u32_at(file, 16))
}

// ───────────────────────────── table of contents ─────────────────────────────

/// Where the first NUL of `s` stands, from `i` on; the length of `s` where there is none.
pub open spec fn nul_at(s: Seq<u8>, i: int) -> int
    decreases s.len() - i,
{
    if i < 0 || i >= s.len() {
        s.len() as int
    } else if s[i] == 0 {
        i
    } else {
        nul_at(s, i + 1)
    }
}

/// Where entry `i` of the table of contents starts.
pub open spec fn toc_at(i: int) -> int {
    HEADER_LEN + i * TOC_ENTRY_SIZE
}

/// The blob name of entry `i`: what precedes the first NUL.
pub open spec fn toc_name(file: Seq<u8>, i: int) -> Seq<u8> {
    let raw = file.subrange(toc_at(i), toc_at(i) + TOC_ENTRY_NAME_LEN);
    raw.take(nul_at(raw, 0))
}

/// The stretch that entry `i` gives its blob.
pub open spec fn toc_span(file: Seq<u8>, i: int) -> Span {
    let at = toc_at(i) + TOC_ENTRY_NAME_LEN;
    Span {
        start: le32(file, at) as u64,
        end: (le32(file, at) + le32(file, at + 4)) as u64,
    }
}

/// The stretch of the first entry, from `i` on, that is named `name`.
pub open spec fn toc_find(file: Seq<u8>, count: int, name: Seq<u8>, i: int) -> Option<Span>
    decreases count - i,
{
    if i >= count {
        None
    } else if toc_name(file, i) == name {
        Some(toc_span(file, i))
    } else {
        toc_find(file, count, name, i + 1)
    }
}

/// The stretch of blob `k`.
pub open spec fn blob_span(file: Seq<u8>, count: int, k: int) -> Option<Span> {
    toc_find(file, count, encode_utf8(blob_name(k)), 0)
}

/// One entry of the table of contents.
pub struct TocEntry {
    /// Blob name, without its padding.
    pub name: Vec<u8>,
    /// Where the blob lies in the file.
    pub span: Span,
}

/// Whether `toc` is the table of contents of `file`.
pub open spec fn is_toc(toc: Seq<TocEntry>, file: Seq<u8>, count: int) -> bool {
    &&& toc.len() == count
    &&& forall|i: int|
        #![trigger toc[i]]
        0 <= i < count ==> toc[i].name@ == toc_name(file, i) && toc[i].span == toc_span(file, i)
}

fn find_nul(s: &[u8]) -> (n: usize)
    ensures
        n == nul_at(s@, 0),
        n <= s.len(),
{
    let mut n: usize = 0;
    while n < s.len() && s[n] != 0
        invariant
            n <= s.len(),
            nul_at(s@, 0) == nul_at(s@, n as int),
        decreases s.len() - n,
    {
        n += 1;
    }
    n
}

/// Parses the entries of the table of contents.
pub fn parse_toc_entries(file: &[u8], count: u32) -> (toc: Vec<TocEntry>)
    requires
        HEADER_LEN + count * TOC_ENTRY_SIZE <= file.len(),
    ensures
        is_toc(toc@, file@, count as int),
{
    let mut toc: Vec<TocEntry> = Vec::new();
    let mut i: u32 = 0;
    while i < count
        invariant
            i <= count,
            HEADER_LEN + count * TOC_ENTRY_SIZE <= file.len(),
            is_toc(toc@, file@, i as int),
        decreases count - i,
    {
        assert(HEADER_LEN + (i + 1) * TOC_ENTRY_SIZE <= file.len());
        let base: usize = HEADER_LEN + i as usize * TOC_ENTRY_SIZE;
        assert(base == toc_at(i as int));
        let raw = vstd::slice::slice_subrange(file, base, base + TOC_ENTRY_NAME_LEN);
        let n: usize = find_nul(raw);
        let name = vstd::slice::slice_to_vec(vstd::slice::slice_subrange(raw, 0, n));
        assert(name@ =~= toc_name(file@, i as int));
        let start: u32 = u32_at(file, base + TOC_ENTRY_NAME_LEN);
        let len: u32 = u32_at(file, base + TOC_ENTRY_NAME_LEN + 4);
        let span = Span { start: start as u64, end: start as u64 + len as u64 };
        toc.push(TocEntry { name, span });
        i += 1;
    }
    toc
}


/// A table of contents: the names and the stretches, in the order of the entries.
pub open spec fn toc_views(toc: Seq<TocEntry>) -> Seq<(Seq<u8>, Span)> {
    toc.map_values(|e: TocEntry| (e.name@, e.span))
}

/// The table of contents of a file.
pub open spec fn toc_table(file: Seq<u8>, count: int) -> Seq<(Seq<u8>, Span)> {
    Seq::new(count as nat, |i: int| (toc_name(file, i), toc_span(file, i)))
}

/// The stretch of the first entry, from `i` on, that is named `name`.
pub open spec fn table_span(toc: Seq<(Seq<u8>, Span)>, name: Seq<u8>, i: int) -> Option<Span>
    decreases toc.len() - i,
{
    if i >= toc.len() {
        None
    } else if toc[i].0 == name {
        Some(toc[i].1)
    } else {
        table_span(toc, name, i + 1)
    }
}

/// The stretch that a table of contents gives blob `k`.
pub open spec fn named_span(toc: Seq<(Seq<u8>, Span)>, k: int) -> Option<Span> {
    table_span(toc, encode_utf8(blob_name(k)), 0)
}

proof fn lemma_toc_table(file: Seq<u8>, count: int, name: Seq<u8>, i: int)
    requires
        0 <= i,
        0 <= count,
    ensures
        toc_find(file, count, name, i) == table_span(toc_table(file, count), name, i),
    decreases count - i,
{
    if i < count {
        lemma_toc_table(file, count, name, i + 1);
    }
}

/// Whether `spans` are the stretches of the named blobs of `file`.
pub open spec fn are_blob_spans(spans: Seq<Span>, file: Seq<u8>, count: int) -> bool {
    &&& spans.len() == TOC_COUNT
    &&& forall|k: int|
        #![trigger spans[k]]
        0 <= k < TOC_COUNT ==> blob_span(file, count, k) == Some(spans[k])
}

/// Whether `k` is the first blob that the table of contents does not list.
pub open spec fn first_missing_blob(file: Seq<u8>, count: int, k: int) -> bool {
    &&& 0 <= k < TOC_COUNT
    &&& blob_span(file, count, k) is None
    &&& forall|j: int| 0 <= j < k ==> blob_span(file, count, j) is Some
}

fn find_one(toc: &Vec<TocEntry>, name: &[u8]) -> (r: Option<Span>)
    ensures
        r == table_span(toc_views(toc@), name@, 0),
{
    let ghost table = toc_views(toc@);
    let mut i: usize = 0;
    while i < toc.len()
        invariant
            table == toc_views(toc@),
            i <= toc@.len(),
            table_span(table, name@, 0) == table_span(table, name@, i as int),
        decreases toc.len() - i,
    {
        assert(table[i as int] == (toc@[i as int].name@, toc@[i as int].span));
        if same_bytes(toc[i].name.as_slice(), name) {
            return Some(toc[i].span);
        }
        i += 1;
    }
    None
}

/// Finds the stretch of every named blob, or the first blob that is not listed.
pub fn find_blob_ranges(toc: &Vec<TocEntry>) -> (r: Result<Vec<Span>, OverlayError>)
    ensures
        (match r {
            Ok(spans) => spans@.len() == TOC_COUNT && forall|k: int|
                #![trigger spans@[k]]
                0 <= k < TOC_COUNT ==> named_span(toc_views(toc@), k) == Some(spans@[k]),
            Err(OverlayError::MissingBlob { blob }) => blob < TOC_COUNT && named_span(
                toc_views(toc@),
                blob as int,
            ) is None && forall|j: int|
                0 <= j < blob ==> (#[trigger] named_span(toc_views(toc@), j)) is Some,
            Err(_) => false,
        }),
{
    let ghost table = toc_views(toc@);
    let mut spans: Vec<Span> = Vec::new();
    let mut k: usize = 0;
    while k < TOC_COUNT
        invariant
            k <= TOC_COUNT,
            table == toc_views(toc@),
            spans@.len() == k,
            forall|j: int|
                #![trigger spans@[j]]
                0 <= j < k ==> named_span(table, j) == Some(spans@[j]),
        decreases TOC_COUNT - k,
    {
        match find_one(toc, blob_name_text(k).as_bytes()) {
            Some(span) => {
                spans.push(span);
            },
            None => {
                assert forall|j: int| 0 <= j < k implies (#[trigger] named_span(
                    table,
                    j,
                )) is Some by {
                    assert(named_span(table, j) == Some(spans@[j]));
                }
                return Err(OverlayError::MissingBlob { blob: k });
            },
        }
        k += 1;
    }
    Ok(spans)
}

/// Whether no name stands in a table of contents twice.
pub open spec fn names_once(toc: Seq<(Seq<u8>, Span)>) -> bool {
    forall|i: int, j: int|
        #![trigger toc[i], toc[j]]
        0 <= i < j < toc.len() ==> toc[i].0 != toc[j].0
}

proof fn lemma_table_span(toc: Seq<(Seq<u8>, Span)>, name: Seq<u8>, i: int)
    requires
        0 <= i,
    ensures
        (match table_span(toc, name, i) {
            Some(span) => exists|j: int| i <= j < toc.len() && #[trigger] toc[j] == (name, span),
            None => forall|j: int| i <= j < toc.len() ==> (#[trigger] toc[j]).0 != name,
        }),
    decreases toc.len() - i,
{
    if i < toc.len() && toc[i].0 != name {
        lemma_table_span(toc, name, i + 1);
    } else if i < toc.len() {
        assert(toc[i] == (name, toc[i].1));
    }
}

/// The order of a table of contents does not count, where no name stands in it twice: a table with
/// the same entries in another order gives every blob the same stretch.
pub proof fn lemma_toc_order_does_not_count(
    a: Seq<(Seq<u8>, Span)>,
    b: Seq<(Seq<u8>, Span)>,
    k: int,
)
    requires
        names_once(a),
        a.to_multiset() == b.to_multiset(),
    ensures
        named_span(a, k) == named_span(b, k),
{
    let name = encode_utf8(blob_name(k));
    lemma_table_span(a, name, 0);
    lemma_table_span(b, name, 0);
    assert forall|e: (Seq<u8>, Span)| a.contains(e) == b.contains(e) by {
        vstd::seq_lib::to_multiset_contains(a, e);
        vstd::seq_lib::to_multiset_contains(b, e);
    }
    match table_span(b, name, 0) {
        Some(span) => {
            assert(b.contains((name, span)));
            assert(a.contains((name, span)));
            let i = choose|i: int| 0 <= i < a.len() && a[i] == (name, span);
            let found = table_span(a, name, 0);
            assert(found is Some);
            let j = choose|j: int| 0 <= j < a.len() && #[trigger] a[j] == (name, found->0);
            if i < j {
                assert(a[i].0 != a[j].0);
            } else if j < i {
                assert(a[j].0 != a[i].0);
            }
        },
        None => {
            match table_span(a, name, 0) {
                Some(span) => {
                    assert(a.contains((name, span)));
                    assert(b.contains((name, span)));
                    let j = choose|j: int| 0 <= j < b.len() && b[j] == (name, span);
                    assert(b[j].0 == name);
                },
                None => {},
            }
        },
    }
}

proof fn lemma_table_span_skips(
    a: Seq<(Seq<u8>, Span)>,
    b: Seq<(Seq<u8>, Span)>,
    name: Seq<u8>,
    i: int,
    j: int,
)
    requires
        0 <= i <= a.len(),
        0 <= j,
        b.len() - j == a.len() - i,
        forall|n: int| 0 <= n < a.len() - i ==> #[trigger] a[i + n] == b[j + n],
    ensures
        table_span(a, name, i) == table_span(b, name, j),
    decreases a.len() - i,
{
    if i < a.len() {
        assert(a[i + 0] == b[j + 0]);
        assert forall|n: int| 0 <= n < a.len() - (i + 1) implies #[trigger] a[(i + 1) + n] == b[(j
            + 1) + n] by {
            assert(a[i + (n + 1)] == b[j + (n + 1)]);
        }
        lemma_table_span_skips(a, b, name, i + 1, j + 1);
    }
}

proof fn lemma_table_span_past(toc: Seq<(Seq<u8>, Span)>, name: Seq<u8>, i: int, j: int)
    requires
        0 <= i <= j <= toc.len(),
        forall|n: int| i <= n < j ==> (#[trigger] toc[n]).0 != name,
    ensures
        table_span(toc, name, i) == table_span(toc, name, j),
    decreases j - i,
{
    if i < j {
        assert(toc[i].0 != name);
        lemma_table_span_past(toc, name, i + 1, j);
    }
}

/// Entries under other names do not count: wherever they stand in a table of contents, a blob keeps
/// its stretch.
pub proof fn lemma_other_entries_do_not_count(
    toc: Seq<(Seq<u8>, Span)>,
    at: int,
    more: Seq<(Seq<u8>, Span)>,
    k: int,
)
    requires
        0 <= at <= toc.len(),
        forall|i: int| 0 <= i < more.len() ==> (#[trigger] more[i]).0 != encode_utf8(blob_name(k)),
    ensures
        named_span(toc.take(at) + more + toc.skip(at), k) == named_span(toc, k),
{
    lemma_spliced(toc, at, more, encode_utf8(blob_name(k)), 0);
}

proof fn lemma_spliced(
    toc: Seq<(Seq<u8>, Span)>,
    at: int,
    more: Seq<(Seq<u8>, Span)>,
    name: Seq<u8>,
    i: int,
)
    requires
        0 <= i <= at <= toc.len(),
        forall|n: int| 0 <= n < more.len() ==> (#[trigger] more[n]).0 != name,
    ensures
        table_span(toc.take(at) + more + toc.skip(at), name, i) == table_span(toc, name, i),
    decreases at - i,
{
    let wide = toc.take(at) + more + toc.skip(at);
    if i < at {
        assert(wide[i] == toc[i]);
        lemma_spliced(toc, at, more, name, i + 1);
    } else {
        assert forall|n: int| at <= n < at + more.len() implies (#[trigger] wide[n]).0 != name by {
            assert(wide[n] == more[n - at]);
        }
        lemma_table_span_past(wide, name, at, at + more.len());
        assert forall|n: int| 0 <= n < toc.len() - at implies #[trigger] toc[at + n] == wide[(at
            + more.len()) + n] by {}
        lemma_table_span_skips(toc, wide, name, at, at + more.len());
    }
}

// ───────────────────────────── layout ─────────────────────────────

/// The last byte that any of the first `n` stretches reaches.
pub open spec fn furthest_end(spans: Seq<Span>, n: int) -> u64
    decreases n,
{
    if n <= 0 {
        0
    } else {
        let rest = furthest_end(spans, n - 1);
        if spans[n - 1].end > rest {
            spans[n - 1].end
        } else {
            rest
        }
    }
}

/// The record size of blob `k`, where it is made of fixed-size records.
pub open spec fn record_size(k: int) -> int {
    if k == 0 {
        8
    } else if k == 2 {
        16
    } else if k == 4 {
        12
    } else if k == 7 {
        20
    } else {
        4
    }
}

/// Whether blob `k` is a whole number of records.
pub open spec fn whole_records(spans: Seq<Span>, k: int) -> bool {
    spans[k].size() % record_size(k) == 0
}

/// Whether blob `k` starts on a four-byte boundary.
pub open spec fn aligned(spans: Seq<Span>, k: int) -> bool {
    spans[k].start % 4 == 0
}

/// Whether the blobs of a file of `len` bytes fit in it and are made of whole records.
pub open spec fn layout_verdict(len: nat, spans: Seq<Span>) -> Result<(), OverlayError> {
    let need = furthest_end(spans, spans.len() as int);
    if len < need {
        Err(OverlayError::Truncated { need: need, have: len as u64 })
    } else if !whole_records(spans, 0) {
        Err(OverlayError::BadBlobSize { blob: 0 })
    } else if !whole_records(spans, 2) {
        Err(OverlayError::BadBlobSize { blob: 2 })
    } else if !whole_records(spans, 4) {
        Err(OverlayError::BadBlobSize { blob: 4 })
    } else if !whole_records(spans, 7) {
        Err(OverlayError::BadBlobSize { blob: 7 })
    } else if !whole_records(spans, 9) {
        Err(OverlayError::BadBlobSize { blob: 9 })
    } else if spans[7].size() / 20 != spans[9].size() / 4 {
        Err(
            OverlayError::CountMismatch {
                segments: (spans[7].size() / 20) as u64,
                files: (spans[9].size() / 4) as u64,
            },
        )
    } else if !aligned(spans, 0) {
        Err(OverlayError::Misaligned { blob: 0 })
    } else if !aligned(spans, 2) {
        Err(OverlayError::Misaligned { blob: 2 })
    } else if !aligned(spans, 4) {
        Err(OverlayError::Misaligned { blob: 4 })
    } else if !aligned(spans, 7) {
        Err(OverlayError::Misaligned { blob: 7 })
    } else if !aligned(spans, 9) {
        Err(OverlayError::Misaligned { blob: 9 })
    } else {
        Ok(())
    }
}

/// Checks that every blob fits in the file and that the blobs of fixed records hold whole records.
pub fn validate_blob_layout(len: usize, spans: &Vec<Span>) -> (r: Result<(), OverlayError>)
    requires
        spans@.len() == TOC_COUNT,
        forall|k: int| 0 <= k < TOC_COUNT ==> (#[trigger] spans@[k]).start <= spans@[k].end,
    ensures
        r == layout_verdict(len as nat, spans@),
        r is Ok ==> (forall|k: int|
            0 <= k < TOC_COUNT ==> (#[trigger] spans@[k]).inside(len as nat)),
{
    let mut need: u64 = 0;
    let mut k: usize = 0;
    while k < spans.len()
        invariant
            k <= spans.len(),
            need == furthest_end(spans@, k as int),
            forall|j: int| 0 <= j < k ==> (#[trigger] spans@[j]).end <= need,
        decreases spans.len() - k,
    {
        if spans[k].end > need {
            need = spans[k].end;
        }
        k += 1;
    }
    if (len as u64) < need {
        return Err(OverlayError::Truncated { need, have: len as u64 });
    }
    if (spans[0].end - spans[0].start) % 8 != 0 {
        return Err(OverlayError::BadBlobSize { blob: 0 });
    }
    if (spans[2].end - spans[2].start) % 16 != 0 {
        return Err(OverlayError::BadBlobSize { blob: 2 });
    }
    if (spans[4].end - spans[4].start) % 12 != 0 {
        return Err(OverlayError::BadBlobSize { blob: 4 });
    }
    if (spans[7].end - spans[7].start) % 20 != 0 {
        return Err(OverlayError::BadBlobSize { blob: 7 });
    }
    if (spans[9].end - spans[9].start) % 4 != 0 {
        return Err(OverlayError::BadBlobSize { blob: 9 });
    }
    let segments: u64 = (spans[7].end - spans[7].start) / 20;
    let files: u64 = (spans[9].end - spans[9].start) / 4;
    if segments != files {
        return Err(OverlayError::CountMismatch { segments, files });
    }
    if spans[0].start % 4 != 0 {
        return Err(OverlayError::Misaligned { blob: 0 });
    }
    if spans[2].start % 4 != 0 {
        return Err(OverlayError::Misaligned { blob: 2 });
    }
    if spans[4].start % 4 != 0 {
        return Err(OverlayError::Misaligned { blob: 4 });
    }
    if spans[7].start % 4 != 0 {
        return Err(OverlayError::Misaligned { blob: 7 });
    }
    if spans[9].start % 4 != 0 {
        return Err(OverlayError::Misaligned { blob: 9 });
    }
    Ok(())
}

/// What the table of contents of a file gives: the stretch of each blob, or why there is none.
pub open spec fn blobs_verdict(
    file: Seq<u8>,
    count: u32,
    r: Result<Seq<Span>, OverlayError>,
) -> bool {
    let need = HEADER_LEN + count * TOC_ENTRY_SIZE;
    if file.len() < need {
        r == Err::<Seq<Span>, _>(
            OverlayError::TocTruncated { need: need as u64, have: file.len() as u64 },
        )
    } else {
        match r {
            Ok(spans) => are_blob_spans(spans, file, count as int) && layout_verdict(
                file.len(),
                spans,
            ) is Ok,
            Err(OverlayError::MissingBlob { blob }) => first_missing_blob(
                file,
                count as int,
                blob as int,
            ),
            Err(e) => exists|spans: Seq<Span>| #[trigger]
                are_blob_spans(spans, file, count as int) && layout_verdict(file.len(), spans)
                    == Err::<(), _>(e),
        }
    }
}

/// Validates the table of contents and gives the stretches of the named blobs.
pub fn open_blobs(file: &[u8], count: u32) -> (r: Result<Vec<Span>, OverlayError>)
    ensures
        blobs_verdict(
            file@,
            count,
            (match r {
                Ok(spans) => Ok(spans@),
                Err(e) => Err(e),
            }),
        ),
        r is Ok ==> (forall|k: int|
            0 <= k < TOC_COUNT ==> (#[trigger] r->Ok_0@[k]).inside(file@.len())),
{
    let need: u64 = 24 + count as u64 * 64;
    assert(need == HEADER_LEN + count * TOC_ENTRY_SIZE);
    if (file.len() as u64) < need {
        return Err(OverlayError::TocTruncated { need, have: file.len() as u64 });
    }
    let toc = parse_toc_entries(file, count);
    proof {
        assert(toc_views(toc@) =~= toc_table(file@, count as int));
        assert forall|k: int| #[trigger] named_span(toc_views(toc@), k) == blob_span(
            file@,
            count as int,
            k,
        ) by {
            lemma_toc_table(file@, count as int, encode_utf8(blob_name(k)), 0);
        }
    }
    match find_blob_ranges(&toc) {
        Ok(spans) => {
            assert(are_blob_spans(spans@, file@, count as int)) by {
                assert forall|k: int| #![trigger spans@[k]] 0 <= k < TOC_COUNT implies blob_span(
                    file@,
                    count as int,
                    k,
                ) == Some(spans@[k]) by {
                    assert(named_span(toc_views(toc@), k) == Some(spans@[k]));
                }
            }
            assert forall|k: int| 0 <= k < TOC_COUNT implies (#[trigger] spans@[k]).start
                <= spans@[k].end by {
                lemma_span_ordered(file@, count as int, encode_utf8(blob_name(k)), 0);
            }
            match validate_blob_layout(file.len(), &spans) {
                Ok(_) => Ok(spans),
                Err(e) => Err(e),
            }
        },
        Err(e) => {
            proof {
                match e {
                    OverlayError::MissingBlob { blob } => {
                        assert(named_span(toc_views(toc@), blob as int) is None);
                        assert forall|j: int| 0 <= j < blob implies blob_span(
                            file@,
                            count as int,
                            j,
                        ) is Some by {
                            assert(named_span(toc_views(toc@), j) is Some);
                        }
                        assert(first_missing_blob(file@, count as int, blob as int));
                    },
                    _ => {},
                }
            }
            Err(e)
        },
    }
}

/// A stretch that the table of contents gives does not end before it starts.
proof fn lemma_span_ordered(file: Seq<u8>, count: int, name: Seq<u8>, i: int)
    ensures
        toc_find(file, count, name, i) is Some ==> toc_find(file, count, name, i)->0.start
            <= toc_find(file, count, name, i)->0.end,
    decreases count - i,
{
    if i < count && toc_name(file, i) != name {
        lemma_span_ordered(file, count, name, i + 1);
    }
}

// ───────────────────────────── segment table ─────────────────────────────

/// How many rows the first `i` segments hold.
pub open spec fn rows_before(segments: Seq<SegmentMeta>, i: int) -> nat
    decreases i,
{
    if i <= 0 {
        0
    } else {
        rows_before(segments, i - 1) + segments[i - 1].row_count as nat
    }
}

/// The first global row of segment `i`: the rows before it, held at the 32-bit limit.
pub open spec fn segment_start(segments: Seq<SegmentMeta>, i: int) -> u32 {
    if rows_before(segments, i) <= u32::MAX {
        rows_before(segments, i) as u32
    } else {
        u32::MAX
    }
}

/// The segment-to-global-row table: entry `i` is the first global row of segment `i`, and
/// one more entry ends the last segment.
pub fn build_segment_offsets(segments: &Vec<SegmentMeta>) -> (offsets: Vec<u32>)
    ensures
        offsets@.len() == segments@.len() + 1,
        forall|i: int|
            0 <= i <= segments@.len() ==> offsets@[i] == segment_start(segments@, i),
{
    let mut offsets: Vec<u32> = Vec::new();
    let mut running: u32 = 0;
    let mut i: usize = 0;
    while i < segments.len()
        invariant
            i <= segments.len(),
            offsets@.len() == i,
            running == segment_start(segments@, i as int),
            forall|k: int| 0 <= k < i ==> offsets@[k] == segment_start(segments@, k),
        decreases segments.len() - i,
    {
        offsets.push(running);
        running = running.saturating_add(segments[i].row_count);
        i += 1;
    }
    offsets.push(running);
    offsets
}

/// Where record `i` of the segment table starts.
pub open spec fn record_at(i: int) -> int {
    i * SEGMENT_RECORD_SIZE
}

/// The path bytes of record `i`, where they lie inside the string blob.
pub open spec fn record_path(records: Seq<u8>, strings: Seq<u8>, i: int) -> Option<Seq<u8>> {
    let at = record_at(i);
    let from = le32(records, at + 4) as int;
    slice_of(strings, from, from + le16(records, at + 16))
}

/// The content-id bytes of record `i`, where they lie inside the string blob.
pub open spec fn record_hex(records: Seq<u8>, strings: Seq<u8>, i: int) -> Option<Seq<u8>> {
    let at = record_at(i);
    let from = le32(records, at + 8) as int;
    slice_of(strings, from, from + le16(records, at + 18))
}

/// What is wrong with record `i`, if anything.
pub open spec fn record_fault(records: Seq<u8>, strings: Seq<u8>, i: int) -> Option<OverlayError> {
    match (record_path(records, strings, i), record_hex(records, strings, i)) {
        (Some(path), Some(hex)) => if utf8_of(path) is None {
            Some(OverlayError::PathNotUtf8)
        } else if utf8_of(hex) is None {
            Some(OverlayError::ContentIdNotUtf8)
        } else {
            None
        },
        _ => Some(OverlayError::StringOutOfBounds),
    }
}

/// Whether `m` holds what record `i` stores.
pub open spec fn holds_record(m: SegmentMeta, records: Seq<u8>, strings: Seq<u8>, i: int) -> bool {
    &&& record_fault(records, strings, i) is None
    &&& utf8_of(record_path(records, strings, i)->0) == Some(m.source_path@)
    &&& utf8_of(record_hex(records, strings, i)->0) == Some(m.hex_content_id@)
    &&& m.row_count == le32(records, record_at(i))
    &&& m.dedup_row_count == le32(records, record_at(i) + 12)
    &&& m.sha256@ == path_digest(m.source_path@)
}

/// The path fingerprints of a segment table.
pub open spec fn segment_digests(segments: Seq<SegmentMeta>) -> Seq<Seq<u8>> {
    segments.map_values(|m: SegmentMeta| m.sha256@)
}

/// Whether every segment shows the shortest prefix that tells it from the others.
pub open spec fn prefixes_are_shortest(segments: Seq<SegmentMeta>) -> bool {
    forall|i: int|
        0 <= i < segments.len() ==> (#[trigger] segments[i]).prefix_len as int == prefix_len_among(
            segments[i].sha256@,
            segment_digests(segments),
        )
}

/// Whether `i` is the first faulty record, and `e` its fault.
pub open spec fn first_fault(
    records: Seq<u8>,
    strings: Seq<u8>,
    count: int,
    i: int,
    e: OverlayError,
) -> bool {
    &&& 0 <= i < count
    &&& record_fault(records, strings, i) == Some(e)
    &&& forall|j: int| 0 <= j < i ==> record_fault(records, strings, j) is None
}

fn decode_record(records: &[u8], strings: &[u8], i: usize) -> (r: Result<SegmentMeta, OverlayError>)
    requires
        (i + 1) * SEGMENT_RECORD_SIZE <= records.len(),
    ensures
        (match r {
            Ok(m) => holds_record(m, records@, strings@, i as int),
            Err(e) => record_fault(records@, strings@, i as int) == Some(e),
        }),
{
    let at: usize = i * SEGMENT_RECORD_SIZE;
    let path_start: u64 = u32_at(records, at + 4) as u64;
    let path_end: u64 = path_start + u16_at(records, at + 16) as u64;
    let hex_start: u64 = u32_at(records, at + 8) as u64;
    let hex_end: u64 = hex_start + u16_at(records, at + 18) as u64;
    let len: usize = strings.len();
    if path_end > len as u64 || hex_end > len as u64 {
        return Err(OverlayError::StringOutOfBounds);
    }
    let path = vstd::slice::slice_subrange(strings, path_start as usize, path_end as usize);
    let hex = vstd::slice::slice_subrange(strings, hex_start as usize, hex_end as usize);
    match utf8_text(path) {
        None => Err(OverlayError::PathNotUtf8),
        Some(source_path) => match utf8_text(hex) {
            None => Err(OverlayError::ContentIdNotUtf8),
            Some(hex_content_id) => {
                let sha256 = sha256_of_path(source_path.as_str());
                Ok(
                    SegmentMeta {
                        hex_content_id,
                        source_path,
                        row_count: u32_at(records, at),
                        dedup_row_count: u32_at(records, at + 12),
                        sha256,
                        prefix_len: 0,
                    },
                )
            },
        },
    }
}

/// Whether `segments` is the segment table that the records store.
pub open spec fn is_segment_table(
    segments: Seq<SegmentMeta>,
    records: Seq<u8>,
    strings: Seq<u8>,
) -> bool {
    &&& segments.len() == records.len() / SEGMENT_RECORD_SIZE as nat
    &&& forall|i: int|
        #![trigger segments[i]]
        0 <= i < segments.len() ==> holds_record(segments[i], records, strings, i)
    &&& prefixes_are_shortest(segments)
}

/// Decodes the segment table, and gives every segment its path fingerprint and the shortest
/// unambiguous prefix of it.
pub fn decode_segment_metas(records: &[u8], strings: &[u8]) -> (r: Result<
    Vec<SegmentMeta>,
    OverlayError,
>)
    ensures
        (match r {
            Ok(segments) => is_segment_table(segments@, records@, strings@),
            Err(e) => exists|i: int| #[trigger]
                first_fault(
                    records@,
                    strings@,
                    (records@.len() / SEGMENT_RECORD_SIZE as nat) as int,
                    i,
                    e,
                ),
        }),
{
    let count: usize = records.len() / SEGMENT_RECORD_SIZE;
    let mut segments: Vec<SegmentMeta> = Vec::new();
    let mut digests: Vec<[u8; 32]> = Vec::new();
    let mut i: usize = 0;
    while i < count
        invariant
            i <= count,
            count == records@.len() / SEGMENT_RECORD_SIZE as nat,
            segments@.len() == i,
            digests@.len() == i,
            forall|k: int|
                #![trigger segments@[k]]
                0 <= k < i ==> holds_record(segments@[k], records@, strings@, k) && digests@[k]@
                    == segments@[k].sha256@,
        decreases count - i,
    {
        assert((i + 1) * SEGMENT_RECORD_SIZE <= records.len());
        match decode_record(records, strings, i) {
            Ok(meta) => {
                digests.push(meta.sha256);
                segments.push(meta);
            },
            Err(e) => {
                assert forall|j: int| 0 <= j < i implies record_fault(
                    records@,
                    strings@,
                    j,
                ) is None by {
                    assert(holds_record(segments@[j], records@, strings@, j));
                }
                assert(first_fault(records@, strings@, count as int, i as int, e));
                return Err(e);
            },
        }
        i += 1;
    }
    let ghost before = segments@;
    let ghost all = crate::node_id::digest_views(digests@);
    assert(all =~= segment_digests(before)) by {
        assert forall|k: int| 0 <= k < count implies all[k] == segment_digests(before)[k] by {
            assert(holds_record(before[k], records@, strings@, k));
        }
    }
    let mut k: usize = 0;
    while k < count
        invariant
            k <= count,
            count == records@.len() / SEGMENT_RECORD_SIZE as nat,
            segments@.len() == count,
            digests@.len() == count,
            all == crate::node_id::digest_views(digests@),
            forall|j: int|
                #![trigger segments@[j]]
                0 <= j < count ==> holds_record(segments@[j], records@, strings@, j)
                    && digests@[j]@ == segments@[j].sha256@,
            forall|j: int|
                #![trigger segments@[j]]
                0 <= j < k ==> segments@[j].prefix_len as int == prefix_len_among(
                    segments@[j].sha256@,
                    all,
                ),
        decreases count - k,
    {
        let len: u8 = shortest_prefix_len(&digests[k], &digests);
        let ghost was = segments@;
        segments[k].prefix_len = len;
        assert forall|j: int| 0 <= j < count implies holds_record(
            #[trigger] segments@[j],
            records@,
            strings@,
            j,
        ) && digests@[j]@ == segments@[j].sha256@ by {
            assert(holds_record(was[j], records@, strings@, j));
        }
        k += 1;
    }
    assert(segment_digests(segments@) =~= all) by {
        assert forall|j: int| 0 <= j < count implies segment_digests(segments@)[j] == all[j] by {
            assert(digests@[j]@ == segments@[j].sha256@);
        }
    }
    Ok(segments)
}

// ───────────────────────────── file list ─────────────────────────────

/// The `(path, size)` pairs that stand from `pos` on, at most `count` of them.
///
/// Each is a 32-bit size, a 16-bit length and that many bytes of path. A pair whose path is
/// not UTF-8 is left out; one that runs past the end of the blob ends the list.
pub open spec fn file_entries_from(blob: Seq<u8>, pos: int, count: nat) -> Seq<(Seq<char>, u32)>
    decreases count,
{
    if count == 0 || pos + 6 > blob.len() {
        seq![]
    } else {
        let end = pos + 6 + le16(blob, pos + 4);
        if end > blob.len() {
            seq![]
        } else {
            let rest = file_entries_from(blob, end, (count - 1) as nat);
            match utf8_of(blob.subrange(pos + 6, end)) {
                Some(path) => seq![(path, le32(blob, pos))] + rest,
                None => rest,
            }
        }
    }
}

/// The `(path, size)` pairs of the file-list blob.
pub open spec fn file_entries_of(blob: Seq<u8>) -> Seq<(Seq<char>, u32)> {
    if blob.len() < 4 {
        seq![]
    } else {
        file_entries_from(blob, 4, le32(blob, 0) as nat)
    }
}

/// A list of `(path, size)` pairs, by the text of the paths.
pub open spec fn file_views(entries: Seq<(String, u32)>) -> Seq<(Seq<char>, u32)> {
    entries.map_values(|e: (String, u32)| (e.0@, e.1))
}

/// Parses the file-list blob, skipping malformed entries rather than failing.
pub fn parse_file_entries(blob: &[u8]) -> (entries: Vec<(String, u32)>)
    ensures
        file_views(entries@) == file_entries_of(blob@),
{
    let mut entries: Vec<(String, u32)> = Vec::new();
    if blob.len() < 4 {
        assert(file_views(entries@) =~= seq![]);
        return entries;
    }
    let mut left: u32 = u32_at(blob, 0);
    let mut pos: usize = 4;
    assert(file_views(entries@) + file_entries_from(blob@, 4, left as nat) =~= file_entries_of(
        blob@,
    ));
    while left > 0
        invariant
            blob@.len() >= 4,
            4 <= pos <= blob@.len(),
            file_views(entries@) + file_entries_from(blob@, pos as int, left as nat)
                == file_entries_of(blob@),
        ensures
            file_views(entries@) == file_entries_of(blob@),
        decreases left,
    {
        if blob.len() - pos < 6 {
            assert(file_views(entries@) + Seq::<(Seq<char>, u32)>::empty() =~= file_views(
                entries@,
            ));
            break;
        }
        let size: u32 = u32_at(blob, pos);
        let path_len: usize = u16_at(blob, pos + 4) as usize;
        let start: usize = pos + 6;
        if blob.len() - start < path_len {
            assert(file_views(entries@) + Seq::<(Seq<char>, u32)>::empty() =~= file_views(
                entries@,
            ));
            break;
        }
        let end: usize = start + path_len;
        let ghost was = entries@;
        let ghost rest = file_entries_from(blob@, end as int, (left - 1) as nat);
        match utf8_text(vstd::slice::slice_subrange(blob, start, end)) {
            Some(path) => {
                entries.push((path, size));
                assert(file_views(entries@) =~= file_views(was).push((path@, size)));
                assert(file_views(entries@) + rest =~= file_views(was) + (seq![(path@, size)]
                    + rest));
            },
            None => {},
        }
        pos = end;
        left -= 1;
        if left == 0 {
            assert(file_views(entries@) + Seq::<(Seq<char>, u32)>::empty() =~= file_views(
                entries@,
            ));
        }
    }
    entries
}

// ───────────────────────────── enrichment index ─────────────────────────────

/// Where the parts of the enrichment index lie in the file.
#[derive(Clone, Copy, Debug, PartialEq, Eq, Structural)]
pub struct EnrichIndexLayout {
    /// The array of fixed-size entries.
    pub entries: Span,
    /// The key strings.
    pub keys: Span,
    /// Where the bitmaps start.
    pub bitmap_base: u64,
}

/// The number of entries that the enrichment blob declares.
pub open spec fn enrich_count(blob: Seq<u8>) -> int {
    le32(blob, 0) as int
}

/// Where the key strings of the enrichment blob start.
pub open spec fn enrich_keys_at(blob: Seq<u8>) -> int {
    8 + enrich_count(blob) * 16
}

/// Where the bitmaps of the enrichment blob start.
pub open spec fn enrich_bitmaps_at(blob: Seq<u8>) -> int {
    enrich_keys_at(blob) + le32(blob, 4)
}

/// The key of entry `i`, where it lies inside the key strings.
pub open spec fn enrich_key(blob: Seq<u8>, i: int) -> Option<Seq<u8>> {
    let at = 8 + i * 16;
    let from = le32(blob, at) as int;
    slice_of(
        blob.subrange(enrich_keys_at(blob), enrich_bitmaps_at(blob)),
        from,
        from + le16(blob, at + 4),
    )
}

/// Whether every key of the first `n` entries lies inside the key strings, none before an
/// earlier one.
pub open spec fn enrich_keys_sorted(blob: Seq<u8>, n: int) -> bool {
    &&& forall|i: int| 0 <= i < n ==> (#[trigger] enrich_key(blob, i)) is Some
    &&& forall|i: int, j: int|
        #![trigger enrich_key(blob, i), enrich_key(blob, j)]
        0 <= i < j < n ==> !bytes_before(enrich_key(blob, j)->0, enrich_key(blob, i)->0)
}

/// Whether the enrichment blob is whole: its parts fit and its keys are sorted.
pub open spec fn enrich_whole(blob: Seq<u8>) -> bool {
    &&& blob.len() >= 8
    &&& enrich_bitmaps_at(blob) <= blob.len()
    &&& enrich_keys_sorted(blob, enrich_count(blob))
}

/// Where the parts of the enrichment blob that starts at `base` lie; nowhere where it is not whole.
pub open spec fn enrich_layout(blob: Seq<u8>, base: u64) -> EnrichIndexLayout {
    if enrich_whole(blob) {
        EnrichIndexLayout {
            entries: Span { start: (base + 8) as u64, end: (base + enrich_keys_at(blob)) as u64 },
            keys: Span {
                start: (base + enrich_keys_at(blob)) as u64,
                end: (base + enrich_bitmaps_at(blob)) as u64,
            },
            bitmap_base: (base + enrich_bitmaps_at(blob)) as u64,
        }
    } else {
        EnrichIndexLayout {
            entries: Span { start: base, end: base },
            keys: Span { start: base, end: base },
            bitmap_base: base,
        }
    }
}

/// Reads the key of entry `i`, where it lies inside the key strings.
fn read_enrich_key<'a>(blob: &[u8], key_data: &'a [u8], i: u32) -> (r: Option<&'a [u8]>)
    requires
        8 + (i + 1) * 16 <= blob@.len(),
        key_data@ == blob@.subrange(enrich_keys_at(blob@), enrich_bitmaps_at(blob@)),
    ensures
        (match r {
            Some(key) => enrich_key(blob@, i as int) == Some(key@),
            None => enrich_key(blob@, i as int) is None,
        }),
{
    let blob_len: usize = blob.len();
    assert(8 + (i + 1) * 16 <= blob_len);
    let at: usize = 8 + i as usize * 16;
    let from: u64 = u32_at(blob, at) as u64;
    let to: u64 = from + u16_at(blob, at + 4) as u64;
    let len: usize = key_data.len();
    if to > len as u64 {
        return None;
    }
    Some(vstd::slice::slice_subrange(key_data, from as usize, to as usize))
}

/// Locates the entries, the key strings and the bitmaps of the enrichment blob.
///
/// A blob that is malformed or not sorted is refused whole: the layout is empty.
pub fn parse_enrich_index(blob: &[u8], base: u64) -> (r: EnrichIndexLayout)
    requires
        base + blob@.len() <= u64::MAX,
    ensures
        r == enrich_layout(blob@, base),
{
    let empty = EnrichIndexLayout {
        entries: Span { start: base, end: base },
        keys: Span { start: base, end: base },
        bitmap_base: base,
    };
    if blob.len() < 8 {
        return empty;
    }
    let count: u32 = u32_at(blob, 0);
    let key_len: u32 = u32_at(blob, 4);
    let entries_end: u64 = 8 + count as u64 * 16;
    assert(entries_end == enrich_keys_at(blob@));
    let len: usize = blob.len();
    if (len as u64) < entries_end + key_len as u64 {
        return empty;
    }
    let keys_at: usize = entries_end as usize;
    let keys_end: usize = (entries_end + key_len as u64) as usize;
    let key_data = vstd::slice::slice_subrange(blob, keys_at, keys_end);
    assert(key_data@ =~= blob@.subrange(enrich_keys_at(blob@), enrich_bitmaps_at(blob@)));
    let mut prev: &[u8] = vstd::slice::slice_subrange(blob, 0, 0);
    let mut i: u32 = 0;
    while i < count
        invariant
            i <= count,
            blob@.len() >= 8,
            count == enrich_count(blob@),
            enrich_bitmaps_at(blob@) <= blob@.len(),
            keys_at == enrich_keys_at(blob@),
            key_data@ == blob@.subrange(enrich_keys_at(blob@), enrich_bitmaps_at(blob@)),
            enrich_keys_sorted(blob@, i as int),
            i > 0 ==> enrich_key(blob@, i - 1) == Some(prev@),
            i == 0 ==> prev@.len() == 0,
            empty == (EnrichIndexLayout {
                entries: Span { start: base, end: base },
                keys: Span { start: base, end: base },
                bitmap_base: base,
            }),
        decreases count - i,
    {
        assert(8 + (i + 1) * 16 <= enrich_keys_at(blob@));
        let key = match read_enrich_key(blob, key_data, i) {
            Some(key) => key,
            None => {
                return empty;
            },
        };
        if bytes_less(key, prev) {
            proof {
                if i == 0 {
                    assert(crate::order::byte_ranks(prev@).len() == 0);
                } else {
                    assert(bytes_before(
                        enrich_key(blob@, i as int)->0,
                        enrich_key(blob@, i - 1)->0,
                    ));
                }
            }
            return empty;
        }
        proof {
            assert forall|k: int| 0 <= k < i implies !bytes_before(
                key@,
                (#[trigger] enrich_key(blob@, k))->0,
            ) by {
                let earlier = enrich_key(blob@, k)->0;
                if k < i - 1 {
                    assert(!bytes_before(enrich_key(blob@, i - 1)->0, earlier));
                    lemma_bytes_total(earlier, prev@);
                    if bytes_before(key@, earlier) && earlier != prev@ {
                        lemma_bytes_transitive(key@, earlier, prev@);
                    }
                }
            }
        }
        prev = key;
        i += 1;
    }
    EnrichIndexLayout {
        entries: Span { start: base + 8, end: base + entries_end },
        keys: Span { start: base + entries_end, end: base + entries_end + key_len as u64 },
        bitmap_base: base + entries_end + key_len as u64,
    }
}

} // verus!
