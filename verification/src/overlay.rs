//! The overlay: one file that merges the segments of a commit into a workspace-wide index.

pub mod enrich;
pub mod format;
pub mod lookup;
pub mod parse;
pub mod postings;

use crate::index_nodes::index_opens;
use crate::name_index::{index_entries, index_intact, CountIndex, NameIndex};
use crate::order::{bytes_before, bytes_less, lemma_bytes_total, lemma_bytes_transitive};
use crate::order::{lemma_path_total, lemma_path_weak, path_before, path_less};
use crate::overlay::format::{
    OverlayError, SegmentMeta, Span, HEADER_LEN, SEGMENT_RECORD_SIZE, TOC_COUNT, TOC_ENTRY_SIZE,
};
use crate::overlay::parse::{
    are_blob_spans, blob_span, blobs_verdict, build_segment_offsets, decode_segment_metas, enrich_layout,
    file_entries_of, file_views, first_fault, first_missing_blob, header_verdict, holds_record, is_segment_table,
    open_blobs, parse_enrich_index, parse_file_entries, parse_header, record_fault, segment_start,
    EnrichIndexLayout,
};
use crate::sort::{is_sorted_order, sorted_order, sorts_before, RankTable};
use crate::path_parts::{is_same_path, same_path};
use vstd::prelude::*;
use vstd::string::*;

verus! {

/// The segments of an overlay, ranked by the text of their source paths.
pub struct SegmentsByPath<'a> {
    pub segments: &'a Vec<SegmentMeta>,
}

impl<'a> RankTable for SegmentsByPath<'a> {
    open spec fn size(&self) -> nat {
        self.segments@.len()
    }

    open spec fn readable(&self) -> bool {
        true
    }

    open spec fn ranks_before(&self, i: int, j: int) -> bool {
        path_before(self.segments@[i].source_path@, self.segments@[j].source_path@)
    }

    proof fn strict_weak_order(&self, i: int, j: int, k: int) {
        lemma_path_weak(
            self.segments@[i].source_path@,
            self.segments@[j].source_path@,
            self.segments@[k].source_path@,
        );
    }

    fn count(&self) -> (n: usize) {
        self.segments.len()
    }

    fn is_before(&self, i: usize, j: usize) -> (r: bool) {
        path_less(self.segments[i].source_path.as_str(), self.segments[j].source_path.as_str())
    }
}

/// The segments of an overlay, ranked by path fingerprint.
pub struct SegmentsByDigest<'a> {
    pub segments: &'a Vec<SegmentMeta>,
}

impl<'a> RankTable for SegmentsByDigest<'a> {
    open spec fn size(&self) -> nat {
        self.segments@.len()
    }

    open spec fn readable(&self) -> bool {
        true
    }

    open spec fn ranks_before(&self, i: int, j: int) -> bool {
        bytes_before(self.segments@[i].sha256@, self.segments@[j].sha256@)
    }

    proof fn strict_weak_order(&self, i: int, j: int, k: int) {
        let (a, b, c) = (
            self.segments@[i].sha256@,
            self.segments@[j].sha256@,
            self.segments@[k].sha256@,
        );
        lemma_bytes_total(a, a);
        lemma_bytes_total(a, b);
        lemma_bytes_total(b, c);
        lemma_bytes_total(a, c);
        if bytes_before(a, b) && bytes_before(b, c) {
            lemma_bytes_transitive(a, b, c);
        }
        if bytes_before(b, a) && bytes_before(c, b) {
            lemma_bytes_transitive(c, b, a);
        }
    }

    fn count(&self) -> (n: usize) {
        self.segments.len()
    }

    fn is_before(&self, i: usize, j: usize) -> (r: bool) {
        bytes_less(self.segments[i].sha256.as_slice(), self.segments[j].sha256.as_slice())
    }
}

/// Whether two segments were built from one source path.
pub open spec fn paths_repeat(segments: Seq<SegmentMeta>) -> bool {
    exists|i: int, j: int|
        #![trigger segments[i], segments[j]]
        0 <= i < j < segments.len() && same_path(
            segments[i].source_path@,
            segments[j].source_path@,
        )
}

/// Whether two segments were built from one source path.
pub fn find_repeated_paths(segments: &Vec<SegmentMeta>) -> (r: bool)
    ensures
        r == paths_repeat(segments@),
{
    let table = SegmentsByPath { segments };
    let order = sorted_order(&table);
    let ghost n = segments@.len();
    let mut k: usize = 1;
    while k < order.len()
        invariant
            1 <= k,
            table.segments == segments,
            n == segments@.len(),
            is_sorted_order(&table, order@),
            k <= order.len() || order.len() == 0,
            forall|a: int|
                1 <= a < k ==> !same_path(
                    segments@[#[trigger] order@[a] as int].source_path@,
                    segments@[order@[a - 1] as int].source_path@,
                ),
        decreases order.len() - k,
    {
        let here: usize = order[k];
        let prev: usize = order[k - 1];
        assert(sorts_before(&table, prev as int, here as int));
        if is_same_path(segments[here].source_path.as_str(), segments[prev].source_path.as_str()) {
            proof {
                let (i, j) = if here < prev {
                    (here as int, prev as int)
                } else {
                    (prev as int, here as int)
                };
                lemma_path_total(
                    segments@[prev as int].source_path@,
                    segments@[prev as int].source_path@,
                );
                assert(same_path(segments@[i].source_path@, segments@[j].source_path@));
            }
            return true;
        }
        k += 1;
    }
    proof {
        if paths_repeat(segments@) {
            let (i, j) = choose|i: int, j: int|
                #![trigger segments@[i], segments@[j]]
                0 <= i < j < n && same_path(
                    segments@[i].source_path@,
                    segments@[j].source_path@,
                );
            assert(order@.contains(i as usize));
            assert(order@.contains(j as usize));
            let a = choose|a: int| 0 <= a < order@.len() && order@[a] == i as usize;
            let b = choose|b: int| 0 <= b < order@.len() && order@[b] == j as usize;
            let (lo, hi) = if a < b {
                (a, b)
            } else {
                (b, a)
            };
            let x = segments@[order@[lo] as int].source_path@;
            let y = segments@[order@[lo + 1] as int].source_path@;
            let z = segments@[order@[hi] as int].source_path@;
            assert(sorts_before(&table, order@[lo] as int, order@[lo + 1] as int));
            lemma_path_total(x, y);
            lemma_path_total(x, z);
            if lo + 1 < hi {
                assert(sorts_before(&table, order@[lo + 1] as int, order@[hi] as int));
                lemma_path_total(y, z);
                lemma_path_weak(x, y, z);
                lemma_path_weak(y, z, x);
            }
            assert(same_path(x, y));
            assert(order@[lo + 1] as int == order@[lo + 1] as int);
            assert(false);
        }
    }
    false
}

/// A workspace-wide index, read from one file.
pub struct Overlay {
    /// The bytes of the file.
    pub file: Vec<u8>,
    /// The segment table.
    pub segments: Vec<SegmentMeta>,
    /// Total number of rows.
    pub row_count: u32,
    /// The first global row of each segment, and one more entry that ends the last.
    pub segment_offsets: Vec<u32>,
    /// Global row to segment and local row.
    pub row_table: Span,
    /// The kind names.
    pub kind_strings: Span,
    /// Kind name to bitmap, sorted by name.
    pub kind_index: Span,
    /// The bitmaps of kinds and trigrams.
    pub bitmap_data: Span,
    /// Trigram to bitmap, sorted by trigram.
    pub trigram_index: Span,
    /// The global rows of each name.
    pub name_postings: Span,
    /// One file size per segment.
    pub index_files: Span,
    /// `field=value` to bitmap, sorted by key.
    pub enrich: EnrichIndexLayout,
    /// The files that have no segment, with their sizes.
    pub file_entries: Vec<(String, u32)>,
    /// Whether two segments were built from one source path.
    pub has_duplicate_paths: bool,
    /// Symbol name to postings.
    pub name_index: NameIndex,
    /// Symbol name to the number of its usage sites, where the file stores any.
    pub usages_count: Option<CountIndex>,
    /// Where that index lies in the file.
    pub usage_index: Span,
    /// The segments in ascending order of path fingerprint.
    pub seg_id_index: Vec<usize>,
}

/// The stretch of blob `k` of a file whose header and table of contents are sound.
pub open spec fn file_blob(file: Seq<u8>, k: int) -> Span {
    blob_span(file, header_verdict(file)->Ok_0 as int, k)->0
}

/// The bytes of blob `k`.
pub open spec fn blob_bytes(file: Seq<u8>, k: int) -> Seq<u8> {
    file_blob(file, k).of(file)
}

/// The stretches of the named blobs.
pub open spec fn file_spans(file: Seq<u8>) -> Seq<Span> {
    Seq::new(TOC_COUNT as nat, |k: int| file_blob(file, k))
}

/// Whether the header, the table of contents and the layout of a file are sound.
pub open spec fn frame_sound(file: Seq<u8>) -> bool {
    &&& header_verdict(file) is Ok
    &&& blobs_verdict(file, header_verdict(file)->Ok_0, Ok(file_spans(file)))
    &&& forall|k: int| 0 <= k < TOC_COUNT ==> (#[trigger] file_blob(file, k)).inside(file.len())
}

/// Whether every record of the segment table can be read.
pub open spec fn records_sound(file: Seq<u8>) -> bool {
    forall|i: int|
        0 <= i < blob_bytes(file, 7).len() / 20 ==> (#[trigger] record_fault(
            blob_bytes(file, 7),
            blob_bytes(file, 8),
            i,
        )) is None
}

/// Why a file does not open: the first fault met in reading it.
pub open spec fn open_fault(file: Seq<u8>, e: OverlayError) -> bool {
    ||| header_verdict(file) == Err::<u32, _>(e)
    ||| header_verdict(file) is Ok && blobs_verdict(file, header_verdict(file)->Ok_0, Err(e))
    ||| frame_sound(file) && exists|i: int| #[trigger]
        first_fault(
            blob_bytes(file, 7),
            blob_bytes(file, 8),
            (blob_bytes(file, 7).len() / 20) as int,
            i,
            e,
        )
    ||| e == OverlayError::NameIndexCorrupt && frame_sound(file) && records_sound(file)
        && !index_intact(blob_bytes(file, 5))
    ||| e == OverlayError::UsageIndexCorrupt && frame_sound(file) && records_sound(file)
        && index_intact(blob_bytes(file, 5)) && blob_bytes(file, 12).len() > 0 && !index_opens(
        blob_bytes(file, 12),
    )
}

impl Overlay {
    /// Whether this is what `file` stores.
    pub open spec fn reads(&self, file: Seq<u8>) -> bool {
        &&& self.file@ == file
        &&& frame_sound(file)
        &&& self.row_table == file_blob(file, 0)
        &&& self.kind_strings == file_blob(file, 1)
        &&& self.kind_index == file_blob(file, 2)
        &&& self.bitmap_data == file_blob(file, 3)
        &&& self.trigram_index == file_blob(file, 4)
        &&& self.name_postings == file_blob(file, 6)
        &&& self.index_files == file_blob(file, 9)
        &&& is_segment_table(self.segments@, blob_bytes(file, 7), blob_bytes(file, 8))
        &&& self.row_count as int == file_blob(file, 0).size() / 8
        &&& index_intact(blob_bytes(file, 5))
        &&& self.name_index@ == index_entries(blob_bytes(file, 5))
        &&& (match self.usages_count {
            None => blob_bytes(file, 12).len() == 0,
            Some(index) => blob_bytes(file, 12).len() > 0 && index_opens(blob_bytes(file, 12))
                && index.bytes() == blob_bytes(file, 12),
        })
        &&& self.usage_index == file_blob(file, 12)
        &&& file_views(self.file_entries@) == file_entries_of(blob_bytes(file, 11))
        &&& self.enrich == enrich_layout(blob_bytes(file, 10), file_blob(file, 10).start)
    }

    /// Whether the derived tables are those of the segments.
    pub open spec fn tables_hold(&self) -> bool {
        &&& self.segments@.len() <= u32::MAX
        &&& self.segment_offsets@.len() == self.segments@.len() + 1
        &&& forall|i: int|
            0 <= i <= self.segments@.len() ==> self.segment_offsets@[i] == segment_start(
                self.segments@,
                i,
            )
        &&& self.has_duplicate_paths == paths_repeat(self.segments@)
        &&& is_sorted_order(
            &(SegmentsByDigest { segments: &self.segments }),
            self.seg_id_index@,
        )
    }

    /// A well-formed overlay is what its own bytes store.
    pub open spec fn wf(&self) -> bool {
        self.reads(self.file@) && self.tables_hold()
    }

    /// Opens the bytes of an overlay file.
    pub fn open(file: Vec<u8>) -> (r: Result<Overlay, OverlayError>)
        ensures
            (match r {
                Ok(overlay) => overlay.wf() && overlay.file@ == file@,
                Err(e) => open_fault(file@, e),
            }),
    {
        let count: u32 = match parse_header(file.as_slice()) {
            Ok(count) => count,
            Err(e) => {
                return Err(e);
            },
        };
        let spans = match open_blobs(file.as_slice(), count) {
            Ok(spans) => spans,
            Err(e) => {
                return Err(e);
            },
        };
        assert(frame_sound(file@)) by {
            assert forall|k: int| 0 <= k < TOC_COUNT implies spans@[k] == file_blob(file@, k) by {
                assert(blob_span(file@, count as int, k) == Some(spans@[k]));
            }
            assert(file_spans(file@) =~= spans@);
            assert forall|k: int| 0 <= k < TOC_COUNT implies (#[trigger] file_blob(
                file@,
                k,
            )).inside(file@.len()) by {
                assert(spans@[k] == file_blob(file@, k));
            }
        }
        assert forall|k: int| 0 <= k < TOC_COUNT implies spans@[k] == #[trigger] file_blob(
            file@,
            k,
        ) by {
            assert(blob_span(file@, count as int, k) == Some(spans@[k]));
        }
        let row_table = spans[0];
        let kind_strings = spans[1];
        let kind_index = spans[2];
        let bitmap_data = spans[3];
        let trigram_index = spans[4];
        let name_fst = spans[5];
        let name_postings = spans[6];
        let segment_records = spans[7];
        let segment_strings = spans[8];
        let index_files = spans[9];
        let enrich_bitmaps = spans[10];
        let file_list = spans[11];
        let usages_fst = spans[12];
        assert(row_table == file_blob(file@, 0) && kind_strings == file_blob(file@, 1)
            && kind_index == file_blob(file@, 2) && bitmap_data == file_blob(file@, 3)
            && trigram_index == file_blob(file@, 4) && name_fst == file_blob(file@, 5)
            && name_postings == file_blob(file@, 6) && segment_records == file_blob(file@, 7)
            && segment_strings == file_blob(file@, 8) && index_files == file_blob(file@, 9)
            && enrich_bitmaps == file_blob(file@, 10) && file_list == file_blob(file@, 11)
            && usages_fst == file_blob(file@, 12));
        proof {
            crate::overlay::lemma_blob_sizes(file@, 0);
            crate::overlay::lemma_blob_sizes(file@, 7);
        }
        let row_count: u32 = ((row_table.end - row_table.start) / 8) as u32;
        let segments = match decode_segment_metas(
            segment_records.read(file.as_slice()),
            segment_strings.read(file.as_slice()),
        ) {
            Ok(segments) => segments,
            Err(e) => {
                proof {
                    let records = blob_bytes(file@, 7);
                    let strings = blob_bytes(file@, 8);
                    let n = (records.len() / SEGMENT_RECORD_SIZE as nat) as int;
                    let i = choose|i: int| #[trigger] first_fault(records, strings, n, i, e);
                    assert(n == (records.len() / 20) as int);
                    assert(first_fault(records, strings, (records.len() / 20) as int, i, e));
                }
                return Err(e);
            },
        };
        proof {
            let records = blob_bytes(file@, 7);
            assert forall|i: int| 0 <= i < records.len() / 20 implies (#[trigger] record_fault(
                records,
                blob_bytes(file@, 8),
                i,
            )) is None by {
                assert(holds_record(segments@[i], records, blob_bytes(file@, 8), i));
            }
        }
        let seg_id_index = sorted_order(&SegmentsByDigest { segments: &segments });
        let segment_offsets = build_segment_offsets(&segments);
        let name_bytes = vstd::slice::slice_to_vec(name_fst.read(file.as_slice()));
        let name_index = match NameIndex::open(name_bytes) {
            Some(index) => index,
            None => {
                return Err(OverlayError::NameIndexCorrupt);
            },
        };
        let usages_count = if usages_fst.start == usages_fst.end {
            None
        } else {
            let bytes = vstd::slice::slice_to_vec(usages_fst.read(file.as_slice()));
            match CountIndex::open(bytes) {
                Some(index) => Some(index),
                None => {
                    return Err(OverlayError::UsageIndexCorrupt);
                },
            }
        };
        let has_duplicate_paths = find_repeated_paths(&segments);
        let file_entries = parse_file_entries(file_list.read(file.as_slice()));
        let enrich = parse_enrich_index(
            enrich_bitmaps.read(file.as_slice()),
            enrich_bitmaps.start,
        );
        Ok(
            Overlay {
                file,
                segments,
                row_count,
                segment_offsets,
                row_table,
                kind_strings,
                kind_index,
                bitmap_data,
                trigram_index,
                name_postings,
                index_files,
                enrich,
                file_entries,
                has_duplicate_paths,
                name_index,
                usages_count,
                usage_index: usages_fst,
                seg_id_index,
            },
        )
    }
}

/// A blob is at most as long as the table of contents can say.
proof fn lemma_blob_sizes(file: Seq<u8>, k: int)
    requires
        frame_sound(file),
        0 <= k < TOC_COUNT,
    ensures
        file_blob(file, k).size() <= u32::MAX,
{
    let count = header_verdict(file)->Ok_0 as int;
    assert(file_spans(file)[k] == file_blob(file, k));
    assert(blob_span(file, count, k) == Some(file_spans(file)[k]));
    lemma_toc_size(
        file,
        count,
        vstd::utf8::encode_utf8(crate::overlay::format::blob_name(k)),
        0,
    );
}

/// A stretch of the table of contents is at most 32 bits long.
proof fn lemma_toc_size(file: Seq<u8>, count: int, name: Seq<u8>, i: int)
    ensures
        crate::overlay::parse::toc_find(file, count, name, i) is Some
            ==> crate::overlay::parse::toc_find(file, count, name, i)->0.size() <= u32::MAX,
    decreases count - i,
{
    if i < count && crate::overlay::parse::toc_name(file, i) != name {
        lemma_toc_size(file, count, name, i + 1);
    }
}

proof fn lemma_spans_unique(file: Seq<u8>, count: int, a: Seq<Span>, b: Seq<Span>)
    requires
        are_blob_spans(a, file, count),
        are_blob_spans(b, file, count),
    ensures
        a == b,
{
    assert forall|k: int| 0 <= k < a.len() implies a[k] == b[k] by {
        assert(blob_span(file, count, k) == Some(a[k]));
        assert(blob_span(file, count, k) == Some(b[k]));
    }
    assert(a =~= b);
}

proof fn lemma_one_frame_verdict(
    file: Seq<u8>,
    count: u32,
    a: Result<Seq<Span>, OverlayError>,
    b: Result<Seq<Span>, OverlayError>,
)
    requires
        blobs_verdict(file, count, a),
        blobs_verdict(file, count, b),
    ensures
        a == b,
{
    let n = count as int;
    if file.len() >= HEADER_LEN + count * TOC_ENTRY_SIZE {
        assert forall|s: Seq<Span>, k: int| are_blob_spans(s, file, n) implies !#[trigger]
            first_missing_blob(file, n, k) || !#[trigger] are_blob_spans(s, file, n) by {
            if first_missing_blob(file, n, k) {
                assert(blob_span(file, n, k) == Some(s[k]));
            }
        }
        assert forall|s: Seq<Span>, t: Seq<Span>| #[trigger]
            are_blob_spans(s, file, n) && #[trigger] are_blob_spans(t, file, n) implies s == t by {
            lemma_spans_unique(file, n, s, t);
        }
    }
}

/// A file has one fault at most: whatever stops it from being opened is told always the same.
pub proof fn lemma_one_fault(file: Seq<u8>, a: OverlayError, b: OverlayError)
    requires
        open_fault(file, a),
        open_fault(file, b),
    ensures
        a == b,
{
    if header_verdict(file) is Ok {
        let count = header_verdict(file)->Ok_0;
        if blobs_verdict(file, count, Err(a)) && blobs_verdict(file, count, Err(b)) {
            lemma_one_frame_verdict(file, count, Err(a), Err(b));
        }
        if frame_sound(file) {
            let whole: Result<Seq<Span>, OverlayError> = Ok(file_spans(file));
            if blobs_verdict(file, count, Err(a)) {
                lemma_one_frame_verdict(file, count, Err(a), whole);
            }
            if blobs_verdict(file, count, Err(b)) {
                lemma_one_frame_verdict(file, count, Err(b), whole);
            }
        }
    }
}

/// A file that opens has no fault.
pub proof fn lemma_open_file_has_no_fault(o: Overlay, e: OverlayError)
    requires
        o.wf(),
    ensures
        !open_fault(o.file@, e),
{
    let file = o.file@;
    let whole: Result<Seq<Span>, OverlayError> = Ok(file_spans(file));
    let count = header_verdict(file)->Ok_0;
    if blobs_verdict(file, count, Err(e)) {
        lemma_one_frame_verdict(file, count, Err(e), whole);
    }
    assert forall|i: int| 0 <= i < blob_bytes(file, 7).len() / 20 implies (#[trigger] record_fault(
        blob_bytes(file, 7),
        blob_bytes(file, 8),
        i,
    )) is None by {
        assert(holds_record(o.segments@[i], blob_bytes(file, 7), blob_bytes(file, 8), i));
    }
}

} // verus!
