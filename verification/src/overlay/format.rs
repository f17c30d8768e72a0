//! On-disk constants and records of the overlay file.
//!
//! A file is a 24-byte header, a table of contents with 64 bytes per blob, and
//! the blobs. Every integer is little-endian.

use crate::node_id::{format_node_id, node_id_text};
use crate::text::{decimal, hex_head, hex_prefix, push_decimal};
use vstd::prelude::*;
use vstd::string::*;

verus! {

/// Current schema version. Bump on any breaking format change.
pub const SCHEMA_VERSION: u32 = 12;

/// Number of bytes in the fixed header, before the table of contents.
pub const HEADER_LEN: usize = 24;

/// Byte size of one entry of the table of contents.
pub const TOC_ENTRY_SIZE: usize = 64;

/// Most bytes that a blob name takes inside an entry.
pub const TOC_ENTRY_NAME_LEN: usize = 56;

/// Number of named blobs in an overlay file.
pub const TOC_COUNT: usize = 13;

/// Byte size of a row pointer.
pub const ROW_PTR_SIZE: usize = 8;

/// Byte size of an entry of the kind index.
pub const KIND_ENTRY_SIZE: usize = 16;

/// Byte size of an entry of the trigram index.
pub const TRIGRAM_ENTRY_SIZE: usize = 12;

/// Byte size of a segment record.
pub const SEGMENT_RECORD_SIZE: usize = 20;

/// Byte size of an entry of the enrichment index.
pub const ENRICH_ENTRY_SIZE: usize = 16;

/// The four bytes that open every overlay file: `FQOV`.
pub open spec fn magic() -> Seq<u8> {
    seq![0x46u8, 0x51u8, 0x4fu8, 0x56u8]
}

/// The name of blob `k`, in the order the file lists them.
pub open spec fn blob_name(k: int) -> Seq<char> {
    if k == 0 {
        "row_table"@
    } else if k == 1 {
        "kind_strings"@
    } else if k == 2 {
        "kind_index"@
    } else if k == 3 {
        "bitmap_data"@
    } else if k == 4 {
        "trigram_index"@
    } else if k == 5 {
        "name_fst"@
    } else if k == 6 {
        "name_postings"@
    } else if k == 7 {
        "segments"@
    } else if k == 8 {
        "segment_strings"@
    } else if k == 9 {
        "index_files"@
    } else if k == 10 {
        "enrich_bitmaps"@
    } else if k == 11 {
        "file_entries"@
    } else {
        "usages_count_fst"@
    }
}

/// The name of blob `k`.
pub fn blob_name_text(k: usize) -> (s: &'static str)
    ensures
        s@ == blob_name(k as int),
{
    match k {
        0 => "row_table",
        1 => "kind_strings",
        2 => "kind_index",
        3 => "bitmap_data",
        4 => "trigram_index",
        5 => "name_fst",
        6 => "name_postings",
        7 => "segments",
        8 => "segment_strings",
        9 => "index_files",
        10 => "enrich_bitmaps",
        11 => "file_entries",
        _ => "usages_count_fst",
    }
}

/// The record that blob `k` is made of, for messages.
pub open spec fn record_name(k: int) -> Seq<char> {
    if k == 0 {
        "RowPtr"@
    } else if k == 2 {
        "KindEntry"@
    } else if k == 4 {
        "TrigramEntry"@
    } else if k == 7 {
        "SegmentRecord"@
    } else {
        "u32"@
    }
}

fn record_name_text(k: usize) -> (s: &'static str)
    ensures
        s@ == record_name(k as int),
{
    match k {
        0 => "RowPtr",
        2 => "KindEntry",
        4 => "TrigramEntry",
        7 => "SegmentRecord",
        _ => "u32",
    }
}

/// Why bytes are not an overlay.
#[derive(Clone, Copy, Debug, PartialEq, Eq, Structural)]
pub enum OverlayError {
    /// Shorter than the fixed header.
    TooShort,
    /// The opening four bytes are not the overlay's.
    BadMagic,
    /// Written under another schema version.
    SchemaMismatch { got: u32 },
    /// The table of contents does not fit in the file.
    TocTruncated { need: u64, have: u64 },
    /// The table of contents does not list a blob.
    MissingBlob { blob: usize },
    /// A blob ends past the end of the file.
    Truncated { need: u64, have: u64 },
    /// A blob is no whole number of records.
    BadBlobSize { blob: usize },
    /// A blob of records does not start on a four-byte boundary.
    Misaligned { blob: usize },
    /// The file does not hold one size per segment.
    CountMismatch { segments: u64, files: u64 },
    /// A segment's path or content id lies outside the string blob.
    StringOutOfBounds,
    /// A segment's path is not UTF-8.
    PathNotUtf8,
    /// A segment's content id is not UTF-8.
    ContentIdNotUtf8,
    /// The name index does not open.
    NameIndexCorrupt,
    /// The usage-count index does not open.
    UsageIndexCorrupt,
}

/// The message of an overlay error.
pub open spec fn overlay_error_text(e: OverlayError) -> Seq<char> {
    match e {
        OverlayError::TooShort => "overlay file too short"@,
        OverlayError::BadMagic => "invalid overlay magic"@,
        OverlayError::SchemaMismatch { got } => "overlay schema version mismatch: expected "@
            + decimal(SCHEMA_VERSION as nat) + ", got "@ + decimal(got as nat),
        OverlayError::TocTruncated { need, have } => "overlay TOC truncated: need "@ + decimal(
            need as nat,
        ) + " bytes, file is "@ + decimal(have as nat) + " bytes"@,
        OverlayError::MissingBlob { blob } => "blob \""@ + blob_name(blob as int)
            + "\" not found in overlay TOC"@,
        OverlayError::Truncated { need, have } => "overlay file truncated: need "@ + decimal(
            need as nat,
        ) + " bytes, got "@ + decimal(have as nat),
        OverlayError::BadBlobSize { blob } => blob_name(blob as int)
            + " blob size not a multiple of "@ + record_name(blob as int) + " size"@,
        OverlayError::Misaligned { blob } => blob_name(blob as int) + " blob misaligned"@,
        OverlayError::CountMismatch { segments, files } =>
            "mismatched segments and index_files: segment_count="@ + decimal(segments as nat)
            + ", file_count="@ + decimal(files as nat),
        OverlayError::StringOutOfBounds => "segment string index out of bounds"@,
        OverlayError::PathNotUtf8 => "segment source path not valid UTF-8"@,
        OverlayError::ContentIdNotUtf8 => "segment hex_content_id not valid UTF-8"@,
        OverlayError::NameIndexCorrupt => "loading name FST from overlay"@,
        OverlayError::UsageIndexCorrupt => "loading usages-count FST from overlay"@,
    }
}

impl OverlayError {
    /// The message of this error.
    pub fn message(&self) -> (s: String)
        ensures
            s@ == overlay_error_text(*self),
    {
        let mut s = String::new();
        match *self {
            OverlayError::TooShort => s.append("overlay file too short"),
            OverlayError::BadMagic => s.append("invalid overlay magic"),
            OverlayError::SchemaMismatch { got } => {
                s.append("overlay schema version mismatch: expected ");
                push_decimal(&mut s, SCHEMA_VERSION as u64);
                s.append(", got ");
                push_decimal(&mut s, got as u64);
            },
            OverlayError::TocTruncated { need, have } => {
                s.append("overlay TOC truncated: need ");
                push_decimal(&mut s, need);
                s.append(" bytes, file is ");
                push_decimal(&mut s, have);
                s.append(" bytes");
            },
            OverlayError::MissingBlob { blob } => {
                s.append("blob \"");
                s.append(blob_name_text(blob));
                s.append("\" not found in overlay TOC");
            },
            OverlayError::Truncated { need, have } => {
                s.append("overlay file truncated: need ");
                push_decimal(&mut s, need);
                s.append(" bytes, got ");
                push_decimal(&mut s, have);
            },
            OverlayError::BadBlobSize { blob } => {
                s.append(blob_name_text(blob));
                s.append(" blob size not a multiple of ");
                s.append(record_name_text(blob));
                s.append(" size");
            },
            OverlayError::Misaligned { blob } => {
                s.append(blob_name_text(blob));
                s.append(" blob misaligned");
            },
            OverlayError::CountMismatch { segments, files } => {
                s.append("mismatched segments and index_files: segment_count=");
                push_decimal(&mut s, segments);
                s.append(", file_count=");
                push_decimal(&mut s, files);
            },
            OverlayError::StringOutOfBounds => s.append("segment string index out of bounds"),
            OverlayError::PathNotUtf8 => s.append("segment source path not valid UTF-8"),
            OverlayError::ContentIdNotUtf8 => s.append("segment hex_content_id not valid UTF-8"),
            OverlayError::NameIndexCorrupt => s.append("loading name FST from overlay"),
            OverlayError::UsageIndexCorrupt => s.append("loading usages-count FST from overlay"),
        }
        assert(s@ =~= overlay_error_text(*self));
        s
    }
}

/// A stretch of the file: its first byte and the one past its last.
#[derive(Clone, Copy, Debug, PartialEq, Eq, Structural)]
pub struct Span {
    pub start: u64,
    pub end: u64,
}

impl Span {
    /// Whether the stretch lies inside a file of `len` bytes.
    pub open spec fn inside(&self, len: nat) -> bool {
        self.start <= self.end <= len
    }

    /// The bytes of the stretch.
    pub open spec fn of(&self, file: Seq<u8>) -> Seq<u8> {
        file.subrange(self.start as int, self.end as int)
    }

    /// How many bytes the stretch has.
    pub open spec fn size(&self) -> int {
        self.end - self.start
    }

    /// The bytes of the stretch.
    pub fn read<'a>(&self, file: &'a [u8]) -> (s: &'a [u8])
        requires
            self.inside(file@.len()),
        ensures
            s@ == self.of(file@),
    {
        let len: usize = file.len();
        assert(self.end <= len);
        vstd::slice::slice_subrange(file, self.start as usize, self.end as usize)
    }
}

/// Where a global row lives: which segment, and which row of it.
#[derive(Clone, Copy, Debug, PartialEq, Eq, Structural)]
pub struct RowPtr {
    /// Index into the overlay's segment list.
    pub segment_idx: u32,
    /// Row index within that segment.
    pub local_row_idx: u32,
}

/// Per-segment metadata of the overlay's segment table.
///
/// `sha256` and `prefix_len` are derived from `source_path`, not stored.
#[derive(Clone, Debug)]
pub struct SegmentMeta {
    /// Hex-encoded content id of the source file.
    pub hex_content_id: String,
    /// Source file path, relative to the worktree root.
    pub source_path: String,
    /// Number of rows in this segment.
    pub row_count: u32,
    /// Number of distinct (name, kind, line) rows in this segment.
    pub dedup_row_count: u32,
    /// SHA-256 of the source path.
    pub sha256: [u8; 32],
    /// Number of hex characters of `sha256` that tell this segment from the others.
    pub prefix_len: u8,
}

impl SegmentMeta {
    /// The shortest unambiguous hex prefix of this segment's path hash.
    pub open spec fn id_text(&self) -> Seq<char> {
        hex_head(self.sha256@, self.prefix_len as nat)
    }

    /// The handle of the node `ordinal` of this segment.
    pub open spec fn handle(&self, ordinal: nat) -> Seq<char> {
        node_id_text(self.sha256@, self.prefix_len as nat, ordinal)
    }

    /// The display id of this segment: the shortest unambiguous hex prefix of its path hash.
    pub fn segment_id(&self) -> (s: String)
        ensures
            s@ == self.id_text(),
    {
        hex_prefix(self.sha256.as_slice(), self.prefix_len)
    }

    /// The handle of the symbol at `ordinal`: `n{segment_id}.{ordinal:04}`.
    pub fn node_id(&self, ordinal: u32) -> (s: String)
        ensures
            s@ == self.handle(ordinal as nat),
    {
        format_node_id(&self.sha256, self.prefix_len, ordinal)
    }
}

} // verus!
