//! Opening an index file and reading its tables.

use forgeql_storage::overlay::format::{blob_name_text, OverlayError, Span, HEADER_LEN};
use forgeql_storage::overlay::parse::{find_blob_ranges, TocEntry};
use forgeql_storage::overlay::Overlay;
use roaring::RoaringBitmap;
use std::collections::BTreeMap;

/// The bytes of an index file made of its thirteen blobs.
fn framed(blobs: &[Vec<u8>]) -> Vec<u8> {
    let names = [
        "row_table",
        "kind_strings",
        "kind_index",
        "bitmap_data",
        "trigram_index",
        "name_fst",
        "name_postings",
        "segments",
        "segment_strings",
        "index_files",
        "enrich_bitmaps",
        "file_entries",
        "usages_count_fst",
    ];
    let mut file = Vec::new();
    file.extend_from_slice(b"FQOV");
    file.extend_from_slice(&12u32.to_le_bytes());
    file.extend_from_slice(&1u64.to_le_bytes());
    file.extend_from_slice(&(names.len() as u32).to_le_bytes());
    file.extend_from_slice(&0u32.to_le_bytes());
    let mut at = 24 + 64 * names.len();
    for (name, blob) in names.iter().zip(blobs) {
        at = (at + 7) / 8 * 8;
        let mut entry = name.as_bytes().to_vec();
        entry.resize(56, 0);
        file.extend_from_slice(&entry);
        file.extend_from_slice(&(at as u32).to_le_bytes());
        file.extend_from_slice(&(blob.len() as u32).to_le_bytes());
        at += blob.len();
    }
    for blob in blobs {
        while file.len() % 8 != 0 {
            file.push(0);
        }
        file.extend_from_slice(blob);
    }
    file
}

fn bitmap_bytes(rows: &RoaringBitmap) -> Vec<u8> {
    let mut bytes = Vec::new();
    rows.serialize_into(&mut bytes).unwrap();
    bytes
}

fn empty_names() -> Vec<u8> {
    fst::MapBuilder::memory().into_inner().unwrap()
}

/// The blobs of an index of one segment's rows, with trigrams and nothing else.
fn trigram_blobs(trigrams: &BTreeMap<[u8; 3], Vec<u8>>, row_count: u32) -> Vec<Vec<u8>> {
    let mut row_table = Vec::new();
    for row in 0..row_count {
        row_table.extend_from_slice(&0u32.to_le_bytes());
        row_table.extend_from_slice(&row.to_le_bytes());
    }
    let mut data = Vec::new();
    let mut index = Vec::new();
    for (trigram, bytes) in trigrams {
        index.extend_from_slice(trigram);
        index.push(0);
        index.extend_from_slice(&(data.len() as u32).to_le_bytes());
        index.extend_from_slice(&(bytes.len() as u32).to_le_bytes());
        data.extend_from_slice(bytes);
    }
    let mut blobs = vec![Vec::new(); 13];
    blobs[0] = row_table;
    blobs[3] = data;
    blobs[4] = index;
    blobs[5] = empty_names();
    blobs
}

fn open(file: Vec<u8>) -> Overlay {
    match Overlay::open(file) {
        Ok(overlay) => overlay,
        Err(e) => panic!("{}", e.message()),
    }
}

fn refusal(file: Vec<u8>) -> OverlayError {
    match Overlay::open(file) {
        Ok(_) => panic!("expected a refusal"),
        Err(e) => e,
    }
}

fn a_wrong_magic_is_refused() {
    let mut data = vec![0u8; HEADER_LEN];
    data[..4].copy_from_slice(b"XXXX");
    let msg = refusal(data).message();
    assert!(msg.contains("magic"), "error should mention magic: {msg}");
}

#[test]
fn overlay_open_wrong_magic_returns_err() {
    a_wrong_magic_is_refused();
}

#[test]
fn tests_open_wrong_magic_returns_err() {
    a_wrong_magic_is_refused();
}

fn short_inputs_propose_nothing() {
    let mut trig = BTreeMap::new();
    let bm: RoaringBitmap = std::iter::once(0u32).collect();
    trig.insert(*b"abc", bitmap_bytes(&bm));
    let overlay = open(framed(&trigram_blobs(&trig, 1)));

    assert!(overlay.name_substring_candidates("ab").is_none());
    assert!(overlay.name_substring_candidates("").is_none());
}

#[test]
fn overlay_substring_candidates_none_for_short_input() {
    short_inputs_propose_nothing();
}

#[test]
fn tests_substring_candidates_none_for_short_input() {
    short_inputs_propose_nothing();
}

fn trigrams_intersect_and_miss() {
    let rows: RoaringBitmap = [0u32, 2].iter().copied().collect();
    let mut trig = BTreeMap::new();
    for t in [*b"alp", *b"lph", *b"pha"] {
        trig.insert(t, bitmap_bytes(&rows));
    }
    let overlay = open(framed(&trigram_blobs(&trig, 3)));

    let got = overlay.name_substring_candidates("alp").expect("some");
    assert_eq!(got.iter().collect::<Vec<_>>(), vec![0u32, 2]);

    let got = overlay.name_substring_candidates("alpha").expect("some");
    assert_eq!(got.iter().collect::<Vec<_>>(), vec![0u32, 2]);

    // ASCII case does not count.
    let got = overlay.name_substring_candidates("ALP").expect("some");
    assert_eq!(got.iter().collect::<Vec<_>>(), vec![0u32, 2]);

    // A trigram that is not listed.
    let got = overlay.name_substring_candidates("zzz").expect("some");
    assert!(got.is_empty());
}

#[test]
fn overlay_substring_candidates_intersects_and_misses() {
    trigrams_intersect_and_miss();
}

#[test]
fn tests_substring_candidates_intersects_and_misses() {
    trigrams_intersect_and_miss();
}

#[test]
fn trigrams_narrow_to_the_rows_that_hold_them_all() {
    let mut trig = BTreeMap::new();
    for (t, rows) in [(*b"abc", [0u32, 1, 2]), (*b"bcd", [1, 2, 3]), (*b"cde", [2, 3, 4])] {
        let rows: RoaringBitmap = rows.iter().copied().collect();
        trig.insert(t, bitmap_bytes(&rows));
    }
    let overlay = open(framed(&trigram_blobs(&trig, 5)));
    let got = overlay.name_substring_candidates("abcd").expect("some");
    assert_eq!(got.iter().collect::<Vec<_>>(), vec![1, 2]);
    let got = overlay.name_substring_candidates("abcde").expect("some");
    assert_eq!(got.iter().collect::<Vec<_>>(), vec![2]);
}

/// The blobs of an index without rows.
fn bare() -> Vec<Vec<u8>> {
    trigram_blobs(&BTreeMap::new(), 0)
}

#[test]
fn an_empty_index_opens() {
    let overlay = open(framed(&bare()));
    assert_eq!(overlay.row_count(), 0);
    assert!(overlay.segments().is_empty());
    assert!(overlay.lookup_name_bitmap("alpha").is_empty());
    assert!(overlay.prefilter_kind("function").is_none());
    assert_eq!(overlay.usage_count("alpha"), 0);
}

#[test]
fn every_fault_of_an_index_file_is_told() {
    assert_eq!(refusal(vec![0; 10]), OverlayError::TooShort);

    let mut file = framed(&bare());
    file[4] = 11;
    assert_eq!(refusal(file), OverlayError::SchemaMismatch { got: 11 });

    let file = framed(&bare());
    assert!(matches!(refusal(file[..100].to_vec()), OverlayError::TocTruncated { .. }));

    let mut file = framed(&bare());
    file[24] = b'X';
    assert_eq!(refusal(file), OverlayError::MissingBlob { blob: 0 });

    let mut blobs = bare();
    blobs[0] = vec![0; 7];
    assert_eq!(refusal(framed(&blobs)), OverlayError::BadBlobSize { blob: 0 });

    let mut blobs = bare();
    blobs[9] = vec![0; 4];
    assert_eq!(refusal(framed(&blobs)), OverlayError::CountMismatch { segments: 0, files: 1 });

    let mut blobs = bare();
    blobs[5] = vec![1, 2, 3];
    assert_eq!(refusal(framed(&blobs)), OverlayError::NameIndexCorrupt);

    let mut blobs = bare();
    blobs[12] = vec![1, 2, 3];
    assert_eq!(refusal(framed(&blobs)), OverlayError::UsageIndexCorrupt);

    let mut blobs = bare();
    let mut record = vec![0u8; 20];
    record[16] = 9;
    blobs[7] = record;
    blobs[9] = vec![0; 4];
    assert_eq!(refusal(framed(&blobs)), OverlayError::StringOutOfBounds);

    let mut blobs = bare();
    let mut record = vec![0u8; 20];
    record[16] = 1;
    blobs[7] = record.clone();
    blobs[8] = vec![0xFF];
    blobs[9] = vec![0; 4];
    assert_eq!(refusal(framed(&blobs)), OverlayError::PathNotUtf8);

    record[16] = 0;
    record[18] = 1;
    blobs[7] = record;
    assert_eq!(refusal(framed(&blobs)), OverlayError::ContentIdNotUtf8);

    let mut blobs = bare();
    blobs[12] = vec![7; 40];
    let file = framed(&blobs);
    let cut = file.len() - 1;
    assert!(matches!(refusal(file[..cut].to_vec()), OverlayError::Truncated { .. }));
}

#[test]
fn a_blob_off_its_alignment_is_refused() {
    let mut file = framed(&bare());
    // The row table is empty and may lie anywhere; put it at an odd offset.
    let at = u32::from_le_bytes([file[80], file[81], file[82], file[83]]) + 1;
    file[80..84].copy_from_slice(&at.to_le_bytes());
    assert_eq!(refusal(file), OverlayError::Misaligned { blob: 0 });
}

#[test]
fn a_checksum_that_does_not_hold_is_refused() {
    let mut names = fst::MapBuilder::memory();
    names.insert("alpha", 0).unwrap();
    names.insert("beta", 1).unwrap();
    let mut bytes = names.into_inner().unwrap();
    let middle = bytes.len() / 2;
    bytes[middle] ^= 0x10;
    let mut blobs = bare();
    blobs[5] = bytes;
    assert_eq!(refusal(framed(&blobs)), OverlayError::NameIndexCorrupt);
}

/// An index of names with numbers.
fn index_of(entries: &[(&str, u64)]) -> Vec<u8> {
    let mut map = fst::MapBuilder::memory();
    for (name, number) in entries {
        map.insert(name, *number).unwrap();
    }
    map.into_inner().unwrap()
}

/// An overlay whose usage counts are these bytes.
fn counting(usages: Vec<u8>) -> Vec<u8> {
    let mut blobs = bare();
    blobs[12] = usages;
    framed(&blobs)
}

/// An overlay whose names are these bytes, in the format that carries no checksum.
fn naming(mut names: Vec<u8>) -> Vec<u8> {
    names[0] = 2;
    names.truncate(names.len() - 4);
    let mut blobs = bare();
    blobs[5] = names;
    framed(&blobs)
}

#[test]
fn a_usage_index_is_read_whatever_its_checksum_says() {
    let mut bytes = index_of(&[("alpha", 3), ("beta", 70000)]);
    assert_eq!(open(counting(bytes.clone())).usage_count("beta"), 70000);
    let last = bytes.len() - 1;
    bytes[last] ^= 1;
    let overlay = open(counting(bytes));
    assert_eq!(overlay.usage_count("alpha"), 3);
    assert_eq!(overlay.usage_count("beta"), 70000);
    assert_eq!(overlay.usage_count("gamma"), 0);
}

#[test]
fn an_index_of_a_format_without_a_checksum_is_read() {
    let mut bytes = index_of(&[("alpha", 3), ("beta", 4)]);
    bytes[0] = 2;
    bytes.truncate(bytes.len() - 4);
    assert_eq!(open(counting(bytes.clone())).usage_count("beta"), 4);
    let mut blobs = bare();
    blobs[5] = bytes;
    assert!(Overlay::open(framed(&blobs)).is_ok());
}

#[test]
fn a_root_outside_the_file_is_refused() {
    let mut bytes = index_of(&[("alpha", 3)]);
    let at = bytes.len() - 12;
    bytes[at..at + 8].copy_from_slice(&1_000_000_000u64.to_le_bytes());
    assert_eq!(refusal(naming(bytes.clone())), OverlayError::NameIndexCorrupt);
    assert_eq!(open(counting(bytes)).usage_count("alpha"), 0);
    let mut bare_bytes = vec![0u8; 40];
    bare_bytes[0] = 3;
    bare_bytes[28..36].copy_from_slice(&1_000_000_000u64.to_le_bytes());
    assert_eq!(open(counting(bare_bytes)).usage_count("alpha"), 0);
}

#[test]
fn a_node_that_runs_out_of_the_file_is_refused() {
    // The state byte and the sizes claim more transitions than there are bytes below.
    let mut bytes = index_of(&[("alpha", 3)]);
    let at = bytes.len() - 12;
    bytes[at..at + 8].copy_from_slice(&2u64.to_le_bytes());
    bytes[2] = 63;
    bytes[1] = 0x88;
    assert_eq!(refusal(naming(bytes)), OverlayError::NameIndexCorrupt);
}

fn many() -> Vec<(String, u64)> {
    (0..60u8).map(|i| (((b'A' + i) as char).to_string(), u64::from(i) * 1000)).collect()
}

#[test]
fn a_node_with_a_table_is_read_while_the_table_agrees() {
    let names = many();
    let entries: Vec<(&str, u64)> = names.iter().map(|(n, v)| (n.as_str(), *v)).collect();
    let bytes = index_of(&entries);
    let overlay = open(counting(bytes.clone()));
    for (name, number) in &entries {
        assert_eq!(overlay.usage_count(name), *number, "{name}");
    }
    // The table stands just below the root's sizes and its number of transitions.
    let root = bytes.len() - 21;
    let table = root - 1 - 256;
    let mut wrong = bytes.clone();
    wrong[table + usize::from(b'C')] = 7;
    assert_eq!(refusal(naming(wrong.clone())), OverlayError::NameIndexCorrupt);
    assert_eq!(open(counting(wrong)).usage_count("D"), 3000);
    let mut wrong = bytes;
    wrong[table + usize::from(b'!')] = 0;
    assert_eq!(refusal(naming(wrong.clone())), OverlayError::NameIndexCorrupt);
    assert_eq!(open(counting(wrong)).usage_count("D"), 3000);
}

#[test]
fn a_usage_index_is_served_though_some_of_its_nodes_are_unsound() {
    let bytes = index_of(&[("a", u64::MAX), ("ab", 5), ("c", 9)]);
    let whole = open(counting(bytes.clone()));
    assert_eq!((whole.usage_count("a"), whole.usage_count("c")), (u64::MAX, 9));
    let five = (0..bytes.len() - 21).rev().find(|&i| bytes[i] == 5).expect("the shared output");
    let mut wrong = bytes;
    wrong[five] = 6;
    let overlay = open(counting(wrong));
    assert_eq!(overlay.usage_count("a"), 0);
    assert_eq!(overlay.usage_count("c"), 9);
    assert_eq!(overlay.usage_count("d"), 0);
}

#[test]
fn inputs_out_of_order_are_refused() {
    let bytes = index_of(&[("a", 1), ("b", 2)]);
    // The root: sizes and state on top, the inputs below, the last one lowest.
    let root = bytes.len() - 21;
    assert_eq!(&bytes[root - 3..root - 1], b"ba");
    let mut wrong = bytes;
    wrong.swap(root - 3, root - 2);
    assert_eq!(refusal(naming(wrong.clone())), OverlayError::NameIndexCorrupt);
    assert_eq!(open(counting(wrong)).usage_count("c"), 0);
}

#[test]
fn values_past_64_bits_are_refused() {
    let bytes = index_of(&[("a", u64::MAX), ("ab", 5)]);
    let overlay = open(counting(bytes.clone()));
    assert_eq!(overlay.usage_count("a"), u64::MAX);
    assert_eq!(overlay.usage_count("ab"), 5);
    // The root adds 5 to both; what is left of the larger one becomes too large.
    let root = bytes.len() - 21;
    let five = (0..root).rev().find(|&i| bytes[i] == 5).expect("the shared output");
    let mut wrong = bytes;
    wrong[five] = 6;
    assert_eq!(refusal(naming(wrong.clone())), OverlayError::NameIndexCorrupt);
    let overlay = open(counting(wrong));
    assert_eq!(overlay.usage_count("a"), 0);
    assert_eq!(overlay.usage_count("ab"), 6);
}

#[test]
fn every_key_of_a_large_index_is_read() {
    let names: Vec<String> = (0..3000).map(|i| format!("name_{i:05}_{}", i * 7 % 13)).collect();
    let entries: Vec<(&str, u64)> =
        names.iter().enumerate().map(|(i, n)| (n.as_str(), (i as u64) << (i % 50))).collect();
    let overlay = open(counting(index_of(&entries)));
    for (name, number) in entries {
        assert_eq!(overlay.usage_count(name), number, "{name}");
    }
}

#[test]
fn a_table_of_contents_is_read_by_name() {
    let span = |n: u64| Span { start: n, end: n + 1 };
    let entry = |name: &str, n: u64| TocEntry { name: name.as_bytes().to_vec(), span: span(n) };
    let mut toc: Vec<TocEntry> = (0..13).map(|k| entry(blob_name_text(k), k as u64)).collect();
    let plain = find_blob_ranges(&toc).ok().expect("all are listed");
    assert_eq!(plain, (0..13).map(span).collect::<Vec<_>>());
    toc.reverse();
    toc.insert(5, entry("another", 99));
    assert_eq!(find_blob_ranges(&toc).ok(), Some(plain));
    toc.retain(|e| e.name != b"name_fst");
    assert_eq!(find_blob_ranges(&toc).err(), Some(OverlayError::MissingBlob { blob: 5 }));
}
