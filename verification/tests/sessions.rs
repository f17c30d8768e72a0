//! A session's edits, the record they are kept in, and the manifest a commit leaves.

use forgeql_storage::build_context::{
    ColumnarBuildContext, EmitStep, InlineCtxState, ENRICH_VER,
};
use forgeql_storage::chain_manifest::{
    ChainEntry, ChainLoadError, ChainManifest, CHAIN_FORMAT_VERSION,
};
use forgeql_storage::clauses::Clauses;
use forgeql_storage::delta_file::{
    orphaned_staging, staged_segment_file_name, DeltaFile, DeltaLoadError, StagedEntry,
    DELTA_FORMAT_VERSION,
};
use forgeql_storage::dirty_overlay::DirtyOverlay;
use forgeql_storage::segment::SegmentReader;
use forgeql_storage::segment_builder::{SegmentBuilder, SymbolRow, SymbolTable, TableRow};
use std::sync::Arc;

fn segment(id: u8, name: &str) -> SegmentReader {
    let mut b = SegmentBuilder::new("test", &[id; 20]);
    b.emit_row(SymbolRow {
        name,
        fql_kind: "function",
        language: "rust",
        line: 1,
        byte_start: 0,
        byte_end: 10,
        usages_count: 0,
    });
    b.finish()
}

#[test]
fn empty_overlay_is_empty() {
    let d = DirtyOverlay::new();
    assert!(d.is_empty());
    assert!(!d.shadows("abc123"));
    assert!(d.materialize_all(&Clauses::default()).is_empty());
}

#[test]
fn remove_hex_shadows_correctly() {
    let mut d = DirtyOverlay::new();
    assert!(!d.shadows("deadbeef"));
    d.remove_hex("deadbeef".to_owned());
    assert!(d.shadows("deadbeef"));
    assert!(!d.shadows("cafebabe"));
    assert!(!d.is_empty());
}

#[test]
fn remove_stale_for_unknown_path_returns_none() {
    let mut d = DirtyOverlay::new();
    assert!(d.remove_stale_for_path("no/such/file.cpp").is_none());
}

#[test]
fn a_restaged_file_hands_back_what_it_replaced() {
    let mut d = DirtyOverlay::new();
    d.add_segment(Arc::new(segment(1, "a")), "src/a.rs".to_owned(), "beef".to_owned());
    assert!(d.shadows("beef"));
    assert_eq!(d.remove_stale_for_path("src/a.rs"), Some("beef".to_owned()));
    assert!(d.added.is_empty());
    assert_eq!(d.lookup_name_results("a", &Clauses::default()).len(), 0);
}

#[test]
fn edited_rows_are_found_by_name() {
    let mut d = DirtyOverlay::new();
    d.add_segment(Arc::new(segment(1, "alpha")), "src/a.rs".to_owned(), String::new());
    d.add_segment(Arc::new(segment(2, "beta")), "src/b.rs".to_owned(), String::new());
    let rows = d.lookup_name_results("beta", &Clauses::default());
    assert_eq!(rows.len(), 1);
    assert_eq!(rows[0].path.as_deref(), Some("src/b.rs"));
    assert_eq!(d.materialize_all(&Clauses::default()).len(), 2);
    assert_eq!(d.staged_hex_ids(), vec!["01".repeat(20), "02".repeat(20)]);
}

// ───────────────────────────── the session's record ─────────────────────────────

fn entry(path: &str, hex: &str, replaces: &str) -> StagedEntry {
    StagedEntry {
        hex_content_id: hex.to_string(),
        source_path: path.to_owned(),
        replaces_hex: replaces.to_string(),
    }
}

fn reread(file: &DeltaFile) -> Result<DeltaFile, DeltaLoadError> {
    DeltaFile::decode(&file.encode().expect("encodes"))
}

#[test]
fn previous_generation_delta_queues_all_staged_paths_for_reindex() {
    let file = DeltaFile {
        version: DELTA_FORMAT_VERSION,
        enrich_ver: ENRICH_VER - 1,
        staged: vec![
            entry("src/a.rs", "aaaa", "beef"),
            entry("src/b.rs", "bbbb", ""),
        ],
        removed_paths: vec!["src/deleted.rs".to_owned()],
        added_paths: vec!["build.conf".to_owned()],
    };
    let (dirty, needs) = reread(&file).ok().expect("loads").restore(&vec![]);
    assert!(dirty.added.is_empty());
    assert!(dirty.removed_paths.contains(&"src/deleted.rs".to_owned()));
    assert!(dirty.added_paths.contains(&"build.conf".to_owned()));
    assert_eq!(needs, vec!["src/a.rs", "src/b.rs"]);
}

#[test]
fn missing_staging_segment_queues_its_path_for_reindex() {
    let file = DeltaFile {
        version: DELTA_FORMAT_VERSION,
        enrich_ver: ENRICH_VER,
        staged: vec![entry("src/gone.rs", "cccc", "beef")],
        removed_paths: vec![],
        added_paths: vec![],
    };
    let (dirty, needs) = reread(&file).ok().expect("loads").restore(&vec![None]);
    assert!(dirty.added.is_empty());
    assert_eq!(needs, vec!["src/gone.rs"]);
}

#[test]
fn older_format_version_is_refused() {
    let file = DeltaFile {
        version: DELTA_FORMAT_VERSION - 1,
        enrich_ver: ENRICH_VER,
        staged: vec![],
        removed_paths: vec![],
        added_paths: vec![],
    };
    assert!(reread(&file).is_err());
}

#[test]
fn a_delta_from_the_previous_layout_is_refused_by_version_not_by_eof() {
    // A record without the list of touched files.
    let old: (u32, u32, Vec<(String, String, String)>, Vec<String>) = (
        DELTA_FORMAT_VERSION - 1,
        ENRICH_VER,
        vec![("aaaa".to_owned(), "src/a.rs".to_owned(), String::new())],
        vec!["src/deleted.rs".to_owned()],
    );
    let bytes = bincode::serialize(&old).unwrap();
    let Err(err) = DeltaFile::decode(&bytes) else {
        panic!("a previous layout must not load");
    };
    let err = err.message(".forgeql-columnar-delta");
    assert!(err.contains("format version"), "{err}");
}

#[test]
fn previous_generation_delta_has_no_valid_segment_names() {
    let file = DeltaFile {
        version: DELTA_FORMAT_VERSION,
        enrich_ver: ENRICH_VER - 1,
        staged: vec![entry("src/a.rs", "aaaa", "")],
        removed_paths: vec![],
        added_paths: vec![],
    };
    assert!(reread(&file).ok().expect("loads").valid_segment_names().is_empty());
}

#[test]
fn a_record_restores_the_session_it_was_made_of() {
    let mut d = DirtyOverlay::new();
    let reader = Arc::new(segment(7, "alpha"));
    d.add_segment(Arc::clone(&reader), "src/a.rs".to_owned(), "beef".to_owned());
    d.hide_path("src/gone.rs".to_owned());
    d.touch_path("notes.txt".to_owned());

    let file = DeltaFile::of_session(&d);
    assert_eq!(file.staged.len(), 1);
    assert_eq!(file.staged[0].hex_content_id, "07".repeat(20));
    let (back, needs) =
        reread(&file).ok().expect("loads").restore(&vec![Some(Arc::clone(&reader))]);
    assert!(needs.is_empty());
    assert_eq!(back.added.len(), 1);
    assert_eq!(back.added[0].source_path, "src/a.rs");
    assert_eq!(back.added[0].replaces_hex, "beef");
    assert!(back.removed_paths.contains(&"src/a.rs".to_owned()), "a replaced file is hidden by path");
    assert!(back.removed_paths.contains(&"src/gone.rs".to_owned()));
    assert_eq!(back.removed_paths.len(), 2);
    assert_eq!(back.added_paths, d.added_paths);
}

#[test]
fn a_cut_record_is_refused() {
    let file = DeltaFile::of_session(&DirtyOverlay::new());
    let bytes = file.encode().unwrap();
    assert!(matches!(DeltaFile::decode(&bytes[..3]), Err(DeltaLoadError::Unreadable)));
    assert!(matches!(DeltaFile::decode(&bytes[..10]), Err(DeltaLoadError::Undecodable)));
    assert_eq!(
        DeltaLoadError::WrongVersion { got: 3 }.message("d"),
        "columnar delta at d has format version 3 (expected 4)"
    );
    assert_eq!(DeltaLoadError::Unreadable.message("d"), "columnar delta at d is unreadable");
    assert_eq!(DeltaLoadError::Undecodable.message("d"), "columnar delta at d does not decode");
}

#[test]
fn staged_files_that_no_record_names_are_orphans() {
    let file = DeltaFile {
        version: DELTA_FORMAT_VERSION,
        enrich_ver: ENRICH_VER,
        staged: vec![entry("src/a.rs", "aaaa", "")],
        removed_paths: vec![],
        added_paths: vec![],
    };
    let valid = file.valid_segment_names();
    assert_eq!(valid, vec![staged_segment_file_name("src/a.rs", "aaaa")]);
    assert_ne!(
        staged_segment_file_name("src/a.rs", "aaaa"),
        staged_segment_file_name("src/b.rs", "aaaa"),
        "two files with the same bytes have staged files of their own"
    );
    let found = vec![valid[0].clone(), "stray.fqsf".to_owned()];
    assert_eq!(orphaned_staging(&found, &valid), vec!["stray.fqsf"]);
}

// ───────────────────────────── chain manifests ─────────────────────────────

fn sample() -> ChainManifest {
    ChainManifest {
        version: CHAIN_FORMAT_VERSION,
        enrich_ver: ENRICH_VER,
        master_commit: "abc123".to_owned(),
        entries: vec![ChainEntry {
            source_path: "src/a.rs".to_owned(),
            hex_content_id: "deadbeef".to_owned(),
            replaces_hex: "cafebabe".to_owned(),
        }],
        removed_paths: vec!["src/a.rs".to_owned(), "src/gone.rs".to_owned()],
        added_paths: vec!["assets/logo.png".to_owned()],
    }
}

#[test]
fn round_trips_through_disk() {
    let file = sample().encode().expect("encodes");
    assert_eq!(&file[..4], b"FQCM");
    let back = ChainManifest::decode(&file).ok().expect("decodes");
    assert_eq!(back.master_commit, "abc123");
    assert_eq!(back.entries.len(), 1);
    assert_eq!(back.entries[0].replaces_hex, "cafebabe");
    assert_eq!(back.removed_paths.len(), 2);
    assert_eq!(back.added_paths.len(), 1);
}

#[test]
fn wrong_magic_is_refused_not_decoded() {
    let Err(err) = ChainManifest::decode(b"NOPE----junk") else {
        panic!("not a manifest");
    };
    let err = err.message("c.chain");
    assert!(err.contains("FQCM"), "{err}");
}

#[test]
fn a_newer_format_version_is_refused_by_number() {
    let mut m = sample();
    m.version = CHAIN_FORMAT_VERSION + 1;
    let Err(err) = ChainManifest::decode(&m.encode().unwrap()) else {
        panic!("a newer layout must not load");
    };
    let err = err.message("c.chain");
    assert!(err.contains("format version") && err.contains("expected"), "{err}");
}

#[test]
fn a_truncated_file_is_an_error_not_a_partial_manifest() {
    let bytes = sample().encode().unwrap();
    assert!(ChainManifest::decode(&bytes[..bytes.len() / 2]).is_err());
}

#[test]
fn every_fault_of_a_manifest_file_is_told() {
    let bytes = sample().encode().unwrap();
    assert!(matches!(ChainManifest::decode(&bytes[..6]), Err(ChainLoadError::Unreadable)));
    assert!(matches!(
        ChainManifest::decode(&bytes[..bytes.len() - 1]),
        Err(ChainLoadError::Undecodable)
    ));
    assert_eq!(
        ChainLoadError::BadMagic.message("c"),
        "chain manifest at c does not start with FQCM"
    );
    assert_eq!(ChainLoadError::Unreadable.message("c"), "chain manifest at c is unreadable");
    assert_eq!(
        ChainLoadError::WrongVersion { got: 2 }.message("c"),
        "chain manifest at c has format version 2 (expected 1)"
    );
    assert_eq!(
        ChainLoadError::Undecodable.message("c"),
        "chain manifest at c claims format version 1 but does not decode as one"
    );
}

#[test]
fn a_manifest_of_a_session_names_its_edits() {
    let mut d = DirtyOverlay::new();
    d.add_segment(Arc::new(segment(9, "b")), "src/b.rs".to_owned(), "beef".to_owned());
    d.hide_path("src/gone.rs".to_owned());
    d.hide_path("src/a.rs".to_owned());
    let m = ChainManifest::from_dirty("abc", &d);
    assert_eq!(m.master_commit, "abc");
    assert_eq!(m.entries.len(), 1);
    assert_eq!(m.entries[0].hex_content_id, "09".repeat(20));
    assert!(m.removed_paths.contains(&"src/a.rs".to_owned()));
    assert!(m.removed_paths.contains(&"src/gone.rs".to_owned()));
}

// ───────────────────────────── building segments ─────────────────────────────

fn table_row(name: &str, kind: &str, line: usize, ordinal: u32, parent: u32) -> TableRow {
    TableRow {
        name: name.to_owned(),
        fql_kind: kind.to_owned(),
        language: "markdown".to_owned(),
        path: "doc.md".to_owned(),
        line,
        byte_start: if ordinal == 0 { 0 } else { 9 },
        byte_end: if ordinal == 0 { 7 } else { 19 },
        usages_count: 0,
        ordinal: Some(ordinal),
        parent_ordinal: parent,
        rev: 0,
        fields: vec![],
    }
}

#[test]
fn inline_emit_persists_parent_ordinal() {
    let table = SymbolTable {
        rows: vec![
            table_row("Title", "section", 1, 0, u32::MAX),
            table_row("Section", "heading", 3, 1, 0),
        ],
    };
    let ctx = ColumnarBuildContext::new(
        "segments".to_owned(),
        "overlays".to_owned(),
        "test".to_owned(),
    );
    let mut state = InlineCtxState::new();
    let content_id: Vec<u8> = vec![0x42; 8];

    let step = ctx.register_emit(&mut state, &content_id, &table, 0);
    let EmitStep::Segment(path) = step else {
        panic!("the table holds rows of the file");
    };
    assert!(path.starts_with(&format!("segments/test-v{ENRICH_VER}/")), "{path}");
    let reader = ctx.emit_segment(&content_id, &table, 0).finish();

    let mut checked = false;
    for row in &reader.rows {
        if row.ordinal == Some(1) {
            assert_eq!(row.parent_ordinal, 0);
            checked = true;
        }
    }
    assert!(checked, "heading row (ordinal 1) present in segment");
    assert_eq!(reader.rows[0].first_child_ordinal, 1);
    assert_eq!(state.segment_map, vec![("doc.md".to_owned(), content_id)]);
}
