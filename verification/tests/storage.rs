//! Queries against an index of several files, and a session's edits over it.

use forgeql_storage::build_context::{ColumnarBuildContext, ENRICH_VER};
use forgeql_storage::chain_derive::derive_upstream_manifest;
use forgeql_storage::chain_manifest::{ChainEntry, ChainManifest, CHAIN_FORMAT_VERSION};
use forgeql_storage::clauses::{
    Clauses, CompareOp, GroupBy, OrderBy, Predicate, PredicateValue, SortDirection,
};
use forgeql_storage::columnar_storage::attach::{
    open_segments_from_overlay, Attach, AttachOutcome, AttachPhase, BuildPlan, BuildSources,
    ChainOpen, IncompleteIndex, OverlayOpen, SegmentFault,
};
use forgeql_storage::columnar_storage::budgets::{
    find_max_row_ids, find_max_rows, find_max_views, FindBounds, FindRefusal,
};
use forgeql_storage::columnar_storage::chain::{
    begin_derived_attach, check_manifest, ChainFault, DerivePhase,
};
use forgeql_storage::columnar_storage::commit::{DeltaRead, PromoteStep};
use forgeql_storage::columnar_storage::delivery::FindPage;
use forgeql_storage::columnar_storage::node_find::{NodeLookup, PathLookup};
use forgeql_storage::columnar_storage::refusals::FieldRefusal;
use forgeql_storage::columnar_storage::reindex::{FileState, ReindexTask};
use forgeql_storage::columnar_storage::symbols::FindError;
use forgeql_storage::columnar_storage::usages::FileRead;
use forgeql_storage::columnar_storage::ColumnarStorage;
use forgeql_storage::digest::git_blob_sha1;
use forgeql_storage::fields::is_posting_field;
use forgeql_storage::node_id::make_node_id;
use forgeql_storage::overlay::Overlay;
use forgeql_storage::segment::SegmentReader;
use forgeql_storage::segment_builder::{link_nodes, NavNode, SegmentBuilder, SymbolRow};
use roaring::RoaringBitmap;
use std::collections::{BTreeMap, HashSet};
use std::sync::Arc;

/// The bytes of an index file made of its thirteen blobs.
fn framed(blobs: &[Vec<u8>]) -> Vec<u8> {
    let names = [
        "row_table",
        "kind_strings",
        "kind_index",
        "bitmap_data",
        "trigram_index",
        "name_fst",
        "name_postings",
        "segments",
        "segment_strings",
        "index_files",
        "enrich_bitmaps",
        "file_entries",
        "usages_count_fst",
    ];
    let mut file = Vec::new();
    file.extend_from_slice(b"FQOV");
    file.extend_from_slice(&12u32.to_le_bytes());
    file.extend_from_slice(&1u64.to_le_bytes());
    file.extend_from_slice(&(names.len() as u32).to_le_bytes());
    file.extend_from_slice(&0u32.to_le_bytes());
    let mut at = 24 + 64 * names.len();
    for (name, blob) in names.iter().zip(blobs) {
        at = (at + 7) / 8 * 8;
        let mut entry = name.as_bytes().to_vec();
        entry.resize(56, 0);
        file.extend_from_slice(&entry);
        file.extend_from_slice(&(at as u32).to_le_bytes());
        file.extend_from_slice(&(blob.len() as u32).to_le_bytes());
        at += blob.len();
    }
    for blob in blobs {
        while file.len() % 8 != 0 {
            file.push(0);
        }
        file.extend_from_slice(blob);
    }
    file
}

/// Bitmaps under sorted keys: a blob of them, and for each key where its own lies.
fn placed(bitmaps: &BTreeMap<Vec<u8>, RoaringBitmap>, data: &mut Vec<u8>) -> Vec<(u32, u32)> {
    bitmaps
        .values()
        .map(|rows| {
            let at = data.len() as u32;
            rows.serialize_into(&mut *data).unwrap();
            (at, data.len() as u32 - at)
        })
        .collect()
}

fn push32(out: &mut Vec<u8>, n: u32) {
    out.extend_from_slice(&n.to_le_bytes());
}

/// The bytes of the index of segments, which are given in path order.
fn index_bytes(
    files: &[(&str, &SegmentReader)],
    uses: &[(&str, u64)],
    unindexed: &[(&str, u32)],
) -> Vec<u8> {
    let mut blobs = vec![Vec::new(); 13];
    let mut kinds: BTreeMap<Vec<u8>, RoaringBitmap> = BTreeMap::new();
    let mut trigrams: BTreeMap<Vec<u8>, RoaringBitmap> = BTreeMap::new();
    let mut names: BTreeMap<Vec<u8>, Vec<u32>> = BTreeMap::new();
    let mut enrich: BTreeMap<Vec<u8>, RoaringBitmap> = BTreeMap::new();
    let mut global = 0u32;
    for (at, (path, seg)) in files.iter().enumerate() {
        let mut seen = HashSet::new();
        for (row, r) in seg.rows.iter().enumerate() {
            push32(&mut blobs[0], at as u32);
            push32(&mut blobs[0], row as u32);
            if seen.insert((r.name.clone(), r.fql_kind.clone(), r.line)) {
                kinds.entry(r.fql_kind.clone().into_bytes()).or_default().insert(global);
                names.entry(r.name.clone().into_bytes()).or_default().push(global);
                for (field, value) in &r.extra {
                    if is_posting_field(field) {
                        let key = format!("{field}={value}").into_bytes();
                        enrich.entry(key).or_default().insert(global);
                    }
                }
            }
            for w in r.name.to_lowercase().as_bytes().windows(3) {
                trigrams.entry(w.to_vec()).or_default().insert(global);
            }
            global += 1;
        }
        let hex = seg.content_id_hex();
        push32(&mut blobs[7], seg.rows.len() as u32);
        let path_at = blobs[8].len() as u32;
        push32(&mut blobs[7], path_at);
        push32(&mut blobs[7], path_at + path.len() as u32);
        push32(&mut blobs[7], seen.len() as u32);
        blobs[7].extend_from_slice(&(path.len() as u16).to_le_bytes());
        blobs[7].extend_from_slice(&(hex.len() as u16).to_le_bytes());
        blobs[8].extend_from_slice(path.as_bytes());
        blobs[8].extend_from_slice(hex.as_bytes());
        push32(&mut blobs[9], 100 + at as u32);
    }
    let mut data = Vec::new();
    for ((kind, _), (at, len)) in kinds.iter().zip(placed(&kinds, &mut data)) {
        let from = blobs[1].len() as u32;
        push32(&mut blobs[2], from);
        push32(&mut blobs[2], kind.len() as u32);
        push32(&mut blobs[2], at);
        push32(&mut blobs[2], len);
        blobs[1].extend_from_slice(kind);
    }
    for ((trigram, _), (at, len)) in trigrams.iter().zip(placed(&trigrams, &mut data)) {
        blobs[4].extend_from_slice(trigram);
        blobs[4].push(0);
        push32(&mut blobs[4], at);
        push32(&mut blobs[4], len);
    }
    blobs[3] = data;
    let mut map = fst::MapBuilder::memory();
    for (name, rows) in &names {
        map.insert(name, ((blobs[6].len() as u64) << 32) | rows.len() as u64).unwrap();
        for row in rows {
            push32(&mut blobs[6], *row);
        }
    }
    blobs[5] = map.into_inner().unwrap();
    let (mut entries, mut keys, mut bitmaps) = (Vec::new(), Vec::new(), Vec::new());
    for ((key, _), (at, len)) in enrich.iter().zip(placed(&enrich, &mut bitmaps)) {
        push32(&mut entries, keys.len() as u32);
        entries.extend_from_slice(&(key.len() as u16).to_le_bytes());
        entries.extend_from_slice(&[0, 0]);
        push32(&mut entries, at);
        push32(&mut entries, len);
        keys.extend_from_slice(key);
    }
    push32(&mut blobs[10], enrich.len() as u32);
    push32(&mut blobs[10], keys.len() as u32);
    blobs[10].extend_from_slice(&entries);
    blobs[10].extend_from_slice(&keys);
    blobs[10].extend_from_slice(&bitmaps);
    push32(&mut blobs[11], unindexed.len() as u32);
    for (path, size) in unindexed {
        push32(&mut blobs[11], *size);
        blobs[11].extend_from_slice(&(path.len() as u16).to_le_bytes());
        blobs[11].extend_from_slice(path.as_bytes());
    }
    let mut counts = fst::MapBuilder::memory();
    let sorted: BTreeMap<&str, u64> = uses.iter().copied().collect();
    for (name, n) in sorted {
        counts.insert(name, n).unwrap();
    }
    blobs[12] = counts.into_inner().unwrap();
    framed(&blobs)
}

/// A row: its name, kind, line, node number, parent's number and enrichment.
type Row<'a> = (&'a str, &'a str, u32, u32, u32, &'a [(&'a str, &'a str)]);

const TOP: u32 = u32::MAX;

fn segment(id: u8, rows: &[Row<'_>]) -> SegmentReader {
    let mut b = SegmentBuilder::new("test", &[id; 20]);
    let nodes: Vec<NavNode> = rows
        .iter()
        .map(|(_, _, _, ordinal, parent, _)| NavNode { ordinal: *ordinal, parent: *parent })
        .collect();
    let links = link_nodes(&nodes);
    for (at, (name, kind, line, ordinal, parent, fields)) in rows.iter().enumerate() {
        let row = b.emit_row(SymbolRow {
            name,
            fql_kind: kind,
            language: "rust",
            line: *line,
            byte_start: line * 10,
            byte_end: line * 10 + 9,
            usages_count: 0,
        });
        b.set_node(row, *ordinal, *parent, 7);
        b.set_links(row, links[at]);
        for (field, value) in fields.iter() {
            b.set_field(row, field, value);
        }
    }
    b.finish()
}

fn a_rs() -> SegmentReader {
    let mut seg = segment(
        0xA1,
        &[
            ("Engine", "struct", 1, 0, TOP, &[("naming", "PascalCase")]),
            ("start", "function", 3, 1, 0, &[("naming", "snake_case"), ("param_count", "2")]),
            ("stop_all", "function", 8, 2, 0, &[("naming", "snake_case"), ("param_count", "0")]),
        ],
    );
    seg.usages = vec![("helper".to_owned(), 4)];
    seg
}

fn b_rs() -> SegmentReader {
    let mut seg = segment(
        0xB2,
        &[
            ("helper", "function", 2, 0, TOP, &[("naming", "snake_case"), ("param_count", "1")]),
            ("start", "function", 9, 1, TOP, &[("naming", "snake_case"), ("param_count", "5")]),
        ],
    );
    seg.usages = vec![("start".to_owned(), 3), ("helper".to_owned(), 5)];
    seg
}

fn c_rs() -> SegmentReader {
    segment(
        0xC3,
        &[
            ("Config", "struct", 1, 0, TOP, &[("naming", "PascalCase")]),
            ("load", "function", 4, 1, 0, &[("naming", "snake_case"), ("param_count", "3")]),
        ],
    )
}

fn overlay_of(
    files: &[(&str, &SegmentReader)],
    uses: &[(&str, u64)],
    unindexed: &[(&str, u32)],
) -> Overlay {
    match Overlay::open(index_bytes(files, uses, unindexed)) {
        Ok(overlay) => overlay,
        Err(e) => panic!("{}", e.message()),
    }
}

fn store() -> ColumnarStorage {
    let (a, b, c) = (a_rs(), b_rs(), c_rs());
    let overlay = overlay_of(
        &[("lib/c.rs", &c), ("src/a.rs", &a), ("src/b.rs", &b)],
        &[("helper", 2), ("start", 1)],
        &[("README.md", 12)],
    );
    ColumnarStorage::new_unshared(
        "/work".to_owned(),
        vec![Arc::new(c), Arc::new(a), Arc::new(b)],
        overlay,
    )
}

const BOUNDS: FindBounds = FindBounds {
    rows: 1000,
    views: 1000,
    row_ids: 1000,
};

fn known() -> Vec<String> {
    vec!["naming".to_owned(), "param_count".to_owned()]
}

fn find(s: &ColumnarStorage, clauses: &Clauses) -> FindPage {
    match s.find_symbols(clauses, &known(), BOUNDS) {
        Ok(page) => page,
        Err(e) => panic!("{}", e.message()),
    }
}

fn names(page: &FindPage) -> Vec<&str> {
    page.rows.iter().map(|r| r.name.as_str()).collect()
}

fn found(page: &FindPage) -> Vec<(String, String)> {
    let mut all: Vec<(String, String)> = page
        .rows
        .iter()
        .map(|r| (r.path.clone().unwrap_or_default(), r.name.clone()))
        .collect();
    all.sort();
    all
}

fn is(field: &str, op: CompareOp, value: &str) -> Predicate {
    Predicate {
        field: field.to_owned(),
        op,
        value: PredicateValue::String(value.to_owned()),
    }
}

fn number(field: &str, op: CompareOp, value: i64) -> Predicate {
    Predicate {
        field: field.to_owned(),
        op,
        value: PredicateValue::Number(value),
    }
}

fn wanting(preds: Vec<Predicate>) -> Clauses {
    Clauses {
        where_predicates: preds,
        ..Default::default()
    }
}

fn pair(path: &str, name: &str) -> (String, String) {
    (path.to_owned(), name.to_owned())
}

// ───────────────────────────── finding symbols ─────────────────────────────

#[test]
fn every_row_is_found_without_a_clause() {
    let page = find(&store(), &Clauses::default());
    assert_eq!(page.total, 7);
    assert_eq!(
        found(&page),
        vec![
            pair("lib/c.rs", "Config"),
            pair("lib/c.rs", "load"),
            pair("src/a.rs", "Engine"),
            pair("src/a.rs", "start"),
            pair("src/a.rs", "stop_all"),
            pair("src/b.rs", "helper"),
            pair("src/b.rs", "start"),
        ]
    );
}

#[test]
fn each_operator_narrows_as_it_says() {
    let s = store();
    let cases: Vec<(Predicate, Vec<&str>)> = vec![
        (is("name", CompareOp::Eq, "start"), vec!["start", "start"]),
        (is("name", CompareOp::Like, "st%"), vec!["start", "stop_all", "start"]),
        (is("name", CompareOp::Like, "%top%"), vec!["stop_all"]),
        (is("name", CompareOp::Matches, "^(load|stop_.*)$"), vec!["load", "stop_all"]),
        (is("name", CompareOp::NotMatches, "[a-z]$"), vec![]),
        (is("fql_kind", CompareOp::Eq, "struct"), vec!["Config", "Engine"]),
        (is("fql_kind", CompareOp::NotEq, "function"), vec!["Config", "Engine"]),
        (is("naming", CompareOp::Eq, "PascalCase"), vec!["Config", "Engine"]),
        (is("naming", CompareOp::Like, "Pascal%"), vec!["Config", "Engine"]),
        (is("language", CompareOp::Eq, "c"), vec![]),
        (number("param_count", CompareOp::Gte, 3), vec!["load", "start"]),
        (number("line", CompareOp::Lt, 3), vec!["Config", "Engine", "helper"]),
        (is("path", CompareOp::Eq, "src/b.rs"), vec!["helper", "start"]),
    ];
    for (pred, want) in cases {
        let label = format!("{pred:?}");
        let page = find(&s, &wanting(vec![pred]));
        let got: Vec<String> = found(&page).into_iter().map(|(_, name)| name).collect();
        assert_eq!(got, want, "{label}");
        assert_eq!(page.total, want.len(), "{label}");
    }
}

#[test]
fn usages_are_stamped_before_they_are_tested() {
    let page = find(&store(), &wanting(vec![number("usages", CompareOp::Gte, 2)]));
    assert_eq!(names(&page), vec!["helper"]);
    assert_eq!(page.rows[0].usages_count, Some(2));
}

#[test]
fn a_page_is_the_head_of_the_order_whichever_way_it_is_reached() {
    let s = store();
    for (field, direction) in [
        ("line", SortDirection::Asc),
        ("line", SortDirection::Desc),
        ("param_count", SortDirection::Desc),
        ("name", SortDirection::Asc),
        ("name", SortDirection::Desc),
        ("usages", SortDirection::Desc),
    ] {
        let ordered = |limit: Option<usize>, offset: Option<usize>| Clauses {
            order_by: Some(OrderBy {
                field: field.to_owned(),
                direction,
            }),
            limit,
            offset,
            ..Default::default()
        };
        let all = find(&s, &ordered(None, None));
        assert_eq!(all.rows.len(), 7);
        for limit in 1..8 {
            let page = find(&s, &ordered(Some(limit), None));
            let want: Vec<_> = all.rows.iter().take(limit).map(|r| (&r.name, &r.path)).collect();
            let got: Vec<_> = page.rows.iter().map(|r| (&r.name, &r.path)).collect();
            assert_eq!(got, want, "{field} {direction:?} {limit}");
        }
        let page = find(&s, &ordered(Some(2), Some(3)));
        let want: Vec<_> = all.rows[3..5].iter().map(|r| (&r.name, &r.path)).collect();
        let got: Vec<_> = page.rows.iter().map(|r| (&r.name, &r.path)).collect();
        assert_eq!(got, want, "{field} {direction:?} offset");
    }
}

#[test]
fn a_scope_keeps_other_files_out() {
    let s = store();
    let page = find(
        &s,
        &Clauses {
            in_glob: Some("src".to_owned()),
            exclude_globs: vec!["src/b.rs".to_owned()],
            ..Default::default()
        },
    );
    assert_eq!(found(&page).len(), 3);
    assert!(page.rows.iter().all(|r| r.path.as_deref() == Some("src/a.rs")));
}

fn grouped(field: &str) -> Clauses {
    Clauses {
        group_by: Some(GroupBy::Field(field.to_owned())),
        ..Default::default()
    }
}

#[test]
fn groups_count_their_rows() {
    let s = store();
    let counts = |field: &str, by: fn(&forgeql_storage::segment::SymbolMatch) -> String| {
        let page = find(&s, &grouped(field));
        let mut all: Vec<(String, usize)> = page
            .rows
            .iter()
            .map(|r| (by(r), r.count.expect("a group has a count")))
            .collect();
        all.sort();
        all
    };
    assert_eq!(
        counts("fql_kind", |r| r.fql_kind.clone().unwrap_or_default()),
        vec![("function".to_owned(), 5), ("struct".to_owned(), 2)]
    );
    assert_eq!(
        counts("file", |r| r.path.clone().unwrap_or_default()),
        vec![
            ("lib/c.rs".to_owned(), 2),
            ("src/a.rs".to_owned(), 3),
            ("src/b.rs".to_owned(), 2)
        ]
    );
    assert_eq!(
        counts("naming", |r| {
            r.fields.iter().find(|(k, _)| k == "naming").map(|(_, v)| v.clone()).unwrap_or_default()
        }),
        vec![("PascalCase".to_owned(), 2), ("snake_case".to_owned(), 5)]
    );
}

#[test]
fn a_counted_group_is_the_group_of_the_scan() {
    let s = store();
    for field in ["fql_kind", "file"] {
        let fast = find(&s, &grouped(field));
        let slow = find(
            &s,
            &Clauses {
                where_predicates: vec![is("name", CompareOp::Like, "%")],
                ..grouped(field)
            },
        );
        let tell = |p: &FindPage| {
            let mut v: Vec<_> = p
                .rows
                .iter()
                .map(|r| {
                    let key = if field == "file" { r.path.clone() } else { r.fql_kind.clone() };
                    (key, r.count)
                })
                .collect();
            v.sort();
            v
        };
        assert_eq!(tell(&fast), tell(&slow), "{field}");
    }
}

#[test]
fn having_tests_the_groups() {
    let s = store();
    let page = find(
        &s,
        &Clauses {
            having_predicates: vec![number("count", CompareOp::Gte, 3)],
            ..grouped("fql_kind")
        },
    );
    assert_eq!(page.rows.len(), 1);
    assert_eq!(page.rows[0].count, Some(5));
}

#[test]
fn a_field_no_row_answers_is_refused() {
    let s = store();
    let refusal = |clauses: &Clauses| match s.find_symbols(clauses, &known(), BOUNDS) {
        Err(FindError::Field(refusal)) => refusal,
        _ => panic!("expected a refusal"),
    };
    let where_ = refusal(&wanting(vec![is("bogus", CompareOp::Eq, "x")]));
    assert!(matches!(&where_, FieldRefusal::Where(f) if f == "bogus"));
    assert!(where_.message().starts_with("unknown WHERE field 'bogus'"));
    let order = refusal(&Clauses {
        order_by: Some(OrderBy {
            field: "size".to_owned(),
            direction: SortDirection::Asc,
        }),
        ..Default::default()
    });
    assert!(matches!(&order, FieldRefusal::OrderBy(f) if f == "size"));
    assert!(order.message().contains("would tie"));
    let group = refusal(&grouped("line"));
    assert!(matches!(&group, FieldRefusal::GroupBy(f) if f == "line"));
    assert!(group.message().contains("cannot be answered"));
}

#[test]
fn a_scan_past_its_bounds_is_refused() {
    let s = store();
    let all = Clauses::default();
    let refused = |clauses: &Clauses, bounds: FindBounds| {
        match s.find_symbols(clauses, &known(), bounds) {
            Err(FindError::Bound(e)) => e,
            _ => panic!("expected a refusal"),
        }
    };
    let e = refused(&all, FindBounds { row_ids: 6, ..BOUNDS });
    assert!(matches!(e, FindRefusal::RowIds { candidates: 7, max: 6 }));
    assert!(e.message().starts_with("FIND matched 7 candidate rows, past the 6 "));
    let e = refused(&all, FindBounds { rows: 6, ..BOUNDS });
    assert!(matches!(e, FindRefusal::Built { max: 6 }));
    assert!(e.message().starts_with("FIND would build more than 6 result rows"));
    let page = Clauses {
        limit: Some(5),
        order_by: Some(OrderBy {
            field: "line".to_owned(),
            direction: SortDirection::Asc,
        }),
        ..Default::default()
    };
    let e = refused(&page, FindBounds { views: 3, ..BOUNDS });
    assert!(matches!(e, FindRefusal::Carried { max: 3 }));
    assert!(e.message().starts_with("FIND carried more than 3 matching rows"));
    let e = FindRefusal::Usages { sites: 9, max: 8 };
    assert!(e.message().starts_with("FIND usages holds 9 occurrence sites, past the 8-row"));
}

#[test]
fn the_bounds_read_their_settings() {
    assert_eq!(find_max_rows(None), 1342177);
    assert_eq!(find_max_views(None), 44739242);
    assert_eq!(find_max_row_ids(None), 536870912);
    assert_eq!(find_max_rows(Some("25")), 25);
    assert_eq!(find_max_rows(Some(" 25 ")), 25);
    assert_eq!(find_max_rows(Some("0")), usize::MAX);
    assert_eq!(find_max_rows(Some("many")), 1342177);
}

// ───────────────────────────── a session's edits ─────────────────────────────

/// Puts a new version of `src/a.rs` into the session.
fn edited() -> ColumnarStorage {
    let mut s = store();
    let start = s.begin_reindex("/work/src/a.rs");
    assert_eq!(start.rel_path, "src/a.rs");
    assert_eq!(start.replaces_hex, "a1".repeat(20));
    assert_eq!(start.hints.len(), 3);
    let task = s.reindex_task(&start, &FileState::Source(b"fn renamed() {}".to_vec()), "/st");
    assert!(matches!(task, ReindexTask::Stage { .. }));
    let mut fresh = segment(0xD4, &[("renamed", "function", 5, 0, TOP, &[])]);
    fresh.usages = vec![("start".to_owned(), 6)];
    s.finish_reindex(start, Arc::new(fresh));
    s
}

#[test]
fn an_edited_file_answers_from_the_session_alone() {
    let s = edited();
    let page = find(&s, &Clauses::default());
    assert_eq!(
        found(&page),
        vec![
            pair("lib/c.rs", "Config"),
            pair("lib/c.rs", "load"),
            pair("src/a.rs", "renamed"),
            pair("src/b.rs", "helper"),
            pair("src/b.rs", "start"),
        ]
    );
    let page = find(&s, &wanting(vec![is("name", CompareOp::Eq, "Engine")]));
    assert!(page.rows.is_empty());
}

#[test]
fn usage_counts_follow_the_edits() {
    let s = edited();
    // The old version used `helper` once; the new one uses `start` once.
    let page = find(&s, &wanting(vec![is("name", CompareOp::Eq, "helper")]));
    assert_eq!(page.rows[0].usages_count, Some(1));
    let page = find(&s, &wanting(vec![is("name", CompareOp::Eq, "start")]));
    assert_eq!(page.rows[0].usages_count, Some(2));
    let adjust = s.build_usage_adjust();
    assert!(s.adjust_is_current(&adjust));
    assert!(!store().adjust_is_current(&adjust));
}

#[test]
fn a_purged_file_is_gone() {
    let mut s = store();
    s.purge_file("/work/src/b.rs");
    let page = find(&s, &Clauses::default());
    assert_eq!(page.total, 5);
    assert!(page.rows.iter().all(|r| r.path.as_deref() != Some("src/b.rs")));
}

#[test]
fn a_file_no_language_claims_is_listed_by_its_path() {
    let mut s = store();
    let start = s.begin_reindex("/work/notes.txt");
    assert!(matches!(s.reindex_task(&start, &FileState::Unclaimed, "/st"), ReindexTask::Unclaimed));
    assert!(matches!(s.reindex_task(&start, &FileState::Missing, "/st"), ReindexTask::Gone));
    s.record_unclaimed(start);
    let files = s.indexed_files(&vec![], &vec![33]);
    let got: Vec<(&str, u64)> = files.iter().map(|f| (f.path.as_str(), f.size)).collect();
    assert!(got.contains(&("notes.txt", 33)), "{got:?}");
    assert!(got.contains(&("README.md", 12)), "{got:?}");
    assert!(got.contains(&("lib/c.rs", 100)), "{got:?}");
    assert_eq!(got.len(), 5);
}

#[test]
fn an_edited_file_is_listed_with_its_new_size() {
    let s = edited();
    let files = s.indexed_files(&vec![77], &vec![]);
    let sizes: Vec<u64> =
        files.iter().filter(|f| f.path == "src/a.rs").map(|f| f.size).collect();
    assert_eq!(sizes, vec![77]);
}

// ───────────────────────────── usages ─────────────────────────────

fn usage_lines(s: &ColumnarStorage, name: &str, reads: &[(&str, FileRead)]) -> Vec<(String, usize)> {
    let paths: Vec<String> = reads.iter().map(|(p, _)| (*p).to_owned()).collect();
    let mut files = Vec::new();
    for (_, read) in reads {
        files.push(match read {
            FileRead::Missing => FileRead::Missing,
            FileRead::Unreadable => FileRead::Unreadable,
            FileRead::Bytes(b) => FileRead::Bytes(b.clone()),
        });
    }
    let (scanned, settled, _) = s.literal_sites(name, &paths, &files);
    let page = s
        .find_usages(name, &Clauses::default(), &scanned, &settled, 100)
        .ok()
        .expect("within the bound");
    let mut all: Vec<(String, usize)> = page
        .rows
        .iter()
        .map(|r| (r.path.clone().unwrap(), r.line.unwrap()))
        .collect();
    all.sort();
    all
}

#[test]
fn a_read_file_settles_what_it_holds() {
    let s = store();
    let text = FileRead::Bytes(b"fn main() {\n    helper();\n}\n".to_vec());
    let got = usage_lines(&s, "helper", &[("src/b.rs", text)]);
    // `src/b.rs` was read, so its stale posting gives way; `src/a.rs` was not.
    assert_eq!(got, vec![("src/a.rs".to_owned(), 4), ("src/b.rs".to_owned(), 2)]);
}

#[test]
fn an_unreadable_file_keeps_its_postings_and_is_told_of() {
    let s = store();
    let got = usage_lines(&s, "helper", &[("src/b.rs", FileRead::Unreadable)]);
    assert_eq!(got, vec![("src/a.rs".to_owned(), 4), ("src/b.rs".to_owned(), 5)]);
    let (_, settled, hint) = s.literal_sites(
        "helper",
        &vec!["src/b.rs".to_owned()],
        &vec![FileRead::Unreadable],
    );
    assert!(settled.is_empty());
    assert!(hint.expect("a hint").contains("helper"));
}

#[test]
fn usages_are_delivered_as_the_clauses_ask_and_bounded() {
    let s = store();
    let within = |max: usize| s.find_usages("helper", &wanting(vec![
        is("path", CompareOp::Eq, "src/b.rs"),
    ]), &vec![], &vec![], max);
    let page = within(2).ok().expect("two sites are posted");
    assert_eq!(page.total, 1);
    assert_eq!(page.rows[0].line, Some(5));
    assert!(matches!(within(1), Err(FindRefusal::Usages { sites: 2, max: 1 })));
    let (scanned, settled, _) = s.literal_sites(
        "helper",
        &vec!["lib/c.rs".to_owned()],
        &vec![FileRead::Bytes(b"helper();".to_vec())],
    );
    let r = s.find_usages("helper", &Clauses::default(), &scanned, &settled, 2);
    assert!(matches!(r, Err(FindRefusal::Usages { sites: 3, max: 2 })));
}

#[test]
fn the_sessions_rows_count_against_the_bound() {
    let s = edited();
    let with = |rows: usize| {
        s.find_symbols(&Clauses::default(), &known(), FindBounds { rows, ..BOUNDS })
    };
    assert!(with(5).is_ok());
    assert!(matches!(with(4), Err(FindError::Bound(FindRefusal::Built { max: 4 }))));
}

#[test]
fn a_name_stream_reports_its_page_and_declines_past_the_bound() {
    let s = store();
    let by_name = |limit: usize| Clauses {
        order_by: Some(OrderBy {
            field: "name".to_owned(),
            direction: SortDirection::Asc,
        }),
        limit: Some(limit),
        ..Default::default()
    };
    let page = s.try_order_by_name_fast_paths(&by_name(3), 100).expect("streamed");
    assert_eq!(names(&page), vec!["Config", "Engine", "helper"]);
    assert_eq!(page.total, 3);
    assert!(s.try_order_by_name_fast_paths(&by_name(3), 2).is_none());
    assert!(edited().try_order_by_name_fast_paths(&by_name(3), 100).is_none());
}

#[test]
fn a_streamed_page_that_collapses_short_is_handed_back() {
    // Two files under one path hold the same row.
    let (a, b) = (
        segment(1, &[("twin", "function", 1, 0, TOP, &[])]),
        segment(2, &[("twin", "function", 1, 0, TOP, &[])]),
    );
    let overlay = overlay_of(&[("src/t.rs", &a), ("src/t.rs", &b)], &[], &[]);
    let s = ColumnarStorage::new_unshared(
        "/work".to_owned(),
        vec![Arc::new(a), Arc::new(b)],
        overlay,
    );
    let clauses = Clauses {
        order_by: Some(OrderBy {
            field: "name".to_owned(),
            direction: SortDirection::Asc,
        }),
        limit: Some(2),
        ..Default::default()
    };
    assert!(s.try_order_by_name_fast_paths(&clauses, 100).is_none());
    assert_eq!(find(&s, &clauses).rows.len(), 1);
}

#[test]
fn the_files_to_read_are_those_in_scope() {
    let s = store();
    let paths = s.scan_paths(&Clauses {
        in_glob: Some("src/**".to_owned()),
        ..Default::default()
    });
    assert!(paths.contains(&"src/a.rs".to_owned()));
    assert!(paths.contains(&"src/b.rs".to_owned()));
    assert!(!paths.contains(&"lib/c.rs".to_owned()));
}

// ───────────────────────────── nodes ─────────────────────────────

#[test]
fn a_handle_leads_to_its_node_and_back() {
    let s = store();
    let id = s.find_node_id_at_line("src/a.rs", 3).expect("a node starts there");
    let NodeLookup::Node(site) = s.find_node(&id) else {
        panic!("the handle names a node");
    };
    assert_eq!((site.name.as_str(), site.rel_path.as_str(), site.line), ("start", "src/a.rs", 3));
    let parent = site.parent_node_id.clone().expect("a parent");
    let NodeLookup::Node(up) = s.find_node(&parent) else {
        panic!("the parent is a node");
    };
    assert_eq!(up.name, "Engine");
    assert_eq!(up.first_child_node_id.as_deref(), Some(id.as_str()));
    let file = vec![b'\n'; 200];
    let result = site.finish("/work", &file);
    assert_eq!(result.path, "/work/src/a.rs");
    assert_eq!(s.find_node_id_at_byte("src/a.rs", 30).as_deref(), Some(id.as_str()));
}

#[test]
fn handles_that_name_nothing_are_told_apart() {
    let s = store();
    assert!(matches!(s.find_node("nffffffffffff.0001"), NodeLookup::NotFound));
    assert!(matches!(s.find_node("nffffffffffff.x"), NodeLookup::InvalidOrdinal));
    assert!(matches!(s.find_node("nffffffffffff"), NodeLookup::WholeFile(_)));
    let stopped = s.find_node_id_at_line("src/a.rs", 8).expect("a node");
    assert!(matches!(edited().find_node(&stopped), NodeLookup::Gone));
    let id = s.find_node_id_at_line("src/b.rs", 2).expect("a node");
    let hex = &id[1..13];
    assert!(matches!(s.find_path_node(hex), PathLookup::File(p) if p == "src/b.rs"));
    assert!(matches!(s.find_path_node("ffffffffffff"), PathLookup::Unindexed));
}

#[test]
fn an_edited_files_handles_answer_from_the_session() {
    let s = edited();
    let id = make_node_id("src/a.rs", 0);
    let NodeLookup::Node(site) = s.find_node(&id) else {
        panic!("the session holds the node");
    };
    assert_eq!(site.name, "renamed");
}

#[test]
fn an_outline_nests_nodes_under_their_parents() {
    let s = store();
    let tell = |target: &str, all: bool| -> Vec<(String, usize)> {
        s.show_outline_for_file("/work", target, all)
            .iter()
            .map(|e| (e.name.clone(), e.depth))
            .collect()
    };
    assert_eq!(
        tell("src/a.rs", false),
        vec![("Engine".to_owned(), 0), ("start".to_owned(), 1), ("stop_all".to_owned(), 1)]
    );
    let handle = s.find_node_id_at_line("src/a.rs", 1).expect("a node");
    assert_eq!(tell(&handle, true)[0].0, "Engine");
    assert_eq!(tell("lib/**", false).len(), 2);
    let after = edited();
    let names: Vec<String> = after
        .show_outline_for_file("/work", "src/a.rs", false)
        .iter()
        .map(|e| e.name.clone())
        .collect();
    assert_eq!(names, vec!["renamed"]);
}

#[test]
fn an_outline_of_declarations_is_the_full_one_without_the_rest() {
    let seg = segment(
        1,
        &[
            ("Outer", "struct", 1, 0, TOP, &[]),
            ("guard", "if", 2, 1, 0, &[]),
            ("inner", "function", 3, 2, 1, &[]),
            ("x", "number", 4, 3, 2, &[]),
            ("Last", "struct", 9, 4, TOP, &[]),
        ],
    );
    let overlay = overlay_of(&[("a.rs", &seg)], &[], &[]);
    let s = ColumnarStorage::new_unshared("/work".to_owned(), vec![Arc::new(seg)], overlay);
    let tell = |target: &str, all: bool| -> Vec<(String, usize)> {
        s.show_outline_for_file("/work", target, all)
            .iter()
            .map(|e| (e.name.clone(), e.depth))
            .collect()
    };
    let item = |name: &str, depth: usize| (name.to_owned(), depth);
    assert_eq!(
        tell("a.rs", true),
        vec![item("Outer", 0), item("guard", 1), item("inner", 2), item("x", 3), item("Last", 0)]
    );
    assert_eq!(tell("a.rs", false), vec![item("Outer", 0), item("inner", 1), item("Last", 0)]);
    let guard = s.find_node_id_at_line("a.rs", 2).expect("a node");
    assert_eq!(tell(&guard, true), vec![item("guard", 0), item("inner", 1), item("x", 2)]);
}

#[test]
fn names_resolve_to_a_definition() {
    let s = store();
    assert_eq!(s.locate_definition("helper"), Some(("/work/src/b.rs".to_owned(), 2)));
    assert_eq!(s.locate_definition("nothing"), None);
    let body = s.resolve_body_symbol("load", &Clauses::default(), "/work").ok().expect("a body");
    assert_eq!(body.expect("found").line, 4);
    let Err(e) = s.resolve_body_symbol("Config", &Clauses::default(), "/work") else {
        panic!("a struct has no body to show");
    };
    assert!(e.message().contains("Config"));
    let ty = s.resolve_type_symbol("Config", &Clauses::default(), "/work").expect("a type");
    assert_eq!(ty.line, 1);
    let scoped = Clauses {
        in_glob: Some("src/b.rs".to_owned()),
        ..Default::default()
    };
    let start = s.resolve_symbol("start", &scoped, "/work", None).expect("found");
    assert_eq!(start.path, "/work/src/b.rs");
}

#[test]
fn what_a_name_resolves_to_is_not_up_to_the_predicates() {
    let s = store();
    let plain = s.resolve_symbol("start", &Clauses::default(), "/work", None).expect("found");
    let narrowed = wanting(vec![number("param_count", CompareOp::Eq, 5)]);
    let start = s.resolve_symbol("start", &narrowed, "/work", None).expect("found");
    assert_eq!((start.path, start.line), (plain.path, plain.line));
    let none = wanting(vec![is("naming", CompareOp::Eq, "nothing")]);
    assert!(s.resolve_symbol("start", &none, "/work", None).is_some());
    assert!(edited().resolve_symbol("renamed", &none, "/work", None).is_some());
}

#[test]
fn an_expression_that_accepts_the_empty_text_keeps_every_name() {
    let s = store();
    let page = find(&s, &wanting(vec![is("name", CompareOp::Matches, "(helper)*")]));
    assert_eq!(page.total, find(&s, &Clauses::default()).total);
    let page = find(&s, &wanting(vec![is("name", CompareOp::Matches, "helper")]));
    assert_eq!(names(&page), vec!["helper"]);
}

#[test]
fn two_spellings_are_one_file() {
    let mut s = store();
    let start = s.begin_reindex("src/./a.rs");
    assert_eq!(start.rel_path, "src/./a.rs");
    assert_eq!(start.replaces_hex, "a1".repeat(20));
    let fresh = segment(0xD4, &[("renamed", "function", 5, 0, TOP, &[])]);
    s.finish_reindex(start, Arc::new(fresh));
    let page = find(&s, &wanting(vec![is("name", CompareOp::Eq, "Engine")]));
    assert!(page.rows.is_empty(), "its segment is hidden");
    assert!(s.is_path_fresh("src//a.rs", Some(&b"anything".to_vec())));
    let again = s.begin_reindex("src//a.rs");
    assert_eq!(again.hints.len(), 1);
    assert!(s.dirty.added.is_empty());
    assert_eq!(s.dirty.removed_paths, vec!["src/./a.rs".to_owned()]);
    // A handle is asked for by the text that it was given with.
    assert!(s.find_node_id_at_line("src/b.rs", 2).is_some());
    assert_eq!(s.find_node_id_at_line("src//b.rs", 2), None);
}

#[test]
fn segments_of_one_file_are_counted_together() {
    let (a, b, c) = (a_rs(), b_rs(), c_rs());
    let overlay = overlay_of(&[("lib/c.rs", &c), ("src/a.rs", &a), ("src//a.rs", &b)], &[], &[]);
    assert!(overlay.has_duplicate_paths());
    let s = ColumnarStorage::new_unshared(
        "/work".to_owned(),
        vec![Arc::new(c), Arc::new(a), Arc::new(b)],
        overlay,
    );
    let counted = |clauses: &Clauses| {
        let page = s.fast_group_by_file(clauses).expect("counted");
        let mut all: Vec<(String, usize)> = page
            .rows
            .iter()
            .map(|r| (r.path.clone().unwrap_or_default(), r.count.unwrap_or_default()))
            .collect();
        all.sort();
        all
    };
    assert_eq!(
        counted(&grouped("file")),
        vec![("lib/c.rs".to_owned(), 2), ("src/a.rs".to_owned(), 5)]
    );
    let mut functions = grouped("file");
    functions.where_predicates = vec![is("fql_kind", CompareOp::Eq, "function")];
    assert_eq!(
        counted(&functions),
        vec![("lib/c.rs".to_owned(), 1), ("src/a.rs".to_owned(), 4)]
    );
    // The query itself leaves such an index to the scan, which groups by the text of a path.
    assert!(s.counted_page(&grouped("file")).is_none());
}

// ───────────────────────────── commits and chains ─────────────────────────────

#[test]
fn a_commit_promotes_what_was_staged_and_leaves_a_manifest() {
    let mut s = edited();
    assert!(s.commit_manifest().is_none(), "no master, no chain");
    s.master_commit = "abc".to_owned();
    let m = s.commit_manifest().expect("a manifest");
    assert_eq!(m.entries.len(), 1);
    assert_eq!(m.entries[0].replaces_hex, "a1".repeat(20));
    assert!(m.removed_paths.contains(&"src/a.rs".to_owned()));
    let ctx = ColumnarBuildContext::new("/s".into(), "/o".into(), "git-sha1".into());
    let moves = s.promotions(&ctx, "/work/.forgeql-staging");
    assert_eq!(moves.len(), 1);
    assert!(moves[0].store.starts_with(&format!("/s/git-sha1-v{ENRICH_VER}/d4/")));
    assert!(moves[0].staged.starts_with("/work/.forgeql-staging/"));
}

#[test]
fn seeding_from_the_manifest_gives_the_edits_back() {
    let mut s = edited();
    s.master_commit = "abc".to_owned();
    let m = s.commit_manifest().expect("a manifest");
    let mut next = store();
    assert!(next.wants_chain_seed());
    let readers = vec![Arc::clone(&s.dirty().added[0].reader)];
    assert!(next.seed_dirty_from_chain(&m, &readers).is_ok());
    assert_eq!(found(&find(&next, &Clauses::default())), found(&find(&s, &Clauses::default())));
}

#[test]
fn a_chain_that_does_not_say_what_it_replaces_is_refused() {
    let mut s = store();
    let manifest = |version: u32| ChainManifest {
        version: CHAIN_FORMAT_VERSION,
        enrich_ver: version,
        master_commit: "abc".to_owned(),
        entries: vec![ChainEntry {
            source_path: "src/a.rs".to_owned(),
            hex_content_id: "d4".repeat(20),
            replaces_hex: String::new(),
        }],
        removed_paths: vec![],
        added_paths: vec![],
    };
    let reader = Arc::new(segment(0xD4, &[]));
    let Err(e) = s.seed_dirty_from_chain(&manifest(ENRICH_VER), &vec![reader]) else {
        panic!("refused");
    };
    assert!(matches!(&e, ChainFault::Unrecorded(p) if p == "src/a.rs"));
    assert!(e.message("c0ffee").contains("src/a.rs"));
    assert!(matches!(
        check_manifest(&manifest(1), true),
        Err(ChainFault::Generation(1))
    ));
    assert!(matches!(
        check_manifest(&manifest(ENRICH_VER), false),
        Err(ChainFault::NoMaster(m)) if m == "abc"
    ));
    assert!(check_manifest(&manifest(ENRICH_VER), true).is_ok());
}

#[test]
fn a_commit_over_vanished_segments_is_refused() {
    let s = store();
    assert!(s.refuse_if_base_segments_vanished(&vec![true, true, true], "/s").is_ok());
    let Err(e) = s.refuse_if_base_segments_vanished(&vec![true, false, true], "/s") else {
        panic!("refused");
    };
    assert_eq!(e.missing, vec!["src/a.rs"]);
    assert!(e.message().contains("src/a.rs") && e.message().contains('3'), "{}", e.message());
}

#[test]
fn a_promotion_falls_back_from_link_to_rename_to_copy() {
    let mut step = PromoteStep::CheckTarget;
    let mut seen = Vec::new();
    // Nothing is there, the directory is made, and every way fails but the copy.
    loop {
        let held = match &step {
            PromoteStep::CheckTarget => { seen.push("check"); false }
            PromoteStep::MakeParent => { seen.push("mkdir"); true }
            PromoteStep::Link => { seen.push("link"); false }
            PromoteStep::CheckLinked => { seen.push("linked"); false }
            PromoteStep::Rename => { seen.push("rename"); false }
            PromoteStep::CheckRenamed => { seen.push("renamed"); false }
            PromoteStep::Copy => { seen.push("copy"); true }
            PromoteStep::Done(ok) => {
                assert!(*ok);
                break;
            }
        };
        step = step.next(held);
    }
    assert_eq!(seen, vec!["check", "mkdir", "link", "linked", "rename", "renamed", "copy"]);
    assert!(matches!(PromoteStep::CheckTarget.next(true), PromoteStep::Done(true)));
}

#[test]
fn a_changed_target_becomes_a_chain_of_its_changes() {
    let s = store();
    let phase = begin_derived_attach(true, 1);
    let phase = phase.ancestor_found(Some("abc".to_owned()));
    let target = vec![
        ("/work/lib/c.rs".to_owned(), vec![0xC3; 20]),
        ("/work/src/a.rs".to_owned(), vec![0xEE; 20]),
        ("/work/src/new.rs".to_owned(), vec![0x11; 20]),
    ];
    let files = vec![("README.md".to_owned(), 12)];
    let phase = phase.master_opened(Some(&s.shared), &target, "/work", &files, 100);
    let DerivePhase::Save(m) = phase else {
        panic!("a manifest");
    };
    let paths: Vec<&str> = m.entries.iter().map(|e| e.source_path.as_str()).collect();
    assert_eq!(paths, vec!["src/a.rs", "src/new.rs"]);
    assert_eq!(m.entries[0].replaces_hex, "a1".repeat(20));
    assert_eq!(m.entries[1].replaces_hex, "");
    assert!(m.removed_paths.contains(&"src/b.rs".to_owned()), "a file the target lacks");
    let phase = DerivePhase::Save(m).manifest_saved(true);
    let (phase, _) = phase.chain_opened(true);
    assert!(matches!(phase, DerivePhase::Done(true)));
    assert!(matches!(begin_derived_attach(false, 1), DerivePhase::Done(false)));
}

#[test]
fn a_chain_sees_through_spellings() {
    let s = store();
    let target = vec![
        ("/work/lib//c.rs".to_owned(), vec![0xC3; 20]),
        ("src/./a.rs".to_owned(), vec![0xA1; 20]),
        ("src//b.rs".to_owned(), vec![0xEE; 20]),
    ];
    let files = vec![("./README.md".to_owned(), 12)];
    let r = derive_upstream_manifest("abc", &s.shared.overlay, &target, "/work", &files);
    let m = r.ok().expect("a manifest");
    assert_eq!(m.entries.len(), 1);
    assert_eq!(m.entries[0].source_path, "src//b.rs");
    assert_eq!(m.entries[0].replaces_hex, "b2".repeat(20));
    assert_eq!(m.removed_paths, vec!["README.md".to_owned(), "src//b.rs".to_owned()]);
    assert_eq!(m.added_paths, vec!["./README.md".to_owned()], "`.` opens another path");
    let files = vec![("src//a.rs".to_owned(), 1)];
    let r = derive_upstream_manifest("abc", &s.shared.overlay, &target, "/work", &files);
    assert_eq!(r.err().expect("a conflict").path, "src//a.rs");
}

#[test]
fn a_plain_file_under_an_indexed_path_is_a_conflict() {
    let s = store();
    let files = vec![("src/a.rs".to_owned(), 12)];
    let r = derive_upstream_manifest("abc", &s.shared.overlay, &vec![], "/work", &files);
    let Err(conflict) = r else {
        panic!("the master has a segment for it");
    };
    assert_eq!(conflict.path, "src/a.rs");
    let phase = begin_derived_attach(true, 1).ancestor_found(Some("abc".to_owned()));
    let phase = phase.master_opened(Some(&s.shared), &vec![], "/work", &files, 100);
    assert!(matches!(phase, DerivePhase::Done(false)));
}

#[test]
fn numbers_are_read_off_the_posted_values() {
    let a = segment(
        1,
        &[
            ("a", "field", 1, 0, TOP, &[("key_path", "5")]),
            ("b", "field", 2, 1, TOP, &[("key_path", "40")]),
            ("c", "field", 3, 2, TOP, &[("key_path", "x")]),
        ],
    );
    let overlay = overlay_of(&[("a.json", &a)], &[], &[]);
    let rows = |b: Option<RoaringBitmap>| b.expect("posted").iter().collect::<Vec<u32>>();
    assert_eq!(rows(overlay.prefilter_enrichment_eq("key_path", "x")), vec![2]);
    assert_eq!(rows(overlay.prefilter_enrichment_ge("key_path", 6)), vec![1]);
    assert_eq!(rows(overlay.prefilter_enrichment_le("key_path", 6)), vec![0]);
    assert!(overlay.has_enrichment_field("key_path"));
    assert!(!overlay.has_enrichment_field("naming"));
    assert!(overlay.prefilter_enrichment_eq("naming", "x").is_none());
}

#[test]
fn a_segment_is_shown_by_the_head_of_its_fingerprint() {
    let s = store();
    let meta = &s.overlay().segments()[1];
    assert_eq!(meta.source_path, "src/a.rs");
    assert_eq!(meta.segment_id().len(), 12);
    assert_eq!(meta.node_id(3), format!("n{}.0003", meta.segment_id()));
    assert_eq!(s.overlay().seg_idx_for_node_id_prefix(&meta.segment_id()), Some(1));
    assert_eq!(s.overlay().path_seg_range("src/"), 1..3);
    assert_eq!(s.overlay().path_row_range("src/"), 2..7);
    assert_eq!(s.overlay().segment_row_range(1), 2..5);
    assert_eq!(s.overlay().file_size(2), 102);
}

#[test]
fn lines_are_named_by_their_innermost_node() {
    let s = store();
    // A line for every ten bytes; the node ends at the fifty-ninth byte.
    let file: Vec<u8> = (0..200).map(|i| if i % 10 == 9 { b'\n' } else { b'x' }).collect();
    assert!(
        s.innermost_nodes_for_lines("src/a.rs", Some(&file), 3, 3).is_empty(),
        "the file no longer holds what was indexed"
    );
    let nodes = edited().innermost_nodes_for_lines("src/a.rs", Some(&file), 4, 7);
    let here = Some((make_node_id("src/a.rs", 0), 5));
    assert_eq!(nodes, vec![None, here.clone(), here, None]);
}

#[test]
fn a_file_is_fresh_while_it_holds_what_was_indexed() {
    let seg = {
        let mut b = SegmentBuilder::new("git-sha1", &git_blob_sha1(b"fn a() {}"));
        let row = b.emit_row(SymbolRow {
            name: "a",
            fql_kind: "function",
            language: "rust",
            line: 1,
            byte_start: 0,
            byte_end: 9,
            usages_count: 0,
        });
        b.set_node(row, 0, TOP, 0);
        b.finish()
    };
    let overlay = overlay_of(&[("src/a.rs", &seg)], &[], &[]);
    let s = ColumnarStorage::new_unshared("/work".to_owned(), vec![Arc::new(seg)], overlay);
    assert!(s.is_path_fresh("src/a.rs", Some(&b"fn a() {}".to_vec())));
    assert!(!s.is_path_fresh("src/a.rs", Some(&b"fn b() {}".to_vec())));
}

#[test]
fn too_many_changes_call_for_a_full_build() {
    let s = store();
    let phase = begin_derived_attach(true, 1).ancestor_found(Some("abc".to_owned()));
    let phase = phase.master_opened(Some(&s.shared), &vec![], "/work", &vec![], 2);
    assert!(matches!(phase, DerivePhase::Done(false)));
}

// ───────────────────────────── opening ─────────────────────────────

#[test]
fn a_session_starts_from_its_record() {
    let s = edited();
    let (back, clear) = ColumnarStorage::finish_open(
        "/work".to_owned(),
        Arc::clone(&s.shared),
        DeltaRead::Failed,
        "abc",
    );
    assert!(clear && back.dirty().is_empty());
    let (mut back, clear) = ColumnarStorage::finish_open(
        "/work".to_owned(),
        Arc::clone(&s.shared),
        DeltaRead::Restored(s.dirty, vec!["src/b.rs".to_owned()]),
        "abc",
    );
    assert!(!clear);
    assert_eq!(back.master_commit, "abc");
    assert_eq!(back.dirty().added.len(), 1);
    assert_eq!(back.take_pending_reindex_paths(), vec!["src/b.rs"]);
    assert!(back.take_pending_reindex_paths().is_empty());
    back.dirty_mut().touch_path("x.txt".to_owned());
    assert_eq!(back.dirty().added_paths, vec!["x.txt"]);
}

#[test]
fn an_index_without_one_of_its_segments_is_incomplete() {
    let (a, b) = (a_rs(), b_rs());
    let overlay = overlay_of(&[("src/a.rs", &a), ("src/b.rs", &b)], &[], &[]);
    let opened = vec![
        Ok(Arc::new(a)),
        Err(SegmentFault {
            segment_path: "/s/b2".to_owned(),
            cause: "no such file".to_owned(),
        }),
    ];
    let Err(e) = open_segments_from_overlay(overlay, "/o/x.bin", &opened) else {
        panic!("incomplete");
    };
    assert_eq!(e.source_path, "src/b.rs");
    let text = e.message();
    for part in ["src/b.rs", "/s/b2", "/o/x.bin", "no such file"] {
        assert!(text.contains(part), "{text}");
    }
}

fn incomplete() -> IncompleteIndex {
    IncompleteIndex {
        source_path: "src/a.rs".to_owned(),
        segment_path: "/s/a1".to_owned(),
        overlay_path: "/o/x.bin".to_owned(),
        cause: "gone".to_owned(),
    }
}

#[test]
fn attaching_serves_what_is_there() {
    let shared = Arc::clone(&store().shared);
    let mut a = Attach::begin(BuildSources { segment_map: false, table: false });
    assert!(matches!(a.phase, AttachPhase::Probe));
    a.overlay_opened(OverlayOpen::Ready(shared));
    assert!(matches!(&a.phase, AttachPhase::Done(AttachOutcome::Overlay(_))));
}

#[test]
fn attaching_builds_where_nothing_is_there() {
    let mut a = Attach::begin(BuildSources { segment_map: true, table: false });
    assert_eq!(a.sources.plan(), BuildPlan::Inline);
    a.overlay_opened(OverlayOpen::Absent);
    assert!(matches!(a.phase, AttachPhase::Written));
    a.chain_tried(ChainOpen::Absent, false);
    assert!(matches!(a.phase, AttachPhase::Derive));
    a.derived(false);
    assert!(matches!(a.phase, AttachPhase::Lock));
    a.lock_tried(None);
    assert!(matches!(a.phase, AttachPhase::Recheck));
    a.overlay_opened(OverlayOpen::Absent);
    assert!(matches!(a.phase, AttachPhase::Build));
    a.built();
    assert!(matches!(a.phase, AttachPhase::Reopen));
    a.overlay_opened(OverlayOpen::Ready(Arc::clone(&store().shared)));
    assert!(matches!(&a.phase, AttachPhase::Done(AttachOutcome::Overlay(_))));
}

#[test]
fn an_incomplete_index_that_no_build_mends_is_refused() {
    let mut a = Attach::begin(BuildSources { segment_map: false, table: false });
    a.overlay_opened(OverlayOpen::Incomplete(incomplete()));
    let AttachPhase::Done(outcome) = &a.phase else {
        panic!("nothing can write the segment back");
    };
    let text = outcome.failure("c0ffee").expect("a failure");
    assert!(text.contains("src/a.rs"), "{text}");
}

#[test]
fn a_lock_that_cannot_be_had_is_a_failure() {
    let mut a = Attach::begin(BuildSources { segment_map: true, table: true });
    a.overlay_opened(OverlayOpen::Absent);
    a.chain_tried(ChainOpen::Absent, false);
    a.derived(false);
    a.lock_tried(Some("busy".to_owned()));
    let AttachPhase::Done(outcome) = &a.phase else {
        panic!("done");
    };
    assert!(outcome.failure("c0ffee").expect("a failure").contains("busy"));
}
