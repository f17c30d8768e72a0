//! Which predicates, orderings and groupings are answered from the columns.

use forgeql_storage::clauses::{
    Clauses, CompareOp, GroupBy, OrderBy, Predicate, PredicateValue, SortDirection,
};
use forgeql_storage::collapse::{dedupe_symbol_matches, dedupe_views_of_segment};
use forgeql_storage::columnar_storage::budgets::{
    topk_keep, DEFAULT_FIND_MAX_ROWS, DEFAULT_FIND_MAX_VIEWS, FIND_BYTES_PER_ROW,
    FIND_BYTES_PER_VIEW, FIND_ROW_BUDGET_BYTES, TOPK_OVER_FETCH,
};
use forgeql_storage::columnar_storage::gates::{
    bare_limit_name_fast_path, group_by_enrichment_fast_path_field, group_by_file_fast_path_eligible,
    group_by_kind_fast_path_eligible, topk_trim_for, view_page_bound_for,
};
use forgeql_storage::columnar_storage::narrow::{
    ordering_travels_on_views, predicate_waits_for_a_built_row, segment_rows_can_travel_as_views,
    split_seg_predicates, NarrowedSegment,
};
use forgeql_storage::columnar_storage::ColumnarStorage;
use forgeql_storage::fields::{
    order_tie_breakers, ranks_field_like_a_built_row, view_unanswerable_fields,
    written_after_materialisation,
};
use forgeql_storage::filter::{collect_top_k, eval_predicate, ClauseTarget};
use forgeql_storage::overlay::Overlay;
use forgeql_storage::segment::{Accessor, RowView, SegmentReader, SymbolMatch};
use forgeql_storage::segment_builder::{SegmentBuilder, SymbolRow};
use roaring::RoaringBitmap;
use std::sync::Arc;

/// One row carrying one enrichment column.
fn one_row_segment() -> SegmentReader {
    let content_id = [0x2A_u8; 20];
    let mut b = SegmentBuilder::new("test", &content_id);
    let row = b.emit_row(SymbolRow {
        name: "alpha",
        fql_kind: "function",
        language: "rust",
        line: 12,
        byte_start: 0,
        byte_end: 10,
        usages_count: 0,
    });
    b.set_field(row, "param_count", "2");
    b.finish()
}

fn predicate(field: &str, op: CompareOp, value: PredicateValue) -> Predicate {
    Predicate {
        field: field.to_owned(),
        op,
        value,
    }
}

fn text(s: &str) -> PredicateValue {
    PredicateValue::String(s.to_owned())
}

fn fields_at(predicates: &[Predicate], at: &[usize]) -> Vec<String> {
    at.iter().map(|&i| predicates[i].field.clone()).collect()
}

/// A segment whose rows disagree on every field a query might order by; two rows share a name, so
/// the tie-breakers have work to do.
fn ranked_segment() -> SegmentReader {
    let content_id = [0x5B_u8; 20];
    let mut b = SegmentBuilder::new("test", &content_id);
    let rows = [
        ("delta", 40, "3"),
        ("alpha", 10, "9"),
        ("charlie", 30, "1"),
        ("bravo", 20, "7"),
        ("alpha", 50, "5"),
        ("echo", 5, "2"),
        ("foxtrot", 60, "8"),
        ("golf", 15, "4"),
        ("hotel", 25, "6"),
    ];
    for (name, line, param_count) in rows {
        let row = b.emit_row(SymbolRow {
            name,
            fql_kind: "function",
            language: "rust",
            line,
            byte_start: 0,
            byte_end: 10,
            usages_count: 0,
        });
        b.set_field(row, "param_count", param_count);
    }
    b.finish()
}

/// Thirteen rows that are eight answers: six agree on every field of the key, a seventh differs in
/// its kind alone, and six more stand on lines of their own.
fn duplicate_heavy_segment() -> SegmentReader {
    let content_id = [0x7C_u8; 20];
    let mut b = SegmentBuilder::new("test", &content_id);
    for _ in 0..6 {
        let row = b.emit_row(SymbolRow {
            name: "aaa",
            fql_kind: "function",
            language: "rust",
            line: 1,
            byte_start: 0,
            byte_end: 10,
            usages_count: 0,
        });
        b.set_field(row, "param_count", "0");
    }
    let odd = b.emit_row(SymbolRow {
        name: "aaa",
        fql_kind: "struct",
        language: "rust",
        line: 1,
        byte_start: 0,
        byte_end: 10,
        usages_count: 0,
    });
    b.set_field(odd, "param_count", "0");
    for i in 0..6_u32 {
        let row = b.emit_row(SymbolRow {
            name: "bbb",
            fql_kind: "function",
            language: "rust",
            line: 10 + i,
            byte_start: 0,
            byte_end: 10,
            usages_count: 0,
        });
        b.set_field(row, "param_count", "0");
    }
    b.finish()
}

/// A segment whose enrichment column is named after a field that a row has of its own, with another
/// value in it.
fn shadowed_kind_segment() -> SegmentReader {
    let content_id = [0x3D_u8; 20];
    let mut b = SegmentBuilder::new("test", &content_id);
    for i in 0..12_u32 {
        let row = b.emit_row(SymbolRow {
            name: "aaa",
            fql_kind: "function",
            language: "rust",
            line: 1 + i,
            byte_start: 0,
            byte_end: 10,
            usages_count: 0,
        });
        b.set_field(row, "fql_kind", "shadow");
    }
    b.finish()
}

/// The bytes of an index file made of its thirteen blobs.
fn framed(blobs: &[Vec<u8>]) -> Vec<u8> {
    let names = [
        "row_table",
        "kind_strings",
        "kind_index",
        "bitmap_data",
        "trigram_index",
        "name_fst",
        "name_postings",
        "segments",
        "segment_strings",
        "index_files",
        "enrich_bitmaps",
        "file_entries",
        "usages_count_fst",
    ];
    let mut file = Vec::new();
    file.extend_from_slice(b"FQOV");
    file.extend_from_slice(&12u32.to_le_bytes());
    file.extend_from_slice(&1u64.to_le_bytes());
    file.extend_from_slice(&(names.len() as u32).to_le_bytes());
    file.extend_from_slice(&0u32.to_le_bytes());
    let mut at = 24 + 64 * names.len();
    for (name, blob) in names.iter().zip(blobs) {
        at = (at + 7) / 8 * 8;
        let mut entry = name.as_bytes().to_vec();
        entry.resize(56, 0);
        file.extend_from_slice(&entry);
        file.extend_from_slice(&(at as u32).to_le_bytes());
        file.extend_from_slice(&(blob.len() as u32).to_le_bytes());
        at += blob.len();
    }
    for blob in blobs {
        while file.len() % 8 != 0 {
            file.push(0);
        }
        file.extend_from_slice(blob);
    }
    file
}

/// A store of one segment, indexed under `path`.
fn store_of(path: &str, seg: SegmentReader) -> ColumnarStorage {
    let mut row_table = Vec::new();
    for row in 0..seg.row_count() {
        row_table.extend_from_slice(&0u32.to_le_bytes());
        row_table.extend_from_slice(&row.to_le_bytes());
    }
    let hex = seg.content_id_hex();
    let mut strings = path.as_bytes().to_vec();
    strings.extend_from_slice(hex.as_bytes());
    let mut record = Vec::new();
    record.extend_from_slice(&seg.row_count().to_le_bytes());
    record.extend_from_slice(&0u32.to_le_bytes());
    record.extend_from_slice(&(path.len() as u32).to_le_bytes());
    record.extend_from_slice(&seg.row_count().to_le_bytes());
    record.extend_from_slice(&(path.len() as u16).to_le_bytes());
    record.extend_from_slice(&(hex.len() as u16).to_le_bytes());
    let names = fst::MapBuilder::memory().into_inner().unwrap();
    let file = framed(&[
        row_table,
        vec![],
        vec![],
        vec![],
        vec![],
        names,
        vec![],
        record,
        strings,
        vec![0; 4],
        vec![],
        vec![],
        vec![],
    ]);
    let overlay = Overlay::open(file).ok().expect("overlay opens");
    ColumnarStorage::new_unshared("/work".to_owned(), vec![Arc::new(seg)], overlay)
}

fn every_row(seg: &SegmentReader) -> RoaringBitmap {
    (0..seg.row_count()).collect()
}

fn narrowed(seg: &SegmentReader, late: Vec<usize>) -> NarrowedSegment {
    NarrowedSegment {
        rows: (0..seg.row_count()).collect(),
        late,
    }
}

/// Everything a result row holds.
fn parts(m: &SymbolMatch) -> String {
    format!(
        "{:?}",
        (
            (&m.name, &m.node_kind, &m.fql_kind, &m.language, &m.path, &m.line),
            (&m.usages_count, &m.fields, &m.count, &m.node_id, &m.rev)
        )
    )
}

#[test]
fn every_predicate_lands_on_exactly_one_side_of_the_split() {
    let reader = one_row_segment();
    let predicates = vec![
        predicate("line", CompareOp::Gte, PredicateValue::Number(10)),
        predicate("param_count", CompareOp::Eq, PredicateValue::Number(2)),
        predicate("usages", CompareOp::Gte, PredicateValue::Number(1)),
        predicate("has_doc", CompareOp::Eq, text("true")),
        predicate("name", CompareOp::Matches, text("^al")),
    ];

    let (early, late) = split_seg_predicates(&reader, &predicates, true);

    assert_eq!(early.len() + late.len(), predicates.len());
    let mut got = fields_at(&predicates, &early);
    got.extend(fields_at(&predicates, &late));
    got.sort_unstable();
    let mut want: Vec<String> = predicates.iter().map(|p| p.field.clone()).collect();
    want.sort_unstable();
    assert_eq!(got, want, "the two halves together must be the input");

    assert_eq!(fields_at(&predicates, &early), ["line", "param_count", "has_doc"]);
    assert_eq!(fields_at(&predicates, &late), ["usages", "name"]);
}

#[test]
fn an_absent_field_answers_early_exactly_as_the_built_row_answers_it() {
    let seg = ranked_segment();
    let source = "ranked.rs";
    let rows = seg.materialize_rows(&every_row(&seg), Some(source));

    let cases = vec![
        predicate("has_doc", CompareOp::Eq, text("true")),
        predicate("has_doc", CompareOp::NotEq, text("true")),
        predicate("has_doc", CompareOp::Like, text("tr%")),
        predicate("has_doc", CompareOp::NotLike, text("tr%")),
        predicate("has_doc", CompareOp::Eq, PredicateValue::Number(1)),
        predicate("has_doc", CompareOp::NotEq, PredicateValue::Number(1)),
        predicate("has_doc", CompareOp::Gt, PredicateValue::Number(0)),
        predicate("has_doc", CompareOp::Gte, PredicateValue::Number(0)),
        predicate("has_doc", CompareOp::Lt, PredicateValue::Number(99)),
        predicate("has_doc", CompareOp::Lte, PredicateValue::Number(99)),
        // Passes every row without reading the field.
        predicate("has_doc", CompareOp::NotLike, PredicateValue::Number(5)),
    ];

    for pred in &cases {
        assert!(!predicate_waits_for_a_built_row(&seg, pred, true), "{:?}", pred.op);
        for row in 0..seg.row_count() {
            let view = RowView::of(&seg, Some(source), row);
            assert_eq!(
                eval_predicate(&view, pred),
                eval_predicate(&rows[row as usize], pred),
                "{:?} disagrees with the built row on row {row}",
                pred.op
            );
        }
    }

    let view = RowView::of(&seg, Some(source), 0);
    for pred in &cases[..cases.len() - 1] {
        assert!(
            !eval_predicate(&view, pred),
            "{:?} on an absent field must be false, negations too",
            pred.op
        );
    }
    assert!(eval_predicate(&view, &cases[cases.len() - 1]));
}

#[test]
fn a_field_written_after_materialisation_is_not_treated_as_absent() {
    let seg = ranked_segment();

    for field in ["body", "role"] {
        assert!(written_after_materialisation(field));
        assert!(predicate_waits_for_a_built_row(
            &seg,
            &predicate(field, CompareOp::Eq, text("x")),
            true
        ));
    }

    assert!(!written_after_materialisation("has_doc"));
    assert!(!predicate_waits_for_a_built_row(
        &seg,
        &predicate("has_doc", CompareOp::Eq, text("true")),
        true
    ));
    assert!(predicate_waits_for_a_built_row(
        &seg,
        &predicate("has_doc", CompareOp::NotMatches, text("^t")),
        true
    ));
    assert!(predicate_waits_for_a_built_row(
        &seg,
        &predicate("has_doc", CompareOp::Matches, text("^t")),
        true
    ));
}

#[test]
fn a_path_predicate_waits_for_the_rows_when_the_caller_supplied_no_path() {
    let reader = one_row_segment();
    let predicates = vec![predicate("path", CompareOp::Like, text("src/%"))];

    let (early, late) = split_seg_predicates(&reader, &predicates, false);
    assert!(early.is_empty());
    assert_eq!(late.len(), 1);

    let (early, late) = split_seg_predicates(&reader, &predicates, true);
    assert_eq!(early.len(), 1);
    assert!(late.is_empty());
}

#[test]
fn the_row_bound_is_derived_from_the_memory_budget() {
    let spend = DEFAULT_FIND_MAX_ROWS * FIND_BYTES_PER_ROW;
    assert!(spend <= FIND_ROW_BUDGET_BYTES);
    let one_more = (DEFAULT_FIND_MAX_ROWS + 1) * FIND_BYTES_PER_ROW;
    assert!(one_more > FIND_ROW_BUDGET_BYTES);
}

#[test]
fn a_view_costs_what_the_scan_bound_prices_it_at() {
    assert_eq!(FIND_BYTES_PER_VIEW, 48);
    assert_eq!(std::mem::size_of::<RowView<'static>>(), FIND_BYTES_PER_VIEW);
    assert!(FIND_BYTES_PER_VIEW < FIND_BYTES_PER_ROW);
    assert!(DEFAULT_FIND_MAX_VIEWS > DEFAULT_FIND_MAX_ROWS);

    let spend = DEFAULT_FIND_MAX_VIEWS * FIND_BYTES_PER_VIEW;
    assert!(spend <= FIND_ROW_BUDGET_BYTES);
    let one_more = (DEFAULT_FIND_MAX_VIEWS + 1) * FIND_BYTES_PER_VIEW;
    assert!(one_more > FIND_ROW_BUDGET_BYTES);
}

#[test]
fn choosing_by_row_view_picks_what_choosing_by_built_row_picks() {
    let seg = ranked_segment();
    let source_path = "src/ranked.rs";
    let all = every_row(&seg);

    let orderings = [
        ("name", SortDirection::Asc),
        ("name", SortDirection::Desc),
        ("line", SortDirection::Asc),
        ("line", SortDirection::Desc),
        ("param_count", SortDirection::Asc),
        ("param_count", SortDirection::Desc),
        // Equal on every row, so the tie-breakers decide the page alone.
        ("fql_kind", SortDirection::Asc),
        // Held by no column.
        ("has_doc", SortDirection::Asc),
    ];

    for (field, direction) in orderings {
        let clauses = Clauses {
            order_by: Some(OrderBy {
                field: field.to_owned(),
                direction,
            }),
            ..Default::default()
        };
        assert!(ordering_travels_on_views(field));

        for k in [1_usize, 3, 5] {
            let views: Vec<RowView<'_>> = all
                .iter()
                .map(|row| RowView::of(&seg, Some(source_path), row))
                .collect();
            let by_view: Vec<(String, Option<usize>)> = collect_top_k(views, k, &clauses)
                .iter()
                .map(|view| view.materialize())
                .map(|row| (row.name, row.line))
                .collect();

            let built = seg.materialize_rows(&all, Some(source_path));
            let by_row: Vec<(String, Option<usize>)> = collect_top_k(built, k, &clauses)
                .into_iter()
                .map(|row| (row.name, row.line))
                .collect();

            assert_eq!(by_view.len(), k, "{field} {direction:?} {k}");
            assert_eq!(by_view, by_row, "{field} {direction:?} {k}");
        }
    }
}

#[test]
fn an_ordering_that_cannot_be_ranked_on_views_is_kept_off_the_view_path() {
    assert!(ordering_travels_on_views("line"));
    assert!(ordering_travels_on_views("param_count"));
    assert!(ordering_travels_on_views("has_doc"));
    assert!(ordering_travels_on_views("name"));

    assert!(!ordering_travels_on_views("usages"));
    assert!(!ordering_travels_on_views("node_id"));
    assert!(!ordering_travels_on_views("count"));

    for field in view_unanswerable_fields() {
        assert!(!ordering_travels_on_views(field), "{field}");
    }
}

#[test]
fn a_predicate_still_to_run_keeps_every_matched_row() {
    let store = store_of("src/ranked.rs", ranked_segment());
    let seg = Arc::clone(&store.segments()[0]);
    let clauses = Clauses {
        order_by: Some(OrderBy {
            field: "line".to_owned(),
            direction: SortDirection::Asc,
        }),
        limit: Some(1),
        ..Default::default()
    };

    let (pruned, _shed) = store
        .topk_rows_of_segment(0, &narrowed(&seg, vec![]), &clauses, topk_trim_for(&clauses))
        .expect("nine rows is past the point where one row is chosen early");
    assert_eq!(pruned.len(), topk_keep(1));

    assert!(
        store
            .topk_rows_of_segment(0, &narrowed(&seg, vec![0]), &clauses, topk_trim_for(&clauses))
            .is_none(),
        "a predicate still to run must keep every matched row"
    );
}

#[test]
fn nothing_is_shed_below_the_threshold_the_trim_uses() {
    let store = store_of("src/ranked.rs", ranked_segment());
    let seg = Arc::clone(&store.segments()[0]);
    let matched = seg.row_count() as usize;

    for k in 1..=(matched + 2) {
        let clauses = Clauses {
            order_by: Some(OrderBy {
                field: "line".to_owned(),
                direction: SortDirection::Asc,
            }),
            limit: Some(k),
            ..Default::default()
        };
        let fires = matched > k * TOPK_OVER_FETCH;
        assert_eq!(
            store
                .topk_rows_of_segment(
                    0,
                    &narrowed(&seg, vec![]),
                    &clauses,
                    topk_trim_for(&clauses)
                )
                .is_some(),
            fires,
            "LIMIT {k} over {matched} matched rows"
        );
    }
}

#[test]
fn the_two_row_builders_build_the_same_row() {
    let seg = ranked_segment();
    let source_path = "src/ranked.rs";
    let all = every_row(&seg);

    let batched = seg.materialize_rows(&all, Some(source_path));
    assert_eq!(batched.len(), seg.row_count() as usize);

    for (row, batched_row) in all.iter().zip(&batched) {
        let single = seg.materialize_one_row(row, source_path).expect("a row of the segment");
        assert_eq!(parts(&single), parts(batched_row), "row {row}");
    }

    assert!(seg.materialize_one_row(seg.row_count(), source_path).is_none());
}

#[test]
fn the_view_path_gate_covers_every_published_tie_breaker() {
    let tie_breakers = order_tie_breakers();
    assert_eq!(tie_breakers.len(), 4);
    for field in &tie_breakers {
        assert!(ranks_field_like_a_built_row(field), "{field}");
    }
    for field in view_unanswerable_fields() {
        assert!(!tie_breakers.contains(&field), "{field}");
    }
    for field in ["body", "role"] {
        assert!(!ranks_field_like_a_built_row(field), "{field}");
    }
    for field in ["has_doc", "lines", "naming", "param_count"] {
        assert!(ranks_field_like_a_built_row(field), "{field}");
    }
}

#[test]
fn a_view_reads_every_field_as_the_row_it_builds() {
    for (label, seg, source_path) in [
        ("plain", ranked_segment(), "src/ranked.rs"),
        ("shadowed", shadowed_kind_segment(), "src/shadowed.rs"),
    ] {
        let all = every_row(&seg);
        let built = seg.materialize_rows(&all, Some(source_path));

        let mut fields: Vec<String> = seg.columns.clone();
        for name in ["name", "node_kind", "fql_kind", "language", "path", "line"] {
            if !fields.iter().any(|f| f == name) {
                fields.push(name.to_owned());
            }
        }
        fields.push("has_doc".to_owned());

        for field in &fields {
            assert!(ranks_field_like_a_built_row(field), "{label}: {field}");
            for (row, built_row) in all.iter().zip(&built) {
                let view = RowView::of(&seg, Some(source_path), row);
                assert_eq!(
                    view.field_str(field),
                    built_row.field_str(field),
                    "{label} row {row}: {field} as text"
                );
                assert_eq!(
                    view.field_num(field),
                    built_row.field_num(field),
                    "{label} row {row}: {field} as a number"
                );
            }
        }

        assert!(!ranks_field_like_a_built_row("usages"));
        let view = RowView::of(&seg, Some(source_path), 0);
        assert_eq!(view.field_num("usages"), None);
        assert_eq!(built[0].field_num("usages"), Some(0));
    }
}

#[test]
fn the_trim_declines_an_offset_where_the_view_bound_carries_it() {
    let offset_page = Clauses {
        limit: Some(20),
        offset: Some(100),
        ..Default::default()
    };
    assert_eq!(view_page_bound_for(&offset_page), Some(120));
    assert_eq!(topk_trim_for(&offset_page), None);
}

#[test]
fn the_view_route_opens_for_a_plain_bounded_scan_and_closes_where_it_must() {
    let seg = ranked_segment();
    let paged = |limit: Option<usize>| Clauses {
        limit,
        ..Default::default()
    };

    assert_eq!(view_page_bound_for(&paged(Some(20))), Some(20));
    assert_eq!(
        view_page_bound_for(&Clauses {
            limit: Some(20),
            offset: Some(100),
            ..Default::default()
        }),
        Some(120)
    );
    assert_eq!(view_page_bound_for(&paged(Some(5_000))), Some(5_000));

    assert_eq!(view_page_bound_for(&paged(None)), None);
    assert_eq!(
        view_page_bound_for(&Clauses {
            limit: Some(20),
            group_by: Some(GroupBy::Field("fql_kind".to_owned())),
            ..Default::default()
        }),
        None
    );
    assert_eq!(
        view_page_bound_for(&Clauses {
            limit: Some(20),
            having_predicates: vec![predicate(
                "lines",
                CompareOp::Gt,
                PredicateValue::Number(10)
            )],
            ..Default::default()
        }),
        None
    );

    assert!(segment_rows_can_travel_as_views(
        &seg,
        &vec![predicate("param_count", CompareOp::Gt, PredicateValue::Number(4))]
    ));
    assert!(segment_rows_can_travel_as_views(
        &seg,
        &vec![predicate("line", CompareOp::Gte, PredicateValue::Number(1))]
    ));
    assert!(!segment_rows_can_travel_as_views(
        &seg,
        &vec![predicate("usages", CompareOp::Gt, PredicateValue::Number(0))]
    ));
    assert!(!segment_rows_can_travel_as_views(
        &seg,
        &vec![predicate("name", CompareOp::Matches, text("^a"))]
    ));
}

#[test]
fn an_absent_column_leaves_the_view_route_open_but_a_regex_still_waits() {
    let seg = ranked_segment();

    assert!(segment_rows_can_travel_as_views(
        &seg,
        &vec![predicate("has_doc", CompareOp::Eq, text("true"))]
    ));
    assert!(segment_rows_can_travel_as_views(
        &seg,
        &vec![predicate("has_doc", CompareOp::NotEq, text("true"))]
    ));
    assert!(!segment_rows_can_travel_as_views(
        &seg,
        &vec![predicate("has_doc", CompareOp::NotMatches, text("^t"))]
    ));
}

#[test]
fn duplicates_collapse_before_the_bounded_choice_sheds_anything() {
    let store = store_of("src/dups.rs", duplicate_heavy_segment());
    let seg = Arc::clone(&store.segments()[0]);
    let source_path = "src/dups.rs";
    let clauses = Clauses {
        order_by: Some(OrderBy {
            field: "name".to_owned(),
            direction: SortDirection::Asc,
        }),
        limit: Some(2),
        ..Default::default()
    };

    let (kept, shed) = store
        .topk_rows_of_segment(0, &narrowed(&seg, vec![]), &clauses, topk_trim_for(&clauses))
        .expect("thirteen rows is past the point where two rows are chosen early");

    let kept: RoaringBitmap = kept.into_iter().collect();
    let built = seg.materialize_rows(&kept, Some(source_path));
    let retained = built.len();
    assert_eq!(retained, topk_keep(2));
    let built = dedupe_symbol_matches(built);
    assert_eq!(built.len(), retained, "every row kept must already be distinct");
    assert_eq!(shed, 8 - topk_keep(2), "what is shed is counted in answers");
}

#[test]
fn a_segment_that_shadows_a_key_field_still_travels_as_views() {
    let store = store_of("src/shadowed.rs", shadowed_kind_segment());
    let seg = Arc::clone(&store.segments()[0]);
    let source_path = "src/shadowed.rs";
    let rows = every_row(&seg);

    assert!(seg.answers_field("fql_kind", true, Accessor::Str));
    let kind_eq = vec![predicate("fql_kind", CompareOp::Eq, text("function"))];
    let (early, late) = split_seg_predicates(&seg, &kind_eq, true);
    assert_eq!((early.len(), late.len()), (1, 0));
    assert!(ordering_travels_on_views("line"));

    let built = seg.materialize_rows(&rows, Some(source_path));
    for (row, built_row) in rows.iter().zip(&built) {
        let view = RowView::of(&seg, Some(source_path), row);
        assert_eq!(
            view.collapse_key(),
            (
                built_row.field_str("name").unwrap_or(""),
                built_row.field_str("fql_kind"),
                u32::try_from(built_row.field_num("line").unwrap_or(0)).unwrap_or(0),
            ),
            "row {row}"
        );
    }

    let views: Vec<RowView<'_>> = rows
        .iter()
        .map(|row| RowView::of(&seg, Some(source_path), row))
        .collect();
    let by_built = dedupe_symbol_matches(built);
    assert_eq!(dedupe_views_of_segment(views).len(), by_built.len());

    let clauses = Clauses {
        order_by: Some(OrderBy {
            field: "line".to_owned(),
            direction: SortDirection::Asc,
        }),
        limit: Some(2),
        ..Default::default()
    };
    let (chosen, shed) = store
        .topk_rows_of_segment(0, &narrowed(&seg, vec![]), &clauses, topk_trim_for(&clauses))
        .expect("twelve rows is past the point where two rows are chosen early");
    let chosen: RoaringBitmap = chosen.into_iter().collect();
    assert_eq!(chosen.iter().collect::<Vec<_>>(), vec![0, 1, 2, 3]);
    assert_eq!(shed, 8);
}

#[test]
fn the_column_key_and_the_built_row_key_agree_on_every_pair() {
    let seg = duplicate_heavy_segment();
    let source_path = "src/dups.rs";
    let built = seg.materialize_rows(&every_row(&seg), Some(source_path));
    assert_eq!(built.len(), seg.row_count() as usize);

    for a in 0..seg.row_count() {
        for b in 0..seg.row_count() {
            let left = built.get(a as usize).expect("row a is inside the batch");
            let right = built.get(b as usize).expect("row b is inside the batch");
            let by_built_row = left.name == right.name
                && left.fql_kind == right.fql_kind
                && left.path == right.path
                && left.line == right.line;
            assert_eq!(
                RowView::of(&seg, Some(source_path), a).collapse_key()
                    == RowView::of(&seg, Some(source_path), b).collapse_key(),
                by_built_row,
                "rows {a} and {b}"
            );
        }
    }
}

/// `GROUP BY <field>` with nothing else written.
fn bare_group_by(field: &str) -> Clauses {
    Clauses {
        group_by: Some(GroupBy::Field(field.to_owned())),
        ..Clauses::default()
    }
}

#[test]
fn only_a_posted_enrichment_field_arms_the_count_path() {
    assert_eq!(
        group_by_enrichment_fast_path_field(&bare_group_by("naming"), true),
        Some("naming")
    );
    for field in ["param_count", "fql_kind", "kind", "file", "language", "name"] {
        assert_eq!(
            group_by_enrichment_fast_path_field(&bare_group_by(field), true),
            None,
            "GROUP BY {field}"
        );
    }
    assert_eq!(group_by_enrichment_fast_path_field(&Clauses::default(), true), None);
}

#[test]
fn uncommitted_rows_or_a_where_hand_the_group_back() {
    assert_eq!(
        group_by_enrichment_fast_path_field(&bare_group_by("naming"), false),
        None
    );
    let filtered = Clauses {
        where_predicates: vec![predicate("fql_kind", CompareOp::Eq, text("function"))],
        ..bare_group_by("naming")
    };
    assert_eq!(group_by_enrichment_fast_path_field(&filtered, true), None);
}

#[test]
fn count_and_the_grouped_field_are_the_only_two_the_group_row_answers() {
    let order_by = |field: &str| Clauses {
        order_by: Some(OrderBy {
            field: field.to_owned(),
            direction: SortDirection::Desc,
        }),
        ..bare_group_by("naming")
    };
    assert_eq!(
        group_by_enrichment_fast_path_field(&order_by("count"), true),
        Some("naming")
    );
    assert_eq!(
        group_by_enrichment_fast_path_field(&order_by("naming"), true),
        Some("naming")
    );
    for field in ["name", "line", "usages", "path"] {
        assert_eq!(
            group_by_enrichment_fast_path_field(&order_by(field), true),
            None,
            "ORDER BY {field}"
        );
    }

    let having = |field: &str| Clauses {
        having_predicates: vec![predicate(field, CompareOp::Gte, PredicateValue::Number(2))],
        ..bare_group_by("naming")
    };
    assert_eq!(
        group_by_enrichment_fast_path_field(&having("count"), true),
        Some("naming")
    );
    assert_eq!(group_by_enrichment_fast_path_field(&having("lines"), true), None);
}

#[test]
fn only_an_exact_kind_or_name_predicate_narrows_a_counted_file_group() {
    let with = |pred: Predicate| Clauses {
        where_predicates: vec![pred],
        ..bare_group_by("file")
    };
    assert!(group_by_file_fast_path_eligible(&bare_group_by("file"), true));
    assert!(group_by_file_fast_path_eligible(
        &with(predicate("fql_kind", CompareOp::Eq, text("function"))),
        true
    ));
    assert!(group_by_file_fast_path_eligible(
        &with(predicate("name", CompareOp::Eq, text("0"))),
        true
    ));
    for (label, pred) in [
        ("name LIKE", predicate("name", CompareOp::Like, text("%ab%"))),
        ("name MATCHES", predicate("name", CompareOp::Matches, text("^a"))),
        (
            "fql_kind = <number>",
            predicate("fql_kind", CompareOp::Eq, PredicateValue::Number(2)),
        ),
        ("fql_kind LIKE", predicate("fql_kind", CompareOp::Like, text("fun%"))),
        (
            "an enrichment predicate",
            predicate("lines", CompareOp::Gte, PredicateValue::Number(2)),
        ),
    ] {
        assert!(
            !group_by_file_fast_path_eligible(&with(pred), true),
            "{label} must go to the scan"
        );
    }
}

#[test]
fn count_and_the_file_are_the_only_two_the_file_group_row_answers() {
    let order_by = |field: &str| Clauses {
        order_by: Some(OrderBy {
            field: field.to_owned(),
            direction: SortDirection::Desc,
        }),
        ..bare_group_by("file")
    };
    assert!(group_by_file_fast_path_eligible(&order_by("count"), true));
    assert!(group_by_file_fast_path_eligible(&order_by("file"), true));
    assert!(group_by_file_fast_path_eligible(&order_by("path"), true));
    for field in ["name", "line", "usages", "fql_kind", "lines"] {
        assert!(!group_by_file_fast_path_eligible(&order_by(field), true), "ORDER BY {field}");
    }

    let having = |field: &str| Clauses {
        having_predicates: vec![predicate(field, CompareOp::Gte, PredicateValue::Number(2))],
        ..bare_group_by("file")
    };
    assert!(group_by_file_fast_path_eligible(&having("count"), true));
    assert!(!group_by_file_fast_path_eligible(&having("lines"), true));
}

#[test]
fn count_and_the_kind_are_the_only_two_the_kind_group_row_answers() {
    let order_by = |field: &str| Clauses {
        order_by: Some(OrderBy {
            field: field.to_owned(),
            direction: SortDirection::Desc,
        }),
        ..bare_group_by("fql_kind")
    };
    assert!(group_by_kind_fast_path_eligible(&order_by("count"), true));
    assert!(group_by_kind_fast_path_eligible(&order_by("fql_kind"), true));
    for field in ["name", "line", "usages", "path", "lines"] {
        assert!(!group_by_kind_fast_path_eligible(&order_by(field), true), "ORDER BY {field}");
    }

    let having = |field: &str| Clauses {
        having_predicates: vec![predicate(field, CompareOp::Gte, PredicateValue::Number(2))],
        ..bare_group_by("fql_kind")
    };
    assert!(group_by_kind_fast_path_eligible(&having("count"), true));
    for field in ["lines", "name"] {
        assert!(!group_by_kind_fast_path_eligible(&having(field), true), "HAVING {field}");
    }
}

#[test]
fn a_bare_page_is_what_the_name_stream_may_serve() {
    let page = |limit: Option<usize>| Clauses {
        limit,
        ..Clauses::default()
    };
    assert!(bare_limit_name_fast_path(&page(Some(5))));
    assert!(!bare_limit_name_fast_path(&page(None)));
    let scoped = Clauses {
        in_glob: Some("src/**".to_owned()),
        ..page(Some(5))
    };
    assert!(!bare_limit_name_fast_path(&scoped));
    let filtered = Clauses {
        where_predicates: vec![predicate("name", CompareOp::Eq, text("a"))],
        ..page(Some(5))
    };
    assert!(!bare_limit_name_fast_path(&filtered));
}

#[test]
fn a_regex_waits_for_a_built_row_even_on_a_column_the_segment_holds() {
    let reader = one_row_segment();
    assert!(reader.answers_field("param_count", true, Accessor::Str));

    for op in [CompareOp::Matches, CompareOp::NotMatches] {
        assert!(
            predicate_waits_for_a_built_row(
                &reader,
                &predicate("param_count", op, text("^2$")),
                true
            ),
            "{op:?}"
        );
    }
}

#[test]
fn a_shadowed_name_is_routed_early_where_the_decision_is_made() {
    let mut b = SegmentBuilder::new("test", &[0x5E_u8; 20]);
    let row = b.emit_row(SymbolRow {
        name: "alpha",
        fql_kind: "function",
        language: "rust",
        line: 3,
        byte_start: 0,
        byte_end: 10,
        usages_count: 0,
    });
    b.set_field(row, "name", "the_identifier_child");
    let seg = b.finish();

    assert!(seg.columns.iter().any(|n| n == "name"));

    for value in [text("alpha"), PredicateValue::Number(42)] {
        let preds = vec![predicate("name", CompareOp::Eq, value)];
        assert!(!predicate_waits_for_a_built_row(&seg, &preds[0], true));
        let (early, late) = split_seg_predicates(&seg, &preds, true);
        assert_eq!(early.len(), 1);
        assert!(late.is_empty());
    }
}
