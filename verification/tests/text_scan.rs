//! Reading patterns, lines, files, paths and kinds.

use forgeql_storage::clauses::Clauses;
use forgeql_storage::columnar_storage::files::{dedupe_file_entries, FileEntry};
use forgeql_storage::columnar_storage::literals::{
    pattern_as_prefix, pattern_literals, split_qualified_name, PatternKind,
};
use forgeql_storage::columnar_storage::node_lookup::{
    content_end_line, content_end_line_in_bytes, join_path, newline_offsets,
};
use forgeql_storage::columnar_storage::outline::{
    outline_is_structural, parse_outline_node_target,
};
use forgeql_storage::columnar_storage::scan::{
    decode_text, holds, is_core_alphabet, lines_of, needle_pieces, unread_hint,
};
use forgeql_storage::filter::like_match;
use forgeql_storage::order::path_less;
use forgeql_storage::path_parts::{is_same_path, plain_path};
use forgeql_storage::paths::{
    glob_matches, glob_to_path_prefix, in_scope, parent_dir, segment_source_rel,
};

#[test]
fn prefix_one_char_wildcard() {
    assert_eq!(pattern_as_prefix("k%"), Some(b"k".to_vec()));
}

#[test]
fn prefix_one_char_underscore_wildcard() {
    assert_eq!(pattern_as_prefix("k_%"), Some(b"k".to_vec()));
}

#[test]
fn prefix_two_chars_wildcard() {
    assert_eq!(pattern_as_prefix("ab%"), Some(b"ab".to_vec()));
}

#[test]
fn prefix_three_char_literal_returns_none() {
    assert_eq!(pattern_as_prefix("abc%"), None);
}

#[test]
fn prefix_two_char_literal_then_underscore() {
    assert_eq!(pattern_as_prefix("k_a%"), Some(b"k".to_vec()));
}

#[test]
fn prefix_starts_with_percent_returns_none() {
    assert_eq!(pattern_as_prefix("%foo"), None);
}

#[test]
fn prefix_starts_with_underscore_returns_none() {
    assert_eq!(pattern_as_prefix("_k%"), None);
}

#[test]
fn prefix_suffix_pattern_returns_none() {
    assert_eq!(pattern_as_prefix("%k"), None);
}

#[test]
fn prefix_case_insensitive() {
    assert_eq!(pattern_as_prefix("AB%"), Some(b"ab".to_vec()));
}

#[test]
fn prefixes_are_lowered_beyond_ascii() {
    assert_eq!(pattern_as_prefix("Ä%"), Some("ä".as_bytes().to_vec()));
}

#[test]
fn needle_pieces_splits_at_every_non_identifier_character() {
    assert_eq!(needle_pieces("foo-bar.frozen"), vec!["foo", "bar", "frozen"]);
    assert_eq!(needle_pieces("zephyr/pm/device.h"), vec!["zephyr", "pm", "device"]);
    assert_eq!(needle_pieces("golden.json"), vec!["golden", "json"]);
}

#[test]
fn needle_pieces_drops_runs_no_recorder_could_have_stored() {
    assert!(needle_pieces("a.b").is_empty());
    assert_eq!(needle_pieces("9f.frozen"), vec!["frozen"]);
    assert_eq!(needle_pieces("_x9.2b"), vec!["_x9"]);
    assert!(needle_pieces("...").is_empty());
}

#[test]
fn a_literal_needle_demands_its_exact_form_not_its_pieces() {
    assert!(holds(r#"  "use": "foo-bar.frozen","#, "foo-bar.frozen", false));
    assert!(!holds(
        r#"  "foo-bar" and "frozen" both appear, apart"#,
        "foo-bar.frozen",
        false
    ));
}

#[test]
fn an_identifier_needle_matches_only_on_token_boundaries() {
    assert!(holds("    k_sleep(K_MSEC(10));", "k_sleep", true));
    assert!(holds("#define TIMEOUT 256", "256", true));

    assert!(!holds("    hash = sha256(buf);", "256", true));
    assert!(!holds("    k_sleep_forever();", "k_sleep", true));
    assert!(!holds("    my_k_sleep();", "k_sleep", true));

    // Punctuation, quotes and line ends are all boundaries.
    assert!(holds("k_sleep", "k_sleep", true));
    assert!(holds(r#"log("k_sleep")"#, "k_sleep", true));

    // A letter of any script continues the token.
    assert!(!holds("    ék_sleep();", "k_sleep", true));
    assert!(!holds("    k_sleepé();", "k_sleep", true));
    assert!(!holds("    привет_k_sleep();", "k_sleep", true));
    // A non-letter neighbour ends it, whatever its script.
    assert!(holds("    «k_sleep»", "k_sleep", true));

    // Asked literally, the same line does not care about boundaries.
    assert!(holds("    hash = sha256(buf);", "256", false));
}

#[test]
fn a_declared_utf16_document_is_text_and_an_undeclared_one_is_not() {
    let little_endian = |s: &str| {
        let mut out = vec![0xFF, 0xFE];
        for unit in s.encode_utf16() {
            out.extend_from_slice(&unit.to_le_bytes());
        }
        out
    };
    let big_endian = |s: &str| {
        let mut out = vec![0xFE, 0xFF];
        for unit in s.encode_utf16() {
            out.extend_from_slice(&unit.to_be_bytes());
        }
        out
    };

    assert_eq!(
        decode_text(&little_endian("CONFIG_IDLE=y\n")).as_deref(),
        Some("CONFIG_IDLE=y\n")
    );
    assert_eq!(
        decode_text(&big_endian("CONFIG_IDLE=y\n")).as_deref(),
        Some("CONFIG_IDLE=y\n")
    );

    let mut undeclared = little_endian("CONFIG_IDLE=y\n");
    let _: Vec<u8> = undeclared.drain(..2).collect();
    assert!(decode_text(&undeclared).is_none());

    // A mark followed by two NULs is UTF-32.
    assert!(decode_text(&[0xFF, 0xFE, 0x00, 0x00, 0x41, 0x00, 0x00, 0x00]).is_none());
}

#[test]
fn a_nul_means_binary_but_a_stray_legacy_byte_does_not() {
    let mut object = vec![0x00, 0x01, 0x02];
    object.extend_from_slice(b"k_sleep\n");
    assert!(decode_text(&object).is_none());

    let mut legacy = b"// caf".to_vec();
    legacy.push(0xE9);
    legacy.extend_from_slice(b"\nk_sleep();\n");
    let text = decode_text(&legacy).expect("one legacy byte does not make a file binary");
    assert!(text.contains("k_sleep"), "{text:?}");

    let mut marked = vec![0xEF, 0xBB, 0xBF];
    marked.extend_from_slice(b"k_sleep\n");
    assert_eq!(decode_text(&marked).as_deref(), Some("k_sleep\n"));
}

#[test]
fn utf16_pairs_and_strays_are_read() {
    let mut le = vec![0xFF, 0xFE];
    for unit in "a😀b".encode_utf16() {
        le.extend_from_slice(&unit.to_le_bytes());
    }
    assert_eq!(decode_text(&le).as_deref(), Some("a😀b"));

    // A lone surrogate is replaced.
    let stray = [0xFE, 0xFF, 0xD8, 0x3D, 0x00, 0x41];
    assert_eq!(decode_text(&stray).as_deref(), Some("\u{FFFD}A"));
}

#[test]
fn invalid_bytes_are_replaced_not_dropped() {
    assert_eq!(decode_text(b"a\xE9b").as_deref(), Some("a\u{FFFD}b"));
}

#[test]
fn in_scope_expands_a_bare_directory_into_its_subtree() {
    let clauses = Clauses {
        in_glob: Some("crates/forgeql-core".to_owned()),
        ..Clauses::default()
    };
    assert!(in_scope("crates/forgeql-core/src/lib.rs", &clauses));
    assert!(!in_scope("crates/forgeql/src/main.rs", &clauses));
}

#[test]
fn in_scope_honours_exclude_over_include() {
    let clauses = Clauses {
        in_glob: Some("crates/**".to_owned()),
        exclude_globs: vec!["crates/forgeql-core/tests/**".to_owned()],
        ..Clauses::default()
    };
    assert!(in_scope("crates/forgeql-core/src/lib.rs", &clauses));
    assert!(!in_scope("crates/forgeql-core/tests/common/mod.rs", &clauses));
}

#[test]
fn in_scope_keeps_everything_when_the_query_named_no_scope() {
    assert!(in_scope("anywhere/at/all.rs", &Clauses::default()));
}

fn entry(path: &str, size: u64) -> FileEntry {
    FileEntry {
        path: path.into(),
        extension: "rs".to_owned(),
        size,
        depth: None,
        count: None,
        error_count: None,
        parse_coverage: None,
        node_id: None,
        rev: None,
    }
}

#[test]
fn dedupe_keeps_last_entry_per_path_and_preserves_order() {
    let mut entries = vec![
        entry("a.rs", 10),
        entry("b.rs", 20),
        entry("a.rs", 30),
        entry("c.rs", 40),
    ];
    dedupe_file_entries(&mut entries);
    let got: Vec<(String, u64)> = entries.iter().map(|e| (e.path.clone(), e.size)).collect();
    assert_eq!(
        got,
        vec![
            ("b.rs".to_owned(), 20),
            ("a.rs".to_owned(), 30),
            ("c.rs".to_owned(), 40)
        ]
    );
}

#[test]
fn content_end_line_excludes_trailing_newline() {
    // "ab\ncd\n": newlines at 2 and 5.
    let newlines = [2usize, 5];
    assert_eq!(content_end_line(&newlines, 3), 1);
    assert_eq!(content_end_line(&newlines, 2), 1);
    assert_eq!(content_end_line(&newlines, 5), 2);
}

#[test]
fn content_end_line_in_bytes_trims_trailing_blank() {
    let bytes = b"row\n\nnext\n";
    assert_eq!(content_end_line_in_bytes(bytes, 5), 1);
    assert_eq!(content_end_line_in_bytes(bytes, 3), 1);
    assert_eq!(content_end_line_in_bytes(bytes, 9), 3);
}

#[test]
fn newlines_are_found_where_they_stand() {
    assert_eq!(newline_offsets(b"ab\ncd\n"), vec![2, 5]);
    assert_eq!(newline_offsets(b""), Vec::<usize>::new());
}

#[test]
fn structural_includes_code_declarations() {
    assert!(outline_is_structural("function"));
    assert!(outline_is_structural("struct"));
    assert!(outline_is_structural("class"));
}

#[test]
fn structural_includes_data_containers() {
    assert!(outline_is_structural("object"));
    assert!(outline_is_structural("array"));
}

#[test]
fn structural_excludes_leaves_and_statements() {
    assert!(!outline_is_structural("pair"));
    assert!(!outline_is_structural("number"));
    assert!(!outline_is_structural("if"));
    assert!(!outline_is_structural(""));
}

#[test]
fn an_outline_target_is_a_node_handle_or_a_path() {
    assert_eq!(
        parse_outline_node_target("n0123456789ab.0007"),
        Some(("0123456789ab".to_owned(), 7))
    );
    assert_eq!(parse_outline_node_target("src/lib.rs"), None);
}

#[test]
fn like_reads_both_wildcards_and_minds_case() {
    assert!(like_match("helloWorld", "hello%"));
    assert!(!like_match("HelloWorld", "hello%"));
    assert!(like_match("cat", "c_t"));
    assert!(!like_match("coat", "c_t"));
    assert!(like_match("", "%"));
    assert!(!like_match("abc", "abd"));
}

#[test]
fn literal_runs_of_a_pattern_are_what_every_match_holds() {
    assert_eq!(pattern_literals(PatternKind::Like, "%foo_bar%"), vec!["foo", "bar"]);
}

#[test]
fn a_qualified_name_splits_at_its_last_separator() {
    assert_eq!(
        split_qualified_name("Foo::bar"),
        ("bar".to_owned(), Some("Foo".to_owned()))
    );
    assert_eq!(split_qualified_name("bar"), ("bar".to_owned(), None));
}

#[test]
fn lines_end_at_newlines_and_drop_the_carriage_return() {
    assert_eq!(lines_of("a\r\nb\n\nc"), vec!["a", "b", "", "c"]);
    assert_eq!(lines_of("a\n"), vec!["a"]);
}

#[test]
fn identifiers_are_told_from_other_needles() {
    assert!(is_core_alphabet("k_sleep9"));
    assert!(!is_core_alphabet("foo-bar"));
}

#[test]
fn unread_files_are_told_of() {
    assert!(unread_hint(0, "x").is_none());
    let hint = unread_hint(3, "x").expect("a hint");
    assert!(hint.contains('3') && hint.contains('x'), "{hint}");
}

#[test]
fn globs_select_by_component_and_by_subtree() {
    assert!(glob_matches("src/a/b.rs", "src/**"));
    assert!(glob_matches("src/a.rs", "src/*.rs"));
    assert!(!glob_matches("src/a/b.rs", "src/*.rs"));
    assert_eq!(glob_to_path_prefix("src/lib/**"), Some("src/lib/".to_owned()));
    assert_eq!(glob_to_path_prefix("*.rs"), None);
}

#[test]
fn a_path_is_made_relative_to_the_worktree() {
    assert_eq!(segment_source_rel("/work/src/a.rs", "/work"), "src/a.rs");
    assert_eq!(segment_source_rel("src/a.rs", "/work"), "src/a.rs");
    assert_eq!(segment_source_rel("/w//a.rs", "/w"), "a.rs");
    assert_eq!(segment_source_rel("/w/./src//./a.rs", "/w/"), "src/a.rs");
    assert_eq!(segment_source_rel("/w", "/w"), "");
    assert_eq!(segment_source_rel("/work2/a.rs", "/work"), "/work2/a.rs");
    assert_eq!(segment_source_rel("/w/../a.rs", "/w"), "../a.rs");
}

#[test]
fn a_path_lies_in_its_parent() {
    assert_eq!(parent_dir("/c/segments"), Some("/c".to_owned()));
    assert_eq!(parent_dir("/c//x/./segments//"), Some("/c/x".to_owned()));
    assert_eq!(parent_dir("/c"), Some("/".to_owned()));
    assert_eq!(parent_dir("c"), Some(String::new()));
    assert_eq!(parent_dir("/"), None);
    assert_eq!(parent_dir(""), None);
}

#[test]
fn a_key_does_not_depend_on_the_worktree() {
    for path in ["src/a.rs", "a.rs", "../a.rs", "a/b/c", "a/..", "é/z", ""] {
        for root in ["/work", "/work/", "/", "", "w", "./w", "/a/b//c/."] {
            assert_eq!(segment_source_rel(&join_path(root, path), root), path, "{root:?}");
        }
        assert_eq!(segment_source_rel(path, "/work"), path);
    }
    // What opens with the directory itself comes back without it, where there is a root.
    assert_eq!(segment_source_rel(&join_path("/work", "./a.rs"), "/work"), "a.rs");
    assert_eq!(segment_source_rel(&join_path("", "./a.rs"), ""), "./a.rs");
    assert_eq!(segment_source_rel("./a.rs", "/work"), "./a.rs");
}

#[test]
fn paths_are_ordered_as_std_orders_them() {
    let paths = [
        "", "/", ".", "..", "a", "a/", "a/b", "a//b", "a/./b", "./a", "../a", "!a", "a.b", "a/b/c",
        "a-b", "/a", "/a/b", "b", "aa", "a/..", "é", "z",
    ];
    for a in paths {
        for b in paths {
            let (x, y) = (std::path::Path::new(a), std::path::Path::new(b));
            assert_eq!(path_less(a, b), x < y, "{a:?} {b:?}");
            assert_eq!(is_same_path(a, b), x == y, "{a:?} {b:?}");
            assert_eq!(std::path::Path::new(&plain_path(a)), x);
        }
    }
}
