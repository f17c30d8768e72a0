//! Cache generations, the store's manifest, and decodes that sessions share.

use forgeql_storage::backend_set::{Backend, BackendSet};
use forgeql_storage::build_context::{ColumnarBuildContext, ENRICH_VER};
use forgeql_storage::columnar_storage::ColumnarStorage;
use forgeql_storage::digest::{git_blob_id, sha256_of_path};
use forgeql_storage::gc::{
    classify, human_bytes, parse_version, plan_deletions, plan_entries, version_dir,
    VacuumAction, VacuumOptions, VersionClass, VersionDir,
};
use forgeql_storage::manifest::Manifest;
use forgeql_storage::node_id::{
    decode_hex_prefix, make_node_id, shortest_prefix_len, MIN_PREFIX_LEN,
};
use forgeql_storage::open_cache::{Asked, OpenCache, OpenKey, Opened, Resumed};
use forgeql_storage::text::{bytes_to_hex, hex_prefix};
use std::collections::HashMap;
use std::sync::{Arc, Weak};

#[test]
fn parse_version_extracts_trailing_number_ignoring_provider() {
    assert_eq!(parse_version("git-sha1-v24"), Some(24));
    assert_eq!(parse_version("git-sha256-v7"), Some(7));
    assert_eq!(parse_version("mock-v0"), Some(0));
}

#[test]
fn parse_version_rejects_non_version_names() {
    assert_eq!(parse_version("git-sha1"), None);
    assert_eq!(parse_version("git-sha1-vX"), None);
    assert_eq!(parse_version("git-sha1-v"), None);
    assert_eq!(parse_version(""), None);
    assert_eq!(parse_version(&["manifest", "json"].join(".")), None);
}

fn dir(name: &str, version: u32, class: VersionClass) -> VersionDir {
    VersionDir {
        path: name.to_string(),
        name: name.to_string(),
        version,
        class,
        size_bytes: 0,
    }
}

#[test]
fn default_plan_deletes_only_older_versions() {
    let dirs = vec![
        dir("a-v25", 25, VersionClass::Current),
        dir("a-v26", 26, VersionClass::Newer),
        dir("a-v24", 24, VersionClass::Older),
        dir("a-v23", 23, VersionClass::Older),
    ];
    let del = plan_deletions(&dirs, VacuumOptions::default());
    assert_eq!(del, vec![2, 3]);
}

#[test]
fn keep_retains_the_n_highest_older_versions() {
    let dirs = vec![
        dir("a-v24", 24, VersionClass::Older),
        dir("a-v23", 23, VersionClass::Older),
        dir("a-v22", 22, VersionClass::Older),
    ];
    let del = plan_deletions(&dirs, VacuumOptions { keep: 1, all: false });
    assert_eq!(del, vec![1, 2]);
}

#[test]
fn keep_counts_distinct_versions_across_provider_prefixes() {
    let dirs = vec![
        dir("git-sha1-v24", 24, VersionClass::Older),
        dir("git-sha256-v24", 24, VersionClass::Older),
        dir("git-sha1-v23", 23, VersionClass::Older),
    ];
    let del = plan_deletions(&dirs, VacuumOptions { keep: 1, all: false });
    assert_eq!(del, vec![2]);
}

#[test]
fn all_selects_every_directory() {
    let dirs = vec![
        dir("a-v25", 25, VersionClass::Current),
        dir("a-v26", 26, VersionClass::Newer),
        dir("a-v24", 24, VersionClass::Older),
    ];
    let del = plan_deletions(&dirs, VacuumOptions { keep: 0, all: true });
    assert_eq!(del, vec![0, 1, 2]);
}

#[test]
fn keeping_more_deletes_less() {
    let dirs = vec![
        dir("a-v24", 24, VersionClass::Older),
        dir("a-v23", 23, VersionClass::Older),
        dir("a-v22", 22, VersionClass::Older),
    ];
    let mut last = usize::MAX;
    for keep in 0..5 {
        let del = plan_deletions(&dirs, VacuumOptions { keep, all: false });
        assert!(del.len() <= last);
        last = del.len();
    }
    assert_eq!(last, 0);
}

#[test]
fn generations_are_classed_against_this_build() {
    assert_eq!(classify(ENRICH_VER), VersionClass::Current);
    assert_eq!(classify(ENRICH_VER + 1), VersionClass::Newer);
    assert_eq!(classify(ENRICH_VER - 1), VersionClass::Older);
    let d = version_dir("/cache/git-sha1-v3", "git-sha1-v3", 12).expect("a generation");
    assert_eq!((d.version, d.class, d.size_bytes), (3, VersionClass::Older, 12));
    assert!(version_dir("/cache/overlays", "overlays", 1).is_none());
}

#[test]
fn a_plan_tells_what_becomes_of_each_directory() {
    let dirs = vec![
        dir("a-v24", 24, VersionClass::Older),
        dir("a-v25", 25, VersionClass::Current),
    ];
    let plan = plan_entries("repo", &dirs, VacuumOptions::default());
    assert_eq!(plan.len(), 2);
    assert_eq!(plan[0].source, "repo");
    assert_eq!(plan[0].action, VacuumAction::Delete);
    assert_eq!(plan[1].action, VacuumAction::Keep);
    assert_eq!(VacuumAction::Delete.as_str(), "delete");
    assert_eq!(VacuumAction::Keep.as_str(), "keep");
}

#[test]
fn sizes_are_told_in_the_largest_unit_that_fits() {
    assert_eq!(human_bytes(0), "0 B");
    assert_eq!(human_bytes(1023), "1023 B");
    assert_eq!(human_bytes(1024), "1.0 KiB");
    assert_eq!(human_bytes(1536 * 1024 * 1024), "1.5 GiB");
    assert_eq!(human_bytes(1024 * 1024 - 1), "1024.0 KiB");
    assert_eq!(human_bytes(1280), "1.2 KiB");
    assert_eq!(human_bytes(1792), "1.8 KiB");
    assert_eq!(human_bytes(u64::MAX), "16777216.0 TiB");
}

#[test]
fn sizes_are_rounded_as_a_double_is_shown() {
    let units = ["B", "KiB", "MiB", "GiB", "TiB"];
    let shown = |bytes: u64| {
        let mut val = bytes as f64;
        let mut unit = 0;
        while val >= 1024.0 && unit < units.len() - 1 {
            val /= 1024.0;
            unit += 1;
        }
        if unit == 0 {
            format!("{bytes} B")
        } else {
            format!("{val:.1} {}", units[unit])
        }
    };
    let mut seed: u64 = 88172645463325252;
    for round in 0..20000u64 {
        seed ^= seed << 13;
        seed ^= seed >> 7;
        seed ^= seed << 17;
        for bytes in [
            seed >> (round % 64),
            // Halfway between two tenths, and next to it.
            (round * 2 + 1) << (9 + round % 30),
            ((round * 5 + 1) << 38).wrapping_sub(round % 3),
        ] {
            assert_eq!(human_bytes(bytes), shown(bytes), "{bytes}");
        }
    }
}

// ───────────────────────────── the store's manifest ─────────────────────────────

#[test]
fn update_merges_columns() {
    let mut m = Manifest::default();
    m.update("git-sha1", &vec!["param_count".to_owned(), "is_const".to_owned()], 3);
    m.update("git-sha1", &vec!["is_const".to_owned(), "naming".to_owned()], 2);
    assert_eq!(m.segment_count, 5);
    assert!(m.column_registry.contains(&"param_count".to_owned()));
    assert!(m.column_registry.contains(&"is_const".to_owned()));
    assert!(m.column_registry.contains(&"naming".to_owned()));
    assert_eq!(m.column_registry, vec!["is_const", "naming", "param_count"]);
    assert_eq!(m.schema_version, 1);
    assert_eq!(m.provider_id, "git-sha1");
}

#[test]
fn load_missing_returns_default() {
    let m = Manifest::default();
    assert_eq!(m.segment_count, 0);
    assert!(m.provider_id.is_empty());
}

#[test]
fn the_segment_count_does_not_wrap() {
    let mut m = Manifest::default();
    m.update("p", &vec![], u64::MAX);
    m.update("p", &vec![], 2);
    assert_eq!(m.segment_count, u64::MAX);
}

// ───────────────────────────── shared decodes ─────────────────────────────

fn key(overlay: &str) -> OpenKey {
    OpenKey::new(overlay, "segments-v1")
}

/// A cache with the values that its numbers stand for. A value lives as long as somebody holds it.
struct Sessions {
    cache: OpenCache,
    values: HashMap<u64, Weak<u32>>,
    made: u64,
    builds: usize,
}

impl Sessions {
    fn new() -> Sessions {
        Sessions {
            cache: OpenCache::new(),
            values: HashMap::new(),
            made: 0,
            builds: 0,
        }
    }

    /// What the key's number stands for, where somebody still holds it.
    fn peek(&mut self, key: &OpenKey) -> Option<Arc<u32>> {
        let number = self.cache.lookup(key)?;
        let live = self.values.get(&number).and_then(Weak::upgrade);
        if live.is_none() {
            self.cache.forget(key);
        }
        live
    }

    fn get_or_open(
        &mut self,
        key: &OpenKey,
        made: Option<(u32, bool)>,
    ) -> Option<Arc<u32>> {
        let held = self.peek(key);
        let gate = match self.cache.ask(key, 0) {
            Asked::Held(_) => return held,
            Asked::Wait(gate) => gate,
        };
        if let Resumed::Held(_) = self.cache.resumed(key, gate) {
            unreachable!("nobody else is here to open");
        }
        self.builds += 1;
        let shared = made.map(|(value, shareable)| (Arc::new(value), shareable));
        let opened = shared.as_ref().map(|(shared, shareable)| {
            let number = self.made;
            self.made += 1;
            self.values.insert(number, Arc::downgrade(shared));
            Opened { value: number, shareable: *shareable }
        });
        self.cache.opened(key, gate, opened);
        shared.map(|(shared, _)| shared)
    }
}

#[test]
fn releasing_a_gate_you_do_not_hold_leaves_the_owner_alone() {
    let mut cache = OpenCache::new();
    let owner = cache.take_gate(&key("a"), 1);
    let stranger = owner + 1;

    cache.release_gate(&key("a"), stranger);
    assert_eq!(cache.take_gate(&key("a"), 7), owner);

    cache.release_gate(&key("a"), owner);
    assert!(cache.gates.is_empty());
}

#[test]
fn peeking_answers_without_opening_and_leaves_nothing_behind() {
    let mut s = Sessions::new();

    assert!(s.cache.lookup(&key("a")).is_none());
    assert!(s.cache.gates.is_empty());

    let opened = s.get_or_open(&key("a"), Some((1, true))).unwrap();
    assert_eq!(s.builds, 1);

    assert!(s.peek(&key("a")).is_some_and(|hit| Arc::ptr_eq(&hit, &opened)));

    drop(opened);
    assert!(s.peek(&key("a")).is_none());
}

#[test]
fn an_unshareable_decode_is_served_but_not_cached() {
    let mut s = Sessions::new();

    let partial = s.get_or_open(&key("a"), Some((1, false))).unwrap();
    assert_eq!(*partial, 1);

    let next = s.get_or_open(&key("a"), Some((2, true))).unwrap();
    assert_eq!(*next, 2);
    assert_eq!(s.builds, 2);
    assert!(!Arc::ptr_eq(&partial, &next));
}

#[test]
fn a_second_open_of_one_key_reuses_the_first_decode() {
    let mut s = Sessions::new();
    let first = s.get_or_open(&key("a"), Some((7, true))).unwrap();
    let second = s.get_or_open(&key("a"), Some((7, true))).unwrap();
    assert!(Arc::ptr_eq(&first, &second));
    assert_eq!(s.builds, 1);
}

#[test]
fn distinct_overlays_do_not_share_an_entry() {
    let mut s = Sessions::new();
    let a = s.get_or_open(&key("a"), Some((1, true))).unwrap();
    let b = s.get_or_open(&key("b"), Some((2, true))).unwrap();
    assert!(!Arc::ptr_eq(&a, &b));
    assert_eq!(s.builds, 2);
}

#[test]
fn the_segment_root_is_part_of_the_key() {
    let mut s = Sessions::new();
    let same_overlay_first = OpenKey::new("overlay.bin", "segments-v1");
    let same_overlay_second = OpenKey::new("overlay.bin", "segments-v2");
    let first = s.get_or_open(&same_overlay_first, Some((1, true))).unwrap();
    let second = s.get_or_open(&same_overlay_second, Some((2, true))).unwrap();
    assert!(!Arc::ptr_eq(&first, &second));
    assert_eq!(s.builds, 2);
}

#[test]
fn an_entry_no_session_holds_is_freed_not_resurrected() {
    let mut s = Sessions::new();
    drop(s.get_or_open(&key("a"), Some((1, true))).unwrap());
    drop(s.get_or_open(&key("a"), Some((1, true))).unwrap());
    assert_eq!(s.builds, 2);
}

#[test]
fn a_live_holder_is_what_prevents_a_second_decode() {
    let mut s = Sessions::new();
    let held = s.get_or_open(&key("a"), Some((1, true))).unwrap();
    drop(s.get_or_open(&key("b"), Some((2, true))).unwrap());
    let again = s.get_or_open(&key("a"), Some((1, true))).unwrap();
    assert!(Arc::ptr_eq(&held, &again));
    assert_eq!(s.builds, 2);
}

#[test]
fn a_key_is_its_paths_however_they_are_spelled() {
    let mut cache = OpenCache::new();
    let (plain, odd) = (OpenKey::new("/o/x.bin", "/s"), OpenKey::new("/o//./x.bin", "/s/"));
    cache.opened(&plain, 0, Some(Opened { value: 3, shareable: true }));
    assert_eq!(cache.ask(&odd, 1), Asked::Held(3));
    cache.forget(&odd);
    assert_eq!(cache.lookup(&plain), None);
    let other = OpenKey::new("/o/x.bin", "s");
    assert_eq!(cache.ask(&plain, 1), Asked::Wait(1));
    assert_eq!(cache.ask(&other, 2), Asked::Wait(2));
}

#[test]
fn a_shared_decode_is_handed_out_whatever_other_keys_do() {
    let mut cache = OpenCache::new();
    cache.opened(&key("a"), 0, Some(Opened { value: 3, shareable: true }));
    let Asked::Wait(gate) = cache.ask(&key("b"), 1) else {
        panic!("nothing is open");
    };
    assert_eq!(cache.ask(&key("a"), 2), Asked::Held(3));
    assert_eq!(cache.resumed(&key("b"), gate), Resumed::Open);
    cache.opened(&key("b"), gate, None);
    assert_eq!(cache.ask(&key("a"), 3), Asked::Held(3));
    cache.opened(&key("b"), gate, Some(Opened { value: 4, shareable: true }));
    cache.forget(&key("b"));
    assert_eq!(cache.ask(&key("a"), 4), Asked::Held(3));
    assert!(cache.gates.is_empty());
    cache.forget(&key("a"));
    assert_eq!(cache.ask(&key("a"), 5), Asked::Wait(5));
}

/// Four callers arrive before any of them has opened: all wait for one lock, and only the first
/// finds nothing under the key once it has it.
#[test]
fn concurrent_first_opens_of_one_key_decode_once() {
    let mut cache = OpenCache::new();
    let gates: Vec<u64> = (0..4)
        .map(|own| match cache.ask(&key("a"), own) {
            Asked::Wait(gate) => gate,
            Asked::Held(_) => panic!("nothing is open"),
        })
        .collect();
    assert!(gates.windows(2).all(|pair| pair[0] == pair[1]));

    let mut builds = 0;
    let mut got = Vec::new();
    for gate in gates {
        match cache.resumed(&key("a"), gate) {
            Resumed::Held(hit) => got.push(hit),
            Resumed::Open => {
                builds += 1;
                cache.opened(&key("a"), gate, Some(Opened { value: 41, shareable: true }));
                got.push(41);
            }
        }
    }
    assert_eq!(builds, 1);
    assert_eq!(got, vec![41; 4]);
    assert!(cache.gates.is_empty());
    assert_eq!(cache.ask(&key("a"), 9), Asked::Held(41));
}

#[test]
fn a_failed_open_is_not_cached_and_leaves_the_key_usable() {
    let mut s = Sessions::new();
    assert!(s.get_or_open(&key("a"), None).is_none());
    assert!(s.cache.lookup(&key("a")).is_none());
    assert!(s.cache.gates.is_empty());
    let recovered = s.get_or_open(&key("a"), Some((5, true))).unwrap();
    assert_eq!(*recovered, 5);
    assert_eq!(s.builds, 2);
}

#[test]
fn the_key_of_a_context_names_its_segment_root() {
    let one = ColumnarBuildContext::new("/a/segs".into(), "/o".into(), "git-sha1".into());
    let two = ColumnarBuildContext::new("/b/segs".into(), "/o".into(), "git-sha1".into());
    let a = ColumnarStorage::open_key(&one, "/o/x.bin");
    let b = ColumnarStorage::open_key(&two, "/o/x.bin");
    assert_eq!(a.overlay_path, b.overlay_path);
    assert_eq!(a.segments_root, format!("/a/segs/git-sha1-v{ENRICH_VER}"));
    assert_ne!(a.segments_root, b.segments_root);
}

#[test]
fn a_session_without_a_columnar_engine_says_so() {
    let mut set = BackendSet::new(1);
    assert!(!set.has_columnar());
    let Err(e) = set.engine_for(&Backend::Columnar) else {
        panic!("not enabled");
    };
    assert!(e.message().contains("columnar.shadow_write"));
    set.set_columnar(2);
    assert_eq!(set.engine_for(&Backend::Columnar).ok(), Some(&2));
    assert_eq!(set.engine_for(&Backend::Legacy).ok(), Some(&1));
    *set.default_engine_mut() = 5;
    assert_eq!(*set.default_engine(), 5);
    let both = BackendSet::new(3).with_columnar(4);
    assert_eq!(both.engine_for(&Backend::Columnar).ok(), Some(&4));
    assert_eq!(*both.legacy(), 3);
}

#[test]
fn digests_are_those_of_the_algorithms() {
    assert_eq!(git_blob_id(b"hello\n"), "ce013625030ba8dba906f756967f9e9ca394464a");
    assert_eq!(
        bytes_to_hex(&sha256_of_path("")),
        "e3b0c44298fc1c149afbf4c8996fb92427ae41e4649b934ca495991b7852b855"
    );
}

#[test]
fn handles_carry_the_fingerprint_of_their_path() {
    let digest = sha256_of_path("src/lib.rs");
    let id = make_node_id("src/lib.rs", 7);
    assert_eq!(id, format!("n{}.0007", hex_prefix(&digest, MIN_PREFIX_LEN)));
    let mut near = digest;
    near[31] ^= 1;
    assert_eq!(shortest_prefix_len(&digest, &vec![digest]), MIN_PREFIX_LEN);
    assert_eq!(shortest_prefix_len(&digest, &vec![digest, near]), 64);
    assert_eq!(decode_hex_prefix(b"0aFF"), Some(vec![0x0a, 0xff]));
    assert_eq!(decode_hex_prefix(b"0g"), None);
}

#[test]
fn the_files_of_a_store_are_named_by_generation_and_content() {
    let ctx = ColumnarBuildContext::new("/c/segments".into(), "/c/overlays".into(), "p".into());
    let gen = format!("p-v{ENRICH_VER}");
    assert_eq!(ctx.versioned_provider(), gen);
    assert_eq!(ctx.segment_path_for("abcdef"), format!("/c/segments/{gen}/ab/cdef.fqsf"));
    assert_eq!(ctx.overlay_path_for("abcdef"), format!("/c/overlays/{gen}/ab/cdef.bin"));
    assert_eq!(ctx.chain_manifest_path_for("abcdef"), format!("/c/overlays/{gen}/ab/cdef.chain"));
    assert_eq!(ctx.manifest_path(), format!("/c/manifest-{gen}.json"));
    assert_ne!(
        ctx.segment_path_of("a.rs", "abcdef"),
        ctx.segment_path_of("b.rs", "abcdef"),
        "two files with the same bytes have segments of their own"
    );
}
