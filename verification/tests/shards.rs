use meta_call_lsp::index::snapshot::IndexSnapshot;
use meta_call_lsp::index::{Analysis, ContentHash};
use meta_call_lsp::model::{FileExtraction, Fingerprint};
use meta_call_lsp::path::DocPath;
use meta_call_lsp::shards::io::{
    bucket_for, bucket_name, civil_from_days, hex, is_safe_shard_name, timestamp,
};
use meta_call_lsp::shards::{
    absolute_path, absolute_under_root, admit_record, admit_records, bucket_files,
    buckets_to_write,
    check_tool_version, count_seeded, expected_hashes, is_orphan, load_outcome, load_stats,
    matches_hash, new_manifest, plan_save, referenced_buckets, relative, seed_payload,
    shards_to_read, touched_buckets, Admission, CacheRead, Fate, FileMeta, LoadStats, Manifest,
    ManifestRecord, Payload, Seeding, ShardSkip,
};
use meta_call_lsp::types::RootDir;

fn path(text: &str) -> DocPath {
    DocPath::new(text.to_string())
}

fn root() -> RootDir {
    RootDir::try_from(&path("/w"), true).expect("root")
}

fn record(stored: &str, hash: &str, shard: &str) -> ManifestRecord {
    ManifestRecord {
        path: path(stored),
        content_hash: hash.to_string(),
        shard: shard.to_string(),
        size: 3,
        mtime: 7,
    }
}

fn line(record: &ManifestRecord) -> (String, String, String, u64, u64) {
    (
        record.path.as_str().to_string(),
        record.content_hash.clone(),
        record.shard.clone(),
        record.size,
        record.mtime,
    )
}

fn lines(records: &[ManifestRecord]) -> Vec<(String, String, String, u64, u64)> {
    records.iter().map(line).collect()
}

fn fingerprint(bytes: &[u8]) -> Fingerprint {
    Fingerprint {
        bytes: *meta_ast::Fingerprint::of(bytes).as_bytes(),
    }
}

fn file(text: &str) -> FileExtraction {
    FileExtraction {
        path: path(text),
        symbols: vec![],
        references: vec![],
        call_sites: vec![],
    }
}

fn snapshot(files: &[(&str, Option<&[u8]>)]) -> IndexSnapshot {
    IndexSnapshot::new(Analysis {
        extractions: files.iter().map(|(name, _)| file(name)).collect(),
        references: vec![],
        client_calls: vec![],
        edges: vec![],
        files: vec![],
        scope: vec![],
        diagnostics: vec![],
        content_hashes: files
            .iter()
            .filter_map(|(name, bytes)| {
                bytes.map(|bytes| ContentHash {
                    path: path(name),
                    hash: fingerprint(bytes),
                })
            })
            .collect(),
        versions: vec![],
        generation: 1,
    })
}

fn hash_of(bytes: &[u8]) -> String {
    meta_ast::ShardManifestRecord::compute_hash(bytes)
}

#[test]
fn shards_civil_from_days_matches_known_dates() {
    assert_eq!(civil_from_days(0), (1970, 1, 1));
    assert_eq!(civil_from_days(19_723), (2024, 1, 1));
    assert_eq!(civil_from_days(20_000), (2024, 10, 4));
}

#[test]
fn io_civil_from_days_matches_known_dates() {
    assert_eq!(civil_from_days(0), (1970, 1, 1));
    assert_eq!(civil_from_days(19_723), (2024, 1, 1));
    assert_eq!(civil_from_days(20_000), (2024, 10, 4));
}

#[test]
fn leap_days_and_old_dates_are_exact() {
    assert_eq!(civil_from_days(-1), (1969, 12, 31));
    assert_eq!(civil_from_days(11_016), (2000, 2, 29));
    assert_eq!(civil_from_days(11_017), (2000, 3, 1));
    assert_eq!(civil_from_days(-25_509), (1900, 2, 28));
    assert_eq!(civil_from_days(-25_508), (1900, 3, 1));
    assert_eq!(civil_from_days(-719_468), (0, 3, 1));
    assert_eq!(civil_from_days(-719_469), (0, 2, 29));
}

#[test]
fn timestamp_is_iso_8601() {
    let stamp = timestamp(1_728_000_123);
    assert_eq!(stamp.len(), 20);
    assert!(stamp.ends_with('Z'));
    assert_eq!(&stamp[4..5], "-");
    assert_eq!(&stamp[10..11], "T");
    assert_eq!(stamp, "2024-10-04T00:02:03Z");
    assert_eq!(timestamp(0), "1970-01-01T00:00:00Z");
}

#[test]
fn unsafe_shard_names_are_rejected() {
    assert!(is_safe_shard_name("shards/000.jsonl"));
    assert!(!is_safe_shard_name("shards/../secret"));
    assert!(!is_safe_shard_name("/etc/passwd"));
    assert!(!is_safe_shard_name("000.jsonl"));
    assert!(!is_safe_shard_name(""));
    assert!(!is_safe_shard_name("./shards/000.jsonl"));
}

#[test]
fn derived_bucket_names_stay_under_shards() {
    for byte in 0..=255u8 {
        let hash = format!("{byte:02x}").repeat(32);
        let name = bucket_for(&hash);
        let path = std::path::Path::new(&name);
        assert_eq!(path.parent(), Some(std::path::Path::new("shards")));
        assert!(path.file_name().is_some());
        assert!(!name.contains(".."));
        assert!(is_safe_shard_name(&name));
    }
}

#[test]
fn bucket_assignment_is_stable_and_in_range() {
    let hex = "00ff8811".repeat(8);
    assert_eq!(bucket_for(&hex), bucket_name(0));
    let hex_ff = "ff".to_string() + &"a1".repeat(31);
    assert_eq!(bucket_for(&hex_ff), bucket_name(15));
    assert_eq!(bucket_name(15), "shards/015.jsonl");
    assert_eq!(bucket_name(16), "shards/000.jsonl");
}

#[test]
fn a_hash_without_a_leading_byte_goes_to_the_first_bucket() {
    for hash in ["", "f", "zz", "-f", "é1", "f中", "+", "++"] {
        assert_eq!(bucket_for(hash), bucket_name(0), "{hash:?}");
    }
    assert_eq!(bucket_for("+f"), bucket_name(15));
    assert_eq!(bucket_for("1E"), bucket_name(14));
}

#[test]
fn hex_matches_known_vectors() {
    assert_eq!(hex(&[]), "");
    assert_eq!(hex(&[0xde, 0xad, 0xbe, 0xef]), "deadbeef");
    assert_eq!(hex(&[0x00, 0x09, 0x90, 0xff]), "000990ff");
}

#[test]
fn reuse_detects_unchanged_files_by_fingerprint() {
    let bytes = b"def greet(): pass\n";
    let hash = hash_of(bytes);
    let fp = fingerprint(bytes);
    assert_eq!(hex(&fp.bytes), hash);
    let other = hash_of(b"def changed(): pass\n");
    assert_ne!(hex(&fp.bytes), other);
    assert!(matches_hash(&bytes.to_vec(), &hash));
    assert!(!matches_hash(&bytes.to_vec(), &other));
}

#[test]
fn stored_paths_are_relative_to_the_root() {
    assert_eq!(relative(&root(), &path("/w/pkg/a.py")).as_str(), "pkg/a.py");
    assert_eq!(relative(&root(), &path("/x/a.py")).as_str(), "/x/a.py");
    for text in ["/w/pkg/a.py", "/w/b.py", "/w", "/w//c/./d.py", "/x/a.py"] {
        let stored = relative(&root(), &path(text));
        assert!(
            absolute_path(&root(), &stored).same(&path(text)),
            "{text} is found again under the root"
        );
    }
}

#[test]
fn reads_stay_under_the_root() {
    let inside = absolute_under_root(&root(), &path("pkg/a.py")).expect("inside");
    assert_eq!(inside.as_str(), "/w/pkg/a.py");
    let absolute = absolute_under_root(&root(), &path("/w/a.py")).expect("inside");
    assert_eq!(absolute.as_str(), "/w/a.py");
    assert!(absolute_under_root(&root(), &path("/etc/passwd")).is_none());
    for text in ["../secret.py", "pkg/../../secret.py", "/w/../secret.py", ".."] {
        assert!(
            absolute_under_root(&root(), &path(text)).is_none(),
            "{text} names a file outside the root"
        );
    }
    for text in ["a/../b.py", "/w/a/../b.py", "a/b/../../c.py"] {
        let inside = absolute_under_root(&root(), &path(text)).expect("inside");
        assert!(inside.as_str().starts_with("/w/a/"), "{text} stays below the root");
    }
    let climbing = RootDir::try_from(&path("/x/../w"), true).expect("root");
    assert!(absolute_under_root(&climbing, &path("a.py")).is_some());
    let bytes = b"secret".to_vec();
    assert!(matches!(
        admit_record(
            &root(),
            &record("../secret.py", &hash_of(&bytes), "shards/000.jsonl"),
            Some(true),
            Some(&bytes)
        ),
        Admission::OutsideRoot
    ));
}

#[test]
fn a_payload_is_seeded_only_for_the_bytes_it_describes() {
    let bytes = b"good".to_vec();
    let outcomes = vec![
        seed_payload(&Some(hash_of(&bytes)), Some(&bytes)),
        seed_payload(&Some(hash_of(b"old")), Some(&bytes)),
        seed_payload(&Some(hash_of(&bytes)), None),
        seed_payload(&None, Some(&bytes)),
    ];
    assert_eq!(
        outcomes,
        [
            Seeding::Seeded,
            Seeding::Stale,
            Seeding::Unreadable,
            Seeding::Unrecorded
        ]
    );
    assert_eq!(count_seeded(&outcomes), 1);
}

#[test]
fn another_engine_version_is_refused() {
    assert!(check_tool_version("0.7.1", "0.7.1").is_ok());
    assert_eq!(
        check_tool_version("0.0.0", "0.7.1").unwrap_err(),
        "index written by meta-ast 0.0.0"
    );
}

#[test]
fn a_first_save_writes_every_file_under_the_root() {
    let snapshot = snapshot(&[
        ("/w/a.py", Some(b"a")),
        ("/w/open.py", Some(b"open")),
        ("/elsewhere/b.py", Some(b"b")),
        ("/w/unhashed.py", None),
    ]);
    let previous = Manifest::new(vec![]);
    let planned = plan_save(&root(), &snapshot, &vec![path("/w/open.py")], &previous);
    let Fate::Written { hash, shard, .. } = &planned[0].fate else {
        panic!("a new file is written");
    };
    assert_eq!(hash, &hash_of(b"a"));
    assert_eq!(shard, &bucket_for(hash));
    assert_eq!(planned[0].stored.as_str(), "a.py");
    assert!(matches!(planned[1].fate, Fate::Left), "overlays are left out");
    assert!(matches!(planned[2].fate, Fate::Left), "outside the root");
    assert!(matches!(planned[3].fate, Fate::Unhashed));

    assert_eq!(touched_buckets(&planned, &previous), vec![shard.clone()]);
    let meta = FileMeta { size: 1, mtime: 9 };
    let metas = vec![Some(meta), None, None, None];
    let records = new_manifest(&planned, &metas, &previous);
    assert_eq!(
        lines(&records),
        vec![("a.py".to_string(), hash.clone(), shard.clone(), 1, 9)]
    );
    assert_eq!(referenced_buckets(&records), vec![shard.clone()]);
    assert_eq!(bucket_files(&planned, &metas, &previous, shard), vec![0]);
    assert!(bucket_files(&planned, &metas, &previous, "shards/other.jsonl").is_empty());
}

#[test]
fn second_save_without_changes_is_idempotent() {
    let snapshot = snapshot(&[("/w/a.py", Some(b"a")), ("/w/b.py", Some(b"b"))]);
    let (a, b) = (hash_of(b"a"), hash_of(b"b"));
    let previous = Manifest::new(vec![
        record("a.py", &a, &bucket_for(&a)),
        record("b.py", &b, &bucket_for(&b)),
    ]);
    let planned = plan_save(&root(), &snapshot, &vec![], &previous);
    assert!(matches!(planned[0].fate, Fate::Reused { previous: 0 }));
    assert!(matches!(planned[1].fate, Fate::Reused { previous: 1 }));
    assert!(touched_buckets(&planned, &previous).is_empty());
    let records = new_manifest(&planned, &vec![None, None], &previous);
    assert_eq!(
        lines(&records),
        lines(previous.records()),
        "unchanged files keep their records"
    );
}

/// One save: the manifest it writes, the buckets it writes, and their files.
fn save(
    snapshot: &IndexSnapshot,
    metas: &[(&str, FileMeta)],
    previous: &Manifest,
) -> (Vec<ManifestRecord>, Vec<(String, Vec<usize>)>) {
    let planned = plan_save(&root(), snapshot, &vec![], previous);
    let metas: Vec<Option<FileMeta>> = planned
        .iter()
        .map(|plan| {
            metas
                .iter()
                .find(|(name, _)| *name == plan.stored.as_str())
                .map(|(_, meta)| *meta)
        })
        .collect();
    let records = new_manifest(&planned, &metas, previous);
    let touched = touched_buckets(&planned, previous);
    let written = buckets_to_write(&referenced_buckets(&records), &touched)
        .into_iter()
        .map(|shard| {
            let files = bucket_files(&planned, &metas, previous, &shard);
            (shard, files)
        })
        .collect();
    (records, written)
}

#[test]
fn a_save_over_its_own_manifest_changes_nothing() {
    let snapshot = snapshot(&[
        ("/w/a.py", Some(b"a")),
        ("/w/b.py", Some(b"b")),
        ("/w/a.py", Some(b"a")),
        ("/w/gone.py", Some(b"b")),
        ("/w/unhashed.py", None),
    ]);
    let metas = [
        ("a.py", FileMeta { size: 1, mtime: 9 }),
        ("b.py", FileMeta { size: 1, mtime: 8 }),
    ];
    let stale = Manifest::new(vec![
        record("b.py", "stale", "shards/004.jsonl"),
        record("lost.py", "x", "shards/005.jsonl"),
    ]);
    let (first, first_written) = save(&snapshot, &metas, &stale);
    assert_eq!(first.len(), 3, "a file that cannot be measured has no record");
    let manifest = Manifest::new(first);
    let (second, second_written) = save(&snapshot, &metas, &manifest);
    assert_eq!(lines(&second), lines(manifest.records()));
    for bucket in &second_written {
        assert!(first_written.contains(bucket), "{bucket:?} is as it was");
    }
    let referenced = referenced_buckets(&second);
    for index in 0..16 {
        let name = format!("{index:03}.jsonl");
        assert_eq!(
            is_orphan(&name, &referenced),
            !second.iter().any(|record| record.shard == format!("shards/{name}")),
            "{name}"
        );
    }
}

#[test]
fn a_bucket_is_written_if_it_is_named_and_touched() {
    let names = |list: &[&str]| -> Vec<String> { list.iter().map(|name| name.to_string()).collect() };
    assert_eq!(
        buckets_to_write(&names(&["c", "a", "b"]), &names(&["b", "x", "c"])),
        names(&["c", "b"])
    );
    assert!(buckets_to_write(&names(&["a"]), &names(&[])).is_empty());
}

#[test]
fn an_untouched_bucket_keeps_its_records() {
    let (kept, new) = (hash_of(b"kept"), hash_of(b"new"));
    assert_ne!(bucket_for(&kept), bucket_for(&new));
    let snapshot = snapshot(&[("/w/kept.py", Some(b"kept")), ("/w/new.py", Some(b"new"))]);
    let previous = Manifest::new(vec![record("kept.py", &kept, &bucket_for(&kept))]);
    let (records, written) = save(
        &snapshot,
        &[("new.py", FileMeta { size: 3, mtime: 1 })],
        &previous,
    );
    assert_eq!(line(&records[0]), line(&previous.records()[0]));
    assert_eq!(written, vec![(bucket_for(&new), vec![1])]);
}

#[test]
fn a_saved_record_is_taken_back() {
    let bytes = b"def greet(): pass\n".to_vec();
    let snapshot = snapshot(&[("/w/pkg/a:b.py", Some(&bytes))]);
    let (records, _) = save(
        &snapshot,
        &[("pkg/a:b.py", FileMeta { size: 1, mtime: 1 })],
        &Manifest::new(vec![]),
    );
    let Admission::Admitted(at) = admit_record(&root(), &records[0], Some(true), Some(&bytes))
    else {
        panic!("the record of an unchanged file is taken");
    };
    assert_eq!(at.as_str(), "/w/pkg/a:b.py");
    assert!(matches!(
        admit_record(&root(), &records[0], Some(false), Some(&bytes)),
        Admission::Unloadable
    ));
}

#[test]
fn a_changed_file_touches_its_old_and_its_new_bucket() {
    let snapshot = snapshot(&[("/w/a.py", Some(b"a"))]);
    let new = bucket_for(&hash_of(b"a"));
    let old = if new == "shards/000.jsonl" {
        "shards/001.jsonl"
    } else {
        "shards/000.jsonl"
    };
    let previous = Manifest::new(vec![record("a.py", "stale", old)]);
    let planned = plan_save(&root(), &snapshot, &vec![], &previous);
    assert_eq!(
        touched_buckets(&planned, &previous),
        vec![new, old.to_string()]
    );
}

#[test]
fn a_record_in_the_wrong_bucket_is_not_reused() {
    let snapshot = snapshot(&[("/w/a.py", Some(b"a"))]);
    let previous = Manifest::new(vec![record("a.py", &hash_of(b"a"), "shards/other.jsonl")]);
    let planned = plan_save(&root(), &snapshot, &vec![], &previous);
    assert!(matches!(planned[0].fate, Fate::Written { .. }));
}

#[test]
fn buckets_losing_entries_are_rewritten() {
    let snapshot = snapshot(&[("/w/a.py", Some(b"a"))]);
    let a = hash_of(b"a");
    let previous = Manifest::new(vec![
        record("a.py", &a, &bucket_for(&a)),
        record("gone.py", "x", "shards/gone.jsonl"),
    ]);
    let planned = plan_save(&root(), &snapshot, &vec![], &previous);
    assert_eq!(
        touched_buckets(&planned, &previous),
        vec!["shards/gone.jsonl".to_string()]
    );
}

#[test]
fn an_overlaid_file_loses_its_record() {
    let snapshot = snapshot(&[("/w/a.py", Some(b"a"))]);
    let a = hash_of(b"a");
    let previous = Manifest::new(vec![record("a.py", &a, &bucket_for(&a))]);
    let planned = plan_save(&root(), &snapshot, &vec![path("/w/a.py")], &previous);
    assert_eq!(touched_buckets(&planned, &previous), vec![bucket_for(&a)]);
    assert!(new_manifest(&planned, &vec![None], &previous).is_empty());
}

#[test]
fn unreferenced_shard_files_are_pruned() {
    let referenced = vec!["shards/003.jsonl".to_string()];
    assert!(!is_orphan("003.jsonl", &referenced));
    assert!(is_orphan("004.jsonl", &referenced));
}

#[test]
fn a_record_serves_one_payload() {
    let records = Manifest::new(vec![record("a.py", "first", "s"), record("a.py", "last", "s")]);
    let hashes = expected_hashes(&records, &vec![path("a.py"), path("./a.py"), path("b.py"), path("a.py")]);
    assert_eq!(
        hashes,
        vec![Some("last".to_string()), None, None, None],
        "the last record of a path counts, once; another spelling with a leading dot is another path"
    );
}

#[test]
fn a_missing_cache_is_not_a_rejection() {
    let missing = load_outcome(CacheRead::Missing);
    assert_eq!(missing.reused, 0);
    assert!(missing.rejected.is_none());

    let refused = load_outcome(CacheRead::Refused("bad header".to_string()));
    assert_eq!(refused.rejected.as_deref(), Some("bad header"));
    assert_eq!(refused.reused, 0);

    let loaded = load_outcome(CacheRead::Loaded {
        seeded: 2,
        skips: vec![ShardSkip {
            path: path("c.py"),
            reason: "stale".to_string(),
        }],
    });
    assert_eq!(loaded.reused, 2);
    assert_eq!(loaded.skipped.len(), 1);
    assert!(loaded.rejected.is_none());
}

#[test]
fn a_refused_record_costs_only_its_file() {
    let good = b"good".to_vec();
    let records = vec![
        record("a.py", &hash_of(&good), "shards/000.jsonl"),
        record("nopayload.py", "x", "shards/000.jsonl"),
        record("/etc/passwd", "x", "shards/000.jsonl"),
        record("unreadable.py", "x", "shards/000.jsonl"),
        record("stale.py", &hash_of(b"old"), "shards/000.jsonl"),
        record("a.py", &hash_of(&good), "shards/000.jsonl"),
        record("broken.py", &hash_of(&good), "shards/000.jsonl"),
    ];
    let payload = |text: &str, loads: bool| Payload {
        path: path(text),
        loads,
    };
    let payloads = vec![
        payload("a.py", false),
        payload("/etc/passwd", true),
        payload("unreadable.py", true),
        payload("stale.py", true),
        payload("broken.py", false),
        payload("a.py", true),
    ];
    let contents = vec![
        Some(good.clone()),
        Some(good.clone()),
        Some(good.clone()),
        None,
        Some(b"new".to_vec()),
        Some(good.clone()),
        Some(good),
    ];
    let outcomes = admit_records(&root(), &records, &payloads, &contents);
    let Admission::Admitted(absolute) = &outcomes[0] else {
        panic!("a matching record is taken");
    };
    assert_eq!(absolute.as_str(), "/w/a.py");
    assert!(matches!(outcomes[1], Admission::NoPayload));
    assert!(matches!(outcomes[2], Admission::OutsideRoot));
    assert!(matches!(outcomes[3], Admission::Unreadable));
    assert!(matches!(outcomes[4], Admission::Stale));
    assert!(matches!(outcomes[5], Admission::NoPayload));
    assert!(matches!(outcomes[6], Admission::Unloadable));
    assert_eq!(
        load_stats(&outcomes),
        LoadStats {
            loaded: 1,
            skipped: 6
        }
    );
    assert_eq!(LoadStats::default(), LoadStats { loaded: 0, skipped: 0 });
}

#[test]
fn only_safe_buckets_are_read_and_each_once() {
    let records = vec![
        record("a.py", "x", "shards/000.jsonl"),
        record("b.py", "x", "../secret"),
        record("c.py", "x", "shards/000.jsonl"),
        record("d.py", "x", "shards/001.jsonl"),
    ];
    assert_eq!(
        shards_to_read(&records),
        vec!["shards/000.jsonl".to_string(), "shards/001.jsonl".to_string()]
    );
}
