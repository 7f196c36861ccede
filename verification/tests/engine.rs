use ludusavi::layout::{BackupFile, BackupId, BackupKind, GameLayout, Retention};
use ludusavi::scan::{
    apply_redirects, classify_restore_file, scan_for_backup, scan_for_restore, RedirectRule,
};
use ludusavi::scan::{ScanChange, ScanInfo, ScannedFile};
use ludusavi::time::Time;
use ludusavi::zipfmt::{valid_level, ZipCompression};

fn t(second: u8) -> Time {
    Time { year: 2024, month: 3, day: 5, hour: 10, minute: 20, second }
}

fn file(path: &str, bytes: &[u8], change: ScanChange) -> ScannedFile {
    ScannedFile {
        path: String::from(path),
        content: bytes.to_vec(),
        change,
        ignored: false,
        redirected_from: None,
    }
}

fn scan(name: &str, files: Vec<ScannedFile>) -> ScanInfo {
    ScanInfo { game_name: String::from(name), found_files: files }
}

#[test]
fn round_trip_backup_then_restore_latest() {
    let layout = GameLayout::new(Retention { full: 2, differential: 2 });
    let s = scan(
        "game",
        vec![
            file("/saves/a.dat", b"alpha", ScanChange::New),
            file("/saves/b.dat", b"beta", ScanChange::New),
        ],
    );
    let layout = layout.back_up(&s, &t(1));
    let restored = layout.restore_files(&BackupId::Latest).unwrap();
    assert_eq!(restored.len(), 2);
    let mut found_a = false;
    let mut found_b = false;
    for f in &restored {
        if f.path == "/saves/a.dat" {
            assert_eq!(f.content, b"alpha".to_vec());
            found_a = true;
        }
        if f.path == "/saves/b.dat" {
            assert_eq!(f.content, b"beta".to_vec());
            found_b = true;
        }
    }
    assert!(found_a && found_b);
}

#[test]
fn differential_chain_resolves_to_live_state() {
    let layout = GameLayout::new(Retention { full: 1, differential: 2 });
    let s1 = scan("game", vec![file("/s/a", b"one", ScanChange::New)]);
    let layout = layout.back_up(&s1, &t(1));
    assert_eq!(layout.fulls.len(), 1);
    let s2 = scan(
        "game",
        vec![
            file("/s/a", b"two", ScanChange::Different),
            file("/s/new", b"fresh", ScanChange::New),
        ],
    );
    let layout = layout.back_up(&s2, &t(2));
    assert_eq!(layout.fulls.len(), 1);
    assert_eq!(layout.fulls[0].children.len(), 1);
    let restored = layout.restore_files(&BackupId::Latest).unwrap();
    assert_eq!(restored.len(), 2);
    for f in &restored {
        if f.path == "/s/a" {
            assert_eq!(f.content, b"two".to_vec());
        } else {
            assert_eq!(f.path, "/s/new");
            assert_eq!(f.content, b"fresh".to_vec());
        }
    }
}

#[test]
fn full_and_differential_chain_with_retention() {
    let layout = GameLayout::new(Retention { full: 1, differential: 2 });
    let s1 = scan("game", vec![file("/s/save.bin", b"v1", ScanChange::New)]);
    let layout = layout.back_up(&s1, &t(1));
    let s2 = scan("game", vec![file("/s/save.bin", b"v2", ScanChange::Different)]);
    let layout = layout.back_up(&s2, &t(2));
    let s3 = scan("game", vec![file("/s/save.bin", b"v3", ScanChange::Different)]);
    let layout = layout.back_up(&s3, &t(3));
    assert_eq!(layout.fulls.len(), 1);
    assert_eq!(layout.fulls[0].children.len(), 2);
    assert!(layout.fulls[0].id.starts_with("full-"));
    assert!(layout.fulls[0].children[0].id.starts_with("diff-"));
    let kind = layout.plan_backup_kind();
    assert_eq!(kind, BackupKind::Full);
    let s4 = scan("game", vec![file("/s/save.bin", b"v4", ScanChange::Different)]);
    let layout = layout.back_up(&s4, &t(4));
    assert_eq!(layout.fulls.len(), 1);
    assert_eq!(layout.fulls[0].children.len(), 0);
    let restored = layout.restore_files(&BackupId::Latest).unwrap();
    assert_eq!(restored.len(), 1);
    assert_eq!(restored[0].content, b"v4".to_vec());
}

#[test]
fn retention_bound_holds_over_many_backups() {
    let mut layout = GameLayout::new(Retention { full: 2, differential: 1 });
    for i in 0..10u8 {
        let s = scan("game", vec![file("/s/f", &[i], ScanChange::Different)]);
        layout = layout.back_up(&s, &t(i % 60));
        assert!(layout.fulls.len() <= 2);
        for f in &layout.fulls {
            assert!(f.children.len() <= 1);
        }
    }
}

#[test]
fn removed_file_leaves_the_next_backup() {
    let layout = GameLayout::new(Retention { full: 1, differential: 3 });
    let s1 = scan(
        "game",
        vec![
            file("/s/keep", b"kept", ScanChange::New),
            file("/s/gone", b"bye", ScanChange::New),
        ],
    );
    let layout = layout.back_up(&s1, &t(1));
    let s2 = scan(
        "game",
        vec![
            file("/s/keep", b"kept", ScanChange::Same),
            file("/s/gone", b"", ScanChange::Removed),
        ],
    );
    let layout = layout.back_up(&s2, &t(2));
    let restored = layout.restore_files(&BackupId::Latest).unwrap();
    assert_eq!(restored.len(), 1);
    assert_eq!(restored[0].path, "/s/keep");
    assert_eq!(restored[0].content, b"kept".to_vec());
}

#[test]
fn restore_by_named_id_and_unknown_id() {
    let layout = GameLayout::new(Retention { full: 2, differential: 2 });
    let s1 = scan("game", vec![file("/s/f", b"v1", ScanChange::New)]);
    let layout = layout.back_up(&s1, &t(1));
    let full_id = layout.fulls[0].id.clone();
    let s2 = scan("game", vec![file("/s/f", b"v2", ScanChange::Different)]);
    let layout = layout.back_up(&s2, &t(2));
    let named = layout.restore_files(&BackupId::Named(full_id)).unwrap();
    assert_eq!(named.len(), 1);
    assert_eq!(named[0].content, b"v1".to_vec());
    let missing = layout.restore_files(&BackupId::Named(String::from("full-nothing")));
    assert!(missing.is_none());
}

#[test]
fn backup_ids_carry_the_timestamp() {
    let id = ludusavi::layout::make_backup_id(
        BackupKind::Full,
        &Time { year: 2024, month: 3, day: 5, hour: 10, minute: 20, second: 7 },
    );
    assert_eq!(id, "full-20240305T102007Z");
    let id2 = ludusavi::layout::make_backup_id(
        BackupKind::Differential,
        &Time { year: 999, month: 12, day: 31, hour: 23, minute: 59, second: 59 },
    );
    assert_eq!(id2, "diff-09991231T235959Z");
}

#[test]
fn sanitized_names_are_filesystem_safe() {
    assert_eq!(ludusavi::layout::sanitize_name(&String::from("My Game: HD+")), "my-game--hd-");
    assert_eq!(ludusavi::layout::sanitize_name(&String::from("plain-42")), "plain-42");
}

#[test]
fn ignored_files_stay_out_of_backups() {
    let layout = GameLayout::new(Retention { full: 1, differential: 1 });
    let mut skipped = file("/s/skipped", b"secret", ScanChange::New);
    skipped.ignored = true;
    let s = scan("game", vec![file("/s/kept", b"data", ScanChange::New), skipped]);
    let layout = layout.back_up(&s, &t(1));
    let restored = layout.restore_files(&BackupId::Latest).unwrap();
    assert_eq!(restored.len(), 1);
    assert_eq!(restored[0].path, "/s/kept");
}

#[test]
fn zip_round_trip_with_deflate() {
    let files = vec![
        ludusavi::layout::BackupFile {
            path: String::from("/saves/slot1.bin"),
            content: b"the quick brown fox jumps over the lazy dog".to_vec(),
        },
        ludusavi::layout::BackupFile { path: String::from("/saves/slot2.bin"), content: vec![] },
    ];
    let mapping = b"mapping-document".to_vec();
    let archive = ludusavi::zipfmt::build_archive(
        &files,
        mapping.clone(),
        ludusavi::zipfmt::ZipCompression::Deflate,
        6,
    );
    assert_eq!(archive.len(), 3);
    assert_eq!(archive[0].name, "mapping.yaml");
    assert_eq!(archive[0].data, mapping);
    assert_eq!(archive[1].name, "saves/slot1.bin");
    let extracted =
        ludusavi::zipfmt::extract_archive(&archive, ludusavi::zipfmt::ZipCompression::Deflate)
            .unwrap();
    assert_eq!(extracted.len(), 2);
    assert_eq!(extracted[0].0, "saves/slot1.bin");
    assert_eq!(extracted[0].1, files[0].content);
    assert_eq!(extracted[1].1, files[1].content);
}

#[test]
fn zip_levels_are_validated_per_compressor() {
    assert!(valid_level(ZipCompression::Deflate, 6));
    assert!(!valid_level(ZipCompression::Deflate, 0));
    assert!(!valid_level(ZipCompression::Deflate, 10));
    assert!(valid_level(ZipCompression::Bzip2, 9));
    assert!(!valid_level(ZipCompression::Bzip2, 10));
    assert!(valid_level(ZipCompression::Zstd, -7));
    assert!(valid_level(ZipCompression::Zstd, 22));
    assert!(!valid_level(ZipCompression::Zstd, 23));
    assert!(valid_level(ZipCompression::Store, 0));
}

#[test]
fn redirected_file_keeps_its_key_and_moves_on_restore() {
    let rules = vec![RedirectRule {
        source: String::from("~/A"),
        target: String::from("~/B"),
    }];
    let original = String::from("~/A/save.dat");
    let layout = GameLayout::new(Retention { full: 1, differential: 1 });
    let s = scan("game", vec![file("~/A/save.dat", b"data", ScanChange::New)]);
    let layout = layout.back_up(&s, &t(1));
    let restored = layout.restore_files(&BackupId::Latest).unwrap();
    assert_eq!(restored[0].path, "~/A/save.dat");
    let target = apply_redirects(&rules, &restored[0].path);
    assert_eq!(target, "~/B/save.dat");
    let unrelated = apply_redirects(&rules, &String::from("~/C/save.dat"));
    assert_eq!(unrelated, "~/C/save.dat");
    assert_eq!(original, "~/A/save.dat");
}

#[test]
fn restore_classification_by_bytes() {
    let stored = b"bytes".to_vec();
    assert_eq!(classify_restore_file(&stored, None), ScanChange::New);
    assert_eq!(classify_restore_file(&stored, Some(&b"bytes".to_vec())), ScanChange::Same);
    assert_eq!(classify_restore_file(&stored, Some(&b"other".to_vec())), ScanChange::Different);
}

#[test]
fn restore_scan_targets_redirects_and_classifies() {
    let stored = vec![
        BackupFile { path: String::from("~/A/save.dat"), content: b"x".to_vec() },
        BackupFile { path: String::from("~/A/other.dat"), content: b"y".to_vec() },
        BackupFile { path: String::from("/plain.dat"), content: b"z".to_vec() },
    ];
    let local = vec![
        (String::from("~/B/save.dat"), b"x".to_vec()),
        (String::from("~/B/other.dat"), b"old".to_vec()),
    ];
    let rules = vec![RedirectRule {
        source: String::from("~/A"),
        target: String::from("~/B"),
    }];
    let scan = scan_for_restore(String::from("game"), &stored, &local, &rules);
    assert_eq!(scan.game_name, "game");
    assert_eq!(scan.found_files.len(), 3);
    assert_eq!(scan.found_files[0].path, "~/B/save.dat");
    assert_eq!(scan.found_files[0].change, ScanChange::Same);
    assert_eq!(
        scan.found_files[0].redirected_from.as_deref(),
        Some("~/A/save.dat")
    );
    assert_eq!(scan.found_files[1].change, ScanChange::Different);
    assert_eq!(scan.found_files[2].path, "/plain.dat");
    assert_eq!(scan.found_files[2].change, ScanChange::New);
    assert!(scan.found_files[2].redirected_from.is_none());
}

#[test]
fn backup_scan_classifies_and_records_removals() {
    let previous = vec![
        BackupFile { path: String::from("/s/same"), content: b"same".to_vec() },
        BackupFile { path: String::from("/s/changed"), content: b"old".to_vec() },
        BackupFile { path: String::from("/s/gone"), content: b"bye".to_vec() },
    ];
    let current = vec![
        (String::from("/s/same"), b"same".to_vec()),
        (String::from("/s/changed"), b"new".to_vec()),
        (String::from("/s/fresh"), b"hello".to_vec()),
    ];
    let scan = scan_for_backup(String::from("game"), &current, &previous);
    assert_eq!(scan.found_files.len(), 4);
    assert_eq!(scan.found_files[0].change, ScanChange::Same);
    assert_eq!(scan.found_files[1].change, ScanChange::Different);
    assert_eq!(scan.found_files[2].change, ScanChange::New);
    assert_eq!(scan.found_files[3].path, "/s/gone");
    assert_eq!(scan.found_files[3].change, ScanChange::Removed);
}

#[test]
fn corrupt_deflate_stream_fails_extraction() {
    let entries = vec![
        ludusavi::zipfmt::ArchiveEntry {
            name: String::from("mapping.yaml"),
            data: b"meta".to_vec(),
        },
        ludusavi::zipfmt::ArchiveEntry {
            name: String::from("bad.bin"),
            data: vec![0xff, 0xff, 0xff, 0xff],
        },
    ];
    assert!(ludusavi::zipfmt::extract_archive(&entries, ZipCompression::Deflate).is_none());
    assert!(ludusavi::zipfmt::extract_archive(&entries, ZipCompression::Store).is_some());
}
