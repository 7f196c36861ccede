use ludusavi::cloud::{
    gate_cloud_backup, parse_cloud_event, render_event, CloudChange, CloudChangeKind, CloudEvent,
};
use ludusavi::dupes::{DuplicateDetector, GameEntry, ItemKind};
use ludusavi::errors::Error;
use ludusavi::manifest::{Game, Manifest};
use ludusavi::subjects::GameSubjects;
use ludusavi::cloud::Remote;
use ludusavi::titles::TitleFinder;

fn game(steam: Option<u32>, gog: Option<u32>) -> Game {
    Game {
        files: Vec::new(),
        registry: Vec::new(),
        steam_id: steam,
        gog_id: gog,
        install_dirs: Vec::new(),
    }
}

fn catalog(entries: Vec<(&str, Game)>) -> Manifest {
    let mut m = Manifest::new();
    for (name, g) in entries {
        m = m.upsert(String::from(name), g);
    }
    m
}

#[test]
fn unknown_game_is_rejected_with_its_name() {
    let m = catalog(vec![("A", game(None, None)), ("B", game(None, None))]);
    let known = m.game_names();
    let subjects = GameSubjects::new(known, vec![String::from("C")], false, &m);
    assert!(subjects.valid.is_empty());
    assert_eq!(subjects.invalid, vec![String::from("C")]);
    let verdict = ludusavi::ops::check_unknown_games(&subjects);
    match verdict {
        Err(Error::CliUnrecognizedGames { games }) => {
            assert_eq!(games, vec![String::from("C")]);
        }
        _ => panic!("expected the unknown game to abort the operation"),
    }
}

#[test]
fn steam_id_lookup_resolves_to_the_game_name() {
    let m = catalog(vec![("Zed", game(Some(42), None))]);
    let known = m.game_names();
    let subjects = GameSubjects::new(known, vec![String::from("42")], true, &m);
    assert_eq!(subjects.valid, vec![String::from("Zed")]);
    assert!(subjects.invalid.is_empty());
}

#[test]
fn steam_id_lookup_rejects_unknown_and_non_numeric() {
    let m = catalog(vec![("Zed", game(Some(42), None))]);
    let known = m.game_names();
    let subjects = GameSubjects::new(
        known,
        vec![String::from("43"), String::from("zed")],
        true,
        &m,
    );
    assert!(subjects.valid.is_empty());
    assert_eq!(subjects.invalid.len(), 2);
}

#[test]
fn empty_request_selects_every_known_game_sorted() {
    let m = catalog(vec![("Beta", game(None, None)), ("Alpha", game(None, None))]);
    let known = m.game_names();
    let subjects = GameSubjects::new(known, Vec::new(), false, &m);
    assert_eq!(subjects.valid, vec![String::from("Alpha"), String::from("Beta")]);
    assert!(subjects.invalid.is_empty());
}

#[test]
fn cloud_preview_conflict_suppresses_the_upload() {
    let line = String::from("{\"change\":{\"path\":\"game/save.dat\",\"kind\":\"modified\"}}");
    let event = parse_cloud_event(&line).expect("the change line parses");
    let (changes, progress) = ludusavi::cloud::drain_events(vec![event]);
    assert!(progress.is_none());
    assert_eq!(changes.len(), 1);
    assert_eq!(changes[0].path, "game/save.dat");
    assert_eq!(changes[0].kind, CloudChangeKind::Modified);
    let gate = gate_cloud_backup(&Ok(changes));
    assert!(!gate.sync_after);
    assert!(gate.conflict);
    assert!(!gate.sync_failed);
    let mut reporter = ludusavi::report::Reporter::standard();
    if gate.conflict {
        reporter.trip_cloud_conflict();
    }
    assert!(reporter.cloud_conflict);
}

#[test]
fn clean_cloud_preview_lets_the_upload_proceed() {
    let gate = gate_cloud_backup(&Ok(Vec::new()));
    assert!(gate.sync_after && !gate.conflict && !gate.sync_failed);
    let gate = gate_cloud_backup(&Err(Error::UnableToSynchronizeCloud {
        detail: String::from("boom"),
    }));
    assert!(!gate.sync_after && !gate.conflict && gate.sync_failed);
}

#[test]
fn progress_lines_parse_and_render_back() {
    let line = String::from("{\"progress\":{\"current\":3,\"max\":12}}");
    match parse_cloud_event(&line) {
        Some(CloudEvent::Progress { current, max }) => {
            assert_eq!(current, 3);
            assert_eq!(max, 12);
            let rendered =
                render_event(&CloudEvent::Progress { current, max });
            assert_eq!(rendered, line);
        }
        _ => panic!("expected a progress event"),
    }
}

#[test]
fn change_lines_with_escapes_round_trip() {
    let change = CloudChange {
        path: String::from("dir\\sub/\"odd\".dat"),
        kind: CloudChangeKind::Added,
    };
    let line = render_event(&CloudEvent::Change(change));
    match parse_cloud_event(&line) {
        Some(CloudEvent::Change(c)) => {
            assert_eq!(c.path, "dir\\sub/\"odd\".dat");
            assert_eq!(c.kind, CloudChangeKind::Added);
        }
        _ => panic!("expected the rendered change line to parse"),
    }
}

#[test]
fn malformed_cloud_lines_are_rejected() {
    assert!(parse_cloud_event(&String::from("")).is_none());
    assert!(parse_cloud_event(&String::from("{\"progress\":{\"current\":,\"max\":1}}")).is_none());
    assert!(parse_cloud_event(&String::from("{\"progress\":{\"current\":07,\"max\":1}}"))
        .is_none());
    assert!(parse_cloud_event(&String::from("{\"change\":{\"path\":\"x\",\"kind\":\"moved\"}}"))
        .is_none());
    assert!(parse_cloud_event(&String::from("plain text")).is_none());
}

#[test]
fn sync_outcome_keeps_changes_or_surfaces_stderr() {
    let changes = vec![CloudChange { path: String::from("p"), kind: CloudChangeKind::Removed }];
    match ludusavi::cloud::cloud_sync_outcome(true, String::from(""), changes) {
        Ok(v) => assert_eq!(v.len(), 1),
        Err(_) => panic!("a clean exit keeps its changes"),
    }
    match ludusavi::cloud::cloud_sync_outcome(false, String::from("rc failed"), Vec::new()) {
        Err(Error::UnableToSynchronizeCloud { detail }) => assert_eq!(detail, "rc failed"),
        _ => panic!("a nonzero exit fails the sync"),
    }
}

#[test]
fn duplicate_detection_is_order_invariant() {
    let a = || GameEntry {
        game: String::from("A"),
        enabled: true,
        files: vec![String::from("/shared.dat"), String::from("/a-only.dat")],
        registry: Vec::new(),
    };
    let b = || GameEntry {
        game: String::from("B"),
        enabled: true,
        files: vec![String::from("/shared.dat")],
        registry: Vec::new(),
    };
    let mut d1 = DuplicateDetector::new();
    d1.add_game(a());
    d1.add_game(b());
    let mut d2 = DuplicateDetector::new();
    d2.add_game(b());
    d2.add_game(a());
    let key = String::from("/shared.dat");
    let solo = String::from("/a-only.dat");
    assert!(d1.is_duplicated(ItemKind::File, &key));
    assert!(d2.is_duplicated(ItemKind::File, &key));
    assert!(!d1.is_duplicated(ItemKind::File, &solo));
    assert!(!d2.is_duplicated(ItemKind::File, &solo));
}

#[test]
fn disabled_games_do_not_create_collisions() {
    let mut d = DuplicateDetector::new();
    d.add_game(GameEntry {
        game: String::from("A"),
        enabled: true,
        files: vec![String::from("/shared.dat")],
        registry: Vec::new(),
    });
    d.add_game(GameEntry {
        game: String::from("B"),
        enabled: false,
        files: vec![String::from("/shared.dat")],
        registry: Vec::new(),
    });
    assert!(!d.is_duplicated(ItemKind::File, &String::from("/shared.dat")));
}

#[test]
fn find_is_idempotent_and_matches_ids_and_names() {
    let m = catalog(vec![
        ("Zed Quest", game(Some(42), None)),
        ("Other", game(None, Some(7))),
    ]);
    let finder = TitleFinder::new(m, vec![String::from("Zed Quest")]);
    let names = vec![String::from("zedquest")];
    let r1 = finder.find(&names, None, None, true, false);
    let r2 = finder.find(&names, None, None, true, false);
    assert_eq!(r1, vec![String::from("Zed Quest")]);
    assert_eq!(r1, r2);
    let by_steam = finder.find(&Vec::new(), Some(42), None, false, false);
    assert_eq!(by_steam, vec![String::from("Zed Quest")]);
    let by_gog = finder.find(&Vec::new(), None, Some(7), false, false);
    assert_eq!(by_gog, vec![String::from("Other")]);
    let restorable_only = finder.find(&Vec::new(), None, Some(7), false, true);
    assert!(restorable_only.is_empty());
}

#[test]
fn only_custom_remotes_skip_configuration() {
    assert!(!Remote::Custom { name: String::from("mine") }.needs_configuration());
    assert!(Remote::Dropbox.needs_configuration());
    assert!(Remote::GoogleDrive.needs_configuration());
}

#[test]
fn every_rendered_event_line_parses_back() {
    let events = vec![
        CloudEvent::Progress { current: 0, max: 0 },
        CloudEvent::Progress { current: 10, max: 2000000 },
        CloudEvent::Change(CloudChange {
            path: String::from("a/b"),
            kind: CloudChangeKind::Removed,
        }),
        CloudEvent::Change(CloudChange {
            path: String::from(""),
            kind: CloudChangeKind::Modified,
        }),
    ];
    for e in &events {
        let line = render_event(e);
        assert!(parse_cloud_event(&line).is_some());
    }
}
