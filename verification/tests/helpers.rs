use ludusavi::cloud::Finality;
use ludusavi::errors::Error;
use ludusavi::layout::Retention;
use ludusavi::manifest::{FileConstraint, FileEntry, Game, Manifest, Os, Store};
use ludusavi::modal::{Message, ModalContext, ModalTheme, ModalText, ModalVariant};
use ludusavi::negatable_flag;
use ludusavi::ops::check_backup_id_constraint;
use ludusavi::ops::check_backup_target;
use ludusavi::ops::confirmation_not_needed;
use ludusavi::ops::step_decision;
use ludusavi::ranking::edit_distance_exec;
use ludusavi::ranking::score_install_dir;
use ludusavi::report::{
    sort_rows, sort_rows_directed, GameRow, OperationStepDecision, Reporter, Sort, SortKey,
};
use ludusavi::resolver::wine_remap;
use ludusavi::resolver::{expand_template, glob_match_components, split_components, TokenBinding};

#[test]
fn negatable_flag_resolution() {
    assert!(negatable_flag(true, false, false));
    assert!(negatable_flag(true, true, false));
    assert!(!negatable_flag(false, true, true));
    assert!(negatable_flag(false, false, true));
    assert!(!negatable_flag(false, false, false));
}

#[test]
fn parse_u32_accepts_digits_only() {
    assert_eq!(ludusavi::text::parse_u32(&String::from("42")), Some(42));
    assert_eq!(ludusavi::text::parse_u32(&String::from("0")), Some(0));
    assert_eq!(ludusavi::text::parse_u32(&String::from("4294967295")), Some(u32::MAX));
    assert_eq!(ludusavi::text::parse_u32(&String::from("4294967296")), None);
    assert_eq!(ludusavi::text::parse_u32(&String::from("")), None);
    assert_eq!(ludusavi::text::parse_u32(&String::from("12a")), None);
    assert_eq!(ludusavi::text::parse_u32(&String::from("-1")), None);
}

#[test]
fn sorting_names_is_stable_on_contents() {
    let sorted = ludusavi::text::sort_names(vec![
        String::from("pear"),
        String::from("apple"),
        String::from("apple"),
        String::from("fig"),
    ]);
    assert_eq!(
        sorted,
        vec![
            String::from("apple"),
            String::from("apple"),
            String::from("fig"),
            String::from("pear"),
        ]
    );
}

#[test]
fn timestamps_render_zero_padded() {
    let t = ludusavi::time::Time { year: 87, month: 1, day: 2, hour: 3, minute: 4, second: 5 };
    assert_eq!(ludusavi::time::format_timestamp(&t), "00870102T030405Z");
}

#[test]
fn backup_target_checks_cover_each_cause() {
    assert!(check_backup_target(false, true, false, false).is_ok());
    assert!(check_backup_target(false, true, true, true).is_ok());
    match check_backup_target(true, true, true, false) {
        Err(Error::CliBackupTargetUnusable) => {}
        _ => panic!("a plain file as target is unusable"),
    }
    assert!(check_backup_target(false, false, true, false).is_err());
    assert!(check_backup_target(false, true, false, true).is_err());
}

#[test]
fn backup_id_needs_exactly_one_game() {
    assert!(check_backup_id_constraint(false, 0).is_ok());
    assert!(check_backup_id_constraint(true, 1).is_ok());
    match check_backup_id_constraint(true, 2) {
        Err(Error::CliBackupIdWithMultipleGames) => {}
        _ => panic!("several games with one backup id must fail"),
    }
}

#[test]
fn retention_limits_apply_overrides() {
    let base = Retention { full: 3, differential: 4 };
    let r = ludusavi::ops::apply_retention_limits(base, Some(1), None);
    assert_eq!(r.full, 1);
    assert_eq!(r.differential, 4);
    let r = ludusavi::ops::apply_retention_limits(base, None, Some(9));
    assert_eq!(r.full, 3);
    assert_eq!(r.differential, 9);
}

#[test]
fn step_decision_skips_only_unrequested_disabled_games() {
    assert_eq!(step_decision(false, false), OperationStepDecision::Ignored);
    assert_eq!(step_decision(false, true), OperationStepDecision::Processed);
    assert_eq!(step_decision(true, false), OperationStepDecision::Processed);
}

#[test]
fn confirmation_skipped_for_previews_and_force() {
    assert!(confirmation_not_needed(Finality::Preview, false));
    assert!(confirmation_not_needed(Finality::Final, true));
    assert!(!confirmation_not_needed(Finality::Final, false));
}

#[test]
fn reporter_tracks_failures_and_flags() {
    let mut r = Reporter::json();
    assert!(r.machine);
    let ok = r.add_game(GameRow { name: String::from("A"), size: 10, failed: false });
    assert!(ok);
    let ok = r.add_game(GameRow { name: String::from("B"), size: 5, failed: true });
    assert!(!ok);
    assert!(!r.overall_success());
    let mut clean = Reporter::standard();
    let _ = clean.add_game(GameRow { name: String::from("A"), size: 1, failed: false });
    assert!(clean.overall_success());
    clean.trip_unknown_games(vec![String::from("C")]);
    assert!(!clean.overall_success());
}

#[test]
fn report_rows_sort_by_each_key() {
    let rows = || {
        vec![
            GameRow { name: String::from("b"), size: 5, failed: true },
            GameRow { name: String::from("a"), size: 9, failed: false },
            GameRow { name: String::from("c"), size: 1, failed: false },
        ]
    };
    let by_name = sort_rows(rows(), SortKey::Name);
    assert_eq!(by_name[0].name, "a");
    assert_eq!(by_name[2].name, "c");
    let by_size = sort_rows(rows(), SortKey::Size);
    assert_eq!(by_size[0].size, 1);
    assert_eq!(by_size[2].size, 9);
    let by_status = sort_rows(rows(), SortKey::Status);
    assert!(!by_status[0].failed && by_status[2].failed);
}

#[test]
fn manifest_upsert_replaces_by_name() {
    let g = |steam: Option<u32>| Game {
        files: Vec::new(),
        registry: Vec::new(),
        steam_id: steam,
        gog_id: None,
        install_dirs: Vec::new(),
    };
    let m = Manifest::new();
    let m = m.upsert(String::from("A"), g(Some(1)));
    let m = m.upsert(String::from("A"), g(Some(2)));
    let m = m.upsert(String::from("B"), g(Some(3)));
    assert_eq!(m.games.len(), 2);
    assert_eq!(m.steam_name(2), Some(String::from("A")));
    assert_eq!(m.steam_name(1), None);
    assert!(m.lookup(&String::from("B")).is_some());
    assert!(m.lookup(&String::from("C")).is_none());
}

#[test]
fn template_tokens_expand_before_wildcards() {
    let pairs = vec![
        TokenBinding { token: String::from("<home>"), value: String::from("/home/player") },
        TokenBinding { token: String::from("<base>"), value: String::from("/games/zed") },
    ];
    let out = expand_template(&String::from("<home>/saves/<base>/slot.*"), &pairs);
    assert_eq!(out, "/home/player/saves//games/zed/slot.*");
    let untouched = expand_template(&String::from("plain/path"), &pairs);
    assert_eq!(untouched, "plain/path");
}

#[test]
fn wine_prefix_remaps_the_letter_drive() {
    let out = wine_remap(
        &String::from("C:\\users\\me\\save.dat"),
        &String::from("/wine/pfx"),
    );
    assert_eq!(out, "/wine/pfx/drive_c/users/me/save.dat");
    let untouched = wine_remap(&String::from("/linux/path"), &String::from("/wine/pfx"));
    assert_eq!(untouched, "/linux/path");
}

#[test]
fn install_dir_scores_prefer_exact_matches() {
    let exact = score_install_dir(&String::from("Zed Quest"), &String::from("Zed Quest"));
    let loose = score_install_dir(&String::from("Zed Quest"), &String::from("zedquest"));
    let near = score_install_dir(&String::from("Zed Quest"), &String::from("zed quests"));
    let far = score_install_dir(&String::from("Zed Quest"), &String::from("unrelated"));
    assert_eq!(exact, 1000);
    assert_eq!(loose, 990);
    assert!(near < loose && near > far);
}

#[test]
fn edit_distance_matches_known_values() {
    let cv = |s: &str| s.chars().collect::<Vec<char>>();
    assert_eq!(edit_distance_exec(&cv("kitten"), &cv("sitting")), 3);
    assert_eq!(edit_distance_exec(&cv(""), &cv("abc")), 3);
    assert_eq!(edit_distance_exec(&cv("same"), &cv("same")), 0);
}

#[test]
fn modal_behaviour_matches_its_theme() {
    let context = ModalContext {
        backup_path: String::from("/backups"),
        backup_path_exists: true,
        backup_merge: false,
        restore_path: String::from("/restore"),
    };
    let confirm = ModalTheme::ConfirmBackup;
    assert_eq!(confirm.variant(), ModalVariant::Confirm);
    match confirm.text(&context) {
        ModalText::ConfirmBackup { path, path_exists, merge } => {
            assert_eq!(path, "/backups");
            assert!(path_exists);
            assert!(!merge);
        }
        _ => panic!("a backup confirmation describes the backup target"),
    }
    match confirm.message() {
        Message::BackupStart { preview } => assert!(!preview),
        _ => panic!("confirming a backup starts it"),
    }
    let info = ModalTheme::NoMissingRoots;
    assert_eq!(info.variant(), ModalVariant::Info);
    match info.message() {
        Message::Idle => {}
        _ => panic!("an informational modal does nothing"),
    }
    let restore = ModalTheme::ConfirmRestore;
    match restore.text(&context) {
        ModalText::ConfirmRestore { path } => assert_eq!(path, "/restore"),
        _ => panic!("a restore confirmation describes the restore source"),
    }
    match restore.message() {
        Message::RestoreStart { preview } => assert!(!preview),
        _ => panic!("confirming a restore starts it"),
    }
}

#[test]
fn normalization_lowers_and_strips() {
    assert_eq!(
        ludusavi::titles::normalize_title(&String::from("Zed Quest: II!")),
        "zedquestii"
    );
}

#[test]
fn reversed_sort_flips_the_order() {
    let rows = vec![
        GameRow { name: String::from("a"), size: 1, failed: false },
        GameRow { name: String::from("b"), size: 2, failed: false },
    ];
    let r = sort_rows_directed(rows, Sort { key: SortKey::Name, reversed: true });
    assert_eq!(r[0].name, "b");
    assert_eq!(r[1].name, "a");
}

#[test]
fn extensions_add_and_replace_catalog_entries() {
    let g = |steam: Option<u32>| Game {
        files: Vec::new(),
        registry: Vec::new(),
        steam_id: steam,
        gog_id: None,
        install_dirs: Vec::new(),
    };
    let m = Manifest::new().upsert(String::from("A"), g(Some(1)));
    let m = m.incorporate_extensions(vec![
        (String::from("B"), g(None)),
        (String::from("A"), g(Some(9))),
    ]);
    assert_eq!(m.games.len(), 2);
    assert_eq!(m.steam_name(9), Some(String::from("A")));
    assert!(m.lookup(&String::from("B")).is_some());
}

#[test]
fn glob_components_match_single_and_spanning_wildcards() {
    let sv = |xs: &[&str]| xs.iter().map(|x| String::from(*x)).collect::<Vec<String>>();
    assert!(glob_match_components(
        &sv(&["home", "*", "saves"]),
        &sv(&["home", "player", "saves"]),
        false,
    ));
    assert!(!glob_match_components(
        &sv(&["home", "*", "saves"]),
        &sv(&["home", "a", "b", "saves"]),
        false,
    ));
    assert!(glob_match_components(
        &sv(&["home", "**", "saves"]),
        &sv(&["home", "a", "b", "saves"]),
        false,
    ));
    assert!(glob_match_components(&sv(&["home", "**", "saves"]), &sv(&["home", "saves"]), false));
    assert!(!glob_match_components(&sv(&["home", "**", "saves"]), &sv(&["home", "other"]), false));
    assert!(glob_match_components(&sv(&["Saves"]), &sv(&["saves"]), true));
    assert!(!glob_match_components(&sv(&["Saves"]), &sv(&["saves"]), false));
}

#[test]
fn paths_split_into_their_components() {
    let comps = split_components(&String::from("home/player/saves/slot.dat"));
    assert_eq!(
        comps,
        vec![
            String::from("home"),
            String::from("player"),
            String::from("saves"),
            String::from("slot.dat"),
        ]
    );
    let rooted = split_components(&String::from("/var/data"));
    assert_eq!(rooted, vec![String::from(""), String::from("var"), String::from("data")]);
}

#[test]
fn templates_are_selected_by_os_and_store_constraints() {
    let game = Game {
        files: vec![
            FileEntry { template: String::from("<base>/always.dat"), when: Vec::new() },
            FileEntry {
                template: String::from("<base>/windows-steam.dat"),
                when: vec![FileConstraint { os: Os::Windows, store: Store::Steam }],
            },
            FileEntry {
                template: String::from("<base>/linux.dat"),
                when: vec![FileConstraint { os: Os::Linux, store: Store::Any }],
            },
        ],
        registry: Vec::new(),
        steam_id: None,
        gog_id: None,
        install_dirs: Vec::new(),
    };
    let on_linux = game.applicable_templates(Os::Linux, Store::Steam);
    assert_eq!(
        on_linux,
        vec![String::from("<base>/always.dat"), String::from("<base>/linux.dat")]
    );
    let on_windows = game.applicable_templates(Os::Windows, Store::Steam);
    assert_eq!(
        on_windows,
        vec![String::from("<base>/always.dat"), String::from("<base>/windows-steam.dat")]
    );
}
