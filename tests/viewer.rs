use germi_board::alarm::{DEFAULT_ALARM_SECONDS, MAX_ALARM_SECONDS, MIN_ALARM_SECONDS};
use germi_board::config::Config;
use germi_board::paths::FolderEntry;
use germi_board::scan::{extension, get_image_paths, is_image_extension, is_image_file_name, DirChild};
use germi_board::session::{FolderScan, Session};

fn s(v: &str) -> String {
    v.to_string()
}

fn child(dir: &str, name: &str) -> DirChild {
    DirChild { path: format!("{}/{}", dir, name), file_name: s(name) }
}

fn config(folders: Vec<(&str, bool)>) -> Config {
    Config {
        folder_map: folders
            .into_iter()
            .map(|(p, e)| FolderEntry { path: s(p), enabled: e })
            .collect(),
        target_exe_name: None,
        current_index: 0,
        is_pinned: false,
        alarm_seconds: None,
        alarm_sound_path: None,
    }
}

fn session_with(paths: &[&str], index: usize) -> Session {
    Session {
        image_paths: paths.iter().map(|p| s(p)).collect(),
        current_index: index,
        folders: vec![],
        target_exe_name: None,
        target_is_active: false,
        elapsed_ms: 0,
        is_pinned: false,
        alarm_seconds: None,
        alarm_threshold: None,
        alarm_fired: false,
        alarm_sound_path: None,
    }
}

#[test]
fn accepted_extensions() {
    assert!(is_image_extension("png"));
    assert!(is_image_extension("jpg"));
    assert!(is_image_extension("jpeg"));
    assert!(is_image_extension("bmp"));
    assert!(!is_image_extension("gif"));
    assert!(!is_image_extension("PNG"));
    assert!(!is_image_extension(""));
}

#[test]
fn extension_of_file_names() {
    assert_eq!(extension("x.png"), Some("png"));
    assert_eq!(extension("archive.tar.gz"), Some("gz"));
    assert_eq!(extension("noext"), None);
    assert_eq!(extension(".bashrc"), None);
    assert_eq!(extension(".hidden.jpg"), Some("jpg"));
    assert_eq!(extension("trailing."), Some(""));
    assert_eq!(extension(".."), None);
    assert_eq!(extension(""), None);
}

#[test]
fn image_names_ignore_case() {
    assert!(is_image_file_name("photo.PNG"));
    assert!(is_image_file_name("photo.JpEg"));
    assert!(is_image_file_name("x.bmp"));
    assert!(!is_image_file_name("y.txt"));
    assert!(!is_image_file_name("png"));
    assert!(!is_image_file_name(".png"));
}

#[test]
fn scan_keeps_exactly_image_children() {
    let children = vec![
        child("/d", "x.png"),
        child("/d", "y.txt"),
        child("/d", "Z.JPG"),
        child("/d", "sub"),
        child("/d", "w.jpeg"),
        child("/d", "v.gif"),
    ];
    assert_eq!(get_image_paths(&children), vec![s("/d/x.png"), s("/d/Z.JPG"), s("/d/w.jpeg")]);
    assert!(get_image_paths(&vec![]).is_empty());
}

#[test]
fn rebuild_uses_enabled_folders_only() {
    let mut session = Session::from_config(&config(vec![("A", true), ("B", false)]), &vec![]);
    let a = get_image_paths(&vec![child("A", "x.png"), child("A", "y.txt")]);
    let b = get_image_paths(&vec![child("B", "z.jpg")]);
    let scans = vec![FolderScan { folder: s("A"), images: a }, FolderScan { folder: s("B"), images: b }];
    session.rebuild_image_list(&scans);
    assert_eq!(session.image_paths, vec![s("A/x.png")]);
    assert_eq!(session.current_index, 0);
}

#[test]
fn rebuild_deduplicates_and_resets_position() {
    let mut session = Session::from_config(&config(vec![("A", true), ("B", true), ("C", false)]), &vec![]);
    session.image_paths = vec![s("old.png")];
    let scans = vec![
        FolderScan { folder: s("A"), images: vec![s("p1.png"), s("p2.png")] },
        FolderScan { folder: s("B"), images: vec![s("p2.png"), s("p3.png")] },
        FolderScan { folder: s("C"), images: vec![s("p4.png")] },
    ];
    session.rebuild_image_list(&scans);
    let mut got = session.image_paths.clone();
    got.sort();
    assert_eq!(got, vec![s("p1.png"), s("p2.png"), s("p3.png")]);
    assert_eq!(session.current_index, 0);
}

#[test]
fn advance_wraps_from_last() {
    let mut session = session_with(&["a.png", "b.png", "c.png"], 2);
    session.next_image();
    assert_eq!(session.current_index, 0);
}

#[test]
fn advance_on_empty_list_is_noop() {
    let mut session = session_with(&[], 0);
    session.elapsed_ms = 5000;
    session.alarm_fired = true;
    session.next_image();
    assert_eq!(session.current_index, 0);
    assert!(session.image_paths.is_empty());
    assert_eq!(session.elapsed_ms, 5000);
    assert!(session.alarm_fired);
}

#[test]
fn advance_cycles_through_every_entry() {
    let mut session = session_with(&["a", "b", "c", "d"], 1);
    let mut seen = vec![];
    for _ in 0..4 {
        session.next_image();
        seen.push(session.current_index);
    }
    assert_eq!(seen, vec![2, 3, 0, 1]);
}

#[test]
fn advance_restarts_timer_and_alarm() {
    let mut session = session_with(&["a", "b"], 0);
    session.elapsed_ms = 9000;
    session.alarm_fired = true;
    session.next_image();
    assert_eq!(session.current_index, 1);
    assert_eq!(session.elapsed_ms, 0);
    assert!(!session.alarm_fired);
}

#[test]
fn corrupt_first_entry_is_dropped() {
    let mut session = session_with(&["a.png", "b.png"], 0);
    assert_eq!(session.current_path(), Some(&s("a.png")));
    session.drop_current();
    assert_eq!(session.image_paths, vec![s("b.png")]);
    assert_eq!(session.current_index, 0);
    assert_eq!(session.current_path(), Some(&s("b.png")));
}

#[test]
fn dropping_last_entry_wraps_and_empties() {
    let mut session = session_with(&["a.png", "b.png", "c.png"], 2);
    session.drop_current();
    assert_eq!(session.current_index, 0);
    assert_eq!(session.image_paths, vec![s("a.png"), s("b.png")]);
    session.drop_current();
    session.drop_current();
    assert!(session.image_paths.is_empty());
    assert_eq!(session.current_index, 0);
    assert_eq!(session.current_path(), None);
}

#[test]
fn add_folder_enables_and_appends_new_images() {
    let mut session = Session::from_config(&config(vec![("A", false)]), &vec![]);
    session.image_paths = vec![s("a.png")];
    session.add_folder(s("A"), vec![s("a.png"), s("b.png"), s("c.png")]);
    assert_eq!(session.folders.len(), 1);
    assert!(session.folders[0].enabled);
    assert_eq!(session.image_paths.len(), 3);
    assert_eq!(session.image_paths[0], s("a.png"));
    let mut tail = session.image_paths[1..].to_vec();
    tail.sort();
    assert_eq!(tail, vec![s("b.png"), s("c.png")]);
    session.add_folder(s("B"), vec![]);
    assert_eq!(session.folders.len(), 2);
    assert_eq!(session.folders[1].path, s("B"));
}

#[test]
fn toggling_a_folder_changes_only_its_flag() {
    let mut session = Session::from_config(&config(vec![("A", true), ("B", true)]), &vec![]);
    session.set_folder_enabled(1, false);
    assert!(session.folders[0].enabled);
    assert!(!session.folders[1].enabled);
    assert!(session.folder_enabled(&s("A")));
    assert!(!session.folder_enabled(&s("B")));
    assert!(!session.folder_enabled(&s("C")));
}

#[test]
fn config_round_trip_is_stable() {
    let mut c = config(vec![("A", true), ("B", false), ("A", false), ("C", true)]);
    c.target_exe_name = Some(s("game.exe"));
    c.current_index = 1;
    c.is_pinned = true;
    c.alarm_seconds = Some(300);
    c.alarm_sound_path = Some(s("bell.wav"));
    let scans = vec![
        FolderScan { folder: s("A"), images: vec![s("a.png")] },
        FolderScan { folder: s("C"), images: vec![s("c1.png"), s("c2.png")] },
    ];
    let first = Session::from_config(&c, &scans).to_config();
    let second = Session::from_config(&first, &scans).to_config();
    let keys: Vec<(String, bool)> = first.folder_map.iter().map(|f| (f.path.clone(), f.enabled)).collect();
    assert_eq!(keys, vec![(s("A"), false), (s("B"), false), (s("C"), true)]);
    assert_eq!(first.current_index, 1);
    for cfg in [&first, &second] {
        assert_eq!(cfg.target_exe_name, Some(s("game.exe")));
        assert!(cfg.is_pinned);
        assert_eq!(cfg.alarm_seconds, Some(300));
        assert_eq!(cfg.alarm_sound_path, Some(s("bell.wav")));
    }
    let keys2: Vec<(String, bool)> = second.folder_map.iter().map(|f| (f.path.clone(), f.enabled)).collect();
    assert_eq!(keys, keys2);
    assert_eq!(first.current_index, second.current_index);
}

#[test]
fn loaded_position_outside_list_restarts() {
    let mut c = config(vec![("A", true)]);
    c.current_index = 7;
    let scans = vec![FolderScan { folder: s("A"), images: vec![s("a.png"), s("b.png")] }];
    let session = Session::from_config(&c, &scans);
    assert_eq!(session.current_index, 0);
    assert_eq!(session.image_paths.len(), 2);
    assert_eq!(session.alarm_threshold, None);
}

#[test]
fn alarm_fires_once_per_arming() {
    let mut session = session_with(&["a", "b"], 0);
    session.set_target_process("Game.EXE");
    session.set_alarm_seconds(10);
    session.arm_alarm();
    assert_eq!(session.alarm_threshold, Some(10));
    session.observe_focus(Some("GAME.exe"));
    assert!(session.target_is_active);
    let mut fired = 0;
    for _ in 0..30 {
        session.tick(1000);
        if session.check_alarm() {
            fired += 1;
        }
    }
    assert_eq!(fired, 1);
    assert!(session.alarm_fired);
    session.next_image();
    assert!(!session.alarm_fired);
    for _ in 0..9 {
        session.tick(1000);
        assert!(!session.check_alarm());
    }
    session.tick(1000);
    assert!(session.check_alarm());
}

#[test]
fn alarm_waits_for_whole_threshold() {
    let mut session = session_with(&[], 0);
    session.set_target_process("app.exe");
    session.observe_focus(Some("app.exe"));
    session.set_alarm_seconds(10);
    session.arm_alarm();
    session.tick(9999);
    assert!(!session.check_alarm());
    session.tick(1);
    assert!(session.check_alarm());
}

#[test]
fn time_counts_only_while_target_focused() {
    let mut session = session_with(&[], 0);
    session.tick(5000);
    assert_eq!(session.elapsed_ms, 0);
    session.observe_focus(Some("app.exe"));
    assert!(!session.target_is_active);
    session.set_target_process("App.exe");
    assert_eq!(session.target_exe_name, Some(s("app.exe")));
    session.observe_focus(Some("other.exe"));
    session.tick(5000);
    assert_eq!(session.elapsed_ms, 0);
    session.observe_focus(Some("APP.EXE"));
    session.tick(5000);
    assert_eq!(session.elapsed_ms, 5000);
    session.observe_focus(None);
    session.tick(5000);
    assert_eq!(session.elapsed_ms, 5000);
    session.elapsed_ms = u64::MAX - 1;
    session.target_is_active = true;
    session.tick(10);
    assert_eq!(session.elapsed_ms, u64::MAX);
}

#[test]
fn unarmed_alarm_never_fires() {
    let mut session = session_with(&[], 0);
    session.elapsed_ms = 1_000_000;
    assert!(!session.check_alarm());
    assert!(!session.alarm_fired);
}

#[test]
fn alarm_settings() {
    let mut session = session_with(&[], 0);
    session.open_alarm_config();
    assert_eq!(session.alarm_seconds, Some(DEFAULT_ALARM_SECONDS));
    session.set_alarm_seconds(1);
    assert_eq!(session.alarm_seconds, Some(MIN_ALARM_SECONDS));
    session.set_alarm_seconds(99999);
    assert_eq!(session.alarm_seconds, Some(MAX_ALARM_SECONDS));
    session.set_alarm_seconds(600);
    session.open_alarm_config();
    assert_eq!(session.alarm_seconds, Some(600));
    session.set_alarm_sound(s("bell.wav"));
    assert_eq!(session.alarm_sound_path, Some(s("bell.wav")));
    let mut fresh = session_with(&[], 0);
    fresh.arm_alarm();
    assert_eq!(fresh.alarm_threshold, Some(180));
}

#[test]
fn pin_toggles() {
    let mut session = session_with(&[], 0);
    session.toggle_pin();
    assert!(session.is_pinned);
    session.toggle_pin();
    assert!(!session.is_pinned);
}

#[test]
fn timer_clock_splits_minutes_and_seconds() {
    let mut session = session_with(&[], 0);
    session.elapsed_ms = 125_999;
    assert_eq!(session.timer_clock(), (2, 5));
    session.elapsed_ms = 0;
    assert_eq!(session.timer_clock(), (0, 0));
}
