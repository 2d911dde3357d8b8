//! The life of the index, the command line, the settings and the windows.
use finder::backend::{
    after_build, after_load, all_resumed, autostart_step, build_full_index, cache_source, find_position, indexed_status,
    is_cache_leftover, load_cache_and_catch_up, load_step, open_snapshot, rebuild_index,
    save_after_catch_up, save_due, scan_step, scanning_status, set_position,
    stopped_status, watchdog, Applier, Autostart, CacheLoad, CacheSource, DriveScan, Heartbeat,
    LoadStep, Replay, ScanStep, Snapshot, StartStep, EMPTY_INDEX, EMPTY_REBUILD, EMPTY_REFRESH,
    NO_DRIVES,
};
use finder::boot::{Boot, BootAction, BootEvent, BootStage};
use finder::cli::{pad_three, parse_query, result_line, CliState, CliStep, Filter};
use finder::front::{hides_on_blur, search_files, search_path, FirstShow, Settings};
use finder::index::cache::{decode_cache_file, load_cache_file, save_cache};
use finder::index::search::SearchResult;
use finder::index::store::IndexStore;
use finder::mft::reader::{CompactRecord, ScanResult};
use finder::mft::types::{FileKind, FileRecord, IndexEvent, JournalCheckpoint, NtfsDrive};
use finder::rows::{
    display_name, gdi_rgb, hiword, kind_for_result, loword, open_result, path_display, result_kind,
    sort_results, Kind,
};
use finder::settings::{
    hotkey_name, load_exclusions, page_size, save_exclusions, save_settings, set_hotkey,
};
use finder::window::{centered_left, Key, WindowEvent, WindowState};

fn drive(letter: char) -> NtfsDrive {
    NtfsDrive {
        letter,
        root: format!("{letter}:\\"),
        device_path: format!("\\\\.\\{letter}:"),
    }
}

fn scan(records: &[(u64, u64, &str, bool)]) -> ScanResult {
    let mut s = ScanResult::new();
    for &(file_ref, parent_ref, name, is_dir) in records {
        let units: Vec<u16> = name.encode_utf16().collect();
        let name_off = s.name_data.len() as u32;
        s.name_data.extend_from_slice(&units);
        s.records.push(CompactRecord {
            file_ref,
            parent_ref,
            name_off,
            name_len: units.len() as u16,
            is_dir,
        });
    }
    s
}

fn store() -> IndexStore {
    let mut s = IndexStore::new();
    s.populate_from_scan(
        scan(&[
            (1, 0, "Users", true),
            (2, 1, "report.pdf", false),
            (3, 1, "Report Notes.txt", false),
            (4, 0, "tools", true),
            (5, 4, "reporter.exe", false),
            (6, 4, "reports", true),
        ]),
        &drive('C'),
    );
    s.finalize();
    s
}

fn cp(letter: char, next_usn: i64) -> JournalCheckpoint {
    JournalCheckpoint { next_usn, journal_id: 1, drive_letter: letter }
}

fn created(file_ref: u64, name: &str) -> IndexEvent {
    IndexEvent::Created {
        drive_letter: 'C',
        record: FileRecord { file_ref, parent_ref: 1, name: name.into(), kind: FileKind::File },
    }
}

#[test]
fn snapshots_are_used_as_far_as_they_go() {
    assert!(matches!(open_snapshot(None), Snapshot::Unusable));
    assert!(matches!(open_snapshot(Some(IndexStore::new().to_cache())), Snapshot::Unusable));
    assert!(matches!(open_snapshot(Some(store().to_cache())), Snapshot::Fixed(_)));
    let mut with = store();
    with.checkpoints.push(cp('C', 7));
    match open_snapshot(Some(with.to_cache())) {
        Snapshot::Open(s, cps) => {
            assert_eq!(s.len(), 6);
            assert_eq!(cps, vec![cp('C', 7)]);
        }
        _ => panic!("not open"),
    }
    // Entries that are out of order are put in order.
    let mut mixed = with.to_cache();
    mixed.entries.reverse();
    match open_snapshot(Some(mixed)) {
        Snapshot::Open(s, cps) => {
            let lowers: Vec<&str> = s.entries.iter().map(|e| s.name_lower(e)).collect();
            let mut ordered = lowers.clone();
            ordered.sort_unstable();
            assert_eq!(lowers, ordered);
            assert_eq!(s.len(), 6);
            assert!(s.lookup_idx(0, 5).is_some());
            assert_eq!(cps, vec![cp('C', 7)]);
        }
        _ => panic!("not open"),
    }
    let mut mixed = with.to_cache();
    mixed.entries.reverse();
    assert!(matches!(load_step(true, Some(mixed), 5), LoadStep::CatchUp { .. }));
    let mut bad = with.to_cache();
    bad.version = 1;
    assert!(matches!(open_snapshot(Some(bad)), Snapshot::Unusable));
}

#[test]
fn starts_follow_from_the_cache() {
    match load_step(false, None, 5) {
        LoadStep::Done { store, load, discard } => {
            assert!(store.len() == 0 && load == CacheLoad::Scanning && !discard);
        }
        _ => panic!("nothing to catch up"),
    }
    match load_step(true, None, 5) {
        LoadStep::Done { load, discard, .. } => assert!(load == CacheLoad::Scanning && discard),
        _ => panic!("nothing to catch up"),
    }
    match load_step(true, Some(store().to_cache()), 5) {
        LoadStep::Done { store, load, discard } => {
            assert_eq!(store.len(), 6);
            assert!(load == CacheLoad::Provisional { snapshot_secs: 5 } && !discard);
        }
        _ => panic!("nothing to catch up"),
    }
    assert!(is_cache_leftover("finder_cache.tmp.12.0"));
    assert!(!is_cache_leftover("finder_cache.bin"));
}

#[test]
fn positions_are_recorded_per_volume() {
    let mut s = store();
    set_position(&mut s, cp('C', 1));
    set_position(&mut s, cp('D', 2));
    set_position(&mut s, cp('C', 3));
    assert_eq!(s.checkpoints, vec![cp('D', 2), cp('C', 3)]);
    assert_eq!(find_position(&s.checkpoints, 'C'), Some(cp('C', 3)));
    assert_eq!(find_position(&s.checkpoints, 'E'), None);
}

#[test]
fn catching_up_needs_every_volume() {
    let mut s = store();
    s.checkpoints.push(cp('C', 1));
    let replays = vec![Replay::Done(cp('C', 9))];
    let load = load_cache_and_catch_up(&mut s, &replays, vec![created(50, "new.txt")], 77);
    assert!(load == CacheLoad::Ready);
    assert_eq!(s.checkpoints, vec![cp('C', 9)]);
    assert_eq!(s.len(), 7);
    assert!(save_after_catch_up(load, 1) && !save_after_catch_up(load, 0));

    let mut s = store();
    let replays = vec![Replay::Done(cp('C', 9)), Replay::Lost];
    let load = load_cache_and_catch_up(&mut s, &replays, Vec::new(), 77);
    assert!(load == CacheLoad::Provisional { snapshot_secs: 77 });
    assert!(!save_after_catch_up(load, 3));
}

#[test]
fn the_right_reading_of_a_volume_counts() {
    assert!(scan_step(false, None, None) == ScanStep::Enumerate);
    assert!(scan_step(false, Some(5), None) == ScanStep::TakeEnumerated);
    assert!(scan_step(false, Some(0), None) == ScanStep::ReadTable);
    assert!(scan_step(false, Some(0), Some(4)) == ScanStep::TakeTable);
    assert!(scan_step(false, Some(0), Some(0)) == ScanStep::TakeEnumerated);
    assert!(scan_step(true, None, None) == ScanStep::ReadTable);
    assert!(scan_step(true, None, Some(4)) == ScanStep::TakeTable);
    assert!(scan_step(true, None, Some(0)) == ScanStep::Enumerate);
    assert!(scan_step(true, Some(0), Some(0)) == ScanStep::TakeEnumerated);
}

#[test]
fn indexes_are_built_from_scans() {
    let built = build_full_index(
        vec![cp('C', 4)],
        vec![
            DriveScan { drive: drive('C'), scan: scan(&[(1, 0, "b", true)]) },
            DriveScan { drive: drive('D'), scan: scan(&[(1, 0, "a", false)]) },
        ],
    )
    .unwrap();
    assert_eq!(built.len(), 2);
    assert_eq!(built.name(&built.entries[0]), "a");
    assert_eq!(built.entries[0].drive, 1);
    assert_eq!(built.checkpoints, vec![cp('C', 4)]);
    assert!(build_full_index(vec![cp('C', 4)], Vec::new()).is_none());
}

#[test]
fn live_events_wait_for_a_position_or_a_batch() {
    let mut s = store();
    let mut a = Applier::new();
    let first = a.take(&mut s, created(50, "x.txt"));
    assert_eq!((first.counted, s.len()), (0, 6));
    let done = a.take(&mut s, IndexEvent::Checkpoint(cp('C', 8)));
    assert_eq!((done.counted, s.len()), (1, 7));
    assert_eq!(s.checkpoints, vec![cp('C', 8)]);
    let mut counted = 0;
    for i in 0..64u64 {
        counted += a.take(&mut s, created(100 + i, "y.txt")).counted;
    }
    assert_eq!((counted, s.len()), (64, 71));
}

#[test]
fn silent_watchers_are_noticed() {
    let mut beats = vec![Heartbeat { letter: 'C', at: 1000 }, Heartbeat { letter: 'D', at: 40_000 }];
    assert!(watchdog(&mut beats, 61_000).is_empty());
    assert_eq!(watchdog(&mut beats, 61_001), vec!['C']);
    assert_eq!(beats[0].at, 0);
    assert_eq!(beats[1].at, 40_000);
    assert_eq!(
        stopped_status('C'),
        "File watcher on C stopped — results may be stale. Use \"Try again\" to re-index."
    );
    assert!(save_due(500) && !save_due(499));
}

#[test]
fn backend_starts_and_ends_in_words() {
    assert!(matches!(
        after_load(CacheLoad::Scanning, true, 0, 0),
        StartStep::Build { first_run: true }
    ));
    assert!(matches!(after_load(CacheLoad::Ready, false, 3, 0), StartStep::Watch));
    assert!(matches!(
        after_load(CacheLoad::Ready, false, 0, 0),
        StartStep::Stop(w) if w == EMPTY_INDEX
    ));
    assert!(matches!(
        after_load(CacheLoad::Provisional { snapshot_secs: 100 }, false, 3, 400_000),
        StartStep::Refresh(w) if w == "Index loaded from snapshot (5 min ago) — refreshing…"
    ));
    assert!(matches!(after_build(false, true), StartStep::Watch));
    assert!(matches!(after_build(true, false), StartStep::Stop(w) if w == EMPTY_REFRESH));
    assert_eq!(rebuild_index(false, Some(1)), (false, NO_DRIVES.to_string()));
    assert_eq!(rebuild_index(true, None), (false, EMPTY_REBUILD.to_string()));
    assert_eq!(rebuild_index(true, Some(12)), (true, "12 files indexed".to_string()));
    assert_eq!(indexed_status(0), "0 files indexed");
    assert_eq!(scanning_status('D', 2, 3), "Scanning D: (drive 2/3)...");
}

#[test]
fn starting_with_the_system_and_moving_the_cache() {
    assert!(autostart_step(true, false, false, false) == Autostart::Create);
    assert!(autostart_step(true, false, true, false) == Autostart::Migrate);
    assert!(autostart_step(false, true, false, false) == Autostart::Repair);
    assert!(autostart_step(false, true, true, true) == Autostart::Leave);
    assert!(cache_source(true, true, true) == CacheSource::InPlace);
    assert!(cache_source(false, true, true) == CacheSource::Earlier);
    assert!(cache_source(false, false, true) == CacheSource::Temporary);
    assert!(cache_source(false, false, false) == CacheSource::InPlace);
}

#[test]
fn cache_files_of_every_age_decode() {
    let data = b"some data, some data, some data".to_vec();
    let raw = save_cache(&data).unwrap();
    assert_eq!(load_cache_file(&raw), Some(data.clone()));
    assert_eq!(decode_cache_file(&raw), Some(data.clone()));
    let block = lz4_flex::compress_prepend_size(&data);
    assert_ne!(block, data);
    assert_eq!(decode_cache_file(&block), Some(data.clone()));
    assert_eq!(load_cache_file(&block), None);
    assert_eq!(decode_cache_file(b"abc"), None);
    assert_eq!(decode_cache_file(&[0, 0, 0, 0, 9]), None);
    assert_eq!(decode_cache_file(&[0xff, 0xff, 0xff, 0xff, 9]), None);
    // A length that no block has.
    let mut long = vec![1, 0, 0, 0, 0xf0];
    long.resize(5 + 16_843_010, 0xff);
    assert_eq!(decode_cache_file(&long), None);
    // A run that is not too long is decoded.
    let zeros = vec![0u8; 4_000_000];
    assert_eq!(decode_cache_file(&lz4_flex::compress_prepend_size(&zeros)), Some(zeros));
}

#[test]
fn queries_with_filters() {
    let p = parse_query("ext:PDF");
    assert_eq!((p.query.as_str(), p.ext_filter.as_deref()), ("", Some("pdf")));
    assert!(p.filter == Filter::Files);
    let p = parse_query("*.Tar.GZ");
    assert!(p.ext_filter.as_deref() == Some("tar.gz") && p.filter == Filter::All);
    let p = parse_query("folder: src ");
    assert!(p.query == "src" && p.filter == Filter::Dirs && p.ext_filter.is_none());
    let p = parse_query("file:a");
    assert!(p.query == "a" && p.filter == Filter::Files);
    assert!(parse_query(": x").query == " x" && parse_query(":x").filter == Filter::Dirs);
    assert!(parse_query("!x").filter == Filter::Files);
    assert!(parse_query("x!").filter == Filter::All && parse_query("x!").query == "x!");
}

#[test]
fn commands_of_the_command_line() {
    let mut c = CliState { case_sensitive: false, excluded: Vec::new() };
    assert!(matches!(c.search_loop("  \n", 3), CliStep::Nothing));
    for q in ["quit", " exit ", "q"] {
        assert!(matches!(c.search_loop(q, 3), CliStep::Quit));
    }
    assert!(matches!(c.search_loop("count", 3), CliStep::Say(w) if w == "  3 files in index\n"));
    assert!(matches!(c.search_loop("rescan", 3), CliStep::Rescan));
    assert!(matches!(c.search_loop("exclusions", 3), CliStep::List));
    assert!(matches!(c.search_loop("case", 3), CliStep::Say(w) if w == "  case sensitivity: ON\n"));
    assert!(c.case_sensitive);
    assert!(matches!(c.search_loop("case", 3), CliStep::Say(w) if w == "  case sensitivity: OFF\n"));
    assert!(matches!(
        c.search_loop("exclude  C:\\Temp ", 3),
        CliStep::Save(w) if w == "  excluded: c:\\temp\\\n"
    ));
    assert!(matches!(c.search_loop("exclude c:\\temp\\", 3), CliStep::Say(_)));
    assert_eq!(c.excluded, vec!["c:\\temp\\".to_string()]);
    assert!(matches!(
        c.search_loop("unexclude D:\\", 3),
        CliStep::Save(w) if w == "  not found in exclusions\n"
    ));
    assert!(matches!(
        c.search_loop("unexclude C:\\TEMP", 3),
        CliStep::Save(w) if w == "  removed: c:\\temp\\\n"
    ));
    assert!(c.excluded.is_empty());
    assert!(matches!(c.search_loop("exclude", 3), CliStep::Find(p) if p.query == "exclude"));
}

#[test]
fn results_of_the_command_line() {
    let s = store();
    let c = CliState { case_sensitive: false, excluded: Vec::new() };
    let found = |c: &CliState, q: &str| -> Vec<String> {
        c.find(&s, &parse_query(q)).into_iter().map(|r| r.name).collect()
    };
    assert_eq!(found(&c, "ext:txt"), vec!["Report Notes.txt"]);
    assert_eq!(found(&c, "folder:report"), vec!["reports"]);
    assert_eq!(found(&c, "file:report").len(), 3);
    let c = CliState { case_sensitive: false, excluded: vec!["c:\\users\\".into()] };
    assert!(found(&c, "*.txt").is_empty());
    assert_eq!(found(&c, "*.exe"), vec!["reporter.exe"]);
    let rows = c.find(&s, &parse_query("*.exe"));
    assert_eq!(result_line(7, &rows[0]), "  [  7] [FILE] C:\\tools\\reporter.exe");
    assert_eq!((pad_three(42).as_str(), pad_three(1000).as_str()), (" 42", "1000"));
}

#[test]
fn settings_are_kept_in_lines() {
    let paths = vec![" C:\\Temp ".to_string(), "  ".into(), "D:/Games/".into()];
    let kept = save_settings(&paths);
    assert_eq!(kept, vec!["c:\\temp\\".to_string(), "d:/games/".into()]);
    let text = save_exclusions(&kept);
    assert_eq!(text, "c:\\temp\\\nd:/games/");
    assert_eq!(load_exclusions(&text), kept);
    assert_eq!(load_exclusions(" A \r\n\n b"), vec!["a".to_string(), "b".into()]);
    assert_eq!(page_size(None), 50);
    assert_eq!((page_size(Some(0)), page_size(Some(7)), page_size(Some(999))), (1, 7, 200));
}

#[test]
fn hotkeys_come_from_a_list() {
    assert_eq!(hotkey_name(&None), "ctrl+space");
    assert_eq!(hotkey_name(&Some("alt+space".into())), "alt+space");
    assert_eq!(hotkey_name(&Some("win+x".into())), "ctrl+space");
    assert_eq!(set_hotkey("alt+space", "ctrl+space"), Ok(true));
    assert_eq!(set_hotkey("alt+space", "alt+space"), Ok(false));
    assert_eq!(set_hotkey("win+x", "alt+space"), Err("unsupported hotkey: win+x".to_string()));
}

#[test]
fn requests_of_the_front_end() {
    let mut s = store();
    assert_eq!(search_files(&mut s, "  ", 0).items.len(), 0);
    let page = search_files(&mut s, " report ", 0);
    assert_eq!(page.total, 4);
    assert!(page.items.iter().any(|r| r.name == "reports" && r.kind == "dir"));
    assert!(page.items.iter().any(|r| r.path == "C:\\Users\\report.pdf" && r.kind == "file"));
    s.apply_events(vec![created(60, "fresh.xyz")]);
    assert!(s.ext_dirty);
    assert_eq!(search_files(&mut s, ".xyz", 0).total, 1);
    assert!(!s.ext_dirty);

    let mut settings = Settings { excluded_paths: Vec::new(), case_sensitive: false };
    let rows = settings.search(&s, "report", Some(500), None);
    let names: Vec<&str> = rows.iter().map(|r| r.name.as_str()).collect();
    assert_eq!(names[0], "reporter.exe");
    assert_eq!(rows[0].kind, "APP");
    let payload = Settings { excluded_paths: vec!["C:\\Tools".into()], case_sensitive: true };
    assert_eq!(settings.save_settings(&payload), "c:\\tools\\");
    assert!(settings.get_settings().case_sensitive);
    assert!(settings.search(&s, "report", None, Some(false)).iter().all(|r| r.name != "reporter.exe"));
    assert!(!settings.case_sensitive);

    let env = finder::env::Env { vars: Vec::new() };
    assert_eq!(search_path(" C:\\x ", &env).as_deref(), Some("C:\\x"));
    assert_eq!(search_path("word", &env), None);
    let mut first = FirstShow { shown: false };
    assert!(first.frontend_loaded());
    assert!(!first.frontend_loaded());
}

fn result(path: &str, is_dir: bool) -> SearchResult {
    SearchResult {
        full_path: path.into(),
        name: path.rsplit('\\').next().unwrap().into(),
        rank: 0,
        is_dir,
        modified_time: None,
        file_type_priority: 0,
    }
}

#[test]
fn rows_have_kinds() {
    assert!(result_kind(&result("C:\\a.EXE", false)) == Kind::App);
    assert!(result_kind(&result("C:\\a.exe", true)) == Kind::Folder);
    assert!(result_kind(&result("C:\\a.msix", false)) == Kind::Other);
    assert!(kind_for_result(&result("C:\\a.msix", false)) == Kind::App);
    let sorted = sort_results(&vec![
        result("C:\\z.zip", false),
        result("C:\\b.txt", false),
        result("C:\\a.exe", false),
        result("C:\\a.txt", false),
    ]);
    let names: Vec<&str> = sorted.iter().map(|r| r.name.as_str()).collect();
    assert_eq!(names, vec!["a.exe", "b.txt", "a.txt", "z.zip"]);
    assert_eq!(display_name(&result("C:\\My App.exe", false), "shell"), "My App");
    assert_eq!(display_name(&result("C:\\a.txt", false), "shell"), "shell");
    assert_eq!(display_name(&result("C:\\a.txt", false), ""), "a.txt");
    let long = format!("C:\\{}", "x".repeat(90));
    assert_eq!(path_display(&result(&long, false)), format!("…{}", "x".repeat(73)));
    assert_eq!(path_display(&result("C:\\a", false)), "C:\\a");
    assert_eq!(open_result(&result("C:\\d\\a.txt", false), true), "C:\\d");
    assert_eq!(open_result(&result("C:\\d\\a.txt", false), false), "C:\\d\\a.txt");
    assert_eq!(gdi_rgb(20, 22, 34), 0x22_1614);
    assert_eq!((loword(0x1234_5678), hiword(0x1234_5678)), (0x5678, 0x1234));
}

#[test]
fn windows_answer_events() {
    let s = store();
    let mut w = WindowState::new();
    assert_eq!(w.win_h_i(), 74);
    let r = w.query_changed(&s, " report ", false, &Vec::new());
    assert!(r.redraw && r.resize && !r.hide);
    assert_eq!(w.results.len(), 4);
    assert_eq!(w.win_h_i(), 74 + 4 * 58 + 26);
    assert!(w.wnd_proc(WindowEvent::Key(Key::Down)).redraw);
    assert_eq!(w.selected, 1);
    for _ in 0..9 {
        w.wnd_proc(WindowEvent::Key(Key::Down));
    }
    assert_eq!(w.selected, 3);
    assert!(w.wnd_proc(WindowEvent::MouseMove(74 + 58)).redraw);
    assert_eq!(w.hover, Some(1));
    assert!(!w.wnd_proc(WindowEvent::MouseMove(74 + 59)).redraw);
    assert!(w.wnd_proc(WindowEvent::Click(74)).focus);
    assert_eq!(w.selected, 0);
    assert!(!w.wnd_proc(WindowEvent::Key(Key::Up)).redraw);
    let enter = w.wnd_proc(WindowEvent::Key(Key::Enter(true)));
    assert!(enter.hide && enter.open == Some(true));
    assert!(w.wnd_proc(WindowEvent::Activate(false)).hide);
    assert!(w.wnd_proc(WindowEvent::Toggle(false)).show);
    assert!(w.wnd_proc(WindowEvent::Menu(1001)).show);
    assert!(w.wnd_proc(WindowEvent::Menu(1002)).close);
    assert!(w.wnd_proc(WindowEvent::Key(Key::Other)).pass_on);
    assert!(w.wnd_proc(WindowEvent::DoubleClick(10)).open.is_none());
    assert_eq!(w.open_selected(false).as_deref(), Some("C:\\tools\\reporter.exe"));

    let scene = w.paint_d2d(6, &vec![String::new(); 4]);
    assert_eq!(scene.rows.len(), 4);
    assert_eq!((scene.rows[1].top, scene.rows[1].icon_top), (74 + 58, 74 + 58 + 13));
    assert!(scene.rows[0].selected && scene.rows[1].hovered);
    assert_eq!(scene.rows[0].name, "reporter");
    assert!(scene.status.unwrap().starts_with("4 results   \u{B7}"));
    assert!(!scene.placeholder);
    assert!(WindowState::new().paint_d2d(0, &Vec::new()).placeholder);
    assert_eq!(centered_left(1920), 610);
}

#[test]
fn backend_starts_step_by_step() {
    let mut b = Boot::new();
    assert!(matches!(b.start_backend(BootEvent::Built(true)), BootAction::Wait));
    assert!(matches!(b.start_backend(BootEvent::Drives(true)), BootAction::FindFolders));
    assert!(matches!(
        b.start_backend(BootEvent::Folders { earlier: true, current: false }),
        BootAction::FindCaches { move_folder: true }
    ));
    assert!(matches!(
        b.start_backend(BootEvent::Caches { in_place: false, earlier: false, temporary: true }),
        BootAction::FindLeftovers { source: CacheSource::Temporary }
    ));
    assert!(matches!(
        b.start_backend(BootEvent::Leftovers { folder: true, cache: false }),
        BootAction::FindMarker { sweep: true }
    ));
    assert!(matches!(
        b.start_backend(BootEvent::Marker(false)),
        BootAction::FindStartup { set_marker: true }
    ));
    assert!(matches!(
        b.start_backend(BootEvent::Startup { task: false, shortcut: false, repaired: false }),
        BootAction::Load { autostart: Autostart::Create }
    ));
    assert!(matches!(
        b.start_backend(BootEvent::Loaded { load: CacheLoad::Scanning, count: 0, now: 0 }),
        BootAction::Build { first_run: true }
    ));
    assert!(matches!(b.start_backend(BootEvent::Built(false)), BootAction::Stop(w) if w == EMPTY_INDEX));
    assert!(b.stage == BootStage::Over);
    let mut none = Boot::new();
    assert!(matches!(none.start_backend(BootEvent::Drives(false)), BootAction::Stop(w) if w == NO_DRIVES));
}

#[test]
fn an_index_is_current_if_every_volume_resumed() {
    assert!(all_resumed(&vec![]));
    assert!(all_resumed(&vec![Replay::Done(cp('C', 1)), Replay::Done(cp('D', 2))]));
    assert!(!all_resumed(&vec![Replay::Done(cp('C', 1)), Replay::Lost]));
}

#[test]
fn the_launcher_stays_until_the_index_is_ready() {
    assert!(hides_on_blur(false, true, true));
    assert!(!hides_on_blur(true, true, true));
    assert!(!hides_on_blur(false, false, true));
    assert!(!hides_on_blur(false, true, false));
}
