//! The application pool.
use finder::apps::discover::{
    apps_from_shell, discover_apps, settle_pool, sort_pool, start_menu_roots, system_tools, unique_pool, Shortcut,
};
use finder::apps::names::{
    aumid_exe_token, file_name_key, is_arch_token, is_installer_junk, is_shell_junk,
    is_shortcut_target_junk, is_version_token, norm_app_name,
};
use finder::apps::pool::{
    app_rank, dedupe_exact_path, get_all_apps, is_launchable_path, load_pool_cache,
    pool_equivalent, refresh_pool, search_apps, AppEntry, Usage,
};
use finder::apps::registry::{
    exe_from_uninstall_string, find_exe, icon_exe, registry_app_path, uninstall_exe, Disk,
};
use finder::apps::targets::{
    app_name_score, app_target_exe, canonical_target, dedupe_by_target, expand_aumid_path, Resolved,
    Target,
};
use finder::env::Env;
use finder::index::apps::{
    app_from_path, app_path_candidate, get_installed_apps, msi_product_prop, prettify_exe_name,
    uninstall_entry, InstalledApp,
};
use finder::index::installed;
use finder::index::store::IndexStore;

fn env(vars: &[(&str, &str)]) -> Env {
    Env { vars: vars.iter().map(|(k, v)| (k.to_string(), v.to_string())).collect() }
}

fn app(name: &str, path: &str) -> AppEntry {
    AppEntry { name: name.to_string(), path: path.to_string(), icon: None }
}

fn names(apps: &[AppEntry]) -> Vec<&str> {
    apps.iter().map(|a| a.name.as_str()).collect()
}

fn installed_app(name: &str) -> InstalledApp {
    InstalledApp {
        name: name.to_string(),
        install_location: None,
        publisher: None,
        uninstall_string: None,
        quiet_uninstall_string: None,
        icon: None,
    }
}

fn disk(files: &[&str], dirs: &[(&str, &[&str])]) -> Disk {
    Disk {
        files: files.iter().map(|f| f.to_string()).collect(),
        dirs: dirs
            .iter()
            .map(|(d, fs)| (d.to_string(), fs.iter().map(|f| f.to_string()).collect()))
            .collect(),
    }
}

#[test]
fn twins_share_a_name_key() {
    assert_eq!(norm_app_name("SnippingTool"), norm_app_name("Snipping Tool"));
    assert_eq!(norm_app_name("Antigravity 2.1.4"), "antigravity");
    assert_eq!(norm_app_name("Opera Browser"), "opera");
    assert_eq!(norm_app_name("Opera Stable 133.0.5932.85"), "opera");
    assert_eq!(norm_app_name("Python 3.13.7 (64-bit)"), norm_app_name("Python 3.13 (64-bit)"));
    assert_eq!(norm_app_name(" Visual Studio Code (User) "), "visualstudiocode");
    assert_eq!(norm_app_name("Notes - Shortcut"), "notes");
    // What tells products apart stays.
    assert_ne!(norm_app_name("Windows PowerShell (x86)"), norm_app_name("Windows PowerShell"));
    assert_eq!(norm_app_name("Outlook (classic)"), "outlookclassic");
    assert_eq!(norm_app_name("Windows Kit 2012"), "windowskit2012");
}

#[test]
fn versions_and_architectures() {
    assert!(is_version_token("3.13.7") && is_version_token("11.0.61030") && is_version_token("."));
    assert!(!is_version_token("2012") && !is_version_token("v1.2") && !is_version_token(""));
    assert!(is_arch_token("(x64)") && is_arch_token("(32-bit)"));
    assert!(!is_arch_token("x64") && !is_arch_token("(X64)"));
}

#[test]
fn noise_is_recognized() {
    assert!(is_shell_junk("Node docs", "aumid:https://nodejs.org"));
    assert!(is_shell_junk("Sample", "AUMID:c:\\kits\\sample.URL"));
    assert!(is_shell_junk("Uninstall Node.js", "x"));
    assert!(is_shell_junk("Install Additional Tools", "x"));
    assert!(is_shell_junk("Node.js command prompt", "x"));
    assert!(!is_shell_junk("Node.js", "aumid:node"));
    assert!(is_shortcut_target_junk("https://git-scm.com"));
    assert!(is_shortcut_target_junk("C:\\Git\\notes.html"));
    assert!(is_shortcut_target_junk("C:\\Windows\\System32\\cmd.exe"));
    assert!(is_shortcut_target_junk("C:\\App\\unins000.exe"));
    assert!(is_shortcut_target_junk(""));
    assert!(!is_shortcut_target_junk("C:\\App\\app.exe"));
    assert!(is_installer_junk("C:\\ProgramData\\Package Cache\\x\\setup.exe"));
    assert!(is_installer_junk("C:\\App\\Uninstall.exe"));
    assert!(!is_installer_junk("C:\\App\\app.exe"));
}

#[test]
fn executables_in_ids_and_paths() {
    assert_eq!(
        aumid_exe_token("Microsoft.Office.WINWORD.EXE.15").as_deref(),
        Some("winword.exe")
    );
    assert_eq!(aumid_exe_token("app.exe").as_deref(), Some("app.exe"));
    assert_eq!(aumid_exe_token("Microsoft.Calculator_8wekyb!App"), None);
    assert_eq!(aumid_exe_token("a b.exe"), None);
    assert_eq!(aumid_exe_token("x.exempt"), None);
    assert_eq!(file_name_key("C:\\Office\\WINWORD.EXE").as_deref(), Some("winword.exe"));
    assert_eq!(file_name_key("C:\\"), None);
}

#[test]
fn ids_of_known_folders_become_paths() {
    let e = env(&[("WINDIR", "C:\\Windows"), ("ProgramFiles", "D:\\Programs")]);
    assert_eq!(
        expand_aumid_path("{1AC14E77-02E7-4E5D-B744-2EB1AE5198B7}\\mdsched.exe", &e).as_deref(),
        Some("C:\\Windows\\System32\\mdsched.exe")
    );
    assert_eq!(
        expand_aumid_path("{d65231b0-b2f1-4857-a4ce-a8e7c6ea7d27}\\a\\b.exe", &e).as_deref(),
        Some("C:\\Windows\\SysWOW64\\a\\b.exe")
    );
    assert_eq!(
        expand_aumid_path("{6d809377-6af0-444b-8957-a3773f02200e}\\Git\\git.exe", &e).as_deref(),
        Some("D:\\Programs\\Git\\git.exe")
    );
    assert_eq!(expand_aumid_path("{00000000}\\x.exe", &e), None);
    assert_eq!(expand_aumid_path("no-separator", &e), None);
}

#[test]
fn entries_lead_to_executables() {
    let e = env(&[]);
    assert!(matches!(app_target_exe(&app("A", " C:\\a.EXE "), &e), Target::Exe(p) if p == "C:\\a.EXE"));
    assert!(matches!(app_target_exe(&app("A", "C:\\a.lnk"), &e), Target::Link(p) if p == "C:\\a.lnk"));
    assert!(matches!(
        app_target_exe(&app("P", "aumid:C:\\Py\\Python.exe"), &e),
        Target::Exe(p) if p == "c:\\py\\python.exe"
    ));
    assert!(matches!(app_target_exe(&app("S", "ms-settings:wifi"), &e), Target::Absent));
    assert!(matches!(app_target_exe(&app("C", "aumid:calc!App"), &e), Target::Absent));
}

#[test]
fn better_names_score_higher() {
    let exe = Some("C:\\Office\\winword.exe".to_string());
    // Mixed case, one block of eight, a title with a space.
    assert_eq!(app_name_score(&app("Microsoft Word", "C:\\w.exe"), &exe), 4 - 1 + 3);
    // The stem of the executable, in lowercase.
    assert_eq!(app_name_score(&app("winword", "C:\\w.exe"), &exe), -8);
    assert_eq!(app_name_score(&app("WINWORD", "C:\\w.lnk"), &exe), -4 + 2 - 8);
    assert_eq!(app_name_score(&app("Code (User)", "C:\\c.exe"), &None), 4 - 6 - 1);
    assert_eq!(canonical_target("C:\\A.EXE", &None), "c:\\a.exe");
    assert_eq!(canonical_target("C:\\A~1.EXE", &Some("\\\\?\\C:\\Long.exe".into())), "\\\\?\\c:\\long.exe");
}

fn resolved(exe: &str) -> Resolved {
    Resolved { exe: Some(exe.to_string()), canon: None }
}

#[test]
fn one_entry_per_executable() {
    let mut apps = vec![
        app("winword", "C:\\Office\\WINWORD.EXE"),
        app("Word", "C:\\menu\\Word.lnk"),
        app("Excel", "C:\\Office\\EXCEL.EXE"),
    ];
    let found = vec![
        resolved("C:\\Office\\WINWORD.EXE"),
        resolved("c:\\office\\winword.exe"),
        resolved("C:\\Office\\EXCEL.EXE"),
    ];
    dedupe_by_target(&mut apps, &found, &env(&[]));
    assert_eq!(names(&apps), vec!["Word", "Excel"]);
}

#[test]
fn file_names_merge_through_ids_only() {
    let e = env(&[]);
    let mut stable_and_beta = vec![
        app("Chrome", "C:\\Chrome\\chrome.exe"),
        app("Chrome Beta", "C:\\Chrome Beta\\chrome.exe"),
    ];
    let found = vec![resolved("C:\\Chrome\\chrome.exe"), resolved("C:\\Chrome Beta\\chrome.exe")];
    dedupe_by_target(&mut stable_and_beta, &found, &e);
    assert_eq!(stable_and_beta.len(), 2);

    let mut office = vec![
        app("Word", "aumid:Microsoft.Office.WINWORD.EXE.15"),
        app("WINWORD", "C:\\Office\\WINWORD.EXE"),
    ];
    let found = vec![Resolved { exe: None, canon: None }, resolved("C:\\Office\\WINWORD.EXE")];
    dedupe_by_target(&mut office, &found, &e);
    assert_eq!(names(&office), vec!["Word"]);
}

#[test]
fn first_copy_of_a_path_is_kept() {
    let mut apps = vec![app("One", "aumid:Z"), app("Two", "AUMID:z"), app("Three", "aumid:y")];
    dedupe_exact_path(&mut apps);
    assert_eq!(names(&apps), vec!["One", "Three"]);
}

#[test]
fn ranks_of_a_name() {
    assert_eq!(app_rank("chrome", "chrome"), Some(0));
    assert_eq!(app_rank("chrome beta", "chrome"), Some(1));
    assert_eq!(app_rank("google chrome", "chr"), Some(2));
    assert_eq!(app_rank("my-chrome", "chr"), Some(2));
    assert_eq!(app_rank("monochrome", "chrome"), Some(3));
    assert_eq!(app_rank("firefox", "chrome"), None);
}

#[test]
fn searches_of_the_pool() {
    let apps = vec![
        app("Word", "C:\\w.exe"),
        app("WordPad", "C:\\wp.exe"),
        app("Password Safe", "C:\\ps.exe"),
        app("Settings: Word", "ms-settings:word"),
        app("Wordle", "C:\\wl.exe"),
    ];
    let mut usage = Usage::new();
    usage.launched("C:\\WL.EXE");
    usage.launched("c:\\wl.exe");
    assert_eq!(usage.of("C:\\wl.exe"), 2);
    let found = search_apps(" word ", &apps, &usage);
    let got: Vec<(&str, u8)> = found.iter().map(|r| (r.name.as_str(), r.rank)).collect();
    assert_eq!(
        got,
        vec![("Word", 0), ("Wordle", 1), ("WordPad", 1), ("Settings: Word", 2), ("Password Safe", 3)]
    );
    assert_eq!(found[0].kind, "app");
    // Without a query the pages of the settings are left out.
    let browse = search_apps("", &apps, &usage);
    let got: Vec<&str> = browse.iter().map(|r| r.name.as_str()).collect();
    assert_eq!(got, vec!["Wordle", "Password Safe", "Word", "WordPad"]);
    let many: Vec<AppEntry> = (0..30).map(|i| app(&format!("App {i:02}"), &format!("C:\\{i}.exe"))).collect();
    assert_eq!(search_apps("app", &many, &usage).len(), 10);
    assert_eq!(search_apps("", &many, &usage).len(), 16);
    assert_eq!(get_all_apps(&many).len(), 30);
}

#[test]
fn pools_with_the_same_paths_are_equivalent() {
    let a = vec![app("A", "C:\\a.exe"), app("B", "C:\\b.exe")];
    let b = vec![app("B2", "C:\\B.EXE"), app("A2", "C:\\A.EXE")];
    assert!(pool_equivalent(&a, &b));
    assert!(!pool_equivalent(&a, &a[..1]));
    assert!(!pool_equivalent(&a, &[app("A", "C:\\a.exe"), app("C", "C:\\c.exe")]));

    let mut pool = a;
    let mut rev = 4;
    assert!(!refresh_pool(&mut pool, Vec::new(), &mut rev));
    assert!(!refresh_pool(&mut pool, b, &mut rev));
    assert_eq!((names(&pool), rev), (vec!["A", "B"], 4));
    assert!(refresh_pool(&mut pool, vec![app("C", "C:\\c.exe")], &mut rev));
    assert_eq!((names(&pool), rev), (vec!["C"], 5));
}

#[test]
fn only_launchable_paths_are_offered() {
    for p in ["C:\\a.exe", "c:/a", " D:\\x ", "\\\\server\\share", "aumid:x", "ms-settings:", "shell:::{1}"] {
        assert!(is_launchable_path(p), "{}", p);
    }
    for p in ["", "a.exe", "C:", "C:x", "1:\\x", "\\\\.\\C:", "\\\\?\\C:\\x", "\\x", "shell:x"] {
        assert!(!is_launchable_path(p), "{}", p);
    }
    let saved = vec![
        ("Good".to_string(), "C:\\a.exe".to_string()),
        ("Planted".to_string(), "\\\\.\\C:".to_string()),
    ];
    assert_eq!(names(&load_pool_cache(&saved)), vec!["Good"]);
}

#[test]
fn best_executable_of_a_folder() {
    let d = disk(
        &["C:\\App\\helper.exe", "C:\\App\\App.exe", "C:\\App\\app updater.exe", "C:\\App\\app.dll"],
        &[(
            "C:\\App",
            &["C:\\App\\helper.exe", "C:\\App\\app updater.exe", "C:\\App\\App.exe", "C:\\App\\app.dll"],
        )],
    );
    assert_eq!(find_exe(&d, "C:\\App", "APP").as_deref(), Some("C:\\App\\App.exe"));
    assert_eq!(find_exe(&d, "C:\\App", "app updater").as_deref(), Some("C:\\App\\app updater.exe"));
    assert_eq!(find_exe(&d, "C:\\App", "zzz"), None);
    assert_eq!(find_exe(&d, "C:\\None", "app"), None);
}

#[test]
fn executables_of_uninstall_strings() {
    let e = env(&[("ProgramFiles", "C:\\Program Files")]);
    assert_eq!(
        uninstall_exe("\"%ProgramFiles%\\Git\\git.exe\" /S", &e).as_deref(),
        Some("C:\\Program Files\\Git\\git.exe")
    );
    assert_eq!(uninstall_exe("MsiExec.exe /X{1}", &e), None);
    assert_eq!(uninstall_exe("  ", &e), None);
    let d = disk(
        &["C:\\App\\app.exe", "C:\\App\\unins000.exe"],
        &[("C:\\App", &["C:\\App\\app.exe", "C:\\App\\unins000.exe"])],
    );
    assert_eq!(
        exe_from_uninstall_string("C:\\App\\app.exe --remove", "App", &e, &d).as_deref(),
        Some("C:\\App\\app.exe")
    );
    assert_eq!(
        exe_from_uninstall_string("\"C:\\App\\unins000.exe\"", "App", &e, &d).as_deref(),
        Some("C:\\App\\app.exe")
    );
    assert_eq!(exe_from_uninstall_string("C:\\Gone\\x.exe", "App", &e, &d), None);
}

#[test]
fn paths_of_installed_applications() {
    let e = env(&[]);
    let d = disk(
        &["C:\\App\\app.exe", "C:\\App\\app.ico"],
        &[("C:\\App", &["C:\\App\\app.exe", "C:\\App\\app.ico"])],
    );
    let mut a = installed_app("App");
    assert_eq!(registry_app_path(&a, &e, &d), None);
    a.uninstall_string = Some("C:\\App\\app.exe".into());
    assert_eq!(registry_app_path(&a, &e, &d).as_deref(), Some("C:\\App\\app.exe"));
    a.install_location = Some("C:\\Nowhere".into());
    assert_eq!(registry_app_path(&a, &e, &d), None);
    a.icon = Some("\"C:\\App\\app.exe\",0".into());
    assert_eq!(registry_app_path(&a, &e, &d).as_deref(), Some("C:\\App\\app.exe"));
    a.icon = Some("C:\\App\\app.ico".into());
    assert_eq!(registry_app_path(&a, &e, &d).as_deref(), Some("C:\\App\\app.exe"));
    assert_eq!(icon_exe("\"C:\\x.exe\",3", &e).as_deref(), Some("C:\\x.exe"));
}

#[test]
fn tools_and_menu_roots() {
    let e = env(&[("SystemRoot", "D:\\Win"), ("APPDATA", "C:\\U\\Roaming")]);
    let tools = system_tools(&e);
    assert_eq!(tools.len(), 88);
    assert_eq!(tools[0], "ms-settings:");
    assert_eq!(tools[3], "D:\\Win\\System32\\Taskmgr.exe");
    assert_eq!(
        start_menu_roots(&e),
        vec![
            "C:\\ProgramData\\Microsoft\\Windows\\Start Menu\\Programs",
            "C:\\U\\Roaming\\Microsoft\\Windows\\Start Menu\\Programs",
        ]
    );
}

#[test]
fn entries_of_the_shell() {
    let a = apps_from_shell("Calculator", "shell:AppsFolder\\calc!App").unwrap();
    assert_eq!((a.name.as_str(), a.path.as_str()), ("Calculator", "aumid:calc!App"));
    assert_eq!(apps_from_shell("X", "C:\\x.exe").unwrap().path, "aumid:C:\\x.exe");
    assert!(apps_from_shell("", "x").is_none() && apps_from_shell("x", "").is_none());
}

#[test]
fn names_are_taken_once_while_gathering() {
    let e = env(&[]);
    let shell = vec![app("Snipping Tool", "aumid:snip!App"), app("Uninstall X", "aumid:x")];
    let shortcuts = vec![
        Shortcut { stem: "SnippingTool".into(), path: "C:\\m\\s.lnk".into(), target: None },
        Shortcut {
            stem: "Prompt".into(),
            path: "C:\\m\\p.lnk".into(),
            target: Some("C:\\Windows\\cmd.exe".into()),
        },
        Shortcut { stem: "Git GUI".into(), path: "C:\\m\\g.lnk".into(), target: None },
    ];
    let d = disk(&["C:\\App\\app.exe"], &[("C:\\App", &["C:\\App\\app.exe"])]);
    let mut from_list = installed_app("App");
    from_list.install_location = Some("C:\\App".into());
    let present = vec![false; 88];
    let pool = discover_apps(&shell, &shortcuts, &vec![from_list], &d, &present, &e);
    let first: Vec<&str> = names(&pool).into_iter().take(3).collect();
    assert_eq!(first, vec!["Snipping Tool", "Git GUI", "App"]);
    assert!(names(&pool).contains(&"Settings: Wi-Fi"));
    assert!(!names(&pool).contains(&"Task Manager"));
    let keys: std::collections::HashSet<String> =
        pool.iter().map(|a| norm_app_name(&a.name)).collect();
    assert_eq!(keys.len(), pool.len());
}

#[test]
fn pool_is_ordered_and_settled() {
    let apps = vec![app("beta", "C:\\b.exe"), app("Alpha", "C:\\a.exe"), app("ALPHA", "C:\\a2.exe")];
    assert_eq!(names(&sort_pool(&apps)), vec!["Alpha", "ALPHA", "beta"]);
    let unique = unique_pool(vec![app("A", "C:\\a.exe"), app("B", "C:\\A.exe")]);
    assert_eq!(unique.len(), 1);
    let found: Vec<Resolved> = unique.iter().map(|a| resolved(&a.path)).collect();
    assert_eq!(settle_pool(unique, &found, &env(&[])).len(), 1);
}

#[test]
fn installed_applications_merge_by_name() {
    let mut a = installed_app("Git");
    a.install_location = Some("C:\\Git".into());
    let mut b = installed_app("git");
    b.publisher = Some("The Git Team".into());
    let c = installed_app("Zed");
    let all = get_installed_apps(&vec![c, a, b]);
    assert_eq!(all.len(), 2);
    assert_eq!(all[0].name, "Git");
    assert_eq!(all[1].name, "Zed");
    assert!(uninstall_entry(None, None, None, None, None, None).is_none());
    assert!(uninstall_entry(Some("  ".into()), None, None, None, None, None).is_none());
    assert_eq!(uninstall_entry(Some("X".into()), None, None, None, None, None).unwrap().name, "X");
}

#[test]
fn app_paths_become_applications() {
    assert_eq!(prettify_exe_name("chrome"), "Chrome");
    assert_eq!(
        app_path_candidate("chrome.EXE", &None, &Some("C:\\Chrome".into())).as_deref(),
        Some("C:\\Chrome\\chrome.EXE")
    );
    assert_eq!(
        app_path_candidate("a.exe", &Some("C:\\a.exe".into()), &None).as_deref(),
        Some("C:\\a.exe")
    );
    assert_eq!(app_path_candidate("readme.txt", &Some("C:\\x.exe".into()), &None), None);
    assert_eq!(app_path_candidate("a.exe", &None, &None), None);
    let a = app_from_path("C:\\Chrome\\chrome.exe", true).unwrap();
    assert_eq!((a.name.as_str(), a.install_location.as_deref()), ("Chrome", Some("C:\\Chrome")));
    assert!(app_from_path("C:\\Chrome\\chrome.exe", false).is_none());
    assert!(app_from_path("C:\\Chrome\\chrome.dll", true).is_none());
    assert_eq!(msi_product_prop(""), None);
    assert_eq!(msi_product_prop("Node.js").as_deref(), Some("Node.js"));
}

#[test]
fn listed_applications_become_results() {
    let found = vec![
        installed::AppInfo { name: "Zed".into(), path: None, version: None },
        installed::AppInfo { name: "alpha".into(), path: Some("C:\\a".into()), version: None },
    ];
    let all = installed::get_installed_apps(&found);
    let rows = installed::apps(&IndexStore::new(), &all, 1);
    assert_eq!(rows.len(), 1);
}
