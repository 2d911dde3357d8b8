//! Launching, uninstalling, icons, pictures, and the web.
use finder::answers::{
    answer_results, fetch_web_results, parse_ddg, Answer, Related, Topic, WebStep,
};
use finder::apps::pool::AppEntry;
use finder::backdrop::{
    encode_grab, hamming_bits, hbitmap_to_png, swap_red_blue, thumb_dhash, Backdrop, BackdropGrab,
    BackdropStep, Rect, THUMB_H, THUMB_W,
};
use finder::data_uri::{image_data, image_type, png_to_uri, uri_png_bytes, MAX_IMAGE_BYTES};
use finder::icons::{
    icon_disk_path, icon_file_name, icon_source, or_generic_icon, uri_icon_data_uri, IconCache,
    IconSource,
};
use finder::launch::{
    explorer_arg, fix_task_power_gates, launch_admin, launch_uwp_elevated, launch_with_verb,
    open_parent, printed_accent, set_autostart, stored_accent, task_command, AdminLaunch,
    AutostartSet, Launch,
};
use finder::uninstall::{
    app_info, find_uninstall_entry, split_uninstall_command, uninstall_app, uninstall_exe_allowed,
    Uninstall, UninstallEntry,
};
use finder::utf16::{text_to_nul, utf16_le, utf16_null};
use finder::web::{
    http_get, looks_like_url, open_web_search, parse_bing_rss, strip_html, unescape_xml, urlencode,
    web_search,
};

#[test]
fn addresses_are_encoded() {
    assert_eq!(urlencode("a b&c"), "a%20b%26c");
    assert_eq!(urlencode("Az09-_.~"), "Az09-_.~");
    assert_eq!(urlencode("é"), "%C3%A9");
    // Different texts stay different.
    assert_ne!(urlencode("a b"), urlencode("a%20b"));
}

#[test]
fn addresses_are_encoded_piece_by_piece() {
    let (a, b) = ("caf\u{e9} ", "50% & more~");
    assert_eq!(urlencode(&format!("{a}{b}")), urlencode(a) + &urlencode(b));
    assert_eq!(urlencode(a), "caf%C3%A9%20");
    assert_eq!(urlencode("plain-_.~09"), "plain-_.~09");
}

#[test]
fn web_queries_lead_to_addresses() {
    assert!(looks_like_url("HTTPS://x") && looks_like_url("example.com") && looks_like_url("a.org"));
    assert!(!looks_like_url("rust language"));
    assert_eq!(open_web_search("  "), None);
    assert_eq!(open_web_search("http://x.com").as_deref(), Some("http://x.com"));
    assert_eq!(open_web_search(" example.com ").as_deref(), Some("https://example.com"));
    assert_eq!(
        open_web_search("rust lang").as_deref(),
        Some("https://www.google.com/search?q=rust+lang")
    );
    assert_eq!(web_search(" @@ rust "), "rust");
}

#[test]
fn entities_and_tags_go() {
    assert_eq!(unescape_xml("a &amp; b &lt;c&gt; &quot;&apos;"), "a & b <c> \"'");
    assert_eq!(unescape_xml("&#39; &nbsp; & end"), "&#39; &nbsp; & end");
    assert_eq!(unescape_xml("caf\u{e9} &amp; \u{20ac}"), "caf\u{e9} & \u{20ac}");
    assert_eq!(strip_html("<b>bold</b>  and <i>more</i>"), "bold and more");
    let long = "x".repeat(300);
    assert_eq!(strip_html(&long), format!("{}…", "x".repeat(200)));
}

const FEED: &str = "<rss><item><title>One &amp; Two</title><link> https://1 </link>\
    <description>&lt;b&gt;hi&lt;/b&gt; there</description></item>\
    <item><title> </title><link>https://2</link></item>\
    <item><title>Three</title><link>https://3</link></item></rss>";

#[test]
fn feeds_become_hits() {
    let hits = parse_bing_rss(FEED);
    assert_eq!(hits.len(), 2);
    assert_eq!(hits[0].title, "One & Two");
    assert_eq!(hits[0].url, "https://1");
    assert_eq!(hits[0].snippet, "hi there");
    assert_eq!((hits[1].title.as_str(), hits[1].snippet.as_str()), ("Three", ""));
    let many = "<item><title>t</title><link>l</link></item>".repeat(9);
    assert_eq!(parse_bing_rss(&many).len(), 5);
    assert!(parse_bing_rss("<item><title>open").is_empty());
}

const ANSWER: &str = r#"{"AbstractText": " Rust is a language ", "AbstractURL": "https://r",
    "RelatedTopics": [
        {"Text": "one", "FirstURL": "https://1"},
        {"Topics": [{"Text": "two", "FirstURL": "https://2"}, {"Text": "", "FirstURL": "https://3"}]},
        {"Other": 1}
    ]}"#;

#[test]
fn answers_become_hits() {
    let hits = parse_ddg(ANSWER).ok().unwrap();
    let got: Vec<(&str, &str)> = hits.iter().map(|h| (h.title.as_str(), h.url.as_str())).collect();
    assert_eq!(
        got,
        vec![("Rust is a language", "https://r"), ("one", "https://1"), ("two", "https://2")]
    );
    assert!(parse_ddg("no json").is_err());
    assert!(parse_ddg("{}").ok().unwrap().is_empty());
    let topics: Vec<String> =
        (0..12).map(|i| format!(r#"{{"Text": "t{i}", "FirstURL": "https://{i}"}}"#)).collect();
    let long = format!(r#"{{"RelatedTopics": [{}]}}"#, topics.join(","));
    assert_eq!(parse_ddg(&long).ok().unwrap().len(), 8);
}

fn topic(text: Option<&str>, url: Option<&str>) -> Topic {
    Topic { text: text.map(str::to_string), url: url.map(str::to_string) }
}

#[test]
fn topics_become_hits() {
    let answer = Answer {
        summary: topic(Some(" sum "), Some("https://s")),
        related: vec![
            Related { group: None, own: topic(Some("one"), None) },
            Related {
                group: Some(vec![topic(Some("two"), Some("https://2")), topic(None, Some("x"))]),
                own: topic(Some("never"), Some("https://n")),
            },
            Related { group: None, own: topic(Some("three"), Some(" https://3 ")) },
        ],
    };
    let got: Vec<(String, String)> =
        answer_results(&answer).into_iter().map(|h| (h.title, h.url)).collect();
    let want = [("sum", "https://s"), ("two", "https://2"), ("three", "https://3")];
    let want: Vec<(String, String)> =
        want.iter().map(|w| (w.0.to_string(), w.1.to_string())).collect();
    assert_eq!(got, want);
}

#[test]
fn answers_fill_in_for_an_empty_feed() {
    match fetch_web_results("a b", &None, &None) {
        WebStep::Get(url) => assert_eq!(url, "https://www.bing.com/search?q=a%20b&format=rss"),
        _ => panic!("no address"),
    }
    match fetch_web_results("a", &Some(Ok(FEED.to_string())), &None) {
        WebStep::Done(hits) => assert_eq!(hits.len(), 2),
        _ => panic!("no hits"),
    }
    match fetch_web_results("a", &Some(Ok(String::new())), &None) {
        WebStep::Get(url) => assert_eq!(
            url,
            "https://api.duckduckgo.com/?q=a&format=json&no_html=1&skip_disambig=1"
        ),
        _ => panic!("no address"),
    }
    match fetch_web_results("a", &Some(Ok(String::new())), &Some(Ok(ANSWER.to_string()))) {
        WebStep::Done(hits) => assert_eq!(hits.len(), 3),
        _ => panic!("no hits"),
    }
    match fetch_web_results("a", &Some(Err("down".into())), &None) {
        WebStep::Failed(words) => assert_eq!(words, "down"),
        _ => panic!("no failure"),
    }
}

#[test]
fn long_answers_are_cut_off() {
    let mut body = Vec::new();
    assert!(http_get(&mut body, &vec![1; 1_999_999]));
    assert!(http_get(&mut body, &vec![2; 1]));
    assert!(!http_get(&mut body, &vec![3; 10]));
    assert_eq!(body.len(), 2_000_010);
    let mut body = vec![9];
    assert!(!http_get(&mut body, &Vec::new()));
    assert_eq!(body, vec![9]);
}

#[test]
fn pictures_as_addresses() {
    let png = vec![0x89, b'P', b'N', b'G'];
    let uri = png_to_uri(&png);
    assert_eq!(uri, "data:image/png;base64,iVBORw==");
    assert_eq!(uri_png_bytes(&uri), Some(png));
    assert_eq!(uri_png_bytes("data:image/gif;base64,iVBORw=="), None);
    assert_eq!(uri_png_bytes("data:image/png;base64,***"), None);
    assert_eq!(image_type("C:\\a\\b.JPG"), Some("image/jpeg"));
    assert_eq!(image_type("b.ico"), Some("image/x-icon"));
    assert_eq!(image_type("C:\\a\\b.png:secret.png"), None);
    assert_eq!(image_type("C:\\a\\b.txt"), None);
    assert_eq!(image_data("image/png", &[1, 2, 3]).as_deref(), Some("data:image/png;base64,AQID"));
    assert!(image_data("image/png", &vec![0; MAX_IMAGE_BYTES]).is_some());
    assert!(image_data("image/png", &vec![0; MAX_IMAGE_BYTES + 1]).is_none());
}

#[test]
fn fingerprints_tell_pictures_apart() {
    assert_eq!(hamming_bits(&[0b1011, 7], &[0b0001, 7]), 2);
    assert_eq!(hamming_bits(&[1, 2, 3], &[1]), 0);
    let plain = vec![100u8; THUMB_W * THUMB_H * 4];
    let flat = thumb_dhash(&plain);
    assert_eq!(hamming_bits(&flat, &flat), 0);
    let mut ramp = plain;
    for (i, px) in ramp.chunks_exact_mut(4).enumerate() {
        let v = ((i % THUMB_W) * 3) as u8;
        px[0] = v;
        px[1] = v;
        px[2] = v;
    }
    let other = thumb_dhash(&ramp);
    assert_eq!(flat.len(), other.len());
    // Every pixel of the ramp is brighter than its left neighbor.
    assert_eq!(hamming_bits(&flat, &other), 63 * 36);
    assert_eq!(hamming_bits(&flat, &other), hamming_bits(&other, &flat));
}

fn grab() -> BackdropGrab {
    BackdropGrab { uri: "data:".into(), width: 2, height: 2 }
}

fn rect(left: i32) -> Option<Rect> {
    Some(Rect { left, top: 0, right: 10, bottom: 10 })
}

#[test]
fn grabs_are_reused_while_nothing_changes() {
    let mut b = Backdrop::new();
    assert!(b.capture_backdrop(&rect(0), 5) == BackdropStep::Capture);
    b.keep(grab(), rect(0), Some(vec![0, 0]), 1000);
    assert!(b.capture_backdrop(&rect(0), 1799) == BackdropStep::Reuse);
    assert!(b.capture_backdrop(&rect(0), 1800) == BackdropStep::Compare);
    assert!(b.capture_backdrop(&rect(1), 1001) == BackdropStep::Capture);
    assert!(b.capture_backdrop(&None, 1001) == BackdropStep::Capture);
    assert!(b.compared(&Some(vec![u32::MAX, 0]), 1900) == BackdropStep::Capture);
    assert_eq!(b.at, Some(1000));
    assert!(b.compared(&Some(vec![0xff_ffff, 0]), 1900) == BackdropStep::Reuse);
    assert_eq!(b.at, Some(1900));
    assert!(b.compared(&None, 2000) == BackdropStep::Capture);
}

#[test]
fn pixels_become_pictures() {
    let mut px = vec![1, 2, 3, 4, 5, 6, 7, 8];
    swap_red_blue(&mut px);
    assert_eq!(px, vec![3, 2, 1, 4, 7, 6, 5, 8]);
    let bgra = vec![10, 20, 30, 255, 40, 50, 60, 255];
    let png = hbitmap_to_png(2, 1, bgra.clone()).unwrap();
    let img = image::load_from_memory(&png).unwrap().to_rgba8();
    assert_eq!(img.dimensions(), (2, 1));
    assert_eq!(img.into_raw(), vec![30, 20, 10, 255, 60, 50, 40, 255]);
    assert!(hbitmap_to_png(0, 1, bgra.clone()).is_none());
    assert!(hbitmap_to_png(3, 1, bgra).is_none());
    let grab = encode_grab(4, 4, vec![128; 64]).unwrap();
    assert_eq!((grab.width, grab.height), (4, 4));
    let jpeg = grab.uri.strip_prefix("data:image/jpeg;base64,").unwrap();
    assert!(jpeg.starts_with("/9j/"));
}

#[test]
fn icons_are_held_by_path() {
    let mut cache = IconCache::new();
    cache.icon_cache_insert("c:\\a.exe".into(), "A".into());
    assert_eq!(cache.icon_of("C:\\A.EXE").as_deref(), Some("A"));
    let (held, missing) = cache.split(&vec!["C:\\a.exe".into(), "C:\\b.exe".into()]);
    assert_eq!(held, vec![("C:\\a.exe".to_string(), "A".to_string())]);
    assert_eq!(missing, vec!["C:\\b.exe".to_string()]);
    for i in 0..599 {
        cache.put(format!("k{i}"), "x".into());
    }
    assert_eq!(cache.icons.len(), 600);
    cache.relieve();
    assert!(cache.icons.is_empty());
}

#[test]
fn warming_skips_settings_and_known_icons() {
    let mut cache = IconCache::new();
    cache.put("c:\\known.exe".into(), "x".into());
    let app = |p: &str| AppEntry { name: "n".into(), path: p.into(), icon: None };
    let mut pool = vec![app("C:\\Known.exe"), app("ms-settings:wifi"), app("C:\\New.exe")];
    assert_eq!(cache.warm_icon_cache(&pool), vec!["C:\\New.exe".to_string()]);
    for i in 0..100 {
        pool.push(app(&format!("C:\\{i}.exe")));
    }
    assert_eq!(cache.warm_icon_cache(&pool).len(), 58);
}

#[test]
fn icons_come_from_their_sources() {
    assert!(matches!(icon_source("aumid:calc!App"), IconSource::App(a) if a == "calc!App"));
    assert!(matches!(icon_source("C:\\a.exe"), IconSource::File(p) if p == "C:\\a.exe"));
    assert!(matches!(icon_source("ms-word:x"), IconSource::General));
    assert!(matches!(icon_source("ms-settings:wifi"), IconSource::App(_)));
    assert_eq!(
        uri_icon_data_uri("ms-settings:wifi").as_deref(),
        Some("windows.immersivecontrolpanel_cw5n1h2txyewy!microsoft.windows.immersivecontrolpanel")
    );
    assert_eq!(uri_icon_data_uri("ms-word:x"), None);
    assert_eq!(or_generic_icon(Some("a".into()), Some("g".into())).as_deref(), Some("a"));
    assert_eq!(or_generic_icon(None, Some("g".into())).as_deref(), Some("g"));
    assert_eq!(icon_file_name(0xab), "00000000000000ab.png");
    let one = icon_disk_path("C:\\icons", "C:\\A.exe");
    assert_eq!(one, icon_disk_path("C:\\icons", "c:\\a.EXE"));
    assert_ne!(one, icon_disk_path("C:\\icons", "c:\\b.exe"));
    assert!(one.starts_with("C:\\icons\\") && one.ends_with(".png"));
}

#[test]
fn paths_are_launched_by_their_kind() {
    assert!(matches!(launch_with_verb("  ", "open"), Launch::Refused(w) if w == "empty launch path"));
    assert!(matches!(
        launch_with_verb("\\\\.\\C:", "open"),
        Launch::Refused(w) if w == "device paths are not launchable"
    ));
    assert!(matches!(
        launch_with_verb("aumid:calc!App", "runas"),
        Launch::Shell(t) if t == "shell:appsFolder\\calc!App"
    ));
    assert!(matches!(launch_with_verb(" C:\\a.exe ", "open"), Launch::Open(p) if p == "C:\\a.exe"));
    assert!(matches!(launch_with_verb("ms-settings:x", "runas"), Launch::Open(_)));
    assert!(matches!(
        launch_with_verb("C:\\a.exe", "runas"),
        Launch::Execute(p, v) if p == "C:\\a.exe" && v == "runas"
    ));
    assert_eq!(explorer_arg("C:\\a.exe", Some(false)), "/select,C:\\a.exe");
    assert_eq!(explorer_arg("C:\\dir", Some(true)), "C:\\dir");
    assert_eq!(explorer_arg("C:\\gone", None), "C:\\gone");
    assert!(matches!(launch_admin("aumid:x"), AdminLaunch::Package(id) if id == "x"));
    assert!(matches!(launch_admin("C:\\a.exe"), AdminLaunch::Plain(Launch::Execute(_, _))));
}

#[test]
fn packages_are_elevated_by_script() {
    let e = launch_uwp_elevated("Fam.Name_1!x.App.exe", &None).ok().unwrap();
    assert_eq!(e.failure, "could not resolve 'app.exe' in package Fam.Name_1");
    let word = "Microsoft.Office.WINWORD.EXE.15";
    let e = launch_uwp_elevated(word, &Some("Office_8wekyb".into())).ok().unwrap();
    assert_eq!(e.failure, "could not resolve 'winword.exe' in package Office_8wekyb");
    // The script begins with `$p = `, as UTF-16.
    assert!(e.encoded.starts_with("JABwACAAPQAgA"));
    assert_eq!(
        launch_uwp_elevated("calc!App", &None).err().as_deref(),
        Some("'calc!App' has no executable to elevate")
    );
    assert_eq!(
        launch_uwp_elevated(word, &None).err().unwrap(),
        format!("no package mapping for '{word}'")
    );
    assert_eq!(
        launch_uwp_elevated(word, &Some("bad'name".into())).err().as_deref(),
        Some("invalid package family name: 'bad'name'")
    );
}

#[test]
fn parents_of_paths() {
    assert_eq!(open_parent("aumid:calc"), "shell:AppsFolder\\calc");
    assert_eq!(open_parent("C:\\a\\b.txt"), "C:\\a");
    assert_eq!(open_parent("b.txt"), "b.txt");
    assert_eq!(open_parent("C:\\"), "C:\\");
}

#[test]
fn accent_colors() {
    assert_eq!(printed_accent(" 0A1bFF \r\n").as_deref(), Some("#0a1bff"));
    assert_eq!(printed_accent("0A1bF"), None);
    assert_eq!(printed_accent("0A1bFG"), None);
    assert_eq!(stored_accent(0xff30_20f1).as_deref(), Some("#f12030"));
    assert_eq!(stored_accent(0x0030_2010), None);
}

#[test]
fn power_gates_of_the_task() {
    let xml = "<DisallowStartIfOnBatteries>true</DisallowStartIfOnBatteries>";
    let fixed = fix_task_power_gates(xml).unwrap();
    assert_eq!(fixed, "<DisallowStartIfOnBatteries>false</DisallowStartIfOnBatteries>");
    assert_eq!(fix_task_power_gates(&fixed), None);
    assert_eq!(task_command("C:\\My App\\f.exe"), "\\\"C:\\My App\\f.exe\\\"");
    assert!(matches!(set_autostart(false, "f", None), AutostartSet::Clear));
    assert!(matches!(set_autostart(true, "f", None), AutostartSet::CreateTask(c) if c == "\\\"f\\\""));
    assert!(matches!(set_autostart(true, "f", Some(true)), AutostartSet::Settle));
    assert!(matches!(set_autostart(true, "f", Some(false)), AutostartSet::WriteShortcut));
}

#[test]
fn uninstall_commands_are_split() {
    let split = |s: &str| split_uninstall_command(s);
    let pair = |a: &str, b: &str| Some((a.to_string(), b.to_string()));
    assert_eq!(split("\"C:\\My App\\u.exe\" /S  x"), pair("C:\\My App\\u.exe", "/S  x"));
    assert_eq!(split("C:\\u.exe  /S"), pair("C:\\u.exe", "/S"));
    assert_eq!(split("\"C:\\open"), pair("C:\\open", ""));
    assert_eq!(split("\"a\\\"b\" c"), pair("a\"b", "c"));
    assert_eq!(split("   "), None);
    assert_eq!(split("\"\" x"), None);
}

#[test]
fn interpreters_never_uninstall() {
    for bad in ["cmd.exe", "C:\\Windows\\System32\\CMD.exe", "C:/x/powershell.exe", "unins.exe", "rundll32"] {
        assert!(!uninstall_exe_allowed(bad), "{}", bad);
    }
    for good in ["MsiExec.exe", "msiexec", "C:\\App\\unins000.exe", "C:/App/u.exe"] {
        assert!(uninstall_exe_allowed(good), "{}", good);
    }
}

fn entry(display: &str, uninstall: Option<&str>, quiet: Option<&str>) -> UninstallEntry {
    UninstallEntry {
        display: display.into(),
        publisher: Some("P".into()),
        version: Some("1".into()),
        uninstall_string: uninstall.map(|s| s.into()),
        quiet_uninstall_string: quiet.map(|s| s.into()),
    }
}

#[test]
fn applications_are_uninstalled_by_their_entry() {
    let entries = vec![
        entry("Git", None, None),
        entry(" GIT ", None, Some("\"C:\\Git\\unins.exe\" /S")),
        entry("Shell", Some("cmd.exe /c del"), None),
        entry("Odd", Some("  "), None),
    ];
    assert_eq!(find_uninstall_entry(" git.lnk ", &entries), Some(1));
    assert_eq!(find_uninstall_entry("", &entries), None);
    assert_eq!(find_uninstall_entry("nope", &entries), None);
    assert!(matches!(
        uninstall_app("Git", &entries),
        Uninstall::Run(exe, args) if exe == "C:\\Git\\unins.exe" && args == "/S"
    ));
    assert!(matches!(
        uninstall_app("Shell", &entries),
        Uninstall::Refused(w) if w == "unsafe uninstall command: cmd.exe"
    ));
    assert!(matches!(uninstall_app("Odd", &entries), Uninstall::Nothing));
    assert!(matches!(uninstall_app("nope", &entries), Uninstall::Settings));

    let info = app_info("Git", "C:\\m\\Git.lnk", &Some("C:\\Git\\git.exe".into()), &entries);
    assert_eq!(info.target.as_deref(), Some("C:\\Git\\git.exe"));
    assert_eq!(info.uninstall_string.as_deref(), Some("\"C:\\Git\\unins.exe\" /S"));
    assert_eq!(info.publisher.as_deref(), Some("P"));
    let store = app_info("Calc", "aumid:calc", &None, &entries);
    assert!(store.is_uwp && store.target.is_none() && store.version.is_none());
    let link = app_info("X", "C:\\x.LNK", &None, &entries);
    assert_eq!(link.target.as_deref(), Some("C:\\x.LNK"));
}

#[test]
fn utf16_texts() {
    assert_eq!(utf16_null("aé😀"), vec![97, 233, 0xd83d, 0xde00, 0]);
    assert_eq!(utf16_le("aé"), vec![97, 0, 233, 0]);
    assert_eq!(text_to_nul(&[104, 105, 0, 120]).as_deref(), Some("hi"));
    assert_eq!(text_to_nul(&[104, 105]).as_deref(), Some("hi"));
    assert_eq!(text_to_nul(&[0, 104]), None);
    assert_eq!(text_to_nul(&[]), None);
}
