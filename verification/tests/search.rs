//! Searches by name and by extension.
use finder::index::search::{generic_paged, search, search_paged};
use finder::index::store::{DriveRoot, IndexEntry, IndexStore};
use finder::mft::types::FileKind;

fn store(items: &[(u64, &str, u64, FileKind)]) -> IndexStore {
    let mut s = IndexStore {
        entries: Vec::new(),
        name_arena: Vec::new(),
        name_lower_arena: Vec::new(),
        ref_lookup: Vec::new(),
        drive_roots: vec![DriveRoot { letter: 'C', root: "C:\\".to_string() }],
        checkpoints: Vec::new(),
        junk_refs: vec![std::collections::HashSet::new()],
        ext_index: Vec::new(),
        ext_dirty: true,
    };
    for &(fr, name, parent, ref kind) in items {
        let lower = name.to_lowercase();
        let n_off = s.name_arena.len() as u32;
        let nl_off = s.name_lower_arena.len() as u32;
        s.name_arena.extend_from_slice(name.as_bytes());
        s.name_lower_arena.extend_from_slice(lower.as_bytes());
        let user = items.iter().any(|i| i.0 == parent && i.1 == "Users");
        s.entries.push(IndexEntry {
            file_ref: fr,
            parent_ref: parent,
            name_off: n_off,
            name_lower_off: nl_off,
            name_len: name.len() as u16,
            name_lower_len: lower.len() as u16,
            flags: if *kind == FileKind::Directory { 1 } else { 0 },
            depth: if items.iter().any(|i| i.0 == parent) { 2 } else { 1 },
            user_path: if user { 1 } else { 0 },
            drive: 0,
        });
    }
    // The entries are ordered by lowercased name, as every store has them.
    let arena = s.name_lower_arena.clone();
    let lower = |e: &IndexEntry| {
        let at = e.name_lower_off as usize;
        arena[at..at + e.name_lower_len as usize].to_vec()
    };
    s.entries.sort_by(|a, b| lower(a).cmp(&lower(b)));
    let mut pairs: Vec<(u64, u32)> = s
        .entries
        .iter()
        .enumerate()
        .map(|(i, e)| (e.file_ref, i as u32))
        .collect();
    pairs.sort_unstable_by_key(|&(r, _)| r);
    s.ref_lookup = vec![pairs];
    s
}

#[test]
fn ordering_brings_good_matches_first() {
    // dirs: 30 = node_modules (junk), 40 = Users (user path marker)
    let store = store(&[
        (40, "Users", 0, FileKind::Directory),
        (30, "node_modules", 0, FileKind::Directory),
        (1, "Report.pdf", 40, FileKind::File),        // prefix + user dir
        (2, "report.txt", 0, FileKind::File),          // prefix, root-level
        (3, "report_final.docx", 0, FileKind::File),   // prefix match
        (4, "deptreport.pdf", 0, FileKind::File),      // mid-word contains
        (5, "report.js", 30, FileKind::File),          // junk, filtered
    ]);
    let results = search(&store, "report", 10, false, &[]);
    let names: Vec<_> = results.iter().map(|r| r.name.as_str()).collect();
    assert!(names.iter().all(|n| *n != "report.js"));
    assert_eq!(names[0], "Report.pdf");   // prefix match first, in user dir
    assert_eq!(names[1], "report.txt");   // prefix match, root-level (shorter name)
    assert_eq!(names[2], "report_final.docx"); // boundary beat mid-word
    assert_eq!(names[3], "deptreport.pdf");
}

#[test]
fn fuzzy_fallback_surfaces_abbreviations() {
    // "vsc" is an abbreviation — no literal name contains it, so only the
    // fuzzy fallback can surface Visual Studio Code.
    let store = store(&[
        (1, "Visual Studio Code.lnk", 0, FileKind::File),
        (2, "Vim.exe", 0, FileKind::File),
        (3, "somethingelse.txt", 0, FileKind::File),
    ]);
    let results = search(&store, "vsc", 10, false, &[]);
    let names: Vec<&str> = results.iter().map(|r| r.name.as_str()).collect();
    assert!(names.contains(&"Visual Studio Code.lnk"));
}

#[test]
fn fuzzy_never_bumps_literal_matches() {
    // Prefix matches must stay in front of any fuzzy-filled results.
    let store = store(&[
        (1, "Visual Studio Code.lnk", 0, FileKind::File),
        (2, "visualstudio.exe", 0, FileKind::File),
        (3, "Vim.exe", 0, FileKind::File),
    ]);
    let results = search(&store, "vis", 10, false, &[]);
    let names: Vec<&str> = results.iter().map(|r| r.name.as_str()).collect();
    // Both literal prefix matches lead the list.
    assert!(names.contains(&"Visual Studio Code.lnk"));
    assert!(names.contains(&"visualstudio.exe"));
    assert!(names[0] == "Visual Studio Code.lnk" || names[0] == "visualstudio.exe");
    assert!(names[1] == "Visual Studio Code.lnk" || names[1] == "visualstudio.exe");
}

#[test]
fn ext_search_returns_all_matches_with_paging() {
    let names: Vec<String> = (0..300).map(|i| format!("mod_{:03}.py", i)).collect();
    let mut items: Vec<(u64, &str, u64, FileKind)> = names
        .iter()
        .enumerate()
        .map(|(i, n)| (1000 + i as u64, n.as_str(), 40, FileKind::File))
        .collect();
    items.push((99, "notes.txt", 40, FileKind::File));

    let mut s = store(&items);
    s.rebuild_ext_index();

    let p1 = search_paged(&s, ".py", 100, 0, false, &[]);
    assert_eq!(p1.total, 300);
    assert_eq!(p1.results.len(), 100);

    let p2 = search_paged(&s, ".py", 100, 100, false, &[]);
    assert_eq!(p2.results.len(), 100);

    let p3 = search_paged(&s, ".py", 100, 200, false, &[]);
    assert_eq!(p3.results.len(), 100);

    let names1: std::collections::HashSet<String> =
        p1.results.iter().map(|r| r.name.clone()).collect();
    let names2: std::collections::HashSet<String> =
        p2.results.iter().map(|r| r.name.clone()).collect();
    let names3: std::collections::HashSet<String> =
        p3.results.iter().map(|r| r.name.clone()).collect();
    assert_eq!(names1.len(), 100);
    assert!(names1.is_disjoint(&names2));
    assert!(names1.is_disjoint(&names3));
    assert!(names2.is_disjoint(&names3));

    // Bare extension word behaves the same.
    let bare = search_paged(&s, "py", 100, 0, false, &[]);
    assert_eq!(bare.total, 300);
    assert_eq!(bare.results.len(), 100);

    // Unrelated extension still works and reports its exact total.
    let txt = search_paged(&s, ".txt", 100, 0, false, &[]);
    assert_eq!(txt.total, 1);
    assert_eq!(txt.results.len(), 1);
    assert_eq!(txt.results[0].name, "notes.txt");
}

#[test]
fn ext_search_is_ranked_and_dotfiles_do_not_leak() {
    let items = [
        (1, "setup.py", 40, FileKind::File),
        (2, "PyGame.py", 40, FileKind::File),
        (3, ".pyproject", 40, FileKind::File), // dotfile: no extension bucket
        (4, "init.py", 40, FileKind::File),
    ];
    let mut s = store(&items);
    s.rebuild_ext_index();

    let page = search_paged(&s, ".py", 10, 0, false, &[]);
    // ".pyproject" is not a .py file — only 3 true matches.
    assert_eq!(page.total, 3);
    assert_eq!(page.results.len(), 3);

    // Bare form: names starting with the query ("PyGame") rank first.
    let bare = search_paged(&s, "py", 10, 0, false, &[]);
    assert_eq!(bare.total, 3);
    assert_eq!(bare.results[0].name, "PyGame.py");
}

#[test]
fn ext_index_covers_all_files_but_skips_junk() {
    let items = [
        (40, "Users", 0, FileKind::Directory),
        (30, "node_modules", 0, FileKind::Directory),
        (1, "app.py", 40, FileKind::File),
        (2, "tool.py", 30, FileKind::File), // under node_modules (junk)
    ];
    let mut s = store(&items);
    s.rebuild_ext_index();

    // Total counts only searchable rows; junk is filtered from both the
    // count and the page so "N more" math stays honest.
    let page = search_paged(&s, ".py", 10, 0, false, &[]);
    assert_eq!(page.total, 1);
    assert_eq!(page.results.len(), 1);
    assert_eq!(page.results[0].name, "app.py");
    assert_eq!(page.results[0].name, "app.py");
}

fn ranked(rows: Vec<finder::index::search::SearchResult>) -> Vec<(String, u8)> {
    rows.into_iter().map(|r| (r.name, r.rank)).collect()
}

#[test]
fn the_rank_is_how_well_the_name_matches() {
    let s = store(&[
        (1, "report", 0, FileKind::File),
        (2, "report.txt", 0, FileKind::File),
        (3, "my report.doc", 0, FileKind::File),
        (4, "deptreport.pdf", 0, FileKind::File),
        (5, "r-e-p-o-r-t", 0, FileKind::File),
    ]);
    let page = generic_paged(&s, "report", 9, 0, &[]);
    assert_eq!(page.total, 4);
    let want: Vec<(String, u8)> = vec![
        ("report".to_string(), 1),
        ("report.txt".to_string(), 2),
        ("my report.doc".to_string(), 3),
        ("deptreport.pdf".to_string(), 4),
        ("r-e-p-o-r-t".to_string(), 5),
    ];
    assert_eq!(ranked(page.results), want);
}

#[test]
fn case_matters_where_it_is_asked_for() {
    let s = store(&[(1, "Report.pdf", 0, FileKind::File), (2, "report.txt", 0, FileKind::File)]);
    let rows = ranked(search(&s, "Report", 10, true, &[]));
    assert_eq!(rows[0], ("Report.pdf".to_string(), 2));
    assert!(rows.iter().all(|r| r.0 != "report.txt"));
    let rows = ranked(search(&s, "report", 10, true, &[]));
    assert_eq!(rows[0], ("report.txt".to_string(), 2));
    let rows = ranked(search(&s, "Report", 10, false, &[]));
    assert_eq!(rows.len(), 2);
    let page = search_paged(&s, "REPORT", 10, 0, true, &[]);
    assert_eq!((page.total, page.results.len()), (0, 0));
}

#[test]
fn pages_are_slices_of_one_order() {
    let s = store(&[
        (1, "ab", 0, FileKind::File),
        (2, "abc", 0, FileKind::File),
        (3, "x ab", 0, FileKind::File),
        (4, "xab", 0, FileKind::File),
        (5, "a-b", 0, FileKind::File),
    ]);
    let whole = generic_paged(&s, "ab", 4, 0, &[]);
    let all = ranked(whole.results);
    for skip in 1..4usize {
        let page = generic_paged(&s, "ab", 4 - skip, skip, &[]);
        assert_eq!(page.total, whole.total);
        assert_eq!(ranked(page.results), all[skip..].to_vec());
    }
    let first = ranked(generic_paged(&s, "ab", 9, 0, &[]).results);
    assert_eq!(first[..4].to_vec(), all);
    assert_eq!(first[4], ("a-b".to_string(), 5));
}
