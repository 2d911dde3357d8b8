//! Settings: excluded folders, the hotkey, and the size of a page.
use crate::text::{
    chars_of, lowercase, parts, str_eq, str_parts, str_trim, texts, trimmed,
};
use crate::text_laws::law_separator_parts_a_text;
use crate::winpath::{is_sep, sep};
use vstd::prelude::*;

verus! {

/// An excluded folder as it is kept: trimmed, in lowercase, with a separator
/// behind.
pub open spec fn folder_key(path: Seq<char>) -> Seq<char> {
    let p = lowercase(trimmed(path));
    if p.len() > 0 && is_sep(p.last()) {
        p
    } else {
        p.push('\\')
    }
}

/// An excluded folder as it is kept.
pub fn normal_folder(path: &str) -> (r: String)
    ensures
        r@ == folder_key(path@),
{
    let mut p = str_trim(path).as_str().to_lowercase();
    let c = chars_of(p.as_str());
    if c.len() > 0 && sep(c[c.len() - 1]) {
        return p;
    }
    p.push('\\');
    p
}

/// The excluded folders as they are kept; blank ones are left out.
pub open spec fn folder_keys(paths: Seq<Seq<char>>) -> Seq<Seq<char>>
    decreases paths.len(),
{
    if paths.len() == 0 {
        Seq::empty()
    } else if lowercase(trimmed(paths.last())).len() == 0 {
        folder_keys(paths.drop_last())
    } else {
        folder_keys(paths.drop_last()).push(folder_key(paths.last()))
    }
}

/// The excluded folders as they are kept; blank ones are left out.
pub fn save_settings(paths: &Vec<String>) -> (r: Vec<String>)
    ensures
        texts(r@) == folder_keys(texts(paths@)),
{
    let mut out: Vec<String> = Vec::new();
    let ghost all = texts(paths@);
    let mut i: usize = 0;
    assert(all.take(0) =~= Seq::<Seq<char>>::empty());
    assert(texts(out@) =~= Seq::<Seq<char>>::empty());
    while i < paths.len()
        invariant
            i <= paths.len(),
            all == texts(paths@),
            texts(out@) == folder_keys(all.take(i as int)),
        decreases paths.len() - i,
    {
        assert(all.take(i + 1).drop_last() =~= all.take(i as int));
        assert(all.take(i + 1).last() == paths@[i as int]@);
        let blank = str_trim(paths[i].as_str()).as_str().to_lowercase().as_str().is_empty();
        if !blank {
            let ghost before = out@;
            let key = normal_folder(paths[i].as_str());
            out.push(key);
            assert(texts(out@) =~= texts(before).push(key@));
        }
        i = i + 1;
    }
    assert(all.take(i as int) =~= all);
    out
}

/// The lines of a text, trimmed and in lowercase; blank ones are left out.
pub open spec fn config_lines(lines: Seq<Seq<char>>) -> Seq<Seq<char>>
    decreases lines.len(),
{
    if lines.len() == 0 {
        Seq::empty()
    } else if lowercase(trimmed(lines.last())).len() == 0 {
        config_lines(lines.drop_last())
    } else {
        config_lines(lines.drop_last()).push(lowercase(trimmed(lines.last())))
    }
}

/// The excluded folders in the text of the settings file, one per line.
pub fn load_exclusions(text: &str) -> (r: Vec<String>)
    ensures
        texts(r@) == config_lines(parts(text@, '\n')),
{
    let lines = str_parts(text, '\n');
    let ghost all = parts(text@, '\n');
    let mut out: Vec<String> = Vec::new();
    let mut i: usize = 0;
    assert(all.take(0) =~= Seq::<Seq<char>>::empty());
    assert(texts(out@) =~= Seq::<Seq<char>>::empty());
    while i < lines.len()
        invariant
            i <= lines.len(),
            all == texts(lines@),
            texts(out@) == config_lines(all.take(i as int)),
        decreases lines.len() - i,
    {
        assert(all.take(i + 1).drop_last() =~= all.take(i as int));
        assert(all.take(i + 1).last() == lines@[i as int]@);
        let line = str_trim(lines[i].as_str()).as_str().to_lowercase();
        if !line.as_str().is_empty() {
            let ghost before = out@;
            out.push(line);
            assert(texts(out@) =~= texts(before).push(line@));
        }
        i = i + 1;
    }
    assert(all.take(i as int) =~= all);
    out
}

/// Lines with a line break between them.
pub open spec fn with_breaks(lines: Seq<Seq<char>>) -> Seq<char>
    decreases lines.len(),
{
    if lines.len() == 0 {
        Seq::empty()
    } else if lines.len() == 1 {
        lines[0]
    } else {
        with_breaks(lines.drop_last()).push('\n') + lines.last()
    }
}

/// The text of the settings file for excluded folders.
pub fn save_exclusions(dirs: &Vec<String>) -> (r: String)
    ensures
        r@ == with_breaks(texts(dirs@)),
{
    let mut out = String::new();
    let mut i: usize = 0;
    let ghost all = texts(dirs@);
    assert(out@ =~= with_breaks(all.take(0)));
    while i < dirs.len()
        invariant
            i <= dirs.len(),
            all == texts(dirs@),
            out@ == with_breaks(all.take(i as int)),
        decreases dirs.len() - i,
    {
        assert(all.take(i + 1).drop_last() =~= all.take(i as int));
        assert(all.take(i + 1).last() == dirs@[i as int]@);
        let ghost before = out@;
        if i > 0 {
            out.push('\n');
        }
        out.push_str(dirs[i].as_str());
        proof {
            if i == 0 {
                assert(before =~= Seq::<char>::empty());
                assert(out@ =~= dirs@[0]@);
            }
        }
        i = i + 1;
    }
    assert(all.take(i as int) =~= all);
    out
}

/// How many results a request gets: 50 where it does not say, at least 1 and at
/// most 200.
pub fn page_size(limit: Option<usize>) -> (r: usize)
    ensures
        r == match limit {
            None => 50,
            Some(n) => if n < 1 {
                1
            } else if n > 200 {
                200
            } else {
                n as int
            },
        },
{
    match limit {
        None => 50,
        Some(n) => {
            if n < 1 {
                1
            } else if n > 200 {
                200
            } else {
                n
            }
        },
    }
}

/// A hotkey that can be chosen.
pub open spec fn known_hotkey(name: Seq<char>) -> bool {
    name == "ctrl+space"@ || name == "alt+space"@
}

/// Whether a hotkey can be chosen.
fn is_hotkey(name: &str) -> (r: bool)
    ensures
        r == known_hotkey(name@),
{
    str_eq(name, "ctrl+space") || str_eq(name, "alt+space")
}

/// The hotkey of a start: the stored one, if it can be chosen.
pub open spec fn hotkey_of(stored: Option<String>) -> Seq<char> {
    match stored {
        Some(s) => if known_hotkey(s@) {
            s@
        } else {
            "ctrl+space"@
        },
        None => "ctrl+space"@,
    }
}

/// The hotkey of a start: the stored one, if it can be chosen. Anybody can write
/// the stored value.
pub fn hotkey_name(stored: &Option<String>) -> (r: String)
    ensures
        r@ == hotkey_of(*stored),
        known_hotkey(r@),
{
    match stored {
        Some(s) => {
            if is_hotkey(s.as_str()) {
                s.clone()
            } else {
                "ctrl+space".to_owned()
            }
        },
        None => "ctrl+space".to_owned(),
    }
}

/// Whether another hotkey has to be registered, or why it cannot be.
pub fn set_hotkey(name: &str, current: &str) -> (r: Result<bool, String>)
    ensures
        r is Err <==> !known_hotkey(name@),
        r is Err ==> r->Err_0@ == "unsupported hotkey: "@ + name@,
        r is Ok ==> r->Ok_0 == (name@ != current@),
{
    if !is_hotkey(name) {
        let mut words = "unsupported hotkey: ".to_owned();
        words.push_str(name);
        return Err(words);
    }
    Ok(!str_eq(name, current))
}

/// The settings file gives back the excluded folders that were saved: those that
/// are as they are kept, in lowercase and trimmed, each on a line of its own.
pub proof fn law_exclusions_are_read_back(dirs: Seq<Seq<char>>)
    requires
        dirs.len() > 0,
        forall|i: int|
            0 <= i < dirs.len() ==> (#[trigger] dirs[i]).len() > 0 && lowercase(trimmed(dirs[i]))
                == dirs[i] && !dirs[i].contains('\n'),
    ensures
        config_lines(parts(with_breaks(dirs), '\n')) == dirs,
{
    lemma_breaks(dirs);
    lemma_all_lines(dirs);
}

proof fn lemma_all_lines(dirs: Seq<Seq<char>>)
    requires
        forall|i: int|
            0 <= i < dirs.len() ==> (#[trigger] dirs[i]).len() > 0 && lowercase(trimmed(dirs[i]))
                == dirs[i],
    ensures
        config_lines(dirs) == dirs,
    decreases dirs.len(),
{
    if dirs.len() > 0 {
        let head = dirs.drop_last();
        assert forall|i: int| 0 <= i < head.len() implies (#[trigger] head[i]).len() > 0
            && lowercase(trimmed(head[i])) == head[i] by {
            assert(head[i] == dirs[i]);
        }
        lemma_all_lines(head);
        assert(dirs[dirs.len() - 1] == dirs.last());
        assert(head.push(dirs.last()) =~= dirs);
    } else {
        assert(config_lines(dirs) =~= dirs);
    }
}

proof fn lemma_breaks(dirs: Seq<Seq<char>>)
    requires
        dirs.len() > 0,
        forall|i: int| 0 <= i < dirs.len() ==> !(#[trigger] dirs[i]).contains('\n'),
    ensures
        parts(with_breaks(dirs), '\n') == dirs,
    decreases dirs.len(),
{
    let first = dirs[0];
    assert forall|k: int| 0 <= k < first.len() implies #[trigger] first[k] != '\n' by {
        if first[k] == '\n' {
            assert(first.contains('\n'));
        }
    }
    if dirs.len() == 1 {
        law_separator_parts_a_text(first, '\n', first);
        assert(seq![first] =~= dirs);
    } else {
        let rest = dirs.drop_first();
        assert forall|i: int| 0 <= i < rest.len() implies !(#[trigger] rest[i]).contains('\n') by {
            assert(rest[i] == dirs[i + 1]);
        }
        lemma_breaks(rest);
        lemma_first_break(dirs);
        law_separator_parts_a_text(first, '\n', with_breaks(rest));
        assert(seq![first] + rest =~= dirs);
    }
}

proof fn lemma_first_break(dirs: Seq<Seq<char>>)
    requires
        dirs.len() > 1,
    ensures
        with_breaks(dirs) == dirs[0].push('\n') + with_breaks(dirs.drop_first()),
    decreases dirs.len(),
{
    let rest = dirs.drop_first();
    if dirs.len() == 2 {
        assert(dirs.drop_last() =~= seq![dirs[0]]);
        assert(rest =~= seq![dirs[1]]);
        assert(with_breaks(seq![dirs[0]]) == dirs[0]);
    } else {
        let head = dirs.drop_last();
        lemma_first_break(head);
        assert(head.drop_first() =~= rest.drop_last());
        assert(rest.last() == dirs.last());
        assert(with_breaks(dirs) =~= dirs[0].push('\n') + with_breaks(rest));
    }
}

/// An excluded folder is kept in lowercase, without white space around it, and
/// with one separator behind where it has none.
pub proof fn law_excluded_folder_ends_with_a_separator(path: Seq<char>)
    ensures
        ({
            let p = lowercase(trimmed(path));
            let key = folder_key(path);
            &&& key.len() > 0
            &&& key.last() == '\\' || key.last() == '/'
            &&& p.len() > 0 && (p.last() == '\\' || p.last() == '/') ==> key == p
            &&& p.len() == 0 || (p.last() != '\\' && p.last() != '/') ==> key == p + seq!['\\']
        }),
{
    let p = lowercase(trimmed(path));
    assert(p.push('\\') =~= p + seq!['\\']);
}

/// The excluded folders are kept in their order, each as it is kept; blank ones
/// are left out.
pub proof fn law_blank_folders_are_left_out(paths: Seq<Seq<char>>, path: Seq<char>)
    ensures
        lowercase(trimmed(path)).len() == 0 ==> folder_keys(paths.push(path)) == folder_keys(paths),
        lowercase(trimmed(path)).len() > 0 ==> folder_keys(paths.push(path)) == folder_keys(
            paths,
        ).push(folder_key(path)),
        folder_keys(Seq::empty()) == Seq::<Seq<char>>::empty(),
{
    assert(paths.push(path).drop_last() =~= paths);
}

/// The hotkey is always one that is known: the stored one where it is, else the
/// first.
pub proof fn law_hotkey_is_known(stored: Option<String>)
    ensures
        hotkey_of(stored) == "ctrl+space"@ || hotkey_of(stored) == "alt+space"@,
        stored is Some && (stored->0@ == "ctrl+space"@ || stored->0@ == "alt+space"@) ==> hotkey_of(
            stored,
        ) == stored->0@,
        stored is None ==> hotkey_of(stored) == "ctrl+space"@,
        stored is Some && stored->0@ != "alt+space"@ ==> hotkey_of(stored) == "ctrl+space"@,
{
}

} // verus!
