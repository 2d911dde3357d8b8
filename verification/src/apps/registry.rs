//! Which executable an entry of the uninstall list starts.
use crate::apps::names::{is_uninstaller_stem, uninstaller_stem};
use crate::env::{expand_env, expanded, steps_for, Env};
use crate::index::apps::InstalledApp;
use crate::text::{
    ascii_lower, chars_of, find_chars, find_text, lowercase, str_ascii_lower, str_eq, str_starts,
    str_trim, str_words, string_of, text_starts, texts, trimmed, words,
};
use crate::winpath::{
    extension, file_stem, parent, path_extension, path_file_stem, path_parent,
};
use vstd::prelude::*;

verus! {

/// What is known of the disk: the paths that are files, and the folders with
/// the paths of their files.
pub struct Disk {
    pub files: Vec<String>,
    pub dirs: Vec<(String, Vec<String>)>,
}

/// The files of the first folder with a path.
pub open spec fn listed(dirs: Seq<(String, Vec<String>)>, dir: Seq<char>) -> Option<
    Seq<Seq<char>>,
>
    decreases dirs.len(),
{
    if dirs.len() == 0 {
        None
    } else if dirs[0].0@ == dir {
        Some(texts(dirs[0].1@))
    } else {
        listed(dirs.drop_first(), dir)
    }
}

impl Disk {
    /// A file stands at a path.
    pub open spec fn has_file(&self, p: Seq<char>) -> bool {
        exists|i: int| 0 <= i < self.files@.len() && (#[trigger] self.files@[i])@ == p
    }

    /// The files of a folder.
    pub open spec fn files_in(&self, dir: Seq<char>) -> Option<Seq<Seq<char>>> {
        listed(self.dirs@, dir)
    }

    /// Whether a file stands at a path.
    pub fn is_file(&self, p: &str) -> (r: bool)
        ensures
            r == self.has_file(p@),
    {
        let mut i: usize = 0;
        while i < self.files.len()
            invariant
                i <= self.files.len(),
                forall|k: int| 0 <= k < i ==> (#[trigger] self.files@[k])@ != p@,
            decreases self.files.len() - i,
        {
            if str_eq(self.files[i].as_str(), p) {
                assert(self.files@[i as int]@ == p@);
                return true;
            }
            i = i + 1;
        }
        false
    }

    /// Where a folder stands.
    fn find_dir(&self, dir: &str) -> (r: Option<usize>)
        ensures
            r is Some <==> self.files_in(dir@) is Some,
            r is Some ==> r->0 < self.dirs.len() && self.files_in(dir@) == Some(
                texts(self.dirs@[r->0 as int].1@),
            ),
    {
        let mut i: usize = 0;
        assert(self.dirs@.skip(0) =~= self.dirs@);
        while i < self.dirs.len()
            invariant
                i <= self.dirs.len(),
                listed(self.dirs@.skip(i as int), dir@) == self.files_in(dir@),
            decreases self.dirs.len() - i,
        {
            assert(self.dirs@.skip(i as int)[0] == self.dirs@[i as int]);
            if str_eq(self.dirs[i].0.as_str(), dir) {
                return Some(i);
            }
            assert(self.dirs@.skip(i as int).drop_first() =~= self.dirs@.skip(i + 1));
            i = i + 1;
        }
        None
    }
}

/// The extension of a path is `ext`, whatever its case.
pub open spec fn has_extension(path: Seq<char>, ext: Seq<char>) -> bool {
    extension(path) is Some && ascii_lower(extension(path)->0) == ext
}

/// Whether the extension of a path is `ext`, which is given in lowercase.
pub fn is_extension(path: &str, ext: &str) -> (r: bool)
    ensures
        r == has_extension(path@, ext@),
{
    match path_extension(path) {
        Some(e) => str_eq(str_ascii_lower(e.as_str()).as_str(), ext),
        None => false,
    }
}

/// How well the name of an executable fits that of an application.
pub open spec fn exe_score(path: Seq<char>, name: Seq<char>) -> int {
    if !has_extension(path, "exe"@) {
        0
    } else {
        let stem = lowercase(file_stem(path)->0);
        let low = lowercase(name);
        if stem == low {
            100
        } else if text_starts(stem, low) || text_starts(low, stem) {
            50
        } else {
            0
        }
    }
}

/// The first of the first `n` executables that fits best, if one fits.
pub open spec fn best_exe(files: Seq<Seq<char>>, name: Seq<char>, n: int) -> Option<int>
    decreases n,
{
    if n <= 0 {
        None
    } else {
        let best = best_exe(files, name, n - 1);
        let score = if best is Some {
            exe_score(files[best->0], name)
        } else {
            0
        };
        if exe_score(files[n - 1], name) > score {
            Some(n - 1)
        } else {
            best
        }
    }
}

/// The best fitting executable fits, no other fits better, and none before it
/// as well.
pub proof fn law_best_exe(files: Seq<Seq<char>>, name: Seq<char>, n: int, k: int)
    requires
        0 <= k < n <= files.len(),
    ensures
        ({
            let best = best_exe(files, name, n);
            &&& best is None ==> exe_score(files[k], name) <= 0
            &&& best is Some ==> 0 <= best->0 < n && exe_score(files[best->0], name) > 0
                && exe_score(files[k], name) <= exe_score(files[best->0], name) && (k < best->0
                ==> exe_score(files[k], name) < exe_score(files[best->0], name))
        }),
    decreases n,
{
    assert(best_exe(files, name, 0) is None);
    if n > 1 {
        law_best_exe(files, name, n - 1, 0);
        if k < n - 1 {
            law_best_exe(files, name, n - 1, k);
        }
    }
}

/// How well the name of an executable fits that of an application.
fn score_exe(path: &str, name: &str) -> (r: u32)
    ensures
        r == exe_score(path@, name@),
{
    if !is_extension(path, "exe") {
        return 0;
    }
    match path_file_stem(path) {
        Some(s) => {
            let stem = s.as_str().to_lowercase();
            let low = name.to_lowercase();
            if str_eq(stem.as_str(), low.as_str()) {
                100
            } else if str_starts(stem.as_str(), low.as_str()) || str_starts(
                low.as_str(),
                stem.as_str(),
            ) {
                50
            } else {
                0
            }
        },
        None => 0,
    }
}

/// The executable of a folder that fits an application best.
pub open spec fn exe_in(disk: Disk, dir: Seq<char>, name: Seq<char>) -> Option<Seq<char>> {
    match disk.files_in(dir) {
        None => None,
        Some(files) => match best_exe(files, name, files.len() as int) {
            Some(i) => Some(files[i]),
            None => None,
        },
    }
}

/// The executable of a folder that fits an application best: one of its name,
/// else one whose name and the application's begin alike.
pub fn find_exe(disk: &Disk, dir: &str, app_name: &str) -> (r: Option<String>)
    ensures
        r is Some <==> exe_in(*disk, dir@, app_name@) is Some,
        r is Some ==> r->0@ == exe_in(*disk, dir@, app_name@)->0,
{
    let at = match disk.find_dir(dir) {
        Some(at) => at,
        None => {
            return None;
        },
    };
    let files = &disk.dirs[at].1;
    let ghost fs = texts(files@);
    let mut best: Option<usize> = None;
    let mut best_score: u32 = 0;
    let mut n: usize = 0;
    while n < files.len()
        invariant
            fs == texts(files@),
            n <= files.len(),
            best is Some <==> best_exe(fs, app_name@, n as int) is Some,
            best is Some ==> Some(best->0 as int) == best_exe(fs, app_name@, n as int) && best->0
                < n && best_score == exe_score(fs[best->0 as int], app_name@),
            best is None ==> best_score == 0,
        decreases files.len() - n,
    {
        assert(fs[n as int] == files@[n as int]@);
        let score = score_exe(files[n].as_str(), app_name);
        if score > best_score {
            best_score = score;
            best = Some(n);
        }
        n = n + 1;
    }
    match best {
        Some(i) => {
            assert(fs[i as int] == files@[i as int]@);
            Some(files[i].clone())
        },
        None => None,
    }
}

/// A text without the quotes at its ends.
pub open spec fn unquoted(s: Seq<char>) -> Seq<char>
    decreases s.len(),
{
    if s.len() > 0 && s[0] == '"' {
        unquoted(s.drop_first())
    } else if s.len() > 0 && s.last() == '"' {
        unquoted(s.drop_last())
    } else {
        s
    }
}

/// The path of an icon value, which may end in a comma and a number.
pub open spec fn icon_path(icon: Seq<char>) -> Seq<char> {
    let comma = find_text(icon, seq![','], 0);
    let raw = if comma < 0 {
        icon
    } else {
        icon.take(comma)
    };
    unquoted(trimmed(raw))
}

/// A text without the quotes at its ends.
fn unquote(text: &str) -> (r: String)
    ensures
        r@ == unquoted(text@),
{
    let s = chars_of(text);
    let mut lo: usize = 0;
    let mut hi: usize = s.len();
    let mut done = false;
    assert(s@.subrange(0, s@.len() as int) =~= s@);
    while !done
        invariant
            lo <= hi <= s.len(),
            unquoted(s@.subrange(lo as int, hi as int)) == unquoted(s@),
            done ==> unquoted(s@) == s@.subrange(lo as int, hi as int),
        decreases hi - lo + (if done { 0int } else { 1int }),
    {
        let ghost part = s@.subrange(lo as int, hi as int);
        if lo < hi {
            assert(part[0] == s@[lo as int]);
            assert(part.last() == s@[hi - 1]);
            assert(part.drop_first() =~= s@.subrange(lo + 1, hi as int));
            assert(part.drop_last() =~= s@.subrange(lo as int, hi - 1));
        }
        if lo < hi && s[lo] == '"' {
            lo = lo + 1;
        } else if lo < hi && s[hi - 1] == '"' {
            hi = hi - 1;
        } else {
            done = true;
        }
    }
    string_of(&s.as_slice()[lo..hi])
}

/// The path of an icon value.
pub fn icon_file(icon: &str) -> (r: String)
    ensures
        r@ == icon_path(icon@),
{
    let s = chars_of(icon);
    let comma: Vec<char> = vec![','];
    assert(comma@ =~= seq![',']);
    let end = match find_chars(s.as_slice(), comma.as_slice(), 0) {
        Some(at) => at,
        None => s.len(),
    };
    let raw = string_of(&s.as_slice()[0..end]);
    proof {
        if find_text(icon@, seq![','], 0) < 0 {
            assert(raw@ =~= icon@);
        } else {
            assert(raw@ =~= icon@.take(end as int));
        }
    }
    let t = str_trim(raw.as_str());
    unquote(t.as_str())
}

/// The program of a command line: what stands in quotes at its beginning, else
/// its first word.
pub open spec fn program_of(s: Seq<char>) -> Seq<char> {
    if s.len() > 0 && s[0] == '"' {
        let rest = s.drop_first();
        let end = find_text(rest, seq!['"'], 0);
        if end < 0 {
            rest
        } else {
            rest.take(end)
        }
    } else if words(s).len() > 0 {
        words(s)[0]
    } else {
        Seq::empty()
    }
}

/// The program of a command line.
fn program(text: &str) -> (r: String)
    ensures
        r@ == program_of(text@),
{
    let s = chars_of(text);
    if s.len() > 0 && s[0] == '"' {
        let rest = &s.as_slice()[1..s.len()];
        assert(rest@ =~= text@.drop_first());
        let quote: Vec<char> = vec!['"'];
        assert(quote@ =~= seq!['"']);
        match find_chars(rest, quote.as_slice(), 0) {
            Some(end) => {
                let t = string_of(&rest[0..end]);
                assert(t@ =~= rest@.take(end as int));
                t
            },
            None => string_of(rest),
        }
    } else {
        let w = str_words(text);
        assert(words(text@).len() == w.len());
        if w.len() > 0 {
            assert(words(text@)[0] == w@[0]@);
            w[0].clone()
        } else {
            let t = String::new();
            assert(t@ =~= Seq::<char>::empty());
            t
        }
    }
}

/// The program of an uninstall command, expanded, if it is one of its own.
pub open spec fn uninstall_program(uninstall: Seq<char>, env: Env) -> Option<Seq<char>> {
    let s = trimmed(uninstall);
    let low = lowercase(s);
    if s.len() == 0 || text_starts(low, "msiexec"@) || text_starts(low, "wmic"@)
        || program_of(s).len() == 0 {
        None
    } else {
        expanded(program_of(s), env, steps_for(program_of(s)))
    }
}

/// A lowercase stem of a program that only installs or uninstalls.
pub open spec fn setup_stem(stem: Seq<char>) -> bool {
    uninstaller_stem(stem) || stem == "setup"@ || stem == "install"@
}

/// The executable that an uninstall command leads to.
pub open spec fn exe_of_uninstall(
    uninstall: Seq<char>,
    name: Seq<char>,
    env: Env,
    disk: Disk,
) -> Option<Seq<char>> {
    match uninstall_program(uninstall, env) {
        None => None,
        Some(p) => if !disk.has_file(p) || !has_extension(p, "exe"@) {
            None
        } else if setup_stem(lowercase(file_stem(p)->0)) {
            match parent(p) {
                Some(dir) => exe_in(disk, dir, name),
                None => None,
            }
        } else {
            Some(p)
        },
    }
}

/// The program of an uninstall command, expanded, if it is one of its own.
pub fn uninstall_exe(uninstall: &str, env: &Env) -> (r: Option<String>)
    ensures
        r is Some <==> uninstall_program(uninstall@, *env) is Some,
        r is Some ==> r->0@ == uninstall_program(uninstall@, *env)->0,
{
    let s = str_trim(uninstall);
    if s.as_str().is_empty() {
        return None;
    }
    let low = s.as_str().to_lowercase();
    if str_starts(low.as_str(), "msiexec") || str_starts(low.as_str(), "wmic") {
        return None;
    }
    let token = program(s.as_str());
    if token.as_str().is_empty() {
        return None;
    }
    expand_env(token.as_str(), env)
}

/// The executable that an uninstall command leads to: its own program, or,
/// where that only installs or uninstalls, the one beside it that fits the
/// application. Programs of the system are none.
pub fn exe_from_uninstall_string(
    uninstall: &str,
    app_name: &str,
    env: &Env,
    disk: &Disk,
) -> (r: Option<String>)
    ensures
        r is Some <==> exe_of_uninstall(uninstall@, app_name@, *env, *disk) is Some,
        r is Some ==> r->0@ == exe_of_uninstall(uninstall@, app_name@, *env, *disk)->0,
{
    let p = match uninstall_exe(uninstall, env) {
        Some(p) => p,
        None => {
            return None;
        },
    };
    if !disk.is_file(p.as_str()) || !is_extension(p.as_str(), "exe") {
        return None;
    }
    let setup = match path_file_stem(p.as_str()) {
        Some(stem) => {
            let low = stem.as_str().to_lowercase();
            is_uninstaller_stem(low.as_str()) || str_eq(low.as_str(), "setup") || str_eq(
                low.as_str(),
                "install",
            )
        },
        None => false,
    };
    if setup {
        return match path_parent(p.as_str()) {
            Some(dir) => find_exe(disk, dir.as_str(), app_name),
            None => None,
        };
    }
    Some(p)
}

/// The expanded path of an icon value, where there is one.
pub open spec fn icon_target(icon: Seq<char>, env: Env) -> Option<Seq<char>> {
    if icon_path(icon).len() == 0 {
        None
    } else {
        expanded(icon_path(icon), env, steps_for(icon_path(icon)))
    }
}

/// The executable that an icon value leads to: the file itself, or the one
/// beside it that fits the application.
pub open spec fn exe_of_icon(
    icon: Seq<char>,
    name: Seq<char>,
    env: Env,
    disk: Disk,
) -> Option<Seq<char>> {
    match icon_target(icon, env) {
        None => None,
        Some(p) => if p.len() == 0 || !disk.has_file(p) {
            None
        } else if has_extension(p, "exe"@) || has_extension(p, "lnk"@) {
            Some(p)
        } else {
            match parent(p) {
                Some(dir) => exe_in(disk, dir, name),
                None => None,
            }
        },
    }
}

/// The expanded path of an icon value, where there is one.
pub fn icon_exe(icon: &str, env: &Env) -> (r: Option<String>)
    ensures
        r is Some <==> icon_target(icon@, *env) is Some,
        r is Some ==> r->0@ == icon_target(icon@, *env)->0,
{
    let raw = icon_file(icon);
    if raw.as_str().is_empty() {
        None
    } else {
        expand_env(raw.as_str(), env)
    }
}

/// The executable that an icon value leads to.
fn exe_from_icon(icon: &str, app_name: &str, env: &Env, disk: &Disk) -> (r: Option<String>)
    ensures
        r is Some <==> exe_of_icon(icon@, app_name@, *env, *disk) is Some,
        r is Some ==> r->0@ == exe_of_icon(icon@, app_name@, *env, *disk)->0,
{
    let p = match icon_exe(icon, env) {
        Some(p) => p,
        None => {
            return None;
        },
    };
    if p.as_str().is_empty() || !disk.is_file(p.as_str()) {
        return None;
    }
    if is_extension(p.as_str(), "exe") || is_extension(p.as_str(), "lnk") {
        return Some(p);
    }
    match path_parent(p.as_str()) {
        Some(dir) => find_exe(disk, dir.as_str(), app_name),
        None => None,
    }
}

/// The executable that an optional uninstall command leads to.
pub open spec fn exe_of_command(
    command: Option<String>,
    name: Seq<char>,
    env: Env,
    disk: Disk,
) -> Option<Seq<char>> {
    match command {
        Some(u) => exe_of_uninstall(u@, name, env, disk),
        None => None,
    }
}

/// The executable that an entry of the uninstall list starts: from its icon,
/// else from its folder, else from its uninstall commands. An entry with a
/// folder never comes to the commands.
pub open spec fn app_path_of(app: InstalledApp, env: Env, disk: Disk) -> Option<Seq<char>> {
    if app.icon is Some && exe_of_icon(app.icon->0@, app.name@, env, disk) is Some {
        exe_of_icon(app.icon->0@, app.name@, env, disk)
    } else if app.install_location is Some {
        exe_in(disk, app.install_location->0@, app.name@)
    } else if exe_of_command(app.uninstall_string, app.name@, env, disk) is Some {
        exe_of_command(app.uninstall_string, app.name@, env, disk)
    } else {
        exe_of_command(app.quiet_uninstall_string, app.name@, env, disk)
    }
}

/// The executable that an entry of the uninstall list starts.
pub fn registry_app_path(app: &InstalledApp, env: &Env, disk: &Disk) -> (r: Option<String>)
    ensures
        r is Some <==> app_path_of(*app, *env, *disk) is Some,
        r is Some ==> r->0@ == app_path_of(*app, *env, *disk)->0,
{
    match &app.icon {
        Some(icon) => match exe_from_icon(icon.as_str(), app.name.as_str(), env, disk) {
            Some(p) => {
                return Some(p);
            },
            None => {},
        },
        None => {},
    }
    match &app.install_location {
        Some(loc) => {
            return find_exe(disk, loc.as_str(), app.name.as_str());
        },
        None => {},
    }
    match &app.uninstall_string {
        Some(u) => match exe_from_uninstall_string(u.as_str(), app.name.as_str(), env, disk) {
            Some(p) => {
                return Some(p);
            },
            None => {},
        },
        None => {},
    }
    match &app.quiet_uninstall_string {
        Some(u) => exe_from_uninstall_string(u.as_str(), app.name.as_str(), env, disk),
        None => None,
    }
}

} // verus!
