//! What an application's entry leads to, and the entries that lead to the same
//! executable.
use crate::apps::names::{
    aumid_exe_token, compact, exe_ends_at, file_name_key, stem_start, str_compact,
};
use crate::apps::pool::AppEntry;
use crate::env::Env;
use crate::text::{
    ascii_lower, chars_of, find_chars, find_text, has_text, is_ascii_word, lowercase, str_ascii_lower, str_ends,
    str_eq, str_has, str_trim, string_of, strip_start, text_at, text_ends, text_starts, trimmed,
};
use crate::winpath::{file_name, file_stem, path_file_stem};
use vstd::prelude::*;

verus! {

/// The folder that a folder id in front of an application's path stands for.
pub open spec fn known_folder(id: Seq<char>, env: Env) -> Option<Seq<char>> {
    let low = ascii_lower(id);
    if low == "{1ac14e77-02e7-4e5d-b744-2eb1ae5198b7}"@ {
        Some(env.or("WINDIR"@, "C:\\Windows"@) + "\\System32"@)
    } else if low == "{d65231b0-b2f1-4857-a4ce-a8e7c6ea7d27}"@ {
        Some(env.or("WINDIR"@, "C:\\Windows"@) + "\\SysWOW64"@)
    } else if low == "{6d809377-6af0-444b-8957-a3773f02200e}"@ {
        Some(env.or("ProgramFiles"@, "C:\\Program Files"@))
    } else {
        None
    }
}

/// The path behind a folder id and a `\`.
pub open spec fn folder_path(rest: Seq<char>, env: Env) -> Option<Seq<char>> {
    let at = find_text(rest, seq!['\\'], 0);
    if at < 0 {
        None
    } else {
        match known_folder(rest.take(at), env) {
            Some(base) => Some(base.push('\\') + rest.skip(at + 1)),
            None => None,
        }
    }
}

/// The folder that a folder id stands for.
fn folder_of(id: &str, env: &Env) -> (r: Option<String>)
    ensures
        r is Some <==> known_folder(id@, *env) is Some,
        r is Some ==> r->0@ == known_folder(id@, *env)->0,
{
    let low = str_ascii_lower(id);
    if str_eq(low.as_str(), "{1ac14e77-02e7-4e5d-b744-2eb1ae5198b7}") {
        let mut base = env.var_or("WINDIR", "C:\\Windows");
        base.push_str("\\System32");
        Some(base)
    } else if str_eq(low.as_str(), "{d65231b0-b2f1-4857-a4ce-a8e7c6ea7d27}") {
        let mut base = env.var_or("WINDIR", "C:\\Windows");
        base.push_str("\\SysWOW64");
        Some(base)
    } else if str_eq(low.as_str(), "{6d809377-6af0-444b-8957-a3773f02200e}") {
        Some(env.var_or("ProgramFiles", "C:\\Program Files"))
    } else {
        None
    }
}

/// The real path of an application that is given relative to a folder id.
pub fn expand_aumid_path(rest: &str, env: &Env) -> (r: Option<String>)
    ensures
        r is Some <==> folder_path(rest@, *env) is Some,
        r is Some ==> r->0@ == folder_path(rest@, *env)->0,
{
    let c = chars_of(rest);
    let sep: Vec<char> = vec!['\\'];
    assert(sep@ =~= seq!['\\']);
    match find_chars(c.as_slice(), sep.as_slice(), 0) {
        None => None,
        Some(at) => {
            let id = string_of(&c.as_slice()[0..at]);
            assert(id@ =~= rest@.take(at as int));
            match folder_of(id.as_str(), env) {
                None => None,
                Some(base) => {
                    let mut out = base;
                    let tail = string_of(&c.as_slice()[at + 1..c.len()]);
                    assert(tail@ =~= rest@.skip(at + 1));
                    out.push('\\');
                    out.push_str(tail.as_str());
                    Some(out)
                },
            }
        },
    }
}

/// What an application's entry leads to.
pub enum Target {
    /// Nothing that can be told: a store application, a settings page, a
    /// folder of the shell.
    Absent,
    /// An executable.
    Exe(String),
    /// A shortcut, which has to be resolved.
    Link(String),
}

/// The file that an entry's path names.
pub open spec fn entry_file(path: Seq<char>, env: Env) -> Option<Seq<char>> {
    let p = trimmed(path);
    let low = lowercase(p);
    if text_starts(low, "aumid:"@) {
        let rest = low.skip("aumid:"@.len() as int);
        match folder_path(rest, env) {
            Some(full) => Some(full),
            None => if text_ends(rest, ".exe"@) {
                Some(rest)
            } else {
                None
            },
        }
    } else {
        Some(p)
    }
}

/// `t` is what an entry's path leads to.
pub open spec fn leads_to(t: Target, path: Seq<char>, env: Env) -> bool {
    match entry_file(path, env) {
        None => t is Absent,
        Some(file) => if text_ends(lowercase(file), ".lnk"@) {
            t is Link && t->Link_0@ == file
        } else if text_ends(lowercase(file), ".exe"@) {
            t is Exe && t->Exe_0@ == file
        } else {
            t is Absent
        },
    }
}

/// What an application's entry leads to.
pub fn app_target_exe(app: &AppEntry, env: &Env) -> (r: Target)
    ensures
        leads_to(r, app.path@, *env),
{
    let p = str_trim(app.path.as_str());
    let low = p.as_str().to_lowercase();
    let file = match strip_start(low.as_str(), "aumid:") {
        Some(rest) => match expand_aumid_path(rest.as_str(), env) {
            Some(full) => full,
            None => {
                if str_ends(rest.as_str(), ".exe") {
                    rest
                } else {
                    return Target::Absent;
                }
            },
        },
        None => p,
    };
    let fl = file.as_str().to_lowercase();
    if str_ends(fl.as_str(), ".lnk") {
        Target::Link(file)
    } else if str_ends(fl.as_str(), ".exe") {
        Target::Exe(file)
    } else {
        Target::Absent
    }
}

/// Some character of a text is an ASCII capital.
pub open spec fn has_capital(s: Seq<char>) -> bool {
    exists|i: int| 0 <= i < s.len() && 'A' <= #[trigger] s[i] <= 'Z'
}

/// Some character of a text is a small ASCII letter.
pub open spec fn has_small(s: Seq<char>) -> bool {
    exists|i: int| 0 <= i < s.len() && 'a' <= #[trigger] s[i] <= 'z'
}

/// What the letters of a name count for: mixed case reads like a title, capitals
/// alone like a file name.
pub open spec fn case_score(name: Seq<char>) -> int {
    if has_capital(name) && has_small(name) {
        4
    } else if has_capital(name) {
        -4
    } else {
        0
    }
}

/// What a scope in the name counts for.
pub open spec fn scope_score(name: Seq<char>) -> int {
    let low = lowercase(name);
    if has_text(low, "(user)"@) || has_text(low, "- user"@) || text_ends(low, " user"@) {
        -6
    } else {
        0
    }
}

/// What a name counts for beside the executable: one that is its stem is
/// internal, one with a space a title.
pub open spec fn stem_score(name: Seq<char>, exe: Option<Seq<char>>) -> int {
    if exe is None || file_stem(exe->0) is None {
        0
    } else if compact(name) == lowercase(file_stem(exe->0)->0) {
        -8
    } else if name.contains(' ') {
        3
    } else {
        0
    }
}

/// How worth keeping an entry's name is.
pub open spec fn name_score(app: AppEntry, exe: Option<Seq<char>>) -> int {
    case_score(app.name@) + scope_score(app.name@) - app.name@.len() as int / 8 + (if text_ends(
        lowercase(app.path@),
        ".lnk"@,
    ) {
        2int
    } else {
        0
    }) + stem_score(app.name@, exe)
}

/// The text of an optional text.
pub open spec fn opt_text(o: Option<String>) -> Option<Seq<char>> {
    match o {
        Some(s) => Some(s@),
        None => None,
    }
}

/// How worth keeping an entry's name is when two entries share a target; `exe`
/// is the executable that the entry leads to, where it is known.
pub fn app_name_score(app: &AppEntry, exe: &Option<String>) -> (r: i64)
    ensures
        r == name_score(*app, opt_text(*exe)),
{
    let name = chars_of(app.name.as_str());
    let mut capital = false;
    let mut small = false;
    let mut space = false;
    let mut i: usize = 0;
    while i < name.len()
        invariant
            i <= name.len(),
            name@ == app.name@,
            capital <==> exists|k: int| 0 <= k < i && 'A' <= #[trigger] name@[k] <= 'Z',
            small <==> exists|k: int| 0 <= k < i && 'a' <= #[trigger] name@[k] <= 'z',
            space <==> exists|k: int| 0 <= k < i && #[trigger] name@[k] == ' ',
        decreases name.len() - i,
    {
        let c = name[i];
        if 'A' <= c && c <= 'Z' {
            capital = true;
        }
        if 'a' <= c && c <= 'z' {
            small = true;
        }
        if c == ' ' {
            space = true;
        }
        i = i + 1;
    }
    assert(space == app.name@.contains(' '));
    let mut score: i64 = if capital && small {
        4
    } else if capital {
        -4
    } else {
        0
    };
    let low = app.name.as_str().to_lowercase();
    if str_has(low.as_str(), "(user)") || str_has(low.as_str(), "- user") || str_ends(
        low.as_str(),
        " user",
    ) {
        score = score - 6;
    }
    let eighth: usize = name.len() / 8;
    assert(eighth <= 0x2000_0000_0000_0000);
    score = score - eighth as i64;
    if str_ends(app.path.as_str().to_lowercase().as_str(), ".lnk") {
        score = score + 2;
    }
    match exe {
        Some(e) => match path_file_stem(e.as_str()) {
            Some(stem) => {
                let short = str_compact(app.name.as_str());
                if str_eq(short.as_str(), stem.as_str().to_lowercase().as_str()) {
                    score = score - 8;
                } else if space {
                    score = score + 3;
                }
            },
            None => {},
        },
        None => {},
    }
    score
}

/// What looking at the disk told of an entry: the executable it leads to, with
/// a shortcut resolved, and the canonical path of that executable where the
/// file exists.
pub struct Resolved {
    pub exe: Option<String>,
    pub canon: Option<String>,
}

/// The key of an executable: its canonical path, or the path itself, in
/// lowercase.
pub open spec fn exe_key(exe: Seq<char>, canon: Option<Seq<char>>) -> Seq<char> {
    match canon {
        Some(r) => lowercase(r),
        None => lowercase(exe),
    }
}

/// The key of an executable.
pub fn canonical_target(p: &str, canon: &Option<String>) -> (r: String)
    ensures
        r@ == exe_key(p@, opt_text(*canon)),
{
    match canon {
        Some(c) => c.as_str().to_lowercase(),
        None => p.to_lowercase(),
    }
}

/// The executable name that a store application's id holds: the first one.
pub open spec fn exe_in_id(id: Seq<char>) -> Option<Seq<char>> {
    let low = lowercase(id);
    if forall|at: int| !exe_ends_at(low, at) {
        None
    } else {
        let at = choose|at: int|
            #[trigger] exe_ends_at(low, at) && forall|k: int| k < at ==> !exe_ends_at(low, k);
        Some(low.subrange(stem_start(low, at), at) + ".exe"@)
    }
}

/// What `aumid_exe_token` finds is the executable name in the id.
pub proof fn lemma_exe_in_id(id: Seq<char>)
    ensures
        forall|at: int|
            #[trigger] exe_ends_at(lowercase(id), at) && (forall|k: int|
                k < at ==> !exe_ends_at(lowercase(id), k)) ==> exe_in_id(id) == Some(
                lowercase(id).subrange(stem_start(lowercase(id), at), at) + ".exe"@,
            ),
{
    let low = lowercase(id);
    assert forall|at: int|
        #[trigger] exe_ends_at(low, at) && (forall|k: int|
            k < at ==> !exe_ends_at(low, k)) implies exe_in_id(id) == Some(
        low.subrange(stem_start(low, at), at) + ".exe"@,
    ) by {
        let least = choose|at: int|
            #[trigger] exe_ends_at(low, at) && forall|k: int| k < at ==> !exe_ends_at(low, k);
        assert(least == at);
    }
}

/// What an entry is found again by.
pub struct Keys {
    /// The key of its executable.
    pub path: Option<String>,
    /// The file name of its executable, or the one in its id.
    pub name: Option<String>,
    /// The name comes from the id of a store application.
    pub from_id: bool,
}

/// What an entry is found again by.
#[verifier::ext_equal]
pub ghost struct KeysView {
    pub path: Option<Seq<char>>,
    pub name: Option<Seq<char>>,
    pub from_id: bool,
}

impl Keys {
    /// The keys as texts.
    pub open spec fn texts(self) -> KeysView {
        KeysView { path: opt_text(self.path), name: opt_text(self.name), from_id: self.from_id }
    }
}

/// What an entry is found again by, given what the disk told of it.
pub open spec fn keys_of_entry(path: Seq<char>, exe: Option<Seq<char>>, canon: Option<Seq<char>>, env:
    Env) -> KeysView {
    let low = lowercase(trimmed(path));
    if exe is Some {
        KeysView {
            path: Some(exe_key(exe->0, canon)),
            name: match file_name(exe->0) {
                Some(n) => Some(lowercase(n)),
                None => None,
            },
            from_id: false,
        }
    } else if text_starts(low, "aumid:"@) && entry_file(path, env) is None {
        KeysView { path: None, name: exe_in_id(low.skip("aumid:"@.len() as int)), from_id: true }
    } else {
        KeysView { path: None, name: None, from_id: false }
    }
}

/// What an entry is found again by, given what the disk told of it.
pub fn target_keys(app: &AppEntry, found: &Resolved, env: &Env) -> (r: Keys)
    ensures
        r.texts() == keys_of_entry(app.path@, opt_text(found.exe), opt_text(found.canon), *env),
{
    match &found.exe {
        Some(e) => {
            let path = Some(canonical_target(e.as_str(), &found.canon));
            let name = file_name_key(e.as_str());
            Keys { path, name, from_id: false }
        },
        None => {
            let p = str_trim(app.path.as_str());
            let low = p.as_str().to_lowercase();
            match strip_start(low.as_str(), "aumid:") {
                Some(rest) => {
                    if expand_aumid_path(rest.as_str(), env).is_some() || str_ends(
                        rest.as_str(),
                        ".exe",
                    ) {
                        return Keys { path: None, name: None, from_id: false };
                    }
                    let name = aumid_exe_token(rest.as_str());
                    proof {
                        lemma_exe_in_id(rest@);
                        assert(opt_text(name) == exe_in_id(rest@));
                    }
                    Keys { path: None, name, from_id: true }
                },
                None => Keys { path: None, name: None, from_id: false },
            }
        },
    }
}

/// The entries seen so far: which entry stands for an executable, which for a
/// file name (and whether that came from an id), the latest last; and which
/// entries are kept.
#[verifier::ext_equal]
pub ghost struct Seen {
    pub paths: Seq<(Seq<char>, int)>,
    pub names: Seq<(Seq<char>, int, bool)>,
    pub keep: Seq<bool>,
}

/// The entry that stands for an executable.
pub open spec fn by_path(log: Seq<(Seq<char>, int)>, key: Seq<char>) -> Option<int>
    decreases log.len(),
{
    if log.len() == 0 {
        None
    } else if log.last().0 == key {
        Some(log.last().1)
    } else {
        by_path(log.drop_last(), key)
    }
}

/// The entry that stands for a file name.
pub open spec fn by_name(log: Seq<(Seq<char>, int, bool)>, key: Seq<char>) -> Option<(int, bool)>
    decreases log.len(),
{
    if log.len() == 0 {
        None
    } else if log.last().0 == key {
        Some((log.last().1, log.last().2))
    } else {
        by_name(log.drop_last(), key)
    }
}

impl Seen {
    /// Nothing was seen.
    pub open spec fn start(n: int) -> Seen {
        Seen { paths: Seq::empty(), names: Seq::empty(), keep: Seq::new(n as nat, |i: int| true) }
    }

    /// The earlier entry with the same target: the same executable, else the
    /// same file name where one of the two comes from an id.
    pub open spec fn twin(self, k: KeysView) -> Option<int> {
        if k.path is Some && by_path(self.paths, k.path->0) is Some {
            by_path(self.paths, k.path->0)
        } else if k.name is Some && by_name(self.names, k.name->0) is Some && ((by_name(
            self.names,
            k.name->0,
        )->0).1 || k.from_id) {
            Some((by_name(self.names, k.name->0)->0).0)
        } else {
            None
        }
    }

    /// Entry `w` stands for the keys `k` from now on.
    pub open spec fn noted(self, k: KeysView, w: int) -> Seen {
        Seen {
            paths: if k.path is Some {
                self.paths.push((k.path->0, w))
            } else {
                self.paths
            },
            names: if k.name is Some {
                self.names.push((k.name->0, w, k.from_id))
            } else {
                self.names
            },
            keep: self.keep,
        }
    }

    /// Entry `i` is seen: where it has a twin, the one with the better name is
    /// kept.
    pub open spec fn seeing(self, i: int, k: KeysView, scores: Seq<int>) -> Seen {
        match self.twin(k) {
            None => self.noted(k, i),
            Some(j) => if scores[i] > scores[j] {
                Seen { keep: self.keep.update(j, false), ..self.noted(k, i) }
            } else {
                Seen { keep: self.keep.update(i, false), ..self.noted(k, j) }
            },
        }
    }

    /// The first `n` entries are seen.
    pub open spec fn after(keys: Seq<KeysView>, scores: Seq<int>, n: int) -> Seen
        decreases n,
    {
        if n <= 0 {
            Seen::start(keys.len() as int)
        } else {
            Seen::after(keys, scores, n - 1).seeing(n - 1, keys[n - 1], scores)
        }
    }
}

/// The entries that are kept.
pub open spec fn kept(apps: Seq<AppEntry>, keep: Seq<bool>) -> Seq<AppEntry>
    decreases apps.len(),
{
    if apps.len() == 0 {
        apps
    } else if keep[apps.len() - 1] {
        kept(apps.drop_last(), keep).push(apps.last())
    } else {
        kept(apps.drop_last(), keep)
    }
}

/// The keys of the entries of a pool.
pub open spec fn pool_keys(apps: Seq<AppEntry>, found: Seq<Resolved>, env: Env) -> Seq<KeysView> {
    Seq::new(
        apps.len(),
        |i: int|
            keys_of_entry(apps[i].path@, opt_text(found[i].exe), opt_text(found[i].canon), env),
    )
}

/// The scores of the entries of a pool.
pub open spec fn pool_scores(apps: Seq<AppEntry>, found: Seq<Resolved>) -> Seq<int> {
    Seq::new(apps.len(), |i: int| name_score(apps[i], opt_text(found[i].exe)))
}

/// A pool with one entry per target.
pub open spec fn one_per_target(apps: Seq<AppEntry>, found: Seq<Resolved>, env: Env) -> Seq<
    AppEntry,
> {
    kept(
        apps,
        Seen::after(
            pool_keys(apps, found, env),
            pool_scores(apps, found),
            apps.len() as int,
        ).keep,
    )
}

/// The log of the executables, as texts.
spec fn path_log(v: Seq<(String, usize)>) -> Seq<(Seq<char>, int)> {
    v.map_values(|e: (String, usize)| (e.0@, e.1 as int))
}

/// The log of the file names, as texts.
spec fn name_log(v: Seq<(String, usize, bool)>) -> Seq<(Seq<char>, int, bool)> {
    v.map_values(|e: (String, usize, bool)| (e.0@, e.1 as int, e.2))
}

/// The entry that stands for an executable.
fn find_path(log: &Vec<(String, usize)>, key: &str) -> (r: Option<usize>)
    ensures
        r is Some <==> by_path(path_log(log@), key@) is Some,
        r is Some ==> Some(r->0 as int) == by_path(path_log(log@), key@) && exists|i: int|
            0 <= i < log.len() && (#[trigger] log@[i]).1 == r->0,
{
    let mut n: usize = log.len();
    assert(path_log(log@).take(n as int) =~= path_log(log@));
    while n > 0
        invariant
            n <= log.len(),
            by_path(path_log(log@).take(n as int), key@) == by_path(path_log(log@), key@),
        decreases n,
    {
        let ghost part = path_log(log@).take(n as int);
        assert(part.last() == (log@[n - 1].0@, log@[n - 1].1 as int));
        assert(part.drop_last() =~= path_log(log@).take(n - 1));
        if str_eq(log[n - 1].0.as_str(), key) {
            assert(log@[n - 1].1 == log@[n - 1].1);
            return Some(log[n - 1].1);
        }
        n = n - 1;
    }
    None
}

/// The entry that stands for a file name.
fn find_name(log: &Vec<(String, usize, bool)>, key: &str) -> (r: Option<(usize, bool)>)
    ensures
        r is Some <==> by_name(name_log(log@), key@) is Some,
        r is Some ==> Some(((r->0).0 as int, (r->0).1)) == by_name(name_log(log@), key@)
            && exists|i: int| 0 <= i < log.len() && (#[trigger] log@[i]).1 == (r->0).0,
{
    let mut n: usize = log.len();
    assert(name_log(log@).take(n as int) =~= name_log(log@));
    while n > 0
        invariant
            n <= log.len(),
            by_name(name_log(log@).take(n as int), key@) == by_name(name_log(log@), key@),
        decreases n,
    {
        let ghost part = name_log(log@).take(n as int);
        assert(part.last() == (log@[n - 1].0@, log@[n - 1].1 as int, log@[n - 1].2));
        assert(part.drop_last() =~= name_log(log@).take(n - 1));
        if str_eq(log[n - 1].0.as_str(), key) {
            assert(log@[n - 1].1 == log@[n - 1].1);
            return Some((log[n - 1].1, log[n - 1].2));
        }
        n = n - 1;
    }
    None
}

/// The keys of a list, as texts.
pub open spec fn keys_texts(keys: Seq<Keys>) -> Seq<KeysView> {
    keys.map_values(|k: Keys| k.texts())
}

/// The numbers of a list.
pub open spec fn ints(v: Seq<i64>) -> Seq<int> {
    v.map_values(|x: i64| x as int)
}

/// The earlier entry with the same target.
fn find_twin(
    paths: &Vec<(String, usize)>,
    names: &Vec<(String, usize, bool)>,
    k: &Keys,
    Ghost(keep): Ghost<Seq<bool>>,
    Ghost(bound): Ghost<int>,
) -> (r: Option<usize>)
    requires
        forall|m: int| 0 <= m < paths.len() ==> (#[trigger] paths@[m]).1 < bound,
        forall|m: int| 0 <= m < names.len() ==> (#[trigger] names@[m]).1 < bound,
    ensures
        ({
            let st = Seen { paths: path_log(paths@), names: name_log(names@), keep };
            &&& r is Some <==> st.twin(k.texts()) is Some
            &&& r is Some ==> Some(r->0 as int) == st.twin(k.texts()) && r->0 < bound
        }),
{
    match &k.path {
        Some(p) => match find_path(paths, p.as_str()) {
            Some(j) => {
                return Some(j);
            },
            None => {},
        },
        None => {},
    }
    match &k.name {
        Some(nm) => match find_name(names, nm.as_str()) {
            Some((j, from_id)) => {
                if from_id || k.from_id {
                    return Some(j);
                }
            },
            None => {},
        },
        None => {},
    }
    None
}

/// Which of the entries are kept, by their keys and the scores of their names.
pub fn keep_targets(keys: &Vec<Keys>, scores: &Vec<i64>) -> (keep: Vec<bool>)
    requires
        keys.len() == scores.len(),
    ensures
        keep.len() == keys.len(),
        keep@ == Seen::after(keys_texts(keys@), ints(scores@), keys.len() as int).keep,
{
    let ghost ks = keys_texts(keys@);
    let ghost ss = ints(scores@);
    let mut paths: Vec<(String, usize)> = Vec::new();
    let mut names: Vec<(String, usize, bool)> = Vec::new();
    let mut keep: Vec<bool> = Vec::new();
    let mut n: usize = 0;
    while n < keys.len()
        invariant
            n <= keys.len(),
            keep@ == Seq::new(n as nat, |i: int| true),
        decreases keys.len() - n,
    {
        keep.push(true);
        assert(keep@ =~= Seq::new((n + 1) as nat, |i: int| true));
        n = n + 1;
    }
    let mut i: usize = 0;
    assert(path_log(paths@) =~= Seq::<(Seq<char>, int)>::empty());
    assert(name_log(names@) =~= Seq::<(Seq<char>, int, bool)>::empty());
    while i < keys.len()
        invariant
            i <= keys.len(),
            keys.len() == scores.len(),
            ks == keys_texts(keys@),
            ss == ints(scores@),
            keep.len() == keys.len(),
            (Seen { paths: path_log(paths@), names: name_log(names@), keep: keep@ })
                == Seen::after(ks, ss, i as int),
            forall|m: int| 0 <= m < paths.len() ==> (#[trigger] paths@[m]).1 < i,
            forall|m: int| 0 <= m < names.len() ==> (#[trigger] names@[m]).1 < i,
        decreases keys.len() - i,
    {
        let ghost st = Seen::after(ks, ss, i as int);
        let k = &keys[i];
        let twin = find_twin(&paths, &names, k, Ghost(keep@), Ghost(i as int));
        let mut winner: usize = i;
        match twin {
            Some(j) => {
                if scores[i] > scores[j] {
                    keep.set(j, false);
                } else {
                    keep.set(i, false);
                    winner = j;
                }
            },
            None => {},
        }
        let ghost paths_before = paths@;
        let ghost names_before = names@;
        match &k.path {
            Some(p) => {
                paths.push((p.clone(), winner));
                assert(path_log(paths@) =~= path_log(paths_before).push((p@, winner as int)));
            },
            None => {},
        }
        match &k.name {
            Some(nm) => {
                names.push((nm.clone(), winner, k.from_id));
                assert(name_log(names@) =~= name_log(names_before).push(
                    (nm@, winner as int, k.from_id),
                ));
            },
            None => {},
        }
        proof {
            assert(ks[i as int] == k.texts());
            assert((Seen { paths: path_log(paths@), names: name_log(names@), keep: keep@ })
                =~= st.seeing(i as int, k.texts(), ss));
        }
        i = i + 1;
    }
    keep
}

/// Keeps one of the entries that lead to the same executable: the one with the
/// better name. Entries whose executables only share a file name stay apart,
/// unless one of the names comes from the id of a store application.
pub fn dedupe_by_target(apps: &mut Vec<AppEntry>, found: &Vec<Resolved>, env: &Env)
    requires
        old(apps).len() == found.len(),
    ensures
        final(apps)@ == one_per_target(old(apps)@, found@, *env),
{
    let ghost all = apps@;
    let mut keys: Vec<Keys> = Vec::new();
    let mut scores: Vec<i64> = Vec::new();
    let mut i: usize = 0;
    while i < apps.len()
        invariant
            apps@ == all,
            i <= all.len(),
            all.len() == found.len(),
            keys.len() == i,
            scores.len() == i,
            forall|m: int|
                0 <= m < i ==> (#[trigger] keys@[m]).texts() == pool_keys(all, found@, *env)[m],
            forall|m: int| 0 <= m < i ==> #[trigger] scores@[m] == pool_scores(all, found@)[m],
        decreases all.len() - i,
    {
        keys.push(target_keys(&apps[i], &found[i], env));
        scores.push(app_name_score(&apps[i], &found[i].exe));
        i = i + 1;
    }
    assert(keys_texts(keys@) =~= pool_keys(all, found@, *env));
    assert(ints(scores@) =~= pool_scores(all, found@));
    let keep = keep_targets(&keys, &scores);
    let mut out: Vec<AppEntry> = Vec::new();
    let mut m: usize = 0;
    assert(all.take(0) =~= Seq::<AppEntry>::empty());
    while m < apps.len()
        invariant
            apps@ == all,
            m <= all.len(),
            keep.len() == all.len(),
            out@ == kept(all.take(m as int), keep@),
        decreases all.len() - m,
    {
        assert(all.take(m + 1).drop_last() =~= all.take(m as int));
        assert(all.take(m + 1).last() == all[m as int]);
        if keep[m] {
            out.push(apps[m].clone());
        }
        m = m + 1;
    }
    assert(all.take(m as int) =~= all);
    *apps = out;
}

/// Of the entries with one executable at most one is kept.
pub proof fn law_one_entry_per_executable(keys: Seq<KeysView>, scores: Seq<int>, i: int, j: int)
    requires
        0 <= i < j < keys.len(),
        keys[i].path is Some,
        keys[i].path == keys[j].path,
    ensures
        ({
            let keep = Seen::after(keys, scores, keys.len() as int).keep;
            !keep[i] || !keep[j]
        }),
{
    lemma_holder(keys, scores, keys.len() as int, keys[i].path->0);
}

/// After `n` entries: each executable that was seen has an entry that stands
/// for it, and no other entry with that executable is kept.
proof fn lemma_holder(keys: Seq<KeysView>, scores: Seq<int>, n: int, key: Seq<char>)
    requires
        0 <= n <= keys.len(),
    ensures
        ({
            let st = Seen::after(keys, scores, n);
            &&& st.keep.len() == keys.len()
            &&& forall|i: int| n <= i < keys.len() ==> #[trigger] st.keep[i]
            &&& by_path(st.paths, key) is Some ==> 0 <= by_path(st.paths, key)->0 < n
            &&& forall|i: int|
                0 <= i < n && (#[trigger] keys[i]).path == Some(key) ==> by_path(st.paths, key) is Some
            &&& forall|i: int|
                0 <= i < n && (#[trigger] keys[i]).path == Some(key) && by_path(st.paths, key)
                    != Some(i) ==> !st.keep[i]
        }),
        forall|k: Seq<char>|
            by_name(Seen::after(keys, scores, n).names, k) is Some ==> 0 <= (#[trigger] by_name(
                Seen::after(keys, scores, n).names,
                k,
            )->0).0 < n,
    decreases n,
{
    if n > 0 {
        lemma_holder(keys, scores, n - 1, key);
        let st = Seen::after(keys, scores, n - 1);
        let k = keys[n - 1];
        if k.path is Some {
            lemma_holder(keys, scores, n - 1, k.path->0);
        }
        let st2 = Seen::after(keys, scores, n);
        let twin = st.twin(k);
        let w = if twin is Some && !(scores[n - 1] > scores[twin->0]) {
            twin->0
        } else {
            n - 1
        };
        assert(twin is Some ==> 0 <= twin->0 < n - 1);
        assert(st2.paths == st.noted(k, w).paths);
        assert(st2.names == st.noted(k, w).names);
        if k.path is Some {
            assert(st2.paths.drop_last() =~= st.paths);
        }
        assert forall|q: Seq<char>| by_name(st2.names, q) is Some implies 0 <= (#[trigger] by_name(
            st2.names,
            q,
        )->0).0 < n by {
            if k.name is Some {
                assert(st2.names.drop_last() =~= st.names);
            }
            if by_name(st.names, q) is Some {
                assert((by_name(st.names, q)->0).0 < n - 1);
            }
        }
    }
}

/// Where no name comes from an id, an entry goes only for another one with the
/// same executable: executables that share no more than a file name stay.
pub proof fn law_file_names_alone_never_merge(keys: Seq<KeysView>, scores: Seq<int>, i: int)
    requires
        0 <= i < keys.len(),
        forall|m: int| 0 <= m < keys.len() ==> !(#[trigger] keys[m]).from_id,
    ensures
        ({
            let keep = Seen::after(keys, scores, keys.len() as int).keep;
            &&& keys[i].path is None ==> keep[i]
            &&& keys[i].path is Some ==> exists|j: int|
                0 <= j < keys.len() && keep[j] && (#[trigger] keys[j]).path == keys[i].path
        }),
{
    lemma_real_holder(keys, scores, keys.len() as int);
    if keys[i].path is Some {
        let key = keys[i].path->0;
        let st = Seen::after(keys, scores, keys.len() as int);
        lemma_holder(keys, scores, keys.len() as int, key);
        let j = by_path(st.paths, key)->0;
        assert(keys[j].path == Some(key));
    }
}

/// Of the first `n` entries with its executable, `j` has the best name; it is the
/// first of those that are equally good.
pub open spec fn is_best(keys: Seq<KeysView>, scores: Seq<int>, n: int, j: int) -> bool {
    forall|m: int|
        0 <= m < n && (#[trigger] keys[m]).path == keys[j].path ==> scores[m] <= scores[j] && (m < j
            ==> scores[m] < scores[j])
}

/// Where no name comes from an id, the entry that is kept of those with one
/// executable is the one with the best name, and the first of those that are
/// equally good.
pub proof fn law_best_name_is_kept(keys: Seq<KeysView>, scores: Seq<int>, i: int)
    requires
        0 <= i < keys.len(),
        keys[i].path is Some,
        forall|m: int| 0 <= m < keys.len() ==> !(#[trigger] keys[m]).from_id,
    ensures
        Seen::after(keys, scores, keys.len() as int).keep[i] <==> forall|m: int|
            0 <= m < keys.len() && (#[trigger] keys[m]).path == keys[i].path ==> scores[m]
                <= scores[i] && (m < i ==> scores[m] < scores[i]),
{
    let n = keys.len() as int;
    let st = Seen::after(keys, scores, n);
    lemma_real_holder(keys, scores, n);
    lemma_holder(keys, scores, n, keys[i].path->0);
    let j = by_path(st.paths, keys[i].path->0)->0;
    assert(is_best(keys, scores, n, j));
    if i != j {
        assert(keys[j].path == keys[i].path);
    }
}

/// Where no name comes from an id: the entry that stands for an executable has
/// it and is kept, and so is each entry without one.
proof fn lemma_real_holder(keys: Seq<KeysView>, scores: Seq<int>, n: int)
    requires
        0 <= n <= keys.len(),
        forall|m: int| 0 <= m < keys.len() ==> !(#[trigger] keys[m]).from_id,
    ensures
        ({
            let st = Seen::after(keys, scores, n);
            &&& st.keep.len() == keys.len()
            &&& forall|m: int| n <= m < keys.len() ==> #[trigger] st.keep[m]
            &&& forall|m: int| 0 <= m < n && (#[trigger] keys[m]).path is None ==> st.keep[m]
            &&& forall|key: Seq<char>|
                by_path(st.paths, key) is Some ==> {
                    let j = (#[trigger] by_path(st.paths, key))->0;
                    0 <= j < n && keys[j].path == Some(key) && st.keep[j] && is_best(
                        keys,
                        scores,
                        n,
                        j,
                    )
                }
            &&& forall|key: Seq<char>|
                by_name(st.names, key) is Some ==> !(#[trigger] by_name(st.names, key)->0).1
            &&& forall|m: int|
                0 <= m < n && (#[trigger] keys[m]).path is Some ==> by_path(
                    st.paths,
                    keys[m].path->0,
                ) is Some
        }),
    decreases n,
{
    if n > 0 {
        lemma_real_holder(keys, scores, n - 1);
        let st = Seen::after(keys, scores, n - 1);
        let st2 = Seen::after(keys, scores, n);
        let k = keys[n - 1];
        assert(!k.from_id);
        let twin = st.twin(k);
        assert(twin is Some ==> k.path is Some && twin == by_path(st.paths, k.path->0)) by {
            if k.name is Some && by_name(st.names, k.name->0) is Some {
                assert(!(by_name(st.names, k.name->0)->0).1);
            }
        }
        let w = if twin is Some && !(scores[n - 1] > scores[twin->0]) {
            twin->0
        } else {
            n - 1
        };
        assert(st2.paths == st.noted(k, w).paths);
        assert(st2.names == st.noted(k, w).names);
        assert forall|key: Seq<char>| by_path(st2.paths, key) is Some implies {
            let j = (#[trigger] by_path(st2.paths, key))->0;
            0 <= j < n && keys[j].path == Some(key) && st2.keep[j] && is_best(keys, scores, n, j)
        } by {
            if k.path is Some {
                assert(st2.paths.drop_last() =~= st.paths);
                if k.path->0 != key {
                    let j = by_path(st.paths, key)->0;
                    assert(keys[j].path == Some(key));
                    assert(is_best(keys, scores, n - 1, j));
                    if twin is Some {
                        assert(keys[twin->0].path == k.path);
                    }
                } else {
                    if twin is Some {
                        assert(is_best(keys, scores, n - 1, twin->0));
                    }
                    assert forall|m: int|
                        0 <= m < n && (#[trigger] keys[m]).path == keys[w].path implies scores[m]
                        <= scores[w] && (m < w ==> scores[m] < scores[w]) by {
                        if m < n - 1 {
                            assert(by_path(st.paths, keys[m].path->0) is Some);
                        }
                    }
                }
            } else {
                let j = by_path(st.paths, key)->0;
                assert(is_best(keys, scores, n - 1, j));
            }
        }
        assert forall|m: int| 0 <= m < n && (#[trigger] keys[m]).path is Some implies by_path(
            st2.paths,
            keys[m].path->0,
        ) is Some by {
            if k.path is Some {
                assert(st2.paths.drop_last() =~= st.paths);
            }
        }
        assert forall|key: Seq<char>| by_name(st2.names, key) is Some implies !(
        #[trigger] by_name(st2.names, key)->0).1 by {
            if k.name is Some {
                assert(st2.names.drop_last() =~= st.names);
            }
            if by_name(st.names, key) is Some {
                assert(!(by_name(st.names, key)->0).1);
            }
        }
    }
}

/// A shortcut leads to what it links to and an executable to itself; any other
/// file leads nowhere.
pub proof fn law_what_a_file_leads_to(t: Target, path: Seq<char>, env: Env)
    requires
        leads_to(t, path, env),
        !text_starts(lowercase(trimmed(path)), "aumid:"@),
    ensures
        ({
            let file = trimmed(path);
            let link = text_ends(lowercase(file), ".lnk"@);
            let exe = text_ends(lowercase(file), ".exe"@);
            &&& t is Link <==> link
            &&& t is Exe <==> exe
            &&& link ==> t->Link_0@ == file
            &&& exe ==> t->Exe_0@ == file
        }),
{
    reveal_strlit(".lnk");
    reveal_strlit(".exe");
    let low = lowercase(trimmed(path));
    let n: int = low.len() as int;
    if text_ends(low, ".lnk"@) {
        assert(low.subrange(n - 4, n)[1] == 'l');
        assert(".exe"@[1] == 'e');
    }
}

/// The executable that an id names is a whole part of it: a word that ends in
/// `.exe`, between dots or the ends.
pub proof fn law_executable_in_an_id(id: Seq<char>) -> (at: int)
    ensures
        exe_in_id(id) is Some ==> {
            let low = lowercase(id);
            let exe = exe_in_id(id)->0;
            &&& exe.len() > 4
            &&& text_ends(exe, ".exe"@)
            &&& text_at(low, exe, at)
            &&& at == 0 || low[at - 1] == '.'
            &&& at + exe.len() == low.len() || low[at + exe.len()] == '.'
        },
{
    if exe_in_id(id) is Some {
        let end = lemma_named_exe(id);
        lemma_exe_part(lowercase(id), end)
    } else {
        0
    }
}

proof fn lemma_named_exe(id: Seq<char>) -> (end: int)
    requires
        exe_in_id(id) is Some,
    ensures
        exe_ends_at(lowercase(id), end),
        exe_in_id(id) == Some(
            lowercase(id).subrange(stem_start(lowercase(id), end), end) + ".exe"@,
        ),
{
    let low = lowercase(id);
    let some = choose|k: int| exe_ends_at(low, k);
    let end = lemma_first_exe(low, some);
    lemma_exe_in_id(id);
    end
}

proof fn lemma_exe_part(low: Seq<char>, end: int) -> (start: int)
    requires
        exe_ends_at(low, end),
    ensures
        ({
            let exe = low.subrange(stem_start(low, end), end) + ".exe"@;
            &&& exe.len() > 4
            &&& text_ends(exe, ".exe"@)
            &&& text_at(low, exe, start)
            &&& start == 0 || low[start - 1] == '.'
            &&& start + exe.len() == low.len() || low[start + exe.len()] == '.'
        }),
{
    lemma_stem_start(low, end);
    let start: int = stem_start(low, end);
    let exe = low.subrange(start, end) + ".exe"@;
    reveal_strlit(".exe");
    let n: int = exe.len() as int;
    assert(exe.subrange(n - 4, n) =~= ".exe"@);
    assert(low.subrange(end, end + 4) == ".exe"@);
    assert forall|k: int| 0 <= k < n implies low.subrange(start, start + n)[k] == exe[k] by {
        if k >= end - start {
            assert(low.subrange(end, end + 4)[k - (end - start)] == low[start + k]);
        }
    }
    assert(low.subrange(start, start + n) =~= exe);
    start
}

proof fn lemma_first_exe(low: Seq<char>, at: int) -> (first: int)
    requires
        exe_ends_at(low, at),
    ensures
        exe_ends_at(low, first),
        forall|k: int| k < first ==> !exe_ends_at(low, k),
    decreases at,
{
    if exists|k: int| k < at && exe_ends_at(low, k) {
        let k = choose|k: int| k < at && exe_ends_at(low, k);
        lemma_first_exe(low, k)
    } else {
        at
    }
}

proof fn lemma_stem_start(s: Seq<char>, at: int)
    requires
        0 <= at <= s.len(),
    ensures
        0 <= stem_start(s, at) <= at,
        stem_start(s, at) == 0 || s[stem_start(s, at) - 1] == '.',
        forall|k: int| stem_start(s, at) <= k < at ==> #[trigger] s[k] != '.',
    decreases at,
{
    if at > 0 && s[at - 1] != '.' {
        lemma_stem_start(s, at - 1);
    }
}

/// An entry with an executable is found by it, under its true path where that is
/// known, and by the name of its file; an id only by the executable that it names.
pub proof fn law_what_an_entry_is_found_by(
    path: Seq<char>,
    exe: Option<Seq<char>>,
    canon: Option<Seq<char>>,
    env: Env,
)
    ensures
        ({
            let k = keys_of_entry(path, exe, canon, env);
            &&& exe is Some && canon is Some ==> k.path == Some(lowercase(canon->0))
            &&& exe is Some && canon is None ==> k.path == Some(lowercase(exe->0))
            &&& exe is Some && file_name(exe->0) is Some ==> k.name == Some(
                lowercase(file_name(exe->0)->0),
            )
            &&& k.path is Some <==> exe is Some
            &&& k.from_id ==> k.path is None && text_starts(lowercase(trimmed(path)), "aumid:"@)
            &&& !text_starts(lowercase(trimmed(path)), "aumid:"@) && exe is None ==> k.name is None
        }),
{
}

/// An id and an executable of the same file name are one application: only the
/// one with the better name stays, and the first of equally good ones.
pub proof fn law_id_joins_its_executable(keys: Seq<KeysView>, scores: Seq<int>)
    requires
        keys.len() >= 2,
        keys[0].name is Some,
        keys[0].name == keys[1].name,
        keys[0].from_id || keys[1].from_id,
        keys[0].path is None || keys[1].path is None,
    ensures
        ({
            let keep = Seen::after(keys, scores, 2).keep;
            &&& keep[0] <==> scores[0] >= scores[1]
            &&& keep[1] <==> scores[1] > scores[0]
        }),
{
    reveal_with_fuel(Seen::after, 3);
    reveal_with_fuel(by_path, 2);
    reveal_with_fuel(by_name, 2);
    let st = Seen::after(keys, scores, 1);
    assert(Seen::start(keys.len() as int).twin(keys[0]) is None);
    assert(st.names.last() == (keys[0].name->0, 0int, keys[0].from_id));
    assert(st.twin(keys[1]) == Some(0int));
}

/// An id that has a word and `.exe` between dots or its ends names an executable.
pub proof fn law_id_with_an_executable(
    id: Seq<char>,
    front: Seq<char>,
    stem: Seq<char>,
    back: Seq<char>,
)
    requires
        lowercase(id) == front + stem + ".exe"@ + back,
        front.len() == 0 || front.last() == '.',
        back.len() == 0 || back[0] == '.',
        stem.len() > 0,
        forall|k: int|
            0 <= k < stem.len() ==> is_ascii_word(#[trigger] stem[k]) || stem[k] == '_' || stem[k]
                == '-',
    ensures
        exe_in_id(id) is Some,
{
    let low = lowercase(id);
    let start: int = front.len() as int;
    let end: int = start + stem.len();
    reveal_strlit(".exe");
    assert(low.subrange(end, end + 4) =~= ".exe"@);
    assert forall|k: int| start <= k < end implies low[k] == stem[k - start] && low[k] != '.' by {}
    lemma_stem_from(low, start, end);
    assert forall|k: int| stem_start(low, end) <= k < end implies is_ascii_word(#[trigger] low[k])
        || low[k] == '_' || low[k] == '-' by {
        assert(low[k] == stem[k - start]);
    }
    if back.len() > 0 {
        assert(low[end + 4] == back[0]);
    }
    assert(exe_ends_at(low, end));
}

proof fn lemma_stem_from(s: Seq<char>, start: int, end: int)
    requires
        0 <= start <= end <= s.len(),
        start == 0 || s[start - 1] == '.',
        forall|k: int| start <= k < end ==> #[trigger] s[k] != '.',
    ensures
        stem_start(s, end) == start,
    decreases end - start,
{
    if start < end {
        assert(s[end - 1] != '.');
        lemma_stem_from(s, start, end - 1);
    }
}

} // verus!
