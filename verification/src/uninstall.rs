//! Uninstalling an application: its entry, and what of the entry may run.
use crate::text::{
    ascii_lower, chars_of, is_space, lowercase, space, str_ascii_lower, str_ends, str_eq, str_in, str_starts,
    str_trim, string_of, text_ends, text_starts, trimmed, trimmed_start, word_len,
};
use crate::winpath::{file_stem, path_file_stem};
use vstd::prelude::*;

verus! {

/// What stands behind an opening quote: the name up to the closing one, with
/// each `\"` a quote of it, and where the text goes on. `None` for the rest where
/// no quote closes.
pub open spec fn quoted(s: Seq<char>, i: int) -> (Seq<char>, Option<int>)
    decreases s.len() - i,
{
    if i < 0 || i >= s.len() {
        (Seq::empty(), None)
    } else if s[i] == '"' {
        (Seq::empty(), Some(i + 1))
    } else if s[i] == '\\' && i + 1 < s.len() && s[i + 1] == '"' {
        let more = quoted(s, i + 2);
        (seq!['"'] + more.0, more.1)
    } else {
        let more = quoted(s, i + 1);
        (seq![s[i]] + more.0, more.1)
    }
}

/// The program of a command line and its arguments.
pub open spec fn command_parts(line: Seq<char>) -> Option<(Seq<char>, Seq<char>)> {
    let s = trimmed_start(line);
    let (exe, rest) = if s.len() > 0 && s[0] == '"' {
        let q = quoted(s, 1);
        (
            q.0,
            match q.1 {
                Some(at) => trimmed_start(s.skip(at)),
                None => Seq::empty(),
            },
        )
    } else {
        let n = word_len(s) as int;
        (s.take(n), trimmed_start(s.skip(n)))
    };
    if exe.len() == 0 {
        None
    } else {
        Some((exe, rest))
    }
}

/// Where a text without leading white space begins, from `from` on.
fn skip_spaces(s: &[char], from: usize) -> (r: usize)
    requires
        from <= s.len(),
    ensures
        from <= r <= s.len(),
        s@.skip(r as int) == trimmed_start(s@.skip(from as int)),
{
    let mut i: usize = from;
    while i < s.len() && space(s[i])
        invariant
            from <= i <= s.len(),
            trimmed_start(s@.skip(from as int)) == trimmed_start(s@.skip(i as int)),
        decreases s.len() - i,
    {
        assert(s@.skip(i as int)[0] == s@[i as int]);
        assert(s@.skip(i as int).drop_first() =~= s@.skip(i + 1));
        i = i + 1;
    }
    proof {
        if i < s.len() {
            assert(s@.skip(i as int)[0] == s@[i as int]);
        }
    }
    i
}

/// What stands behind an opening quote, and where the text goes on.
fn read_quoted(s: &[char], from: usize) -> (r: (Vec<char>, Option<usize>))
    ensures
        r.0@ == quoted(s@, from as int).0,
        r.1 is Some <==> quoted(s@, from as int).1 is Some,
        r.1 is Some ==> Some(r.1->0 as int) == quoted(s@, from as int).1 && r.1->0 <= s.len(),
{
    let ghost goal = quoted(s@, from as int);
    let mut out: Vec<char> = Vec::new();
    let mut i: usize = from;
    assert(out@ + goal.0 =~= goal.0);
    while i < s.len()
        invariant
            goal == quoted(s@, from as int),
            out@ + quoted(s@, i as int).0 == goal.0,
            quoted(s@, i as int).1 == goal.1,
        decreases s.len() - i,
    {
        let ghost before = out@;
        if s[i] == '"' {
            assert(out@ + quoted(s@, i as int).0 =~= out@);
            return (out, Some(i + 1));
        }
        if s[i] == '\\' && i + 1 < s.len() && s[i + 1] == '"' {
            out.push('"');
            proof {
                let t = quoted(s@, i + 2).0;
                assert(before.push('"') + t =~= before + (seq!['"'] + t));
            }
            i = i + 2;
        } else {
            let c = s[i];
            out.push(c);
            proof {
                let t = quoted(s@, i + 1).0;
                assert(before.push(c) + t =~= before + (seq![c] + t));
            }
            i = i + 1;
        }
    }
    assert(out@ + quoted(s@, i as int).0 =~= out@);
    (out, None)
}

/// The program of a command line, read with its quotes, and the arguments as they
/// stand. A quote that does not close makes the whole text the program.
pub fn split_uninstall_command(cmdline: &str) -> (r: Option<(String, String)>)
    ensures
        r is Some <==> command_parts(cmdline@) is Some,
        r is Some ==> ((r->0).0@, (r->0).1@) == command_parts(cmdline@)->0,
{
    let all = chars_of(cmdline);
    assert(all@.skip(0) =~= all@);
    let start = skip_spaces(all.as_slice(), 0);
    let s = &all.as_slice()[start..all.len()];
    assert(s@ =~= trimmed_start(cmdline@));
    if s.len() > 0 && s[0] == '"' {
        let (exe, next) = read_quoted(s, 1);
        if exe.len() == 0 {
            return None;
        }
        let rest = match next {
            Some(at) => {
                let from = skip_spaces(s, at);
                let t = string_of(&s[from..s.len()]);
                assert(t@ =~= s@.skip(from as int));
                t
            },
            None => {
                let t = String::new();
                assert(t@ =~= Seq::<char>::empty());
                t
            },
        };
        Some((string_of(exe.as_slice()), rest))
    } else {
        let mut n: usize = 0;
        assert(s@.skip(0) =~= s@);
        while n < s.len() && !space(s[n])
            invariant
                n <= s.len(),
                word_len(s@) == n + word_len(s@.skip(n as int)),
            decreases s.len() - n,
        {
            assert(s@.skip(n as int)[0] == s@[n as int]);
            assert(s@.skip(n as int).drop_first() =~= s@.skip(n + 1));
            n = n + 1;
        }
        proof {
            if n < s.len() {
                assert(s@.skip(n as int)[0] == s@[n as int]);
            }
            assert(word_len(s@) == n);
        }
        if n == 0 {
            return None;
        }
        let exe = string_of(&s[0..n]);
        assert(exe@ =~= s@.take(n as int));
        let from = skip_spaces(s, n);
        let rest = string_of(&s[from..s.len()]);
        assert(rest@ =~= s@.skip(from as int));
        Some((exe, rest))
    }
}

/// The programs that run other programs or scripts.
pub const INTERPRETERS: [&'static str; 8] = [
    "cmd", "powershell", "pwsh", "wscript", "cscript", "mshta", "rundll32", "regsvr32",
];

/// The stem of a program, in lowercase.
pub open spec fn program_stem(exe: Seq<char>) -> Seq<char> {
    match file_stem(exe) {
        Some(s) => lowercase(s),
        None => Seq::empty(),
    }
}

/// A program that may run as an uninstaller: no interpreter, and named with its
/// folder unless it is the installer of the system.
pub open spec fn may_uninstall(exe: Seq<char>) -> bool {
    let stem = program_stem(exe);
    &&& forall|i: int| 0 <= i < 8 ==> #[trigger] INTERPRETERS@[i]@ != stem
    &&& exe.contains('\\') || exe.contains('/') || stem == "msiexec"@
}

/// Whether a program may run as an uninstaller.
pub fn uninstall_exe_allowed(exe: &str) -> (r: bool)
    ensures
        r == may_uninstall(exe@),
{
    let stem = match path_file_stem(exe) {
        Some(s) => s.as_str().to_lowercase(),
        None => {
            let t = String::new();
            assert(t@ =~= Seq::<char>::empty());
            t
        },
    };
    if str_in(stem.as_str(), vstd::array::array_as_slice(&INTERPRETERS)) {
        return false;
    }
    let c = chars_of(exe);
    let mut i: usize = 0;
    while i < c.len()
        invariant
            i <= c.len(),
            c@ == exe@,
            stem@ == program_stem(exe@),
            forall|k: int| 0 <= k < 8 ==> #[trigger] INTERPRETERS@[k]@ != stem@,
            forall|k: int| 0 <= k < i ==> c@[k] != '\\' && c@[k] != '/',
        decreases c.len() - i,
    {
        if c[i] == '\\' || c[i] == '/' {
            return true;
        }
        i = i + 1;
    }
    str_eq(stem.as_str(), "msiexec")
}

/// An entry of an uninstall list.
pub struct UninstallEntry {
    pub display: String,
    pub publisher: Option<String>,
    pub version: Option<String>,
    pub uninstall_string: Option<String>,
    pub quiet_uninstall_string: Option<String>,
}

/// A name without the shortcut endings.
pub open spec fn without_lnk(s: Seq<char>) -> Seq<char>
    decreases s.len(),
{
    if text_ends(s, ".lnk"@) && s.len() >= 4 {
        without_lnk(s.take(s.len() - 4))
    } else {
        s
    }
}

/// The name that is looked for.
pub open spec fn wanted_name(name: Seq<char>) -> Seq<char> {
    trimmed(without_lnk(trimmed(name)))
}

/// An entry names an application and says how to uninstall it.
pub open spec fn names_app(e: UninstallEntry, want: Seq<char>) -> bool {
    &&& ascii_lower(trimmed(e.display@)) == ascii_lower(want)
    &&& e.uninstall_string is Some || e.quiet_uninstall_string is Some
}

/// The name that is looked for.
fn wanted(name: &str) -> (r: String)
    ensures
        r@ == wanted_name(name@),
{
    let mut t = str_trim(name);
    let ghost goal = without_lnk(t@);
    while str_ends(t.as_str(), ".lnk")
        invariant
            without_lnk(t@) == goal,
        ensures
            t@ == goal,
        decreases t@.len(),
    {
        proof {
            reveal_strlit(".lnk");
        }
        let c = chars_of(t.as_str());
        let n: usize = c.len() - 4;
        let cut = string_of(&c.as_slice()[0..n]);
        assert(cut@ =~= t@.take(t@.len() - 4));
        t = cut;
    }
    str_trim(t.as_str())
}

/// The first entry that names an application. `entries` lists the entries in
/// the order in which they are trusted: those of the system before the user's.
pub fn find_uninstall_entry(app_name: &str, entries: &Vec<UninstallEntry>) -> (r: Option<usize>)
    ensures
        r is Some ==> wanted_name(app_name@).len() > 0 && r->0 < entries.len() && names_app(
            entries@[r->0 as int],
            wanted_name(app_name@),
        ) && forall|k: int|
            0 <= k < r->0 ==> !names_app(#[trigger] entries@[k], wanted_name(app_name@)),
        r is None ==> wanted_name(app_name@).len() == 0 || forall|k: int|
            0 <= k < entries.len() ==> !names_app(#[trigger] entries@[k], wanted_name(app_name@)),
{
    let want = wanted(app_name);
    if want.as_str().is_empty() {
        return None;
    }
    let low = str_ascii_lower(want.as_str());
    let mut i: usize = 0;
    while i < entries.len()
        invariant
            i <= entries.len(),
            want@ == wanted_name(app_name@),
            want@.len() > 0,
            low@ == ascii_lower(want@),
            forall|k: int| 0 <= k < i ==> !names_app(#[trigger] entries@[k], want@),
        decreases entries.len() - i,
    {
        let e = &entries[i];
        if str_eq(
            str_ascii_lower(str_trim(e.display.as_str()).as_str()).as_str(),
            low.as_str(),
        ) && (e.uninstall_string.is_some() || e.quiet_uninstall_string.is_some()) {
            return Some(i);
        }
        i = i + 1;
    }
    None
}

/// How an application is uninstalled.
pub enum Uninstall {
    /// The settings page of the applications is opened.
    Settings,
    /// Nothing is run: the command holds no program.
    Nothing,
    /// This program is run with these arguments.
    Run(String, String),
    /// The command is refused, in these words.
    Refused(String),
}

/// The command of an entry.
pub open spec fn command_of(e: UninstallEntry) -> Option<String> {
    if e.uninstall_string is Some {
        e.uninstall_string
    } else {
        e.quiet_uninstall_string
    }
}

/// `u` is how a command is run.
pub open spec fn runs_as(u: Uninstall, command: Option<String>) -> bool {
    match command {
        None => u is Settings,
        Some(line) => match command_parts(line@) {
            None => u is Nothing,
            Some((exe, args)) => if may_uninstall(exe) {
                u is Run && u->Run_0@ == exe && u->Run_1@ == args
            } else {
                u is Refused && u->Refused_0@ == "unsafe uninstall command: "@ + exe
            },
        },
    }
}

/// How an application is uninstalled: with the command of its entry, if that may
/// run, and without an entry on the settings page.
pub fn uninstall_app(name: &str, entries: &Vec<UninstallEntry>) -> (r: Uninstall)
    ensures
        match first_entry(name@, entries@) {
            Some(i) => runs_as(r, command_of(entries@[i])),
            None => r is Settings,
        },
{
    match find_uninstall_entry(name, entries) {
        None => {
            assert(first_entry(name@, entries@) is None) by {
                lemma_first_entry(name@, entries@);
            }
            Uninstall::Settings
        },
        Some(i) => {
            assert(first_entry(name@, entries@) == Some(i as int)) by {
                lemma_first_entry(name@, entries@);
            }
            let e = &entries[i];
            let line = match &e.uninstall_string {
                Some(u) => u.clone(),
                None => match &e.quiet_uninstall_string {
                    Some(q) => q.clone(),
                    None => {
                        return Uninstall::Settings;
                    },
                },
            };
            match split_uninstall_command(line.as_str()) {
                None => Uninstall::Nothing,
                Some((exe, args)) => {
                    if uninstall_exe_allowed(exe.as_str()) {
                        Uninstall::Run(exe, args)
                    } else {
                        let mut words = "unsafe uninstall command: ".to_owned();
                        words.push_str(exe.as_str());
                        Uninstall::Refused(words)
                    }
                },
            }
        },
    }
}

/// The first entry that names an application.
pub open spec fn first_entry(name: Seq<char>, entries: Seq<UninstallEntry>) -> Option<int> {
    let want = wanted_name(name);
    if want.len() == 0 || forall|k: int|
        0 <= k < entries.len() ==> !names_app(#[trigger] entries[k], want) {
        None
    } else {
        Some(
            choose|i: int|
                0 <= i < entries.len() && names_app(#[trigger] entries[i], want) && forall|k: int|
                    0 <= k < i ==> !names_app(#[trigger] entries[k], want),
        )
    }
}

proof fn lemma_first_entry(name: Seq<char>, entries: Seq<UninstallEntry>)
    ensures
        ({
            let want = wanted_name(name);
            forall|i: int|
                0 <= i < entries.len() && want.len() > 0 && names_app(#[trigger] entries[i], want)
                    && (forall|k: int| 0 <= k < i ==> !names_app(#[trigger] entries[k], want))
                    ==> first_entry(name, entries) == Some(i)
        }),
{
    let want = wanted_name(name);
    assert forall|i: int|
        0 <= i < entries.len() && want.len() > 0 && names_app(#[trigger] entries[i], want) && (
        forall|k: int|
            0 <= k < i ==> !names_app(#[trigger] entries[k], want)) implies first_entry(
        name,
        entries,
    ) == Some(i) by {
        let c = choose|i: int|
            0 <= i < entries.len() && names_app(#[trigger] entries[i], want) && forall|k: int|
                0 <= k < i ==> !names_app(#[trigger] entries[k], want);
        assert(c == i);
    }
}

/// No interpreter ever runs as an uninstaller.
pub proof fn law_interpreters_never_run(u: Uninstall, command: Option<String>, i: int)
    requires
        runs_as(u, command),
        u is Run,
        0 <= i < 8,
    ensures
        program_stem(u->Run_0@) != INTERPRETERS@[i]@,
{
    assert(may_uninstall(u->Run_0@));
}

/// What the preview shows of an application: the file behind it, and what its
/// entry says.
pub struct AppDetails {
    pub target: Option<String>,
    pub is_uwp: bool,
    pub publisher: Option<String>,
    pub version: Option<String>,
    pub uninstall_string: Option<String>,
}

/// A copy of an optional text.
fn same(o: &Option<String>) -> (r: Option<String>)
    ensures
        r == *o,
{
    match o {
        Some(s) => Some(s.clone()),
        None => None,
    }
}

/// What the preview shows of an application. `resolved` is the target of the
/// shortcut, where the path is one that could be resolved.
pub fn app_info(
    name: &str,
    path: &str,
    resolved: &Option<String>,
    entries: &Vec<UninstallEntry>,
) -> (r: AppDetails)
    ensures
        r.is_uwp == text_starts(path@, "aumid:"@),
        r.target is None <==> r.is_uwp,
        r.target is Some ==> r.target->0@ == if text_ends(lowercase(path@), ".lnk"@)
            && resolved is Some {
            resolved->0@
        } else {
            path@
        },
        match first_entry(name@, entries@) {
            Some(i) => {
                &&& r.publisher == entries@[i].publisher
                &&& r.version == entries@[i].version
                &&& r.uninstall_string == command_of(entries@[i])
            },
            None => r.publisher is None && r.version is None && r.uninstall_string is None,
        },
{
    let is_uwp = str_starts(path, "aumid:");
    let target = if is_uwp {
        None
    } else if str_ends(path.to_lowercase().as_str(), ".lnk") {
        match resolved {
            Some(t) => Some(t.clone()),
            None => Some(path.to_owned()),
        }
    } else {
        Some(path.to_owned())
    };
    proof {
        lemma_first_entry(name@, entries@);
    }
    match find_uninstall_entry(name, entries) {
        Some(i) => {
            assert(first_entry(name@, entries@) == Some(i as int));
            let e = &entries[i];
            let command = match &e.uninstall_string {
                Some(u) => Some(u.clone()),
                None => same(&e.quiet_uninstall_string),
            };
            AppDetails {
                target,
                is_uwp,
                publisher: same(&e.publisher),
                version: same(&e.version),
                uninstall_string: command,
            }
        },
        None => AppDetails {
            target,
            is_uwp,
            publisher: None,
            version: None,
            uninstall_string: None,
        },
    }
}

/// A command line in quotes is its program between them and the arguments behind
/// them; one without is its first word and what follows it. White space in front
/// of either does not count.
pub proof fn law_command_is_program_and_arguments(
    exe: Seq<char>,
    rest: Seq<char>,
    c: char,
)
    requires
        exe.len() > 0,
        is_space(c),
    ensures
        (forall|k: int| 0 <= k < exe.len() ==> #[trigger] exe[k] != '"') && exe.last() != '\\'
            ==> command_parts(seq!['"'] + exe + seq!['"'] + rest) == Some(
            (exe, trimmed_start(rest)),
        ),
        exe[0] != '"' && (forall|k: int|
            0 <= k < exe.len() ==> !is_space(#[trigger] exe[k])) ==> command_parts(
            exe.push(c) + rest,
        ) == Some((exe, trimmed_start(rest))),
        command_parts(seq![c] + rest) == command_parts(rest),
{
    let line = seq!['"'] + exe + seq!['"'] + rest;
    assert(!is_space('"'));
    if (forall|k: int| 0 <= k < exe.len() ==> #[trigger] exe[k] != '"') && exe.last() != '\\' {
        assert(line.subrange(1, 1 + exe.len() as int) =~= exe);
        lemma_quoted(line, exe, 1);
        assert(line.skip(exe.len() as int + 2) =~= rest);
    }
    if exe[0] != '"' && (forall|k: int|
        0 <= k < exe.len() ==> !is_space(#[trigger] exe[k])) {
        let plain = exe.push(c) + rest;
        assert(!is_space(exe[0]));
        assert(plain[0] == exe[0]);
        lemma_first_word(exe, c, rest);
        let n: int = exe.len() as int;
        assert(plain.take(n) =~= exe);
        assert(plain.skip(n) =~= seq![c] + rest);
        assert((seq![c] + rest).drop_first() =~= rest);
    }
    assert((seq![c] + rest).drop_first() =~= rest);
}

proof fn lemma_first_word(exe: Seq<char>, c: char, rest: Seq<char>)
    requires
        is_space(c),
        forall|k: int| 0 <= k < exe.len() ==> !is_space(#[trigger] exe[k]),
    ensures
        word_len(exe.push(c) + rest) == exe.len(),
    decreases exe.len(),
{
    let s = exe.push(c) + rest;
    if exe.len() > 0 {
        assert(!is_space(exe[0]));
        let t = exe.drop_first();
        assert(s.drop_first() =~= t.push(c) + rest);
        assert forall|k: int| 0 <= k < t.len() implies !is_space(#[trigger] t[k]) by {
            assert(t[k] == exe[k + 1]);
        }
        lemma_first_word(t, c, rest);
    }
}

proof fn lemma_quoted(line: Seq<char>, part: Seq<char>, i: int)
    requires
        1 <= i,
        i + part.len() < line.len(),
        line.subrange(i, i + part.len()) == part,
        line[i + part.len()] == '"',
        forall|k: int| 0 <= k < part.len() ==> #[trigger] part[k] != '"',
        part.len() > 0 ==> part.last() != '\\',
    ensures
        quoted(line, i) == (part, Some(i + part.len() + 1)),
    decreases part.len(),
{
    if part.len() > 0 {
        let t = part.drop_first();
        assert(line.subrange(i, i + part.len())[0] == line[i]);
        assert(line[i] == part[0]);
        if part.len() > 1 {
            assert(line.subrange(i, i + part.len())[1] == line[i + 1]);
            assert(line[i + 1] == part[1]);
        }
        assert(line.subrange(i + 1, i + 1 + t.len()) =~= t) by {
            assert forall|k: int| 0 <= k < t.len() implies line.subrange(i + 1, i + 1 + t.len())[k]
                == t[k] by {
                assert(line.subrange(i, i + part.len())[k + 1] == line[i + k + 1]);
            }
        }
        assert forall|k: int| 0 <= k < t.len() implies #[trigger] t[k] != '"' by {
            assert(t[k] == part[k + 1]);
        }
        lemma_quoted(line, t, i + 1);
        assert(seq![line[i]] + t =~= part);
    } else {
        assert(part =~= Seq::empty());
    }
}

/// The programs that never run as an uninstaller, and those that run only from a
/// folder: all but the installer of the system.
pub proof fn law_who_may_uninstall(exe: Seq<char>)
    ensures
        ({
            let stem = program_stem(exe);
            may_uninstall(exe) <==> {
                &&& stem != "cmd"@ && stem != "powershell"@ && stem != "pwsh"@ && stem != "wscript"@
                &&& stem != "cscript"@ && stem != "mshta"@ && stem != "rundll32"@
                &&& stem != "regsvr32"@
                &&& exe.contains('\\') || exe.contains('/') || stem == "msiexec"@
            }
        }),
{
    assert(INTERPRETERS@[0]@ == "cmd"@);
    assert(INTERPRETERS@[1]@ == "powershell"@);
    assert(INTERPRETERS@[2]@ == "pwsh"@);
    assert(INTERPRETERS@[3]@ == "wscript"@);
    assert(INTERPRETERS@[4]@ == "cscript"@);
    assert(INTERPRETERS@[5]@ == "mshta"@);
    assert(INTERPRETERS@[6]@ == "rundll32"@);
    assert(INTERPRETERS@[7]@ == "regsvr32"@);
}

/// The ending of a shortcut does not count in a name that is looked for, however
/// often it stands there.
pub proof fn law_shortcut_ending_does_not_count(s: Seq<char>)
    ensures
        without_lnk(s + ".lnk"@) == without_lnk(s),
        !text_ends(s, ".lnk"@) ==> without_lnk(s) == s,
{
    reveal_strlit(".lnk");
    let t = s + ".lnk"@;
    assert(t.subrange(t.len() - 4, t.len() as int) =~= ".lnk"@);
    assert(t.take(t.len() - 4) =~= s);
}

/// The entry that is uninstalled is the first one that names the application and
/// says how to uninstall it.
pub proof fn law_first_entry_counts(name: Seq<char>, entries: Seq<UninstallEntry>, k: int)
    requires
        0 <= k < entries.len(),
        wanted_name(name).len() > 0,
        ascii_lower(trimmed(entries[k].display@)) == ascii_lower(wanted_name(name)),
        entries[k].uninstall_string is Some || entries[k].quiet_uninstall_string is Some,
    ensures
        first_entry(name, entries) is Some,
        0 <= first_entry(name, entries)->0 <= k,
        ascii_lower(trimmed(entries[first_entry(name, entries)->0].display@)) == ascii_lower(
            wanted_name(name),
        ),
{
    let want = wanted_name(name);
    assert(names_app(entries[k], want));
    lemma_first_named(entries, want, k);
}

proof fn lemma_first_named(entries: Seq<UninstallEntry>, want: Seq<char>, k: int)
    requires
        0 <= k < entries.len(),
        names_app(entries[k], want),
    ensures
        exists|i: int|
            0 <= i <= k && names_app(#[trigger] entries[i], want) && forall|m: int|
                0 <= m < i ==> !names_app(#[trigger] entries[m], want),
    decreases k,
{
    if exists|m: int| 0 <= m < k && names_app(#[trigger] entries[m], want) {
        let m = choose|m: int| 0 <= m < k && names_app(#[trigger] entries[m], want);
        lemma_first_named(entries, want, m);
    } else {
        assert(names_app(entries[k], want));
    }
}

/// The command that shows its steps is taken before the quiet one.
pub proof fn law_which_command_is_taken(e: UninstallEntry)
    ensures
        e.uninstall_string is Some ==> command_of(e) == e.uninstall_string,
        e.uninstall_string is None ==> command_of(e) == e.quiet_uninstall_string,
{
}

} // verus!
