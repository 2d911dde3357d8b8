//! What holds of the pool of applications: how it is searched, how it is
//! gathered, and by which names its entries fall together.
use crate::apps::discover::{
    all_sources, pool_order, row_of, sorted_pool, tool_target, usable, Gathered, Shortcut,
};
use crate::apps::names::{
    arch_token, channel_token, compact, installer_junk, name_key, shell_junk,
    target_junk, telling, version_token, without_scope, SCOPE_ENDS, SHELL_STEMS,
};
use crate::apps::pool::{
    app_key, app_keys, first_copies, found_apps, found_rank, has_path, is_app_row, is_break,
    launchable, offered, shown_limit, shows_best, word_at, word_begins, AppEntry, UiResult, Usage,
};
use crate::apps::registry::{
    app_path_of, best_exe, exe_in, exe_of_icon, exe_of_uninstall, exe_score, has_extension,
    icon_path, icon_target, law_best_exe, program_of, uninstall_program, unquoted, Disk,
};
use crate::apps::targets::{
    case_score, entry_file, folder_path, has_capital, has_small, kept, known_folder, name_score,
    scope_score, stem_score,
};
use crate::apps::tools::TOOLS;
use crate::bytes::{lemma_lex_reflexive, lex_le};
use crate::env::Env;
use crate::index::apps::InstalledApp;
use crate::sort::{is_order, key_le, lemma_place, lemma_small};
use crate::text::{
    ascii_lower, ascii_small, find_text, has_text, is_ascii_letter, is_ascii_word, is_space,
    lemma_find_text, lowercase, text_at, text_ends, text_starts, trimmed, trimmed_end,
    trimmed_start, words,
};
use crate::text_laws::law_white_space_parts_words;
use crate::winpath::{file_stem, parent};
use vstd::prelude::*;
use vstd::utf8::*;

verus! {

/// A query finds an application: its lowercased name holds the query. An empty
/// query finds every one that is no page of the settings.
pub open spec fn is_found(app: AppEntry, q: Seq<char>) -> bool {
    if q.len() == 0 {
        !text_starts(app.name@, "Settings: "@)
    } else {
        has_text(lowercase(app.name@), q)
    }
}

/// How often an application was launched.
pub open spec fn launches(app: AppEntry, usage: Usage) -> int {
    usage.times(lowercase(app.path@)) as int
}

/// A row with this rank fits a query: 0 where the lowercased name is the query, 1
/// where it begins with it, 2 where a word of it does, 3 otherwise.
pub open spec fn rank_fits(app: AppEntry, q: Seq<char>, rank: u8) -> bool {
    let name = lowercase(app.name@);
    if q.len() == 0 {
        rank == 1
    } else {
        &&& rank == 0 <==> name == q
        &&& rank <= 1 <==> text_starts(name, q)
        &&& rank <= 2 <==> text_starts(name, q) || word_begins(name, q)
        &&& rank <= 3
    }
}

proof fn lemma_rank(app: AppEntry, q: Seq<char>)
    ensures
        found_rank(app, q) is Some <==> is_found(app, q),
        found_rank(app, q) is Some ==> rank_fits(app, q, found_rank(app, q)->0) && found_rank(
            app,
            q,
        )->0 <= 3,
{
    let name = lowercase(app.name@);
    if name == q {
        assert(name.subrange(0, q.len() as int) =~= q);
        assert(text_at(name, q, 0));
    }
    if text_starts(name, q) {
        assert(text_at(name, q, 0));
    }
    if word_begins(name, q) {
        let at = choose|at: int| #[trigger] word_at(name, at) && text_at(name, q, at);
        assert(text_at(name, q, at));
    }
}

proof fn lemma_found(apps: Seq<AppEntry>, q: Seq<char>, n: int)
    requires
        0 <= n <= apps.len(),
    ensures
        forall|k: int|
            0 <= k < found_apps(apps, q, n).len() ==> 0 <= #[trigger] found_apps(apps, q, n)[k] < n
                && found_rank(apps[found_apps(apps, q, n)[k]], q) is Some,
        forall|j: int, k: int|
            0 <= j < k < found_apps(apps, q, n).len() ==> #[trigger] found_apps(apps, q, n)[j]
                < #[trigger] found_apps(apps, q, n)[k],
        forall|i: int|
            0 <= i < n && found_rank(#[trigger] apps[i], q) is Some ==> found_apps(
                apps,
                q,
                n,
            ).contains(i),
    decreases n,
{
    if n > 0 {
        lemma_found(apps, q, n - 1);
        let was = found_apps(apps, q, n - 1);
        let now = found_apps(apps, q, n);
        assert forall|k: int| 0 <= k < now.len() implies 0 <= #[trigger] now[k] < n && found_rank(
            apps[now[k]],
            q,
        ) is Some by {
            if k < was.len() {
                assert(now[k] == was[k]);
            }
        }
        assert forall|j: int, k: int| 0 <= j < k < now.len() implies #[trigger] now[j]
            < #[trigger] now[k] by {
            assert(now[j] == was[j]);
            if k < was.len() {
                assert(now[k] == was[k]);
            }
        }
        assert forall|i: int|
            0 <= i < n && found_rank(#[trigger] apps[i], q) is Some implies now.contains(i) by {
            if i < n - 1 {
                assert(was.contains(i));
                let k = choose|k: int| 0 <= k < was.len() && was[k] == i;
                assert(now[k] == i);
            } else {
                assert(now[was.len() as int] == i);
            }
        }
    }
}

/// In the list of a query the first application may stand before the second: it
/// matches better, or equally well and was launched more often, or equally often
/// and its lowercased name comes first.
pub open spec fn may_precede(
    apps: Seq<AppEntry>,
    usage: Usage,
    i: int,
    ri: u8,
    j: int,
    rj: u8,
) -> bool {
    ||| ri < rj
    ||| ri == rj && launches(apps[i], usage) > launches(apps[j], usage)
    ||| ri == rj && launches(apps[i], usage) == launches(apps[j], usage) && lex_le(
        encode_utf8(lowercase(apps[i].name@)),
        encode_utf8(lowercase(apps[j].name@)),
    )
}

proof fn lemma_key_means(
    apps: Seq<AppEntry>,
    usage: Usage,
    q: Seq<char>,
    i: int,
    j: int,
)
    requires
        found_rank(apps[i], q) is Some,
        found_rank(apps[j], q) is Some,
        key_le(app_key(apps[i], usage, q), app_key(apps[j], usage, q)),
    ensures
        may_precede(apps, usage, i, found_rank(apps[i], q)->0, j, found_rank(apps[j], q)->0),
{
    lemma_rank(apps[i], q);
    lemma_rank(apps[j], q);
}

/// The row shows an application that the query finds.
pub open spec fn shows_found(app: AppEntry, q: Seq<char>, row: UiResult) -> bool {
    &&& is_found(app, q)
    &&& row.name@ == app.name@
    &&& row.path@ == app.path@
    &&& row.kind@ == "app"@
    &&& !row.is_dir
    &&& rank_fits(app, q, row.rank)
}

/// A search of the pool shows applications that the query finds, each once, 10 of
/// them at most, or 16 for an empty query. No row stands behind one that it must
/// precede: better matches come first, then what was launched more often, then
/// the names in their order. An application that is found is left out only where
/// the list is full, and must precede no row.
pub proof fn law_best_apps_come_first(
    r: Seq<UiResult>,
    apps: Seq<AppEntry>,
    usage: Usage,
    q: Seq<char>,
) -> (picks: Seq<int>)
    requires
        shows_best(r, apps, usage, q),
    ensures
        picks.len() == r.len(),
        r.len() <= if q.len() == 0 {
            16int
        } else {
            10int
        },
        forall|i: int|
            0 <= i < r.len() ==> 0 <= picks[i] < apps.len() && shows_found(
                apps[picks[i]],
                q,
                #[trigger] r[i],
            ),
        forall|i: int, j: int|
            0 <= i < j < r.len() ==> #[trigger] picks[i] != #[trigger] picks[j] && may_precede(
                apps,
                usage,
                picks[i],
                r[i].rank,
                picks[j],
                r[j].rank,
            ),
        forall|k: int|
            0 <= k < apps.len() && is_found(#[trigger] apps[k], q) && !picks.contains(k)
                ==> r.len() == (if q.len() == 0 {
                16int
            } else {
                10int
            }) && forall|i: int|
                0 <= i < r.len() ==> may_precede(
                    apps,
                    usage,
                    picks[i],
                    (#[trigger] r[i]).rank,
                    k,
                    found_rank(apps[k], q)->0,
                ),
{
    let n = apps.len() as int;
    let found = found_apps(apps, q, n);
    let keys = app_keys(apps, usage, q);
    let order = choose|order: Seq<usize>|
        {
            &&& #[trigger] is_order(order, app_keys(apps, usage, q))
            &&& r.len() == if found.len() < shown_limit(q) {
                found.len() as int
            } else {
                shown_limit(q)
            }
            &&& forall|i: int|
                0 <= i < r.len() ==> {
                    let app = apps[found[order[i] as int]];
                    is_app_row(#[trigger] r[i], app, found_rank(app, q)->0)
                }
        };
    lemma_found(apps, q, n);
    let picks = Seq::new(r.len(), |i: int| found[order[i] as int]);
    assert(keys.len() == found.len());
    assert forall|i: int| 0 <= i < r.len() implies 0 <= picks[i] < apps.len() && shows_found(
        apps[picks[i]],
        q,
        #[trigger] r[i],
    ) && r[i].rank == found_rank(apps[picks[i]], q)->0 by {
        assert(order[i] < keys.len());
        let app = apps[found[order[i] as int]];
        assert(is_app_row(r[i], app, found_rank(app, q)->0));
        lemma_rank(app, q);
    }
    assert forall|i: int, j: int| 0 <= i < j < r.len() implies #[trigger] picks[i]
        != #[trigger] picks[j] && may_precede(
        apps,
        usage,
        picks[i],
        r[i].rank,
        picks[j],
        r[j].rank,
    ) by {
        assert(order[i] < keys.len() && order[j] < keys.len());
        assert(order[i] != order[j]);
        let (a, b) = (order[i] as int, order[j] as int);
        if a < b {
            assert(found[a] < found[b]);
        } else {
            assert(found[b] < found[a]);
        }
        assert(key_le(keys[a], keys[b]));
        assert(r[i].rank == found_rank(apps[picks[i]], q)->0);
        assert(r[j].rank == found_rank(apps[picks[j]], q)->0);
        lemma_key_means(apps, usage, q, found[a], found[b]);
    }
    assert forall|k: int|
        0 <= k < apps.len() && is_found(#[trigger] apps[k], q) && !picks.contains(k) implies r.len()
        == shown_limit(q) && forall|i: int|
        0 <= i < r.len() ==> may_precede(
            apps,
            usage,
            picks[i],
            (#[trigger] r[i]).rank,
            k,
            found_rank(apps[k], q)->0,
        ) by {
        lemma_rank(apps[k], q);
        assert(found.contains(k));
        let f = choose|f: int| 0 <= f < found.len() && found[f] == k;
        lemma_small(order);
        let at = lemma_place(order, keys, f as usize);
        if at < r.len() {
            assert(picks[at] == k);
        }
        assert forall|i: int| 0 <= i < r.len() implies may_precede(
            apps,
            usage,
            picks[i],
            (#[trigger] r[i]).rank,
            k,
            found_rank(apps[k], q)->0,
        ) by {
            let a = order[i] as int;
            assert(order[i] < keys.len());
            assert(order[i] != order[at]);
            assert(key_le(keys[a], keys[f]));
            lemma_key_means(apps, usage, q, found[a], k);
        }
    }
    picks
}

/// A word of a name begins at its start and behind a space, a hyphen, an
/// underscore, a dot or an opening bracket; nowhere else.
pub proof fn law_words_of_a_name(a: Seq<char>, c: char, q: Seq<char>, b: Seq<char>, s: Seq<char>)
    requires
        forall|i: int|
            0 <= i < q.len() ==> #[trigger] q[i] != ' ' && q[i] != '-' && q[i] != '_' && q[i] != '.'
                && q[i] != '(' && q[i] != '[',
    ensures
        c == ' ' || c == '-' || c == '_' || c == '.' || c == '(' || c == '[' ==> word_begins(
            a.push(c) + q + b,
            q,
        ),
        word_begins(q + b, q),
        word_begins(s, q) ==> exists|at: int|
            0 <= at <= s.len() - q.len() && #[trigger] s.subrange(at, at + q.len()) == q && (at == 0
                || s[at - 1] == ' ' || s[at - 1] == '-' || s[at - 1] == '_' || s[at - 1] == '.'
                || s[at - 1] == '(' || s[at - 1] == '['),
{
    let whole = a.push(c) + q + b;
    let at: int = a.len() as int + 1;
    assert(whole.subrange(at, at + q.len()) =~= q);
    assert(whole[at - 1] == c);
    if is_break(c) {
        assert(word_at(whole, at) && text_at(whole, q, at));
    }
    assert((q + b).subrange(0, q.len() as int) =~= q);
    assert(word_at(q + b, 0) && text_at(q + b, q, 0));
    if word_begins(s, q) {
        let w = choose|w: int| #[trigger] word_at(s, w) && text_at(s, q, w);
        assert(s.subrange(w, w + q.len()) == q);
    }
}

/// The launcher offers a path on a drive, but no device. What is neither on a
/// drive, nor on a share, nor of the shell's own is not offered.
pub proof fn law_what_may_be_offered(path: Seq<char>)
    ensures
        ({
            let p = trimmed(path);
            let on_drive = p.len() >= 3 && is_ascii_letter(p[0]) && p[1] == ':' && (p[2] == '\\'
                || p[2] == '/');
            &&& on_drive ==> launchable(path)
            &&& text_starts(p, "\\\\.\\"@) || text_starts(p, "\\\\?\\"@) ==> !launchable(path)
            &&& launchable(path) && !on_drive ==> text_starts(p, "\\\\"@) || text_starts(
                p,
                "aumid:"@,
            ) || text_starts(p, "ms-"@) || text_starts(p, "shell:::"@)
            &&& p.len() == 0 ==> !launchable(path)
        }),
{
    let p = trimmed(path);
    reveal_strlit("\\\\.\\");
    reveal_strlit("\\\\?\\");
    reveal_strlit("\\\\");
    reveal_strlit("aumid:");
    reveal_strlit("ms-");
    reveal_strlit("shell:::");
    if text_starts(p, "\\\\.\\"@) {
        lemma_first(p, "\\\\.\\"@);
    }
    if text_starts(p, "\\\\?\\"@) {
        lemma_first(p, "\\\\?\\"@);
    }
    if text_starts(p, "aumid:"@) {
        lemma_first(p, "aumid:"@);
    }
    if text_starts(p, "ms-"@) {
        lemma_first(p, "ms-"@);
    }
    if text_starts(p, "shell:::"@) {
        lemma_first(p, "shell:::"@);
    }
}

proof fn lemma_first(p: Seq<char>, q: Seq<char>)
    requires
        text_starts(p, q),
        q.len() > 0,
    ensures
        p.len() >= q.len(),
        p[0] == q[0],
{
    assert(p.subrange(0, q.len() as int)[0] == p[0]);
}

/// The executable of a folder that is taken for an application: one with the
/// application's name where there is one, else one whose name and the
/// application's begin alike; the first of these. Nothing else is taken.
pub proof fn law_executable_fits_the_name(disk: Disk, dir: Seq<char>, name: Seq<char>, k: int)
    requires
        disk.files_in(dir) is Some,
        0 <= k < disk.files_in(dir)->0.len(),
    ensures
        ({
            let file = disk.files_in(dir)->0[k];
            let exe = exe_in(disk, dir, name);
            &&& has_extension(file, "exe"@) && bears_name(file, name) ==> exe is Some && bears_name(
                exe->0,
                name,
            )
            &&& has_extension(file, "exe"@) && begins_alike(file, name) ==> exe is Some
            &&& exe is Some ==> has_extension(exe->0, "exe"@) && begins_alike(exe->0, name)
                && disk.files_in(dir)->0.contains(exe->0)
        }),
{
    let files = disk.files_in(dir)->0;
    law_best_exe(files, name, files.len() as int, k);
    match best_exe(files, name, files.len() as int) {
        Some(i) => {
            lemma_alike(files[i], name);
            assert(files.contains(files[i]));
        },
        None => {},
    }
    lemma_alike(files[k], name);
}

/// The stem of a file is the name, but for case.
pub open spec fn bears_name(file: Seq<char>, name: Seq<char>) -> bool {
    lowercase(file_stem(file)->0) == lowercase(name)
}

/// The stem of a file begins with the name, or the name with it, but for case.
pub open spec fn begins_alike(file: Seq<char>, name: Seq<char>) -> bool {
    text_starts(lowercase(file_stem(file)->0), lowercase(name)) || text_starts(
        lowercase(name),
        lowercase(file_stem(file)->0),
    )
}

proof fn lemma_alike(file: Seq<char>, name: Seq<char>)
    ensures
        bears_name(file, name) ==> begins_alike(file, name),
        exe_score(file, name) > 0 <==> has_extension(file, "exe"@) && begins_alike(file, name),
        exe_score(file, name) >= 100 <==> has_extension(file, "exe"@) && bears_name(file, name),
{
    if bears_name(file, name) {
        let n = lowercase(name);
        assert(n.subrange(0, n.len() as int) =~= n);
    }
}

/// The compact form of a text: of two texts it is that of the first and that of
/// the second. An ASCII letter or digit stays, a capital as a small letter;
/// anything else goes.
pub proof fn law_compact_form(a: Seq<char>, b: Seq<char>, c: char)
    ensures
        compact(a + b) == compact(a) + compact(b),
        'a' <= c <= 'z' || '0' <= c <= '9' ==> compact(seq![c]) == seq![c],
        'A' <= c <= 'Z' ==> compact(seq![c]) == seq![(c as u8 + 32) as char],
        !('a' <= c <= 'z' || '0' <= c <= '9' || 'A' <= c <= 'Z') ==> compact(seq![c]).len() == 0,
    decreases b.len(),
{
    reveal_with_fuel(compact, 2);
    assert(seq![c].drop_last() =~= Seq::empty());
    if is_ascii_word(c) {
        assert(compact(seq![c]) =~= seq![ascii_small(c)]);
    }
    if b.len() == 0 {
        assert(a + b =~= a);
        assert(compact(a) + compact(b) =~= compact(a));
    } else {
        law_compact_form(a, b.drop_last(), c);
        assert((a + b).drop_last() =~= a + b.drop_last());
        assert(compact(a + b) =~= compact(a) + compact(b));
    }
}

/// Words that tell no products apart do not count at the end of a name: a hyphen,
/// `stable`, `browser`, a version, and an architecture behind a version. Any other
/// word at the end counts, and so do all before it.
pub proof fn law_last_words_do_not_count(toks: Seq<Seq<char>>, t: Seq<char>, v: Seq<char>)
    ensures
        ({
            let n = telling(toks, toks.len());
            let low = lowercase(t);
            &&& low == "-"@ || low == "stable"@ || low == "browser"@ || version_token(t)
                ==> telling(toks.push(t), toks.len() + 1) == n
            &&& version_token(v) && arch_token(low) && !channel_token(t) ==> telling(
                toks.push(v).push(t),
                toks.len() + 2,
            ) == n
            &&& !channel_token(t) && !arch_token(low) ==> telling(toks.push(t), toks.len() + 1)
                == toks.len() + 1
        }),
{
    let one = toks.push(t);
    let two = toks.push(v).push(t);
    lemma_telling_front(toks, one, toks.len());
    lemma_telling_front(toks, two, toks.len());
    assert(one[toks.len() as int] == t);
    assert(two[toks.len() as int + 1] == t);
    assert(two[toks.len() as int] == v);
}

proof fn lemma_telling_front(a: Seq<Seq<char>>, b: Seq<Seq<char>>, n: nat)
    requires
        n <= a.len() <= b.len(),
        forall|k: int| 0 <= k < n ==> #[trigger] a[k] == b[k],
    ensures
        telling(a, n) == telling(b, n),
    decreases n,
{
    if n > 0 {
        assert(a[n - 1] == b[n - 1]);
        lemma_telling_front(a, b, (n - 1) as nat);
        if n >= 2 {
            assert(a[n - 2] == b[n - 2]);
            lemma_telling_front(a, b, (n - 2) as nat);
        }
    }
}

/// The name of each application that a source tells of is in the pool, or another
/// that falls together with it: entries of the shell and shortcuts that are no
/// noise, and installed applications with an executable.
pub proof fn law_every_source_is_heard(
    shell: Seq<AppEntry>,
    shortcuts: Seq<Shortcut>,
    installed: Seq<InstalledApp>,
    disk: Disk,
    present: Seq<bool>,
    env: Env,
    i: int,
)
    ensures
        ({
            let taken = all_sources(shell, shortcuts, installed, disk, present, env).taken;
            &&& 0 <= i < shell.len() && !shell_junk(shell[i].name@, shell[i].path@)
                ==> taken.contains(name_key(shell[i].name@))
            &&& 0 <= i < shortcuts.len() && trimmed(shortcuts[i].stem@).len() > 0 && !shell_junk(
                trimmed(shortcuts[i].stem@),
                Seq::empty(),
            ) && !(shortcuts[i].target is Some && target_junk(shortcuts[i].target->0@))
                ==> taken.contains(name_key(trimmed(shortcuts[i].stem@)))
            &&& 0 <= i < installed.len() && app_path_of(installed[i], env, disk) is Some
                && !installer_junk(app_path_of(installed[i], env, disk)->0) ==> taken.contains(
                name_key(installed[i].name@),
            )
        }),
{
    let a = Gathered::shell(shell, shell.len() as int);
    let b = a.shortcuts(shortcuts, shortcuts.len() as int);
    let c = b.installed(installed, env, disk, installed.len() as int);
    if 0 <= i < shell.len() {
        lemma_shell_taken(shell, shell.len() as int, i);
    }
    if 0 <= i < shortcuts.len() {
        lemma_shortcut_taken(a, shortcuts, shortcuts.len() as int, i);
    }
    if 0 <= i < installed.len() {
        lemma_installed_taken(b, installed, env, disk, installed.len() as int, i);
    }
    let k1 = name_key(shell[i].name@);
    let k2 = name_key(trimmed(shortcuts[i].stem@));
    let k3 = name_key(installed[i].name@);
    lemma_shortcuts_keep(a, shortcuts, shortcuts.len() as int, k1);
    lemma_installed_keep(b, installed, env, disk, installed.len() as int, k1);
    lemma_installed_keep(b, installed, env, disk, installed.len() as int, k2);
    lemma_tools_keep(c, env, present, 88, k1);
    lemma_tools_keep(c, env, present, 88, k2);
    lemma_tools_keep(c, env, present, 88, k3);
}

proof fn lemma_with_takes(g: Gathered, row: (Seq<char>, Seq<char>, Option<Seq<char>>), k: Seq<char>)
    ensures
        g.with(row).taken.contains(name_key(row.0)),
        g.taken.contains(k) ==> g.with(row).taken.contains(k),
{
    let key = name_key(row.0);
    if !g.taken.contains(key) {
        let t = g.taken.push(key);
        assert(t[g.taken.len() as int] == key);
        if g.taken.contains(k) {
            let i = choose|i: int| 0 <= i < g.taken.len() && g.taken[i] == k;
            assert(t[i] == k);
        }
    }
}

proof fn lemma_shell_taken(shell: Seq<AppEntry>, n: int, i: int)
    requires
        0 <= i < n <= shell.len(),
    ensures
        !shell_junk(shell[i].name@, shell[i].path@) ==> Gathered::shell(shell, n).taken.contains(
            name_key(shell[i].name@),
        ),
    decreases n,
{
    let g = Gathered::shell(shell, n - 1);
    lemma_with_takes(g, row_of(shell[n - 1]), name_key(shell[i].name@));
    if i < n - 1 {
        lemma_shell_taken(shell, n - 1, i);
    }
}

proof fn lemma_shortcut_taken(g: Gathered, found: Seq<Shortcut>, n: int, i: int)
    requires
        0 <= i < n <= found.len(),
    ensures
        trimmed(found[i].stem@).len() > 0 && !shell_junk(trimmed(found[i].stem@), Seq::empty()) && !(
        found[i].target is Some && target_junk(found[i].target->0@)) ==> g.shortcuts(
            found,
            n,
        ).taken.contains(name_key(trimmed(found[i].stem@))),
    decreases n,
{
    let s = found[n - 1];
    lemma_with_takes(
        g.shortcuts(found, n - 1),
        (trimmed(s.stem@), s.path@, None),
        name_key(trimmed(found[i].stem@)),
    );
    if i < n - 1 {
        lemma_shortcut_taken(g, found, n - 1, i);
    }
}

proof fn lemma_installed_taken(
    g: Gathered,
    apps: Seq<InstalledApp>,
    env: Env,
    disk: Disk,
    n: int,
    i: int,
)
    requires
        0 <= i < n <= apps.len(),
    ensures
        app_path_of(apps[i], env, disk) is Some && !installer_junk(
            app_path_of(apps[i], env, disk)->0,
        ) ==> g.installed(apps, env, disk, n).taken.contains(name_key(apps[i].name@)),
    decreases n,
{
    match app_path_of(apps[n - 1], env, disk) {
        Some(p) => {
            lemma_with_takes(
                g.installed(apps, env, disk, n - 1),
                (apps[n - 1].name@, p, None),
                name_key(apps[i].name@),
            );
        },
        None => {},
    }
    if i < n - 1 {
        lemma_installed_taken(g, apps, env, disk, n - 1, i);
    }
}

proof fn lemma_shortcuts_keep(g: Gathered, found: Seq<Shortcut>, n: int, k: Seq<char>)
    ensures
        g.taken.contains(k) ==> g.shortcuts(found, n).taken.contains(k),
    decreases n,
{
    if n > 0 {
        lemma_shortcuts_keep(g, found, n - 1, k);
        let s = found[n - 1];
        lemma_with_takes(g.shortcuts(found, n - 1), (trimmed(s.stem@), s.path@, None), k);
    }
}

proof fn lemma_installed_keep(
    g: Gathered,
    apps: Seq<InstalledApp>,
    env: Env,
    disk: Disk,
    n: int,
    k: Seq<char>,
)
    ensures
        g.taken.contains(k) ==> g.installed(apps, env, disk, n).taken.contains(k),
    decreases n,
{
    if n > 0 {
        lemma_installed_keep(g, apps, env, disk, n - 1, k);
        match app_path_of(apps[n - 1], env, disk) {
            Some(p) => {
                lemma_with_takes(
                    g.installed(apps, env, disk, n - 1),
                    (apps[n - 1].name@, p, None),
                    k,
                );
            },
            None => {},
        }
    }
}

proof fn lemma_tools_keep(g: Gathered, env: Env, present: Seq<bool>, n: int, k: Seq<char>)
    ensures
        g.taken.contains(k) ==> g.tools(env, present, n).taken.contains(k),
    decreases n,
{
    if n > 0 {
        lemma_tools_keep(g, env, present, n - 1, k);
        lemma_with_takes(
            g.tools(env, present, n - 1),
            (TOOLS@[n - 1].0@, tool_target(n - 1, env), None),
            k,
        );
    }
}

/// A row that a source brings: an entry of the shell as it is, a shortcut under
/// its trimmed stem, an installed application with its executable, or a tool of
/// the system that can be used.
pub open spec fn comes_from_a_source(
    row: (Seq<char>, Seq<char>, Option<Seq<char>>),
    shell: Seq<AppEntry>,
    shortcuts: Seq<Shortcut>,
    installed: Seq<InstalledApp>,
    disk: Disk,
    present: Seq<bool>,
    env: Env,
) -> bool {
    ||| exists|i: int|
        0 <= i < shell.len() && row.0 == (#[trigger] shell[i]).name@ && row.1 == shell[i].path@
            && !shell_junk(row.0, row.1)
    ||| exists|i: int|
        0 <= i < shortcuts.len() && row.0 == trimmed((#[trigger] shortcuts[i]).stem@) && row.1
            == shortcuts[i].path@ && row.0.len() > 0 && !shell_junk(row.0, Seq::empty()) && !(
        shortcuts[i].target is Some && target_junk(shortcuts[i].target->0@))
    ||| exists|i: int|
        0 <= i < installed.len() && row.0 == (#[trigger] installed[i]).name@ && Some(row.1)
            == app_path_of(installed[i], env, disk) && !installer_junk(row.1)
    ||| exists|i: int|
        0 <= i < 88 && row.0 == (#[trigger] TOOLS@[i]).0@ && row.1 == tool_target(i, env) && (
        present[i] || text_starts(row.1, "ms-settings:"@) || text_starts(row.1, "shell:::{"@))
}

/// Each row of the pool comes from a source that is no noise.
pub proof fn law_rows_come_from_sources(
    shell: Seq<AppEntry>,
    shortcuts: Seq<Shortcut>,
    installed: Seq<InstalledApp>,
    disk: Disk,
    present: Seq<bool>,
    env: Env,
    k: int,
)
    requires
        0 <= k < all_sources(shell, shortcuts, installed, disk, present, env).rows.len(),
    ensures
        comes_from_a_source(
            all_sources(shell, shortcuts, installed, disk, present, env).rows[k],
            shell,
            shortcuts,
            installed,
            disk,
            present,
            env,
        ),
{
    let a = Gathered::shell(shell, shell.len() as int);
    let b = a.shortcuts(shortcuts, shortcuts.len() as int);
    let c = b.installed(installed, env, disk, installed.len() as int);
    lemma_shell_rows(shell, shortcuts, installed, disk, present, env, shell.len() as int);
    lemma_shortcut_rows(
        a,
        shell,
        shortcuts,
        installed,
        disk,
        present,
        env,
        shortcuts.len() as int,
    );
    lemma_installed_rows(
        b,
        shell,
        shortcuts,
        installed,
        disk,
        present,
        env,
        installed.len() as int,
    );
    lemma_tool_rows(c, shell, shortcuts, installed, disk, present, env, 88);
}

/// Every row of a gathered pool comes from a source.
spec fn all_come(
    g: Gathered,
    shell: Seq<AppEntry>,
    shortcuts: Seq<Shortcut>,
    installed: Seq<InstalledApp>,
    disk: Disk,
    present: Seq<bool>,
    env: Env,
) -> bool {
    forall|k: int|
        0 <= k < g.rows.len() ==> comes_from_a_source(
            #[trigger] g.rows[k],
            shell,
            shortcuts,
            installed,
            disk,
            present,
            env,
        )
}

proof fn lemma_shell_rows(
    shell: Seq<AppEntry>,
    shortcuts: Seq<Shortcut>,
    installed: Seq<InstalledApp>,
    disk: Disk,
    present: Seq<bool>,
    env: Env,
    n: int,
)
    requires
        n <= shell.len(),
    ensures
        all_come(Gathered::shell(shell, n), shell, shortcuts, installed, disk, present, env),
    decreases n,
{
    if n > 0 {
        lemma_shell_rows(shell, shortcuts, installed, disk, present, env, n - 1);
        let g = Gathered::shell(shell, n - 1);
        let row = row_of(shell[n - 1]);
        if !shell_junk(shell[n - 1].name@, shell[n - 1].path@) {
            assert(comes_from_a_source(row, shell, shortcuts, installed, disk, present, env));
            assert forall|k: int| 0 <= k < g.with(row).rows.len() implies comes_from_a_source(
                #[trigger] g.with(row).rows[k],
                shell,
                shortcuts,
                installed,
                disk,
                present,
                env,
            ) by {
                if k < g.rows.len() {
                    assert(g.with(row).rows[k] == g.rows[k]);
                }
            }
        }
    }
}

proof fn lemma_shortcut_rows(
    g0: Gathered,
    shell: Seq<AppEntry>,
    shortcuts: Seq<Shortcut>,
    installed: Seq<InstalledApp>,
    disk: Disk,
    present: Seq<bool>,
    env: Env,
    n: int,
)
    requires
        n <= shortcuts.len(),
        all_come(g0, shell, shortcuts, installed, disk, present, env),
    ensures
        all_come(g0.shortcuts(shortcuts, n), shell, shortcuts, installed, disk, present, env),
    decreases n,
{
    if n > 0 {
        lemma_shortcut_rows(g0, shell, shortcuts, installed, disk, present, env, n - 1);
        let g = g0.shortcuts(shortcuts, n - 1);
        let s = shortcuts[n - 1];
        let name = trimmed(s.stem@);
        let row = (name, s.path@, None::<Seq<char>>);
        if !(name.len() == 0 || shell_junk(name, Seq::empty()) || (s.target is Some && target_junk(
            s.target->0@,
        ))) {
            assert(comes_from_a_source(row, shell, shortcuts, installed, disk, present, env));
            assert forall|k: int| 0 <= k < g.with(row).rows.len() implies comes_from_a_source(
                #[trigger] g.with(row).rows[k],
                shell,
                shortcuts,
                installed,
                disk,
                present,
                env,
            ) by {
                if k < g.rows.len() {
                    assert(g.with(row).rows[k] == g.rows[k]);
                }
            }
        }
    }
}

proof fn lemma_installed_rows(
    g0: Gathered,
    shell: Seq<AppEntry>,
    shortcuts: Seq<Shortcut>,
    installed: Seq<InstalledApp>,
    disk: Disk,
    present: Seq<bool>,
    env: Env,
    n: int,
)
    requires
        n <= installed.len(),
        all_come(g0, shell, shortcuts, installed, disk, present, env),
    ensures
        all_come(
            g0.installed(installed, env, disk, n),
            shell,
            shortcuts,
            installed,
            disk,
            present,
            env,
        ),
    decreases n,
{
    if n > 0 {
        lemma_installed_rows(g0, shell, shortcuts, installed, disk, present, env, n - 1);
        let g = g0.installed(installed, env, disk, n - 1);
        match app_path_of(installed[n - 1], env, disk) {
            Some(p) => {
                let row = (installed[n - 1].name@, p, None::<Seq<char>>);
                if !installer_junk(p) {
                    assert(comes_from_a_source(
                        row,
                        shell,
                        shortcuts,
                        installed,
                        disk,
                        present,
                        env,
                    ));
                    assert forall|k: int|
                        0 <= k < g.with(row).rows.len() implies comes_from_a_source(
                        #[trigger] g.with(row).rows[k],
                        shell,
                        shortcuts,
                        installed,
                        disk,
                        present,
                        env,
                    ) by {
                        if k < g.rows.len() {
                            assert(g.with(row).rows[k] == g.rows[k]);
                        }
                    }
                }
            },
            None => {},
        }
    }
}

proof fn lemma_tool_rows(
    g0: Gathered,
    shell: Seq<AppEntry>,
    shortcuts: Seq<Shortcut>,
    installed: Seq<InstalledApp>,
    disk: Disk,
    present: Seq<bool>,
    env: Env,
    n: int,
)
    requires
        n <= 88,
        all_come(g0, shell, shortcuts, installed, disk, present, env),
    ensures
        all_come(g0.tools(env, present, n), shell, shortcuts, installed, disk, present, env),
    decreases n,
{
    if n > 0 {
        lemma_tool_rows(g0, shell, shortcuts, installed, disk, present, env, n - 1);
        let g = g0.tools(env, present, n - 1);
        let target = tool_target(n - 1, env);
        let row = (TOOLS@[n - 1].0@, target, None::<Seq<char>>);
        if usable(target, present[n - 1]) {
            assert(comes_from_a_source(row, shell, shortcuts, installed, disk, present, env)) by {
                assert(row.0 == TOOLS@[n - 1].0@);
            }
            assert forall|k: int| 0 <= k < g.with(row).rows.len() implies comes_from_a_source(
                #[trigger] g.with(row).rows[k],
                shell,
                shortcuts,
                installed,
                disk,
                present,
                env,
            ) by {
                if k < g.rows.len() {
                    assert(g.with(row).rows[k] == g.rows[k]);
                }
            }
        }
    }
}

/// The pool in its order holds the entries that it was made from, each once, by
/// their lowercased names; equal names stay in their order.
pub proof fn law_pool_is_in_the_order_of_names(r: Seq<AppEntry>, apps: Seq<AppEntry>) -> (picks: Seq<
    int,
>)
    requires
        sorted_pool(r, apps),
    ensures
        picks.len() == r.len(),
        r.len() == apps.len(),
        forall|i: int|
            0 <= i < r.len() ==> 0 <= picks[i] < apps.len() && #[trigger] r[i] == apps[picks[i]],
        forall|k: int| 0 <= k < apps.len() ==> #[trigger] picks.contains(k),
        forall|i: int, j: int|
            0 <= i < j < r.len() ==> {
                let a = encode_utf8(lowercase(r[i].name@));
                let b = encode_utf8(lowercase(r[j].name@));
                &&& #[trigger] picks[i] != #[trigger] picks[j]
                &&& lex_le(a, b)
                &&& a == b ==> picks[i] < picks[j]
            },
{
    let keys = pool_order(apps);
    let order = choose|order: Seq<usize>|
        {
            &&& #[trigger] is_order(order, pool_order(apps))
            &&& r.len() == apps.len()
            &&& forall|i: int| 0 <= i < r.len() ==> (#[trigger] r[i]) == apps[order[i] as int]
        };
    let picks = Seq::new(r.len(), |i: int| order[i] as int);
    assert forall|i: int| 0 <= i < r.len() implies 0 <= picks[i] < apps.len() && #[trigger] r[i]
        == apps[picks[i]] by {
        assert(order[i] < keys.len());
    }
    lemma_small(order);
    assert forall|k: int| 0 <= k < apps.len() implies #[trigger] picks.contains(k) by {
        let at = lemma_place(order, keys, k as usize);
        assert(picks[at] == k);
    }
    assert forall|i: int, j: int| 0 <= i < j < r.len() implies {
        let a = encode_utf8(lowercase(r[i].name@));
        let b = encode_utf8(lowercase(r[j].name@));
        &&& #[trigger] picks[i] != #[trigger] picks[j]
        &&& lex_le(a, b)
        &&& a == b ==> picks[i] < picks[j]
    } by {
        assert(order[i] < keys.len() && order[j] < keys.len());
        let (x, y) = (order[i] as int, order[j] as int);
        assert(order[i] != order[j]);
        assert(r[i] == apps[x] && r[j] == apps[y]);
        assert(key_le(keys[x], keys[y]));
        lemma_lex_reflexive(keys[x].1);
    }
    picks
}

/// Which of two names for one target is better: of names of one length, whose
/// paths are both shortcuts or both not, one with capitals and small letters is
/// better than one in small letters, and that than one in capitals; one that says
/// for whom it was installed is worse; the name of the executable itself is worse
/// than any other, and one with a space is better than one without.
pub proof fn law_which_name_is_better(
    a: AppEntry,
    b: AppEntry,
    exe: Option<Seq<char>>,
)
    requires
        a.name@.len() == b.name@.len(),
        text_ends(lowercase(a.path@), ".lnk"@) == text_ends(lowercase(b.path@), ".lnk"@),
    ensures
        ({
            let same_scope = scope_score(a.name@) == scope_score(b.name@);
            let same_stem = stem_score(a.name@, exe) == stem_score(b.name@, exe);
            let same_case = case_score(a.name@) == case_score(b.name@);
            let better = name_score(a, exe) > name_score(b, exe);
            &&& same_scope && same_stem && has_capital(a.name@) && has_small(a.name@) && !(
            has_capital(b.name@) && has_small(b.name@)) ==> better
            &&& same_scope && same_stem && !has_capital(a.name@) && has_capital(b.name@)
                && !has_small(b.name@) ==> better
            &&& same_case && same_stem && has_text(lowercase(b.name@), "(user)"@) && !has_text(
                lowercase(a.name@),
                "(user)"@,
            ) && !has_text(lowercase(a.name@), "- user"@) && !text_ends(
                lowercase(a.name@),
                " user"@,
            ) ==> better
            &&& same_case && same_scope && exe is Some && file_stem(exe->0) is Some && compact(
                b.name@,
            ) == lowercase(file_stem(exe->0)->0) && compact(a.name@) != lowercase(
                file_stem(exe->0)->0,
            ) ==> better
            &&& same_case && same_scope && exe is Some && file_stem(exe->0) is Some && compact(
                a.name@,
            ) != lowercase(file_stem(exe->0)->0) && a.name@.contains(' ') && !b.name@.contains(' ')
                ==> better
        }),
{
}

/// A longer name is worse, by one for each eight characters; a shortcut is better
/// than another path, by two.
pub proof fn law_short_names_and_shortcuts_are_better(a: AppEntry, b: AppEntry, exe: Option<
    Seq<char>,
>)
    requires
        case_score(a.name@) == case_score(b.name@),
        scope_score(a.name@) == scope_score(b.name@),
        stem_score(a.name@, exe) == stem_score(b.name@, exe),
    ensures
        ({
            let la = text_ends(lowercase(a.path@), ".lnk"@);
            let lb = text_ends(lowercase(b.path@), ".lnk"@);
            &&& la == lb && a.name@.len() + 8 <= b.name@.len() ==> name_score(a, exe) > name_score(
                b,
                exe,
            )
            &&& a.name@.len() == b.name@.len() && la && !lb ==> name_score(a, exe) == name_score(
                b,
                exe,
            ) + 2
        }),
{
    let (x, y) = (a.name@.len() as int, b.name@.len() as int);
    if x + 8 <= y {
        assert((x + 8) / 8 == x / 8 + 1);
        assert(y / 8 >= (x + 8) / 8);
    }
}

/// The entries of a pool that are kept stay in their order, and no other does.
pub proof fn law_kept_entries_stay(apps: Seq<AppEntry>, keep: Seq<bool>, e: AppEntry)
    requires
        keep.len() >= apps.len(),
    ensures
        kept(apps, keep).contains(e) <==> exists|i: int|
            0 <= i < apps.len() && keep[i] && #[trigger] apps[i] == e,
        (forall|i: int| 0 <= i < apps.len() ==> #[trigger] keep[i]) ==> kept(apps, keep) == apps,
    decreases apps.len(),
{
    if apps.len() > 0 {
        let head = apps.drop_last();
        let n = apps.len() - 1;
        let was = kept(head, keep);
        let all = kept(apps, keep);
        law_kept_entries_stay(head, keep, e);
        assert(apps =~= head.push(apps.last()));
        if keep[n] {
            assert(all.contains(e) <==> was.contains(e) || e == apps[n]) by {
                if all.contains(e) {
                    let k = choose|k: int| 0 <= k < all.len() && all[k] == e;
                    if k < was.len() {
                        assert(was[k] == e);
                    }
                }
                if was.contains(e) {
                    let k = choose|k: int| 0 <= k < was.len() && was[k] == e;
                    assert(all[k] == e);
                }
                assert(all[was.len() as int] == apps[n]);
            }
        }
        if exists|i: int| 0 <= i < head.len() && keep[i] && #[trigger] head[i] == e {
            let i = choose|i: int| 0 <= i < head.len() && keep[i] && #[trigger] head[i] == e;
            assert(apps[i] == e);
        }
        if exists|i: int| 0 <= i < apps.len() && keep[i] && #[trigger] apps[i] == e {
            let i = choose|i: int| 0 <= i < apps.len() && keep[i] && #[trigger] apps[i] == e;
            if i < n {
                assert(head[i] == e);
            }
        }
    }
}

/// Of the entries with one path the first is kept.
pub proof fn law_first_of_equal_paths_is_kept(apps: Seq<AppEntry>, i: int)
    requires
        0 <= i < apps.len(),
        forall|k: int|
            0 <= k < i ==> lowercase((#[trigger] apps[k]).path@) != lowercase(apps[i].path@),
    ensures
        first_copies(apps).contains(apps[i]),
    decreases apps.len(),
{
    let head = apps.drop_last();
    let was = first_copies(head);
    let all = first_copies(apps);
    if i < head.len() {
        assert forall|k: int| 0 <= k < i implies lowercase((#[trigger] head[k]).path@) != lowercase(
            head[i].path@,
        ) by {
            assert(head[k] == apps[k]);
        }
        law_first_of_equal_paths_is_kept(head, i);
        let w = choose|w: int| 0 <= w < was.len() && was[w] == head[i];
        assert(all[w] == apps[i]);
    } else {
        if has_path(head, lowercase(apps[i].path@)) {
            let k = choose|k: int|
                0 <= k < head.len() && lowercase((#[trigger] head[k]).path@) == lowercase(
                    apps[i].path@,
                );
            assert(apps[k] == head[k]);
        }
        assert(all[was.len() as int] == apps[i]);
    }
}

/// Of a saved pool only what may be offered is taken, all of it, in its order.
pub proof fn law_saved_pool_is_sifted(saved: Seq<(String, String)>, row: (Seq<char>, Seq<char>))
    ensures
        offered(saved).contains(row) <==> launchable(row.1) && exists|i: int|
            0 <= i < saved.len() && (#[trigger] saved[i]).0@ == row.0 && saved[i].1@ == row.1,
    decreases saved.len(),
{
    if saved.len() > 0 {
        let head = saved.drop_last();
        let last = saved.last();
        let was = offered(head);
        let all = offered(saved);
        let one = (last.0@, last.1@);
        law_saved_pool_is_sifted(head, row);
        if launchable(last.1@) {
            assert(all.contains(row) <==> was.contains(row) || row == one) by {
                if all.contains(row) {
                    let k = choose|k: int| 0 <= k < all.len() && all[k] == row;
                    if k < was.len() {
                        assert(was[k] == row);
                    }
                }
                if was.contains(row) {
                    let k = choose|k: int| 0 <= k < was.len() && was[k] == row;
                    assert(all[k] == row);
                }
                assert(all[was.len() as int] == one);
            }
        }
        if exists|i: int|
            0 <= i < head.len() && (#[trigger] head[i]).0@ == row.0 && head[i].1@ == row.1 {
            let i = choose|i: int|
                0 <= i < head.len() && (#[trigger] head[i]).0@ == row.0 && head[i].1@ == row.1;
            assert(saved[i] == head[i]);
        }
        if exists|i: int|
            0 <= i < saved.len() && (#[trigger] saved[i]).0@ == row.0 && saved[i].1@ == row.1 {
            let i = choose|i: int|
                0 <= i < saved.len() && (#[trigger] saved[i]).0@ == row.0 && saved[i].1@ == row.1;
            if i < head.len() {
                assert(head[i] == saved[i]);
            }
        }
        if row == one {
            assert(saved[saved.len() - 1].0@ == row.0);
        }
    }
}

/// The executable of an installed application: that of its icon where it leads to
/// one, else that of its folder where it has one, else that of its uninstall
/// command, and last that of the quiet one.
pub proof fn law_which_executable_is_taken(app: InstalledApp, env: Env, disk: Disk)
    ensures
        ({
            let path = app_path_of(app, env, disk);
            let icon = match app.icon {
                Some(i) => exe_of_icon(i@, app.name@, env, disk),
                None => None,
            };
            let loud = match app.uninstall_string {
                Some(u) => exe_of_uninstall(u@, app.name@, env, disk),
                None => None,
            };
            let quiet = match app.quiet_uninstall_string {
                Some(u) => exe_of_uninstall(u@, app.name@, env, disk),
                None => None,
            };
            &&& icon is Some ==> path == icon
            &&& icon is None && app.install_location is Some ==> path == exe_in(
                disk,
                app.install_location->0@,
                app.name@,
            )
            &&& icon is None && app.install_location is None && loud is Some ==> path == loud
            &&& icon is None && app.install_location is None && loud is None ==> path == quiet
        }),
{
}

/// What an icon and an uninstall command lead to is there: an icon that is itself
/// an executable or a shortcut stands for the application, and so does the
/// program of an uninstall command, unless it only installs or uninstalls. In any
/// other case an executable beside it that fits the name does.
pub proof fn law_icon_and_command_lead_to_an_executable(
    icon: Seq<char>,
    command: Seq<char>,
    name: Seq<char>,
    env: Env,
    disk: Disk,
)
    ensures
        ({
            let target = icon_target(icon, env);
            let exe = exe_of_icon(icon, name, env, disk);
            &&& target is Some && target->0.len() > 0 && disk.has_file(target->0) && (
            has_extension(target->0, "exe"@) || has_extension(target->0, "lnk"@)) ==> exe == target
            &&& target is None || !disk.has_file(target->0) ==> exe is None
            &&& exe is Some && exe != target ==> parent(target->0) is Some && exe == exe_in(
                disk,
                parent(target->0)->0,
                name,
            )
        }),
        ({
            let program = uninstall_program(command, env);
            let exe = exe_of_uninstall(command, name, env, disk);
            let stem = lowercase(file_stem(program->0)->0);
            let setup = has_text(stem, "unins"@) || stem == "setup"@ || stem == "install"@;
            &&& program is Some && disk.has_file(program->0) && has_extension(program->0, "exe"@)
                && !setup ==> exe == program
            &&& program is None || !disk.has_file(program->0) || !has_extension(
                program->0,
                "exe"@,
            ) ==> exe is None
            &&& setup && exe is Some ==> exe == exe_in(disk, parent(program->0)->0, name)
        }),
{
    let program = uninstall_program(command, env);
    let stem = lowercase(file_stem(program->0)->0);
    reveal_strlit("unins");
    reveal_strlit("uninst");
    reveal_strlit("uninstall");
    if has_text(stem, "uninst"@) {
        lemma_holds_front(stem, "uninst"@, "unins"@);
    }
    if has_text(stem, "uninstall"@) {
        lemma_holds_front(stem, "uninstall"@, "unins"@);
    }
}

proof fn lemma_holds_front(s: Seq<char>, long: Seq<char>, short: Seq<char>)
    requires
        has_text(s, long),
        short.len() <= long.len(),
        long.take(short.len() as int) =~= short,
    ensures
        has_text(s, short),
{
    let at = choose|at: int| text_at(s, long, at);
    let n: int = short.len() as int;
    assert(s.subrange(at, at + n) =~= short) by {
        assert forall|k: int| 0 <= k < n implies s.subrange(at, at + n)[k] == short[k] by {
            assert(s.subrange(at, at + long.len())[k] == s[at + k]);
            assert(long.take(n)[k] == long[k]);
        }
    }
    assert(text_at(s, short, at));
}

/// The path of an icon value is what stands before the first comma, without white
/// space and quotes around it.
pub proof fn law_path_of_an_icon(path: Seq<char>, tail: Seq<char>)
    requires
        path.len() > 0,
        !is_space(path[0]),
        !is_space(path.last()),
        path[0] != '"',
        path.last() != '"',
        forall|k: int| 0 <= k < path.len() ==> #[trigger] path[k] != ',',
    ensures
        icon_path(path) == path,
        icon_path(path.push(',') + tail) == path,
        icon_path(seq!['"'] + path + seq!['"', ','] + tail) == path,
{
    reveal_with_fuel(unquoted, 3);
    reveal_with_fuel(trimmed_start, 2);
    reveal_with_fuel(trimmed_end, 2);
    let q = seq![','];
    let n: int = path.len() as int;
    lemma_find_text(path, q, 0);
    let f = find_text(path, q, 0);
    if f >= 0 {
        assert(path.subrange(f, f + 1)[0] == path[f]);
    }
    let a = path.push(',') + tail;
    lemma_comma(a, n);
    assert(a.take(n) =~= path);
    let b = seq!['"'] + path + seq!['"', ','] + tail;
    assert forall|k: int| 0 <= k < n + 2 implies #[trigger] b[k] != ',' by {
        if 0 < k <= n {
            assert(b[k] == path[k - 1]);
        }
    }
    lemma_comma(b, n + 2);
    let quoted = seq!['"'] + path + seq!['"'];
    assert(b.take(n + 2) =~= quoted);
    assert(quoted.last() == '"');
    assert(!is_space('"'));
    assert(quoted.drop_first() =~= path.push('"'));
    assert(path.push('"')[0] == path[0]);
    assert(path.push('"').drop_last() =~= path);
}

proof fn lemma_comma(s: Seq<char>, at: int)
    requires
        0 <= at < s.len(),
        s[at] == ',',
        forall|k: int| 0 <= k < at ==> #[trigger] s[k] != ',',
    ensures
        find_text(s, seq![','], 0) == at,
{
    let q = seq![','];
    lemma_find_text(s, q, 0);
    assert(s.subrange(at, at + 1) =~= q);
    assert(text_at(s, q, at));
    let f = find_text(s, q, 0);
    if f < at {
        assert(s.subrange(f, f + 1)[0] == s[f]);
    }
}

/// What is no application: an entry of the shell that leads to a web page, or
/// whose name says that it installs, uninstalls or is a command prompt; a shortcut
/// to a web page, to an interpreter or to an uninstaller; and what lies in the
/// cache of packages.
pub proof fn law_noise(name: Seq<char>, path: Seq<char>, low: Seq<char>)
    ensures
        lowercase(name) == "uninstall "@ + low || lowercase(name) == "install "@ + low
            || lowercase(name) == low + " command prompt"@ ==> shell_junk(name, path),
        lowercase(path) == "aumid:"@ + ("http"@ + low) || lowercase(path) == "aumid:"@ + (low
            + ".url"@) || lowercase(path) == "aumid:"@ + (low + ".html"@) || lowercase(path)
            == "aumid:"@ + (low + ".htm"@) ==> shell_junk(name, path),
        lowercase(path) == "http"@ + low || lowercase(path) == low + ".url"@ || lowercase(path)
            == low + ".html"@ || lowercase(path) == low + ".htm"@ ==> target_junk(path),
        file_stem(path) is None ==> target_junk(path),
        file_stem(path) is Some && (lowercase(file_stem(path)->0) == "cmd"@ || lowercase(
            file_stem(path)->0,
        ) == "powershell"@ || lowercase(file_stem(path)->0) == "pwsh"@ || lowercase(
            file_stem(path)->0,
        ) == "wscript"@ || lowercase(file_stem(path)->0) == "cscript"@ || has_text(
            lowercase(file_stem(path)->0),
            "unins"@,
        )) ==> target_junk(path),
        file_stem(path) is Some && has_text(lowercase(file_stem(path)->0), "unins"@)
            ==> installer_junk(path),
        has_text(lowercase(path), "\\package cache\\"@) ==> installer_junk(path),
{
    let n = lowercase(name);
    let p = lowercase(path);
    lemma_ends(low, "uninstall "@);
    lemma_ends(low, "install "@);
    lemma_ends(low, " command prompt"@);
    lemma_ends(low, "http"@);
    lemma_ends(low, ".url"@);
    lemma_ends(low, ".html"@);
    lemma_ends(low, ".htm"@);
    lemma_ends("http"@ + low, "aumid:"@);
    lemma_ends(low + ".url"@, "aumid:"@);
    lemma_ends(low + ".html"@, "aumid:"@);
    lemma_ends(low + ".htm"@, "aumid:"@);
    assert(SHELL_STEMS@[0]@ == "cmd"@);
    assert(SHELL_STEMS@[1]@ == "powershell"@);
    assert(SHELL_STEMS@[2]@ == "pwsh"@);
    assert(SHELL_STEMS@[3]@ == "wscript"@);
    assert(SHELL_STEMS@[4]@ == "cscript"@);
}

proof fn lemma_ends(low: Seq<char>, q: Seq<char>)
    ensures
        text_starts(q + low, q),
        text_ends(low + q, q),
        (q + low).skip(q.len() as int) == low,
{
    let n: int = q.len() as int;
    let m: int = low.len() as int;
    assert((q + low).subrange(0, n) =~= q);
    assert((low + q).subrange(m, m + n) =~= q);
    assert((q + low).skip(n) =~= low);
}

/// A folder id in front of a path stands for a folder of the system, and what
/// follows it stays; an id that is not known leads nowhere.
pub proof fn law_folder_ids(id: Seq<char>, tail: Seq<char>, env: Env)
    requires
        forall|k: int| 0 <= k < id.len() ==> #[trigger] id[k] != '\\',
    ensures
        ({
            let path = folder_path(id.push('\\') + tail, env);
            let low = ascii_lower(id);
            let windows = env.or("WINDIR"@, "C:\\Windows"@);
            &&& low == "{1ac14e77-02e7-4e5d-b744-2eb1ae5198b7}"@ ==> path == Some(
                windows + "\\System32"@ + seq!['\\'] + tail,
            )
            &&& low == "{d65231b0-b2f1-4857-a4ce-a8e7c6ea7d27}"@ ==> path == Some(
                windows + "\\SysWOW64"@ + seq!['\\'] + tail,
            )
            &&& low == "{6d809377-6af0-444b-8957-a3773f02200e}"@ ==> path == Some(
                env.or("ProgramFiles"@, "C:\\Program Files"@) + seq!['\\'] + tail,
            )
            &&& path is Some ==> known_folder(id, env) is Some
        }),
        folder_path(id, env) is None,
{
    let s = id.push('\\') + tail;
    let n: int = id.len() as int;
    let q = seq!['\\'];
    lemma_find_text(s, q, 0);
    assert(s.subrange(n, n + 1) =~= q);
    assert(text_at(s, q, n));
    let f = find_text(s, q, 0);
    if f < n {
        assert(s.subrange(f, f + 1)[0] == s[f]);
        assert(s[f] == id[f]);
    }
    assert(s.take(n) =~= id);
    assert(s.skip(n + 1) =~= tail);
    lemma_find_text(id, q, 0);
    let g = find_text(id, q, 0);
    if g >= 0 {
        assert(id.subrange(g, g + 1)[0] == id[g]);
    }
    reveal_strlit("{1ac14e77-02e7-4e5d-b744-2eb1ae5198b7}");
    reveal_strlit("{d65231b0-b2f1-4857-a4ce-a8e7c6ea7d27}");
    reveal_strlit("{6d809377-6af0-444b-8957-a3773f02200e}");
    assert("{1ac14e77-02e7-4e5d-b744-2eb1ae5198b7}"@[1] == '1');
    assert("{d65231b0-b2f1-4857-a4ce-a8e7c6ea7d27}"@[1] == 'd');
    assert("{6d809377-6af0-444b-8957-a3773f02200e}"@[1] == '6');
    match known_folder(id, env) {
        Some(base) => {
            assert(base.push('\\') + tail =~= base + seq!['\\'] + tail);
        },
        None => {},
    }
}

/// Whose an installation is does not count in a name: the ending that says so goes,
/// and a name without one stays.
pub proof fn law_scope_does_not_count(s: Seq<char>)
    requires
        s.len() >= 10,
    ensures
        ({
            let low = lowercase(s);
            let n = s.len() as int;
            let bare = without_scope(s, 0);
            &&& text_ends(low, "(user)"@) ==> bare == s.take(n - 6)
            &&& text_ends(low, "(machine)"@) ==> bare == s.take(n - 9)
            &&& text_ends(low, " - user"@) ==> bare == s.take(n - 7)
            &&& text_ends(low, " - machine"@) ==> bare == s.take(n - 10)
            &&& low.len() > 0 && low.last() != ')' && low.last() != 'r' && low.last() != 'e'
                ==> bare == s
        }),
{
    reveal_with_fuel(without_scope, 5);
    reveal_strlit("(user)");
    reveal_strlit("(machine)");
    reveal_strlit(" - user");
    reveal_strlit(" - machine");
    assert(SCOPE_ENDS@[0]@ == "(user)"@);
    assert(SCOPE_ENDS@[1]@ == "(machine)"@);
    assert(SCOPE_ENDS@[2]@ == " - user"@);
    assert(SCOPE_ENDS@[3]@ == " - machine"@);
    let low = lowercase(s);
    lemma_last_two(low, "(user)"@);
    lemma_last_two(low, "(machine)"@);
    lemma_last_two(low, " - user"@);
    lemma_last_two(low, " - machine"@);
    assert("(user)"@[5] == ')' && "(user)"@[4] == 'r');
    assert("(machine)"@[8] == ')' && "(machine)"@[7] == 'e');
    assert(" - user"@[6] == 'r' && " - machine"@[9] == 'e');
}

proof fn lemma_last_two(s: Seq<char>, q: Seq<char>)
    requires
        q.len() >= 2,
    ensures
        text_ends(s, q) ==> s.len() >= q.len() && s.last() == q.last() && s[s.len() - 2]
            == q[q.len() - 2],
{
    if text_ends(s, q) {
        let at = s.len() - q.len();
        let part = s.subrange(at, at + q.len());
        assert(part[q.len() - 1] == s[s.len() - 1]);
        assert(part[q.len() - 2] == s[s.len() - 2]);
    }
}

/// The program of a command stands between the first two quotes where the command
/// begins with one, and is else its first word.
pub proof fn law_program_of_a_command(program: Seq<char>, tail: Seq<char>)
    ensures
        (forall|k: int| 0 <= k < program.len() ==> #[trigger] program[k] != '"') ==> program_of(
            seq!['"'] + program + seq!['"'] + tail,
        ) == program,
        program.len() > 0 && program[0] != '"' && (forall|k: int|
            0 <= k < program.len() ==> !is_space(#[trigger] program[k])) ==> program_of(
            program.push(' ') + tail,
        ) == program && program_of(program) == program,
{
    if forall|k: int| 0 <= k < program.len() ==> #[trigger] program[k] != '"' {
        let s = seq!['"'] + program + seq!['"'] + tail;
        let rest = s.drop_first();
        let q = seq!['"'];
        let n: int = program.len() as int;
        assert(rest =~= program + q + tail);
        lemma_find_text(rest, q, 0);
        assert(rest.subrange(n, n + 1) =~= q);
        assert(text_at(rest, q, n));
        let f = find_text(rest, q, 0);
        if f < n {
            assert(rest.subrange(f, f + 1)[0] == rest[f]);
            assert(rest[f] == program[f]);
        }
        assert(rest.take(n) =~= program);
    }
    if program.len() > 0 && program[0] != '"' && (forall|k: int|
        0 <= k < program.len() ==> !is_space(#[trigger] program[k])) {
        assert(is_space(' '));
        law_white_space_parts_words(program, ' ', tail);
        let s = program.push(' ') + tail;
        assert(s[0] == program[0]);
        assert(words(s)[0] == program);
    }
}

/// An id leads to a file where it begins with a known folder or is itself the path
/// of an executable.
pub proof fn law_file_of_an_id(path: Seq<char>, id: Seq<char>, env: Env)
    requires
        lowercase(trimmed(path)) == "aumid:"@ + id,
    ensures
        ({
            let file = entry_file(path, env);
            &&& folder_path(id, env) is Some ==> file == folder_path(id, env)
            &&& folder_path(id, env) is None && text_ends(id, ".exe"@) ==> file == Some(id)
            &&& folder_path(id, env) is None && !text_ends(id, ".exe"@) ==> file is None
        }),
{
    lemma_ends(id, "aumid:"@);
}

} // verus!
