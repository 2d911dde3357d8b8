//! How the pool of applications comes together from its sources.
use crate::apps::names::{
    installer_junk, is_installer_junk, is_shell_junk, is_shortcut_target_junk, name_key,
    norm_app_name, shell_junk, target_junk,
};
use crate::apps::pool::{dedupe_exact_path, first_copies, AppEntry};
use crate::apps::registry::{app_path_of, registry_app_path, Disk};
use crate::apps::targets::{dedupe_by_target, one_per_target, opt_text, Resolved};
use crate::apps::tools::TOOLS;
use crate::env::Env;
use crate::index::apps::InstalledApp;
use crate::sort::{is_order, keys_of, stable_order, SortKey};
use crate::text::{
    lowercase, str_eq, str_starts, str_trim, strip_start, text_starts, texts, trimmed,
};
use vstd::prelude::*;
use vstd::utf8::encode_utf8;

verus! {

/// The name, the path and the icon of an entry.
pub type Row = (Seq<char>, Seq<char>, Option<Seq<char>>);

/// The row of an entry.
pub open spec fn row_of(a: AppEntry) -> Row {
    (a.name@, a.path@, opt_text(a.icon))
}

/// The rows of a pool.
pub open spec fn rows(apps: Seq<AppEntry>) -> Seq<Row> {
    apps.map_values(|a: AppEntry| row_of(a))
}

/// A shortcut of the start menu: the stem of its file, its path, and the target
/// where it could be resolved.
pub struct Shortcut {
    pub stem: String,
    pub path: String,
    pub target: Option<String>,
}

/// A pool in the making: its rows, and the name keys that are taken.
#[verifier::ext_equal]
pub ghost struct Gathered {
    pub rows: Seq<Row>,
    pub taken: Seq<Seq<char>>,
}

impl Gathered {
    /// The pool with one more row, if the key of its name is free.
    pub open spec fn with(self, row: Row) -> Gathered {
        if self.taken.contains(name_key(row.0)) {
            self
        } else {
            Gathered { rows: self.rows.push(row), taken: self.taken.push(name_key(row.0)) }
        }
    }

    /// The first `n` entries of the shell's folder, without noise.
    pub open spec fn shell(apps: Seq<AppEntry>, n: int) -> Gathered
        decreases n,
    {
        if n <= 0 {
            Gathered { rows: Seq::empty(), taken: Seq::empty() }
        } else {
            let a = apps[n - 1];
            let g = Gathered::shell(apps, n - 1);
            if shell_junk(a.name@, a.path@) {
                g
            } else {
                g.with(row_of(a))
            }
        }
    }

    /// The pool with the first `n` shortcuts, without noise.
    pub open spec fn shortcuts(self, found: Seq<Shortcut>, n: int) -> Gathered
        decreases n,
    {
        if n <= 0 {
            self
        } else {
            let s = found[n - 1];
            let name = trimmed(s.stem@);
            let g = self.shortcuts(found, n - 1);
            if name.len() == 0 || shell_junk(name, Seq::empty()) || (s.target is Some
                && target_junk(s.target->0@)) {
                g
            } else {
                g.with((name, s.path@, None))
            }
        }
    }

    /// The pool with the first `n` entries of the uninstall list that start an
    /// executable.
    pub open spec fn installed(self, apps: Seq<InstalledApp>, env: Env, disk: Disk, n: int) -> Gathered
        decreases n,
    {
        if n <= 0 {
            self
        } else {
            let g = self.installed(apps, env, disk, n - 1);
            match app_path_of(apps[n - 1], env, disk) {
                Some(p) => if installer_junk(p) {
                    g
                } else {
                    g.with((apps[n - 1].name@, p, None))
                },
                None => g,
            }
        }
    }

    /// The pool with the first `n` tools of the system that can be used.
    pub open spec fn tools(self, env: Env, present: Seq<bool>, n: int) -> Gathered
        decreases n,
    {
        if n <= 0 {
            self
        } else {
            let g = self.tools(env, present, n - 1);
            let target = tool_target(n - 1, env);
            if usable(target, present[n - 1]) {
                g.with((TOOLS@[n - 1].0@, target, None))
            } else {
                g
            }
        }
    }
}

/// The system directory.
pub open spec fn system_dir(env: Env) -> Seq<char> {
    env.or("SystemRoot"@, "C:\\Windows"@) + "\\System32"@
}

/// What a tool of the system opens.
pub open spec fn tool_target(i: int, env: Env) -> Seq<char> {
    if text_starts(TOOLS@[i].1@, "\\"@) {
        system_dir(env) + TOOLS@[i].1@
    } else {
        TOOLS@[i].1@
    }
}

/// A target that can be opened: a page of the settings, a folder of the shell,
/// or a file that is there.
pub open spec fn usable(target: Seq<char>, present: bool) -> bool {
    text_starts(target, "ms-settings:"@) || text_starts(target, "shell:::{"@) || present
}

/// The id of a store application in a path of the shell.
pub open spec fn shell_id(parsing: Seq<char>) -> Seq<char> {
    if text_starts(parsing, "shell:appsFolder\\"@) {
        parsing.skip("shell:appsFolder\\"@.len() as int)
    } else if text_starts(parsing, "shell:APPSFOLDER\\"@) {
        parsing.skip("shell:APPSFOLDER\\"@.len() as int)
    } else if text_starts(parsing, "shell:AppsFolder\\"@) {
        parsing.skip("shell:AppsFolder\\"@.len() as int)
    } else {
        parsing
    }
}

/// The entry for an application that the shell names, if it has a name and a
/// path.
pub fn apps_from_shell(name: &str, parsing: &str) -> (r: Option<AppEntry>)
    ensures
        r is Some <==> name@.len() > 0 && parsing@.len() > 0,
        r is Some ==> {
            &&& r->0.name@ == name@
            &&& r->0.path@ == "aumid:"@ + shell_id(parsing@)
            &&& r->0.icon is None
        },
{
    if name.is_empty() || parsing.is_empty() {
        return None;
    }
    let id = match strip_start(parsing, "shell:appsFolder\\") {
        Some(id) => id,
        None => match strip_start(parsing, "shell:APPSFOLDER\\") {
            Some(id) => id,
            None => match strip_start(parsing, "shell:AppsFolder\\") {
                Some(id) => id,
                None => parsing.to_owned(),
            },
        },
    };
    let mut path = "aumid:".to_owned();
    path.push_str(id.as_str());
    Some(AppEntry { name: name.to_owned(), path, icon: None })
}

/// What the tools of the system open, in their order.
pub fn system_tools(env: &Env) -> (r: Vec<String>)
    ensures
        r.len() == 88,
        forall|i: int| 0 <= i < 88 ==> (#[trigger] r@[i])@ == tool_target(i, *env),
{
    let mut sys = env.var_or("SystemRoot", "C:\\Windows");
    sys.push_str("\\System32");
    let mut out: Vec<String> = Vec::new();
    let mut i: usize = 0;
    while i < 88
        invariant
            i <= 88,
            sys@ == system_dir(*env),
            out.len() == i,
            forall|k: int| 0 <= k < i ==> (#[trigger] out@[k])@ == tool_target(k, *env),
        decreases 88 - i,
    {
        let t = TOOLS[i].1;
        if str_starts(t, "\\") {
            let mut full = sys.clone();
            full.push_str(t);
            out.push(full);
        } else {
            out.push(t.to_owned());
        }
        i = i + 1;
    }
    out
}

/// The folders that hold the shortcuts of the start menu.
pub open spec fn menu_roots(env: Env) -> Seq<Seq<char>> {
    let tail = "\\Microsoft\\Windows\\Start Menu\\Programs"@;
    let shared = env.or("ProgramData"@, "C:\\ProgramData"@);
    let own = env.or("APPDATA"@, ""@);
    let first = if shared.len() > 0 {
        seq![shared + tail]
    } else {
        Seq::empty()
    };
    if own.len() > 0 {
        first.push(own + tail)
    } else {
        first
    }
}

/// The folders that hold the shortcuts of the start menu: the shared one, then
/// the user's own.
pub fn start_menu_roots(env: &Env) -> (r: Vec<String>)
    ensures
        texts(r@) == menu_roots(*env),
{
    let mut out: Vec<String> = Vec::new();
    let shared = env.var_or("ProgramData", "C:\\ProgramData");
    let own = env.var_or("APPDATA", "");
    if !shared.as_str().is_empty() {
        let mut p = shared.clone();
        p.push_str("\\Microsoft\\Windows\\Start Menu\\Programs");
        out.push(p);
    }
    if !own.as_str().is_empty() {
        let mut p = own.clone();
        p.push_str("\\Microsoft\\Windows\\Start Menu\\Programs");
        out.push(p);
    }
    assert(texts(out@) =~= menu_roots(*env));
    out
}

/// The pool in the making, as texts.
spec fn gathered(apps: Seq<AppEntry>, taken: Seq<String>) -> Gathered {
    Gathered { rows: rows(apps), taken: texts(taken) }
}

/// Whether a name key is taken.
fn is_taken(taken: &Vec<String>, key: &str) -> (r: bool)
    ensures
        r == texts(taken@).contains(key@),
{
    let mut i: usize = 0;
    while i < taken.len()
        invariant
            i <= taken.len(),
            forall|k: int| 0 <= k < i ==> (#[trigger] taken@[k])@ != key@,
        decreases taken.len() - i,
    {
        if str_eq(taken[i].as_str(), key) {
            assert(texts(taken@)[i as int] == key@);
            return true;
        }
        i = i + 1;
    }
    assert forall|k: int| 0 <= k < texts(taken@).len() implies texts(taken@)[k] != key@ by {
        assert(taken@[k]@ != key@);
    }
    false
}

/// Adds an entry, if the key of its name is free.
fn offer(apps: &mut Vec<AppEntry>, taken: &mut Vec<String>, app: AppEntry)
    ensures
        gathered(final(apps)@, final(taken)@) == gathered(old(apps)@, old(taken)@).with(
            row_of(app),
        ),
{
    let key = norm_app_name(app.name.as_str());
    if !is_taken(taken, key.as_str()) {
        let ghost a = apps@;
        let ghost t = taken@;
        taken.push(key);
        apps.push(app);
        assert(texts(taken@) =~= texts(t).push(key@));
        assert(rows(apps@) =~= rows(a).push(row_of(app)));
    }
}

/// All the sources of the pool, one behind the other.
pub open spec fn all_sources(
    shell: Seq<AppEntry>,
    shortcuts: Seq<Shortcut>,
    installed: Seq<InstalledApp>,
    disk: Disk,
    present: Seq<bool>,
    env: Env,
) -> Gathered {
    Gathered::shell(shell, shell.len() as int).shortcuts(
        shortcuts,
        shortcuts.len() as int,
    ).installed(installed, env, disk, installed.len() as int).tools(env, present, 88)
}

/// Gathers the pool from its sources: the shell's application folder, the
/// shortcuts of the start menu, the uninstall list, and the tools of the
/// system. A name that an earlier source gave is not taken again. `present`
/// says which targets of the tools are there.
pub fn discover_apps(
    shell: &Vec<AppEntry>,
    shortcuts: &Vec<Shortcut>,
    installed: &Vec<InstalledApp>,
    disk: &Disk,
    present: &Vec<bool>,
    env: &Env,
) -> (r: Vec<AppEntry>)
    requires
        present.len() == 88,
    ensures
        rows(r@) == all_sources(shell@, shortcuts@, installed@, *disk, present@, *env).rows,
{
    let mut apps: Vec<AppEntry> = Vec::new();
    let mut taken: Vec<String> = Vec::new();
    let mut i: usize = 0;
    assert(gathered(apps@, taken@) =~= Gathered::shell(shell@, 0));
    while i < shell.len()
        invariant
            i <= shell.len(),
            gathered(apps@, taken@) == Gathered::shell(shell@, i as int),
        decreases shell.len() - i,
    {
        if !is_shell_junk(shell[i].name.as_str(), shell[i].path.as_str()) {
            offer(&mut apps, &mut taken, shell[i].clone());
        }
        i = i + 1;
    }
    add_shortcuts(&mut apps, &mut taken, shortcuts);
    add_installed(&mut apps, &mut taken, installed, disk, env);
    add_tools(&mut apps, &mut taken, present, env);
    apps
}

/// Adds the shortcuts.
fn add_shortcuts(apps: &mut Vec<AppEntry>, taken: &mut Vec<String>, found: &Vec<Shortcut>)
    ensures
        gathered(final(apps)@, final(taken)@) == gathered(old(apps)@, old(taken)@).shortcuts(
            found@,
            found@.len() as int,
        ),
{
    let ghost start = gathered(apps@, taken@);
    let mut i: usize = 0;
    while i < found.len()
        invariant
            i <= found.len(),
            start == gathered(old(apps)@, old(taken)@),
            gathered(apps@, taken@) == start.shortcuts(found@, i as int),
        decreases found.len() - i,
    {
        let name = str_trim(found[i].stem.as_str());
        let none = String::new();
        assert(none@ =~= Seq::<char>::empty());
        let noise = match &found[i].target {
            Some(t) => is_shortcut_target_junk(t.as_str()),
            None => false,
        };
        if !name.as_str().is_empty() && !is_shell_junk(name.as_str(), none.as_str()) && !noise {
            offer(apps, taken, AppEntry { name, path: found[i].path.clone(), icon: None });
        }
        i = i + 1;
    }
}

/// Adds what the uninstall list starts.
fn add_installed(
    apps: &mut Vec<AppEntry>,
    taken: &mut Vec<String>,
    installed: &Vec<InstalledApp>,
    disk: &Disk,
    env: &Env,
)
    ensures
        gathered(final(apps)@, final(taken)@) == gathered(old(apps)@, old(taken)@).installed(
            installed@,
            *env,
            *disk,
            installed@.len() as int,
        ),
{
    let ghost start = gathered(apps@, taken@);
    let mut i: usize = 0;
    while i < installed.len()
        invariant
            i <= installed.len(),
            start == gathered(old(apps)@, old(taken)@),
            gathered(apps@, taken@) == start.installed(installed@, *env, *disk, i as int),
        decreases installed.len() - i,
    {
        match registry_app_path(&installed[i], env, disk) {
            Some(path) => {
                if !is_installer_junk(path.as_str()) {
                    offer(
                        apps,
                        taken,
                        AppEntry { name: installed[i].name.clone(), path, icon: None },
                    );
                }
            },
            None => {},
        }
        i = i + 1;
    }
}

/// Adds the tools of the system.
fn add_tools(apps: &mut Vec<AppEntry>, taken: &mut Vec<String>, present: &Vec<bool>, env: &Env)
    requires
        present.len() == 88,
    ensures
        gathered(final(apps)@, final(taken)@) == gathered(old(apps)@, old(taken)@).tools(
            *env,
            present@,
            88,
        ),
{
    let ghost start = gathered(apps@, taken@);
    let targets = system_tools(env);
    let mut i: usize = 0;
    while i < 88
        invariant
            i <= 88,
            present.len() == 88,
            targets.len() == 88,
            forall|k: int| 0 <= k < 88 ==> (#[trigger] targets@[k])@ == tool_target(k, *env),
            start == gathered(old(apps)@, old(taken)@),
            gathered(apps@, taken@) == start.tools(*env, present@, i as int),
        decreases 88 - i,
    {
        let t = targets[i].as_str();
        assert(targets@[i as int]@ == tool_target(i as int, *env));
        if str_starts(t, "ms-settings:") || str_starts(t, "shell:::{") || present[i] {
            offer(
                apps,
                taken,
                AppEntry { name: TOOLS[i].0.to_owned(), path: t.to_owned(), icon: None },
            );
        }
        i = i + 1;
    }
}

/// What the entries of a pool are ordered by: the name in lowercase.
pub open spec fn pool_order(apps: Seq<AppEntry>) -> Seq<(u64, Seq<u8>)> {
    apps.map_values(|a: AppEntry| (0u64, encode_utf8(lowercase(a.name@))))
}

/// `r` is `apps` in the order of the names; equal names stay in their order.
pub open spec fn sorted_pool(r: Seq<AppEntry>, apps: Seq<AppEntry>) -> bool {
    exists|order: Seq<usize>|
        {
            &&& #[trigger] is_order(order, pool_order(apps))
            &&& r.len() == apps.len()
            &&& forall|i: int| 0 <= i < r.len() ==> (#[trigger] r[i]) == apps[order[i] as int]
        }
}

/// Orders a pool by the names in lowercase.
pub fn sort_pool(apps: &Vec<AppEntry>) -> (r: Vec<AppEntry>)
    ensures
        sorted_pool(r@, apps@),
{
    let mut keys: Vec<SortKey> = Vec::new();
    let mut i: usize = 0;
    while i < apps.len()
        invariant
            i <= apps.len(),
            keys.len() == i,
            forall|k: int|
                0 <= k < i ==> ((#[trigger] keys@[k]).num, keys@[k].text@) == pool_order(apps@)[k],
        decreases apps.len() - i,
    {
        let low = apps[i].name.as_str().to_lowercase();
        keys.push(SortKey { num: 0, text: vstd::slice::slice_to_vec(low.as_str().as_bytes()) });
        i = i + 1;
    }
    assert(keys_of(keys@) =~= pool_order(apps@));
    let order = stable_order(&keys);
    let mut out: Vec<AppEntry> = Vec::new();
    let mut k: usize = 0;
    while k < order.len()
        invariant
            k <= order.len(),
            out.len() == k,
            is_order(order@, pool_order(apps@)),
            forall|m: int| 0 <= m < k ==> (#[trigger] out@[m]) == apps@[order@[m] as int],
        decreases order.len() - k,
    {
        assert(order@[k as int] < pool_order(apps@).len());
        out.push(apps[order[k]].clone());
        k = k + 1;
    }
    out
}

/// Drops the exact copies of a gathered pool. What is left has to be resolved
/// before `settle_pool`.
pub fn unique_pool(apps: Vec<AppEntry>) -> (r: Vec<AppEntry>)
    ensures
        r@ == first_copies(apps@),
{
    let mut out = apps;
    dedupe_exact_path(&mut out);
    out
}

/// Finishes a pool: one entry per target, ordered by the names. `found` tells
/// what the disk says of each entry.
pub fn settle_pool(apps: Vec<AppEntry>, found: &Vec<Resolved>, env: &Env) -> (r: Vec<AppEntry>)
    requires
        apps.len() == found.len(),
    ensures
        sorted_pool(r@, one_per_target(apps@, found@, *env)),
{
    let mut kept = apps;
    dedupe_by_target(&mut kept, found, env);
    sort_pool(&kept)
}

/// No two rows of a gathered pool have the same name key.
pub proof fn law_names_are_taken_once(
    shell: Seq<AppEntry>,
    shortcuts: Seq<Shortcut>,
    installed: Seq<InstalledApp>,
    disk: Disk,
    present: Seq<bool>,
    env: Env,
)
    ensures
        ({
            let r = all_sources(shell, shortcuts, installed, disk, present, env).rows;
            forall|i: int, j: int|
                0 <= i < j < r.len() ==> name_key((#[trigger] r[i]).0) != name_key(
                    (#[trigger] r[j]).0,
                )
        }),
{
    let a = Gathered::shell(shell, shell.len() as int);
    lemma_shell_once(shell, shell.len() as int);
    let b = a.shortcuts(shortcuts, shortcuts.len() as int);
    lemma_shortcuts_once(a, shortcuts, shortcuts.len() as int);
    let c = b.installed(installed, env, disk, installed.len() as int);
    lemma_installed_once(b, installed, env, disk, installed.len() as int);
    lemma_tools_once(c, env, present, 88);
    let d = all_sources(shell, shortcuts, installed, disk, present, env);
    assert forall|i: int, j: int| 0 <= i < j < d.rows.len() implies name_key(
        (#[trigger] d.rows[i]).0,
    ) != name_key((#[trigger] d.rows[j]).0) by {
        assert(d.taken[i] != d.taken[j]);
    }
}

/// The taken keys are those of the rows, and no key is taken twice.
spec fn once(g: Gathered) -> bool {
    &&& g.taken.len() == g.rows.len()
    &&& forall|i: int| 0 <= i < g.rows.len() ==> #[trigger] g.taken[i] == name_key(g.rows[i].0)
    &&& g.taken.no_duplicates()
}

proof fn lemma_with_once(g: Gathered, row: Row)
    requires
        once(g),
    ensures
        once(g.with(row)),
{
    let k = name_key(row.0);
    if !g.taken.contains(k) {
        let t = g.taken.push(k);
        assert forall|i: int, j: int| 0 <= i < t.len() && 0 <= j < t.len() && i != j implies t[i]
            != t[j] by {
            if i == g.taken.len() {
                assert(g.taken[j] != k);
            } else if j == g.taken.len() {
                assert(g.taken[i] != k);
            }
        }
    }
}

proof fn lemma_shell_once(shell: Seq<AppEntry>, n: int)
    ensures
        once(Gathered::shell(shell, n)),
    decreases n,
{
    if n > 0 {
        lemma_shell_once(shell, n - 1);
        lemma_with_once(Gathered::shell(shell, n - 1), row_of(shell[n - 1]));
    }
}

proof fn lemma_shortcuts_once(g: Gathered, found: Seq<Shortcut>, n: int)
    requires
        once(g),
    ensures
        once(g.shortcuts(found, n)),
    decreases n,
{
    if n > 0 {
        lemma_shortcuts_once(g, found, n - 1);
        let s = found[n - 1];
        lemma_with_once(g.shortcuts(found, n - 1), (trimmed(s.stem@), s.path@, None));
    }
}

proof fn lemma_installed_once(g: Gathered, apps: Seq<InstalledApp>, env: Env, disk: Disk, n: int)
    requires
        once(g),
    ensures
        once(g.installed(apps, env, disk, n)),
    decreases n,
{
    if n > 0 {
        lemma_installed_once(g, apps, env, disk, n - 1);
        match app_path_of(apps[n - 1], env, disk) {
            Some(p) => {
                lemma_with_once(
                    g.installed(apps, env, disk, n - 1),
                    (apps[n - 1].name@, p, None),
                );
            },
            None => {},
        }
    }
}

proof fn lemma_tools_once(g: Gathered, env: Env, present: Seq<bool>, n: int)
    requires
        once(g),
    ensures
        once(g.tools(env, present, n)),
    decreases n,
{
    if n > 0 {
        lemma_tools_once(g, env, present, n - 1);
        lemma_with_once(
            g.tools(env, present, n - 1),
            (TOOLS@[n - 1].0@, tool_target(n - 1, env), None),
        );
    }
}

/// The id of an entry of the shell stands behind the name of its folder, in any of
/// the three ways in which that is written.
pub proof fn law_id_stands_behind_its_folder(id: Seq<char>)
    ensures
        shell_id("shell:appsFolder\\"@ + id) == id,
        shell_id("shell:APPSFOLDER\\"@ + id) == id,
        shell_id("shell:AppsFolder\\"@ + id) == id,
        id.len() > 0 && id[0] != 's' ==> shell_id(id) == id,
{
    reveal_strlit("shell:appsFolder\\");
    reveal_strlit("shell:APPSFOLDER\\");
    reveal_strlit("shell:AppsFolder\\");
    let (a, b, c) = ("shell:appsFolder\\"@, "shell:APPSFOLDER\\"@, "shell:AppsFolder\\"@);
    assert((a + id).subrange(0, 17) =~= a);
    assert((b + id).subrange(0, 17) =~= b);
    assert((c + id).subrange(0, 17) =~= c);
    assert(a[6] == 'a' && b[6] == 'A' && c[6] == 'A' && b[7] == 'P' && c[7] == 'p');
    assert((a + id).skip(17) =~= id);
    assert((b + id).skip(17) =~= id);
    assert((c + id).skip(17) =~= id);
    if id.len() >= 17 {
        assert(id.subrange(0, 17)[0] == id[0]);
        assert(a[0] == 's' && b[0] == 's' && c[0] == 's');
    }
}

/// The start menu that all users share is read first, then the user's own; one
/// whose folder is not known is left out.
pub proof fn law_start_menus(env: Env)
    ensures
        ({
            let tail = "\\Microsoft\\Windows\\Start Menu\\Programs"@;
            let shared = env.get("ProgramData"@);
            let own = env.get("APPDATA"@);
            let roots = menu_roots(env);
            &&& shared is Some && shared->0.len() > 0 ==> roots.len() > 0 && roots[0] == shared->0
                + tail
            &&& shared is None ==> roots.len() > 0 && roots[0] == "C:\\ProgramData"@ + tail
            &&& own is Some && own->0.len() > 0 ==> roots.len() > 0 && roots.last() == own->0
                + tail
            &&& own is None ==> roots.len() <= 1
            &&& roots.len() <= 2
        }),
{
    reveal_strlit("C:\\ProgramData");
    reveal_strlit("");
}

/// A page of the settings and a folder of the shell can always be used, a file
/// only where it is there; the tools of the system lie in its folder.
pub proof fn law_tools_of_the_system(i: int, env: Env, rest: Seq<char>, present: bool)
    ensures
        usable("ms-settings:"@ + rest, present),
        usable("shell:::{"@ + rest, present),
        usable(rest, true),
        rest.len() > 0 && rest[0] != 'm' && rest[0] != 's' ==> !usable(rest, false),
        TOOLS@[i].1@.len() > 0 && TOOLS@[i].1@[0] == '\\' ==> tool_target(i, env) == env.or(
            "SystemRoot"@,
            "C:\\Windows"@,
        ) + "\\System32"@ + TOOLS@[i].1@,
        TOOLS@[i].1@.len() > 0 && TOOLS@[i].1@[0] != '\\' ==> tool_target(i, env) == TOOLS@[i].1@,
{
    reveal_strlit("ms-settings:");
    reveal_strlit("shell:::{");
    reveal_strlit("\\");
    let (a, b) = ("ms-settings:"@, "shell:::{"@);
    assert((a + rest).subrange(0, 12) =~= a);
    assert((b + rest).subrange(0, 9) =~= b);
    if rest.len() >= 12 {
        assert(rest.subrange(0, 12)[0] == rest[0] && a[0] == 'm');
    }
    if rest.len() >= 9 {
        assert(rest.subrange(0, 9)[0] == rest[0] && b[0] == 's');
    }
    let t = TOOLS@[i].1@;
    if t.len() > 0 {
        assert(t.subrange(0, 1)[0] == t[0]);
        if t[0] == '\\' {
            assert(t.subrange(0, 1) =~= "\\"@);
        } else {
            assert("\\"@[0] == '\\');
        }
    }
}

} // verus!
