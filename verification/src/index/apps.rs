//! Installed applications, as the uninstall lists, the MSI database and the
//! application paths of the registry name them.
use crate::bytes::{lemma_lex_antisymmetric, lex_le};
use crate::sort::{is_order, key_le, stable_order, SortKey};
use crate::text::{
    ascii_lower, ascii_word, chars_of, is_ascii_word, lowercase, str_ascii_lower, str_ends, str_eq,
    str_trim, string_of, text_ends, trimmed,
};
use crate::winpath::{
    extension, file_stem, parent, path_extension, path_file_stem, path_parent, path_push,
    pushed,
};
use vstd::prelude::*;
use vstd::utf8::{encode_utf8, encode_utf8_decode_utf8};

pub use crate::env::expand_env_vars;

verus! {

/// An installed application.
pub struct InstalledApp {
    pub name: String,
    pub install_location: Option<String>,
    pub publisher: Option<String>,
    pub uninstall_string: Option<String>,
    pub quiet_uninstall_string: Option<String>,
    pub icon: Option<String>,
}

/// A copy of an optional text.
fn same(o: &Option<String>) -> (r: Option<String>)
    ensures
        r == *o,
{
    match o {
        Some(s) => Some(s.clone()),
        None => None,
    }
}

/// A copy of an optional text, or of another where there is none.
fn same_or(o: &Option<String>, other: &Option<String>) -> (r: Option<String>)
    ensures
        r == if *o is Some {
            *o
        } else {
            *other
        },
{
    match o {
        Some(s) => Some(s.clone()),
        None => same(other),
    }
}

impl Clone for InstalledApp {
    fn clone(&self) -> (r: Self)
        ensures
            r == *self,
    {
        InstalledApp {
            name: self.name.clone(),
            install_location: same(&self.install_location),
            publisher: same(&self.publisher),
            uninstall_string: same(&self.uninstall_string),
            quiet_uninstall_string: same(&self.quiet_uninstall_string),
            icon: same(&self.icon),
        }
    }
}

/// What two entries of one application have in common: the name in lowercase.
pub open spec fn app_key(app: InstalledApp) -> Seq<char> {
    lowercase(app.name@)
}

/// The first of the first `n` entries with a key, or -1.
pub open spec fn first_named(apps: Seq<InstalledApp>, key: Seq<char>, n: int) -> int
    decreases n,
{
    if n <= 0 {
        -1
    } else if first_named(apps, key, n - 1) >= 0 {
        first_named(apps, key, n - 1)
    } else if app_key(apps[n - 1]) == key {
        n - 1
    } else {
        -1
    }
}

/// The first value that one of the first `n` entries with a key has in a field.
pub open spec fn first_value(
    apps: Seq<InstalledApp>,
    key: Seq<char>,
    n: int,
    field: spec_fn(InstalledApp) -> Option<String>,
) -> Option<String>
    decreases n,
{
    if n <= 0 {
        None
    } else if first_value(apps, key, n - 1, field) is Some {
        first_value(apps, key, n - 1, field)
    } else if app_key(apps[n - 1]) == key {
        field(apps[n - 1])
    } else {
        None
    }
}

/// `m` stands for all of the first `n` entries with its key: the name and the
/// publisher of the first, and the first value of each other field.
pub open spec fn stands_for(m: InstalledApp, apps: Seq<InstalledApp>, n: int) -> bool {
    let key = app_key(m);
    let first = first_named(apps, key, n);
    &&& 0 <= first < n
    &&& m.name == apps[first].name
    &&& m.publisher == apps[first].publisher
    &&& m.install_location == first_value(apps, key, n, |a: InstalledApp| a.install_location)
    &&& m.icon == first_value(apps, key, n, |a: InstalledApp| a.icon)
    &&& m.uninstall_string == first_value(apps, key, n, |a: InstalledApp| a.uninstall_string)
    &&& m.quiet_uninstall_string == first_value(
        apps,
        key,
        n,
        |a: InstalledApp| a.quiet_uninstall_string,
    )
}

/// Some entry has a key.
pub open spec fn has_key(apps: Seq<InstalledApp>, key: Seq<char>) -> bool {
    exists|i: int| 0 <= i < apps.len() && app_key(#[trigger] apps[i]) == key
}

/// `a` stands before `b` in the list of applications.
pub open spec fn before(a: InstalledApp, b: InstalledApp) -> bool {
    app_key(a) != app_key(b) && lex_le(encode_utf8(app_key(a)), encode_utf8(app_key(b)))
}

proof fn lemma_first_named(apps: Seq<InstalledApp>, key: Seq<char>, n: int)
    requires
        0 <= n <= apps.len(),
    ensures
        -1 <= first_named(apps, key, n) < n || n == 0,
        first_named(apps, key, n) < 0 ==> first_named(apps, key, n) == -1 && forall|i: int|
            0 <= i < n ==> app_key(#[trigger] apps[i]) != key,
        first_named(apps, key, n) >= 0 ==> app_key(apps[first_named(apps, key, n)]) == key,
    decreases n,
{
    if n > 0 {
        lemma_first_named(apps, key, n - 1);
    }
}

proof fn lemma_no_value(
    apps: Seq<InstalledApp>,
    key: Seq<char>,
    n: int,
    field: spec_fn(InstalledApp) -> Option<String>,
)
    requires
        0 <= n <= apps.len(),
        forall|i: int| 0 <= i < n ==> app_key(#[trigger] apps[i]) != key,
    ensures
        first_value(apps, key, n, field) is None,
    decreases n,
{
    if n > 0 {
        lemma_no_value(apps, key, n - 1, field);
    }
}

/// Where an entry with a key stands.
fn find_app(apps: &Vec<InstalledApp>, key: &str) -> (r: Option<usize>)
    ensures
        r is Some ==> r->0 < apps.len() && app_key(apps@[r->0 as int]) == key@,
        r is None ==> !has_key(apps@, key@),
{
    let mut i: usize = 0;
    while i < apps.len()
        invariant
            i <= apps.len(),
            forall|k: int| 0 <= k < i ==> app_key(#[trigger] apps@[k]) != key@,
        decreases apps.len() - i,
    {
        if str_eq(apps[i].name.as_str().to_lowercase().as_str(), key) {
            return Some(i);
        }
        i = i + 1;
    }
    None
}

/// The entries merged by key, in the order of their first appearance.
fn merge_apps(apps: &Vec<InstalledApp>) -> (out: Vec<InstalledApp>)
    ensures
        forall|i: int, j: int|
            0 <= i < j < out.len() ==> app_key(#[trigger] out@[i]) != app_key(#[trigger] out@[j]),
        forall|key: Seq<char>| has_key(out@, key) <==> has_key(apps@, key),
        forall|i: int|
            0 <= i < out.len() ==> stands_for(#[trigger] out@[i], apps@, apps@.len() as int),
{
    let mut out: Vec<InstalledApp> = Vec::new();
    let mut n: usize = 0;
    while n < apps.len()
        invariant
            n <= apps.len(),
            forall|i: int, j: int|
                0 <= i < j < out.len() ==> app_key(#[trigger] out@[i]) != app_key(
                    #[trigger] out@[j],
                ),
            forall|j: int| 0 <= j < n ==> has_key(out@, app_key(#[trigger] apps@[j])),
            forall|i: int| 0 <= i < out.len() ==> stands_for(#[trigger] out@[i], apps@, n as int),
        decreases apps.len() - n,
    {
        let app = &apps[n];
        let key = app.name.as_str().to_lowercase();
        let ghost prev = out@;
        let ghost f1 = |a: InstalledApp| a.install_location;
        let ghost f2 = |a: InstalledApp| a.icon;
        let ghost f3 = |a: InstalledApp| a.uninstall_string;
        let ghost f4 = |a: InstalledApp| a.quiet_uninstall_string;
        proof {
            lemma_first_named(apps@, key@, n as int);
        }
        match find_app(&out, key.as_str()) {
            Some(at) => {
                let old_app = out[at].clone();
                let merged = InstalledApp {
                    name: old_app.name.clone(),
                    install_location: same_or(&old_app.install_location, &app.install_location),
                    publisher: same(&old_app.publisher),
                    uninstall_string: same_or(&old_app.uninstall_string, &app.uninstall_string),
                    quiet_uninstall_string: same_or(
                        &old_app.quiet_uninstall_string,
                        &app.quiet_uninstall_string,
                    ),
                    icon: same_or(&old_app.icon, &app.icon),
                };
                out.set(at, merged);
                proof {
                    assert forall|i: int| 0 <= i < out.len() implies stands_for(
                        #[trigger] out@[i],
                        apps@,
                        n + 1,
                    ) by {
                        assert(stands_for(prev[i], apps@, n as int));
                        assert(stands_for(prev[at as int], apps@, n as int));
                    }
                    assert forall|j: int| 0 <= j < n + 1 implies has_key(
                        out@,
                        app_key(#[trigger] apps@[j]),
                    ) by {
                        if j < n {
                            let k = app_key(apps@[j]);
                            assert(has_key(prev, k));
                            let w = choose|w: int|
                                0 <= w < prev.len() && app_key(#[trigger] prev[w]) == k;
                            assert(app_key(out@[w]) == k);
                        } else {
                            assert(app_key(out@[at as int]) == key@);
                        }
                    }
                    assert forall|i: int, j: int| 0 <= i < j < out.len() implies app_key(
                        #[trigger] out@[i],
                    ) != app_key(#[trigger] out@[j]) by {
                        assert(app_key(out@[i]) == app_key(prev[i]));
                        assert(app_key(out@[j]) == app_key(prev[j]));
                    }
                }
            },
            None => {
                out.push(app.clone());
                proof {
                    assert forall|j: int| 0 <= j < n implies app_key(#[trigger] apps@[j])
                        != key@ by {
                        assert(has_key(prev, app_key(apps@[j])));
                    }
                    lemma_no_value(apps@, key@, n as int, f1);
                    lemma_no_value(apps@, key@, n as int, f2);
                    lemma_no_value(apps@, key@, n as int, f3);
                    lemma_no_value(apps@, key@, n as int, f4);
                    assert forall|i: int| 0 <= i < out.len() implies stands_for(
                        #[trigger] out@[i],
                        apps@,
                        n + 1,
                    ) by {
                        if i < prev.len() {
                            assert(out@[i] == prev[i]);
                            assert(app_key(prev[i]) != key@);
                        } else {
                            assert(first_named(apps@, key@, n + 1) == n);
                        }
                    }
                    assert forall|j: int| 0 <= j < n + 1 implies has_key(
                        out@,
                        app_key(#[trigger] apps@[j]),
                    ) by {
                        if j < n {
                            let k = app_key(apps@[j]);
                            let w = choose|w: int|
                                0 <= w < prev.len() && app_key(#[trigger] prev[w]) == k;
                            assert(app_key(out@[w]) == k);
                        } else {
                            assert(app_key(out@[prev.len() as int]) == key@);
                        }
                    }
                    assert forall|i: int, j: int| 0 <= i < j < out.len() implies app_key(
                        #[trigger] out@[i],
                    ) != app_key(#[trigger] out@[j]) by {
                        assert(out@[i] == prev[i]);
                        if j < prev.len() {
                            assert(out@[j] == prev[j]);
                        } else {
                            assert(app_key(prev[i]) != key@);
                        }
                    }
                }
            },
        }
        n = n + 1;
    }
    proof {
        assert forall|key: Seq<char>| has_key(out@, key) <==> has_key(apps@, key) by {
            if has_key(out@, key) {
                let i = choose|i: int| 0 <= i < out@.len() && app_key(#[trigger] out@[i]) == key;
                assert(stands_for(out@[i], apps@, apps@.len() as int));
                lemma_first_named(apps@, key, apps@.len() as int);
                assert(app_key(apps@[first_named(apps@, key, apps@.len() as int)]) == key);
            }
            if has_key(apps@, key) {
                let j = choose|j: int| 0 <= j < apps@.len() && app_key(#[trigger] apps@[j]) == key;
                assert(has_key(out@, app_key(apps@[j])));
            }
        }
    }
    out
}

/// The installed applications, one per name whatever its case, ordered by the
/// name in lowercase. `apps` lists what the sources name, in their order.
pub fn get_installed_apps(apps: &Vec<InstalledApp>) -> (r: Vec<InstalledApp>)
    ensures
        forall|i: int, j: int|
            0 <= i < j < r.len() ==> before(#[trigger] r@[i], #[trigger] r@[j]),
        forall|key: Seq<char>| has_key(r@, key) <==> has_key(apps@, key),
        forall|i: int| 0 <= i < r.len() ==> stands_for(#[trigger] r@[i], apps@, apps@.len() as int),
{
    let merged = merge_apps(apps);
    let mut keys: Vec<SortKey> = Vec::new();
    let mut i: usize = 0;
    while i < merged.len()
        invariant
            i <= merged.len(),
            keys.len() == i,
            forall|k: int|
                0 <= k < i ==> (#[trigger] keys@[k]).num == 0 && keys@[k].text@ == encode_utf8(
                    app_key(merged@[k]),
                ),
        decreases merged.len() - i,
    {
        let low = merged[i].name.as_str().to_lowercase();
        keys.push(SortKey { num: 0, text: vstd::slice::slice_to_vec(low.as_str().as_bytes()) });
        i = i + 1;
    }
    let order = stable_order(&keys);
    let ghost ks = crate::sort::keys_of(keys@);
    let mut out: Vec<InstalledApp> = Vec::new();
    let mut k: usize = 0;
    while k < order.len()
        invariant
            k <= order.len(),
            out.len() == k,
            is_order(order@, ks),
            ks.len() == merged.len(),
            forall|m: int| 0 <= m < k ==> (#[trigger] out@[m]) == merged@[order@[m] as int],
        decreases order.len() - k,
    {
        assert(order@[k as int] < merged.len());
        out.push(merged[order[k]].clone());
        k = k + 1;
    }
    proof {
        assert forall|i: int, j: int| 0 <= i < j < out.len() implies before(
            #[trigger] out@[i],
            #[trigger] out@[j],
        ) by {
            let a = order@[i];
            let b = order@[j];
            assert(a != b);
            assert(a < merged.len() && b < merged.len());
            assert(key_le(ks[a as int], ks[b as int]));
            assert(ks[a as int] == (keys@[a as int].num, keys@[a as int].text@));
            assert(ks[b as int] == (keys@[b as int].num, keys@[b as int].text@));
            if a < b {
                assert(app_key(merged@[a as int]) != app_key(merged@[b as int]));
            } else {
                assert(app_key(merged@[b as int]) != app_key(merged@[a as int]));
            }
        }
        assert forall|i: int| 0 <= i < out.len() implies stands_for(
            #[trigger] out@[i],
            apps@,
            apps@.len() as int,
        ) by {
            assert(order@[i] < merged.len());
            assert(stands_for(merged@[order@[i] as int], apps@, apps@.len() as int));
        }
        assert forall|key: Seq<char>| has_key(out@, key) <==> has_key(apps@, key) by {
            if has_key(out@, key) {
                let i = choose|i: int| 0 <= i < out@.len() && app_key(#[trigger] out@[i]) == key;
                assert(order@[i] < merged.len());
                assert(app_key(merged@[order@[i] as int]) == key);
            }
            if has_key(apps@, key) {
                assert(has_key(merged@, key));
                let m = choose|m: int| 0 <= m < merged@.len() && app_key(#[trigger] merged@[m]) == key;
                let at = crate::sort::lemma_place(order@, ks, m as usize);
                assert(app_key(out@[at]) == key);
            }
        }
    }
    out
}

/// One list of entries has one result.
pub proof fn law_installed_apps_are_determined(
    apps: Seq<InstalledApp>,
    a: Seq<InstalledApp>,
    b: Seq<InstalledApp>,
)
    requires
        forall|i: int, j: int| 0 <= i < j < a.len() ==> before(#[trigger] a[i], #[trigger] a[j]),
        forall|i: int, j: int| 0 <= i < j < b.len() ==> before(#[trigger] b[i], #[trigger] b[j]),
        forall|key: Seq<char>| has_key(a, key) <==> has_key(apps, key),
        forall|key: Seq<char>| has_key(b, key) <==> has_key(apps, key),
        forall|i: int| 0 <= i < a.len() ==> stands_for(#[trigger] a[i], apps, apps.len() as int),
        forall|i: int| 0 <= i < b.len() ==> stands_for(#[trigger] b[i], apps, apps.len() as int),
    ensures
        a == b,
{
    lemma_same_prefix(a, b, a.len() as int);
    lemma_same_prefix(b, a, b.len() as int);
    assert(a =~= b);
}

proof fn lemma_same_prefix(a: Seq<InstalledApp>, b: Seq<InstalledApp>, n: int)
    requires
        0 <= n <= a.len(),
        forall|i: int, j: int| 0 <= i < j < a.len() ==> before(#[trigger] a[i], #[trigger] a[j]),
        forall|i: int, j: int| 0 <= i < j < b.len() ==> before(#[trigger] b[i], #[trigger] b[j]),
        forall|key: Seq<char>| has_key(a, key) <==> has_key(b, key),
        forall|i: int, j: int|
            0 <= i < a.len() && 0 <= j < b.len() && app_key(#[trigger] a[i]) == app_key(
                #[trigger] b[j],
            ) ==> a[i] == b[j],
    ensures
        n <= b.len(),
        forall|i: int| 0 <= i < n ==> a[i] == b[i],
    decreases n,
{
    if n > 0 {
        lemma_same_prefix(a, b, n - 1);
        let i = n - 1;
        let key = app_key(a[i]);
        assert(has_key(a, key));
        let p = choose|p: int| 0 <= p < b.len() && app_key(#[trigger] b[p]) == key;
        assert(p >= i) by {
            if p < i {
                assert(a[p] == b[p]);
                assert(before(a[p], a[i]));
            }
        }
        let key_b = app_key(b[i]);
        assert(has_key(b, key_b));
        let q = choose|q: int| 0 <= q < a.len() && app_key(#[trigger] a[q]) == key_b;
        assert(q >= i) by {
            if q < i {
                assert(a[q] == b[q]);
                assert(before(b[q], b[i]));
            }
        }
        if p > i && q > i {
            assert(before(b[i], b[p]));
            assert(before(a[i], a[q]));
            lemma_lex_antisymmetric(encode_utf8(key), encode_utf8(key_b));
            encode_utf8_decode_utf8(key);
            encode_utf8_decode_utf8(key_b);
        }
    }
}

/// An entry of an uninstall list, if it has a name.
pub fn uninstall_entry(
    name: Option<String>,
    install_location: Option<String>,
    publisher: Option<String>,
    uninstall_string: Option<String>,
    quiet_uninstall_string: Option<String>,
    icon: Option<String>,
) -> (r: Option<InstalledApp>)
    ensures
        r is Some <==> name is Some && trimmed(name->0@).len() > 0,
        r is Some ==> r->0 == (InstalledApp {
            name: name->0,
            install_location,
            publisher,
            uninstall_string,
            quiet_uninstall_string,
            icon,
        }),
{
    match name {
        Some(n) => {
            if str_trim(n.as_str()).as_str().is_empty() {
                None
            } else {
                Some(
                    InstalledApp {
                        name: n,
                        install_location,
                        publisher,
                        uninstall_string,
                        quiet_uninstall_string,
                        icon,
                    },
                )
            }
        },
        None => None,
    }
}

/// An MSI property as it counts: trimmed, and none where nothing is left.
pub fn msi_product_prop(value: &str) -> (r: Option<String>)
    ensures
        r is Some <==> trimmed(value@).len() > 0,
        r is Some ==> r->0@ == trimmed(value@),
{
    let t = str_trim(value);
    if t.as_str().is_empty() {
        None
    } else {
        Some(t)
    }
}

/// An ASCII letter as a capital.
pub open spec fn ascii_capital(c: char) -> char {
    if 'a' <= c <= 'z' {
        (c as u8 - 32) as char
    } else {
        c
    }
}

/// The letters and digits of a text, with a capital behind each gap; `gap` says
/// whether one stands before it. Apostrophes stay and are no gap.
pub open spec fn camel(s: Seq<char>, gap: bool) -> Seq<char>
    decreases s.len(),
{
    if s.len() == 0 {
        Seq::empty()
    } else if is_ascii_word(s[0]) {
        seq![
            if gap {
                ascii_capital(s[0])
            } else {
                s[0]
            },
        ] + camel(s.drop_first(), false)
    } else if s[0] == '\'' {
        seq![s[0]] + camel(s.drop_first(), gap)
    } else {
        camel(s.drop_first(), true)
    }
}

/// A title for the stem of an executable.
pub open spec fn title_of(stem: Seq<char>) -> Seq<char> {
    if camel(stem, true).len() == 0 {
        stem
    } else {
        camel(stem, true)
    }
}

/// A title for the stem of an executable: its letters and digits, with a
/// capital behind each gap.
pub fn prettify_exe_name(stem: &str) -> (r: String)
    ensures
        r@ == title_of(stem@),
{
    let s = chars_of(stem);
    let mut out: Vec<char> = Vec::new();
    let mut gap = true;
    let mut i: usize = 0;
    let ghost goal = camel(s@, true);
    assert(s@.skip(0) =~= s@);
    assert(out@ + goal =~= goal);
    while i < s.len()
        invariant
            i <= s.len(),
            out@ + camel(s@.skip(i as int), gap) == goal,
        decreases s.len() - i,
    {
        let c = s[i];
        let ghost rest = s@.skip(i as int);
        let ghost before = out@;
        let ghost was = gap;
        assert(rest[0] == c);
        assert(rest.drop_first() =~= s@.skip(i + 1));
        if ascii_word(c) {
            let put = if gap && 'a' <= c && c <= 'z' {
                (c as u8 - 32) as char
            } else {
                c
            };
            gap = false;
            out.push(put);
            assert(before.push(put) =~= before + seq![put]);
            let ghost t = camel(s@.skip(i + 1), false);
            assert((before + seq![put]) + t =~= before + (seq![put] + t));
        } else if c == '\'' {
            out.push(c);
            assert(before.push(c) =~= before + seq![c]);
            let ghost t = camel(s@.skip(i + 1), was);
            assert((before + seq![c]) + t =~= before + (seq![c] + t));
        } else {
            gap = true;
        }
        i = i + 1;
    }
    assert(out@ + camel(s@.skip(i as int), gap) =~= out@);
    if out.len() == 0 {
        stem.to_owned()
    } else {
        string_of(out.as_slice())
    }
}

/// The path that an entry of the application paths gives, before its variables
/// are expanded: its default value, else its directory with the key's name.
pub open spec fn app_path_of(
    key: Seq<char>,
    default_path: Option<String>,
    dir: Option<String>,
) -> Option<Seq<char>> {
    if !text_ends(lowercase(key), ".exe"@) {
        None
    } else if default_path is Some {
        Some(default_path->0@)
    } else if dir is Some {
        Some(pushed(dir->0@, key))
    } else {
        None
    }
}

/// The path that an entry of the application paths gives, before its variables
/// are expanded.
pub fn app_path_candidate(
    key: &str,
    default_path: &Option<String>,
    dir: &Option<String>,
) -> (r: Option<String>)
    ensures
        r is Some <==> app_path_of(key@, *default_path, *dir) is Some,
        r is Some ==> r->0@ == app_path_of(key@, *default_path, *dir)->0,
{
    if !str_ends(key.to_lowercase().as_str(), ".exe") {
        return None;
    }
    match default_path {
        Some(p) => Some(p.clone()),
        None => match dir {
            Some(d) => Some(path_push(d.as_str(), key)),
            None => None,
        },
    }
}

/// The application that the executable at an expanded path is; `is_file` says
/// whether a file stands there.
pub fn app_from_path(path: &str, is_file: bool) -> (r: Option<InstalledApp>)
    ensures
        r is Some <==> is_file && extension(path@) is Some && ascii_lower(extension(path@)->0)
            == "exe"@,
        r is Some ==> {
            &&& r->0.name@ == title_of(file_stem(path@)->0)
            &&& r->0.install_location is Some <==> parent(path@) is Some
            &&& r->0.install_location is Some ==> r->0.install_location->0@ == parent(path@)->0
            &&& r->0.publisher is None
            &&& r->0.uninstall_string is None
            &&& r->0.quiet_uninstall_string is None
            &&& r->0.icon is None
        },
{
    if !is_file {
        return None;
    }
    let exe = match path_extension(path) {
        Some(e) => str_eq(str_ascii_lower(e.as_str()).as_str(), "exe"),
        None => false,
    };
    if !exe {
        return None;
    }
    match path_file_stem(path) {
        Some(stem) => Some(
            InstalledApp {
                name: prettify_exe_name(stem.as_str()),
                install_location: path_parent(path),
                publisher: None,
                uninstall_string: None,
                quiet_uninstall_string: None,
                icon: None,
            },
        ),
        None => None,
    }
}

/// A merged entry has the name and the publisher of the first entry of its key,
/// and in each other field the value of the first entry of the key that has one.
pub proof fn law_first_value_is_kept(
    m: InstalledApp,
    apps: Seq<InstalledApp>,
    i: int,
)
    requires
        stands_for(m, apps, apps.len() as int),
        0 <= i < apps.len(),
        lowercase(apps[i].name@) == lowercase(m.name@),
    ensures
        (forall|k: int| 0 <= k < i ==> lowercase((#[trigger] apps[k]).name@) != lowercase(m.name@))
            ==> m.name == apps[i].name && m.publisher == apps[i].publisher,
        apps[i].install_location is Some && (forall|k: int|
            0 <= k < i && lowercase((#[trigger] apps[k]).name@) == lowercase(m.name@)
                ==> apps[k].install_location is None) ==> m.install_location
            == apps[i].install_location,
        apps[i].icon is Some && (forall|k: int|
            0 <= k < i && lowercase((#[trigger] apps[k]).name@) == lowercase(m.name@)
                ==> apps[k].icon is None) ==> m.icon == apps[i].icon,
        apps[i].uninstall_string is Some && (forall|k: int|
            0 <= k < i && lowercase((#[trigger] apps[k]).name@) == lowercase(m.name@)
                ==> apps[k].uninstall_string is None) ==> m.uninstall_string
            == apps[i].uninstall_string,
        apps[i].quiet_uninstall_string is Some && (forall|k: int|
            0 <= k < i && lowercase((#[trigger] apps[k]).name@) == lowercase(m.name@)
                ==> apps[k].quiet_uninstall_string is None) ==> m.quiet_uninstall_string
            == apps[i].quiet_uninstall_string,
        m.icon is Some ==> exists|k: int|
            0 <= k < apps.len() && lowercase((#[trigger] apps[k]).name@) == lowercase(m.name@)
                && apps[k].icon == m.icon,
        m.install_location is Some ==> exists|k: int|
            0 <= k < apps.len() && lowercase((#[trigger] apps[k]).name@) == lowercase(m.name@)
                && apps[k].install_location == m.install_location,
{
    let key = app_key(m);
    let n = apps.len() as int;
    if forall|k: int| 0 <= k < i ==> lowercase((#[trigger] apps[k]).name@) != lowercase(m.name@) {
        lemma_first_is(apps, key, n, i);
    }
    lemma_value_is(apps, key, n, i, |a: InstalledApp| a.install_location);
    lemma_value_is(apps, key, n, i, |a: InstalledApp| a.icon);
    lemma_value_is(apps, key, n, i, |a: InstalledApp| a.uninstall_string);
    lemma_value_is(apps, key, n, i, |a: InstalledApp| a.quiet_uninstall_string);
    lemma_value_from(apps, key, n, |a: InstalledApp| a.install_location);
    lemma_value_from(apps, key, n, |a: InstalledApp| a.icon);
}

proof fn lemma_first_is(apps: Seq<InstalledApp>, key: Seq<char>, n: int, i: int)
    requires
        0 <= i < n <= apps.len(),
        app_key(apps[i]) == key,
        forall|k: int| 0 <= k < i ==> app_key(#[trigger] apps[k]) != key,
    ensures
        first_named(apps, key, n) == i,
    decreases n,
{
    if n - 1 > i {
        lemma_first_is(apps, key, n - 1, i);
    } else {
        lemma_none_before(apps, key, i);
    }
}

proof fn lemma_none_before(apps: Seq<InstalledApp>, key: Seq<char>, n: int)
    requires
        0 <= n <= apps.len(),
        forall|k: int| 0 <= k < n ==> app_key(#[trigger] apps[k]) != key,
    ensures
        first_named(apps, key, n) == -1,
    decreases n,
{
    if n > 0 {
        lemma_none_before(apps, key, n - 1);
    }
}

proof fn lemma_value_is(
    apps: Seq<InstalledApp>,
    key: Seq<char>,
    n: int,
    i: int,
    field: spec_fn(InstalledApp) -> Option<String>,
)
    requires
        0 <= i < n <= apps.len(),
        app_key(apps[i]) == key,
    ensures
        field(apps[i]) is Some && (forall|k: int|
            0 <= k < i && app_key(#[trigger] apps[k]) == key ==> field(apps[k]) is None)
            ==> first_value(apps, key, n, field) == field(apps[i]),
    decreases n,
{
    if field(apps[i]) is Some && (forall|k: int|
        0 <= k < i && app_key(#[trigger] apps[k]) == key ==> field(apps[k]) is None) {
        if n - 1 > i {
            lemma_value_is(apps, key, n - 1, i, field);
        } else {
            lemma_value_none(apps, key, i, field);
        }
    }
}

proof fn lemma_value_none(
    apps: Seq<InstalledApp>,
    key: Seq<char>,
    n: int,
    field: spec_fn(InstalledApp) -> Option<String>,
)
    requires
        0 <= n <= apps.len(),
        forall|k: int| 0 <= k < n && app_key(#[trigger] apps[k]) == key ==> field(apps[k]) is None,
    ensures
        first_value(apps, key, n, field) is None,
    decreases n,
{
    if n > 0 {
        lemma_value_none(apps, key, n - 1, field);
    }
}

proof fn lemma_value_from(
    apps: Seq<InstalledApp>,
    key: Seq<char>,
    n: int,
    field: spec_fn(InstalledApp) -> Option<String>,
)
    requires
        0 <= n <= apps.len(),
    ensures
        first_value(apps, key, n, field) is Some ==> exists|k: int|
            0 <= k < n && app_key(#[trigger] apps[k]) == key && field(apps[k]) == first_value(
                apps,
                key,
                n,
                field,
            ),
    decreases n,
{
    if n > 0 {
        lemma_value_from(apps, key, n - 1, field);
        if first_value(apps, key, n - 1, field) is Some {
            let k = choose|k: int|
                0 <= k < n - 1 && app_key(#[trigger] apps[k]) == key && field(apps[k])
                    == first_value(apps, key, n - 1, field);
            assert(app_key(apps[k]) == key);
        } else if first_value(apps, key, n, field) is Some {
            assert(app_key(apps[n - 1]) == key);
        }
    }
}

/// A title is made of the words of a stem: what is no ASCII letter, digit or
/// apostrophe parts them, and each begins with a capital. Apostrophes stay.
pub proof fn law_title_is_made_of_words(a: Seq<char>, c: char, b: Seq<char>, gap: bool)
    ensures
        !('a' <= c <= 'z' || 'A' <= c <= 'Z' || '0' <= c <= '9' || c == '\'') ==> camel(
            a.push(c) + b,
            gap,
        ) == camel(a, gap) + camel(b, true),
        (forall|k: int|
            0 <= k < a.len() ==> 'a' <= #[trigger] a[k] <= 'z' || 'A' <= a[k] <= 'Z' || '0' <= a[k]
                <= '9') ==> camel(a, false) == a && (a.len() > 0 ==> camel(a, true) == seq![
            if 'a' <= a[0] <= 'z' {
                (a[0] as u8 - 32) as char
            } else {
                a[0]
            },
        ] + a.drop_first()),
        camel(seq!['\''] + b, gap) == seq!['\''] + camel(b, gap),
    decreases a.len(),
{
    assert((seq!['\''] + b).drop_first() =~= b);
    let s = a.push(c) + b;
    if a.len() == 0 {
        assert(s.drop_first() =~= b);
        assert(camel(a, gap) + camel(b, true) =~= camel(b, true));
        assert(camel(a, false) =~= a);
    } else {
        let rest = a.drop_first();
        assert(s.drop_first() =~= rest.push(c) + b);
        law_title_is_made_of_words(rest, c, b, false);
        law_title_is_made_of_words(rest, c, b, true);
        law_title_is_made_of_words(rest, c, b, gap);
        if !('a' <= c <= 'z' || 'A' <= c <= 'Z' || '0' <= c <= '9' || c == '\'') {
            assert(camel(s, gap) =~= camel(a, gap) + camel(b, true));
        }
        if forall|k: int|
            0 <= k < a.len() ==> 'a' <= #[trigger] a[k] <= 'z' || 'A' <= a[k] <= 'Z' || '0' <= a[k]
                <= '9' {
            assert forall|k: int| 0 <= k < rest.len() implies 'a' <= #[trigger] rest[k] <= 'z'
                || 'A' <= rest[k] <= 'Z' || '0' <= rest[k] <= '9' by {
                assert(rest[k] == a[k + 1]);
            }
            assert(is_ascii_word(a[0]));
            assert(camel(a, false) =~= a);
        }
    }
}

/// The title of an executable is its name where no words can be made of that; it
/// is never empty.
pub proof fn law_title_is_never_empty(stem: Seq<char>)
    ensures
        stem.len() > 0 ==> title_of(stem).len() > 0,
        camel(stem, true).len() == 0 ==> title_of(stem) == stem,
{
}

} // verus!
