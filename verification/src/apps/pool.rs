//! The pool of launchable applications: its entries, how they are searched,
//! and when a newly discovered pool replaces the one in use.
use crate::sort::{is_order, stable_order, SortKey};
use crate::text::{
    ascii_letter, chars_at, chars_find, chars_of, has_text, is_ascii_letter, lowercase, str_eq,
    str_starts, str_trim, text_at, text_starts, trimmed,
};
use vstd::prelude::*;
use vstd::utf8::encode_utf8;

verus! {

/// An application that the launcher offers.
pub struct AppEntry {
    pub name: String,
    pub path: String,
    pub icon: Option<String>,
}

impl Clone for AppEntry {
    fn clone(&self) -> (r: Self)
        ensures
            r == *self,
    {
        let icon = match &self.icon {
            Some(i) => Some(i.clone()),
            None => None,
        };
        AppEntry { name: self.name.clone(), path: self.path.clone(), icon }
    }
}

/// A row that the launcher shows.
pub struct UiResult {
    pub name: String,
    pub path: String,
    pub is_dir: bool,
    pub kind: &'static str,
    pub rank: u8,
}

/// The row of an application.
pub open spec fn is_app_row(r: UiResult, app: AppEntry, rank: u8) -> bool {
    &&& r.name@ == app.name@
    &&& r.path@ == app.path@
    &&& !r.is_dir
    &&& r.kind@ == "app"@
    &&& r.rank == rank
}

/// The row of an application.
fn app_row(app: &AppEntry, rank: u8) -> (r: UiResult)
    ensures
        is_app_row(r, *app, rank),
{
    UiResult {
        name: app.name.clone(),
        path: app.path.clone(),
        is_dir: false,
        kind: "app",
        rank,
    }
}

/// The whole pool, as rows.
pub fn get_all_apps(apps: &Vec<AppEntry>) -> (r: Vec<UiResult>)
    ensures
        r.len() == apps.len(),
        forall|i: int| 0 <= i < r.len() ==> is_app_row(#[trigger] r@[i], apps@[i], 0),
{
    let mut out: Vec<UiResult> = Vec::new();
    let mut i: usize = 0;
    while i < apps.len()
        invariant
            i <= apps.len(),
            out.len() == i,
            forall|k: int| 0 <= k < i ==> is_app_row(#[trigger] out@[k], apps@[k], 0),
        decreases apps.len() - i,
    {
        out.push(app_row(&apps[i], 0));
        i = i + 1;
    }
    out
}

/// A character at which the words of a name part.
pub open spec fn is_break(c: char) -> bool {
    c == ' ' || c == '-' || c == '_' || c == '.' || c == '(' || c == '['
}

/// A word of `name` begins at `at`.
pub open spec fn word_at(name: Seq<char>, at: int) -> bool {
    0 <= at <= name.len() && (at == 0 || is_break(name[at - 1]))
}

/// A word of `name` begins with `q`: no break stands in it.
pub open spec fn word_begins(name: Seq<char>, q: Seq<char>) -> bool {
    &&& forall|i: int| 0 <= i < q.len() ==> !is_break(#[trigger] q[i])
    &&& exists|at: int| #[trigger] word_at(name, at) && text_at(name, q, at)
}

/// How well a lowercase name matches a query: 0 is the name itself, 1 a
/// beginning of it, 2 a beginning of a word, 3 any part.
pub open spec fn rank_of(name: Seq<char>, q: Seq<char>) -> Option<u8> {
    if name == q {
        Some(0)
    } else if text_starts(name, q) {
        Some(1)
    } else if word_begins(name, q) {
        Some(2)
    } else if has_text(name, q) {
        Some(3)
    } else {
        None
    }
}

/// Whether the words of a name part at a character.
fn breaks(c: char) -> (r: bool)
    ensures
        r == is_break(c),
{
    c == ' ' || c == '-' || c == '_' || c == '.' || c == '(' || c == '['
}

/// Whether a word of `name` begins with `q`.
fn begins_word(name: &[char], q: &[char]) -> (r: bool)
    ensures
        r == word_begins(name@, q@),
{
    let mut i: usize = 0;
    while i < q.len()
        invariant
            i <= q@.len(),
            forall|k: int| 0 <= k < i ==> !is_break(#[trigger] q@[k]),
        decreases q@.len() - i,
    {
        if breaks(q[i]) {
            assert(is_break(q@[i as int]));
            return false;
        }
        i = i + 1;
    }
    let mut at: usize = 0;
    while at <= name.len()
        invariant
            forall|k: int| 0 <= k < at ==> !(#[trigger] word_at(name@, k) && text_at(name@, q@, k)),
            forall|k: int| 0 <= k < q@.len() ==> !is_break(#[trigger] q@[k]),
        decreases name.len() + 1 - at,
    {
        if (at == 0 || breaks(name[at - 1])) && chars_at(name, q, at) {
            assert(word_at(name@, at as int));
            return true;
        }
        if at == name.len() {
            return false;
        }
        at = at + 1;
    }
    false
}

/// How well a lowercase name matches a query.
pub fn app_rank(name_lower: &str, q: &str) -> (r: Option<u8>)
    ensures
        r == rank_of(name_lower@, q@),
{
    if str_eq(name_lower, q) {
        return Some(0);
    }
    let name = chars_of(name_lower);
    let query = chars_of(q);
    if chars_at(name.as_slice(), query.as_slice(), 0) {
        return Some(1);
    }
    if begins_word(name.as_slice(), query.as_slice()) {
        return Some(2);
    }
    match chars_find(name.as_slice(), query.as_slice(), 0) {
        Some(_) => Some(3),
        None => None,
    }
}

/// How often each application was launched, by its path in lowercase.
pub struct Usage {
    pub counts: Vec<(String, u32)>,
}

/// The first count that stands under a key.
pub open spec fn count_under(counts: Seq<(String, u32)>, key: Seq<char>) -> u32
    decreases counts.len(),
{
    if counts.len() == 0 {
        0
    } else if counts[0].0@ == key {
        counts[0].1
    } else {
        count_under(counts.drop_first(), key)
    }
}

impl Usage {
    /// How often the application under a key was launched.
    pub open spec fn times(&self, key: Seq<char>) -> u32 {
        count_under(self.counts@, key)
    }

    /// Nothing was launched yet.
    pub fn new() -> (r: Usage)
        ensures
            forall|key: Seq<char>| r.times(key) == 0,
    {
        Usage { counts: Vec::new() }
    }

    /// Where a key stands.
    fn find(&self, key: &str) -> (r: Option<usize>)
        ensures
            r is Some ==> r->0 < self.counts.len() && self.counts@[r->0 as int].0@ == key@
                && self.counts@[r->0 as int].1 == self.times(key@),
            r is Some ==> forall|i: int|
                0 <= i < r->0 ==> (#[trigger] self.counts@[i]).0@ != key@,
            r is None ==> self.times(key@) == 0 && forall|i: int|
                0 <= i < self.counts@.len() ==> (#[trigger] self.counts@[i]).0@ != key@,
    {
        let mut i: usize = 0;
        assert(self.counts@.skip(0) =~= self.counts@);
        while i < self.counts.len()
            invariant
                i <= self.counts.len(),
                count_under(self.counts@.skip(i as int), key@) == self.times(key@),
                forall|k: int| 0 <= k < i ==> (#[trigger] self.counts@[k]).0@ != key@,
            decreases self.counts.len() - i,
        {
            assert(self.counts@.skip(i as int)[0] == self.counts@[i as int]);
            if str_eq(self.counts[i].0.as_str(), key) {
                return Some(i);
            }
            assert(self.counts@.skip(i as int).drop_first() =~= self.counts@.skip(i + 1));
            i = i + 1;
        }
        None
    }

    /// How often the application at a path was launched.
    pub fn of(&self, path: &str) -> (r: u32)
        ensures
            r == self.times(lowercase(path@)),
    {
        match self.find(path.to_lowercase().as_str()) {
            Some(i) => self.counts[i].1,
            None => 0,
        }
    }

    /// Counts one launch of the application at a path; the count stops at its
    /// largest value.
    pub fn launched(&mut self, path: &str)
        ensures
            forall|key: Seq<char>|
                final(self).times(key) == if key == lowercase(path@) {
                    if old(self).times(key) == u32::MAX {
                        u32::MAX
                    } else {
                        (old(self).times(key) + 1) as u32
                    }
                } else {
                    old(self).times(key)
                },
    {
        let key = path.to_lowercase();
        let ghost before = self.counts@;
        match self.find(key.as_str()) {
            Some(i) => {
                let n: u32 = self.counts[i].1;
                let next: u32 = if n == u32::MAX {
                    n
                } else {
                    n + 1
                };
                self.counts.set(i, (key, next));
                proof {
                    assert forall|k: Seq<char>| #[trigger]
                        count_under(self.counts@, k) == if k == key@ {
                            next
                        } else {
                            count_under(before, k)
                        } by {
                        lemma_set_count(before, i as int, (key, next), k);
                    }
                }
            },
            None => {
                self.counts.push((key, 1));
                proof {
                    assert forall|k: Seq<char>| #[trigger]
                        count_under(self.counts@, k) == if k == key@ {
                            1
                        } else {
                            count_under(before, k)
                        } by {
                        lemma_push_count(before, (key, 1), k);
                    }
                }
            },
        }
    }
}

proof fn lemma_set_count(s: Seq<(String, u32)>, i: int, e: (String, u32), k: Seq<char>)
    requires
        0 <= i < s.len(),
        s[i].0@ == e.0@,
        forall|j: int| 0 <= j < i ==> (#[trigger] s[j]).0@ != e.0@,
    ensures
        count_under(s.update(i, e), k) == if k == e.0@ {
            e.1
        } else {
            count_under(s, k)
        },
    decreases s.len(),
{
    let t = s.update(i, e);
    if i == 0 {
        assert(t.drop_first() =~= s.drop_first());
    } else {
        assert(t[0] == s[0]);
        assert(t.drop_first() =~= s.drop_first().update(i - 1, e));
        assert forall|j: int| 0 <= j < i - 1 implies (#[trigger] s.drop_first()[j]).0@ != e.0@ by {
            assert(s.drop_first()[j] == s[j + 1]);
        }
        lemma_set_count(s.drop_first(), i - 1, e, k);
    }
}

proof fn lemma_push_count(s: Seq<(String, u32)>, e: (String, u32), k: Seq<char>)
    requires
        forall|j: int| 0 <= j < s.len() ==> (#[trigger] s[j]).0@ != e.0@,
    ensures
        count_under(s.push(e), k) == if k == e.0@ {
            e.1
        } else {
            count_under(s, k)
        },
    decreases s.len(),
{
    let t = s.push(e);
    if s.len() == 0 {
        assert(t[0] == e);
        assert(t.drop_first() =~= s);
    } else {
        assert(t[0] == s[0]);
        assert(t.drop_first() =~= s.drop_first().push(e));
        assert forall|j: int| 0 <= j < s.len() - 1 implies (#[trigger] s.drop_first()[j]).0@
            != e.0@ by {
            assert(s.drop_first()[j] == s[j + 1]);
        }
        lemma_push_count(s.drop_first(), e, k);
    }
}

/// What an application is found with under a lowercase query. The empty query
/// lists the applications without the pages of the settings.
pub open spec fn found_rank(app: AppEntry, q: Seq<char>) -> Option<u8> {
    if q.len() == 0 {
        if text_starts(app.name@, "Settings: "@) {
            None
        } else {
            Some(1)
        }
    } else {
        rank_of(lowercase(app.name@), q)
    }
}

/// The positions of the first `n` applications that a query finds.
pub open spec fn found_apps(apps: Seq<AppEntry>, q: Seq<char>, n: int) -> Seq<int>
    decreases n,
{
    if n <= 0 {
        Seq::empty()
    } else if found_rank(apps[n - 1], q) is Some {
        found_apps(apps, q, n - 1).push(n - 1)
    } else {
        found_apps(apps, q, n - 1)
    }
}

/// What a found application is ordered by: its rank, then how often it was
/// launched, the most launched first, then its name in lowercase.
pub open spec fn app_key(app: AppEntry, usage: Usage, q: Seq<char>) -> (u64, Seq<u8>) {
    (
        (found_rank(app, q)->0 * 0x1_0000_0000 + (u32::MAX - usage.times(
            lowercase(app.path@),
        ))) as u64,
        encode_utf8(lowercase(app.name@)),
    )
}

/// The keys of the found applications.
pub open spec fn app_keys(apps: Seq<AppEntry>, usage: Usage, q: Seq<char>) -> Seq<
    (u64, Seq<u8>),
> {
    found_apps(apps, q, apps.len() as int).map_values(|i: int| app_key(apps[i], usage, q))
}

/// How many rows a query shows at most.
pub open spec fn shown_limit(q: Seq<char>) -> int {
    if q.len() == 0 {
        16
    } else {
        10
    }
}

/// `r` shows the best of the found applications, in their order.
pub open spec fn shows_best(
    r: Seq<UiResult>,
    apps: Seq<AppEntry>,
    usage: Usage,
    q: Seq<char>,
) -> bool {
    let found = found_apps(apps, q, apps.len() as int);
    exists|order: Seq<usize>|
        {
            &&& #[trigger] is_order(order, app_keys(apps, usage, q))
            &&& r.len() == if found.len() < shown_limit(q) {
                found.len() as int
            } else {
                shown_limit(q)
            }
            &&& forall|i: int|
                0 <= i < r.len() ==> {
                    let app = apps[found[order[i] as int]];
                    is_app_row(#[trigger] r[i], app, found_rank(app, q)->0)
                }
        }
}

proof fn lemma_found_apps(apps: Seq<AppEntry>, q: Seq<char>, n: int)
    requires
        0 <= n <= apps.len(),
    ensures
        forall|i: int|
            0 <= i < found_apps(apps, q, n).len() ==> {
                let row = #[trigger] found_apps(apps, q, n)[i];
                0 <= row < n && found_rank(apps[row], q) is Some
            },
    decreases n,
{
    if n > 0 {
        lemma_found_apps(apps, q, n - 1);
    }
}

/// The applications that a query finds: the best matching first, of those the
/// most launched, then by name.
pub fn search_apps(query: &str, apps: &Vec<AppEntry>, usage: &Usage) -> (r: Vec<UiResult>)
    ensures
        shows_best(r@, apps@, *usage, lowercase(trimmed(query@))),
{
    let q = str_trim(query).as_str().to_lowercase();
    let ghost qs = q@;
    let browse = q.as_str().is_empty();
    let mut rows: Vec<usize> = Vec::new();
    let mut ranks: Vec<u8> = Vec::new();
    let mut keys: Vec<SortKey> = Vec::new();
    let mut i: usize = 0;
    while i < apps.len()
        invariant
            i <= apps.len(),
            q@ == qs,
            browse <==> qs.len() == 0,
            rows@.map_values(|x: usize| x as int) == found_apps(apps@, qs, i as int),
            ranks.len() == rows.len(),
            keys.len() == rows.len(),
            forall|k: int|
                0 <= k < rows.len() ==> (#[trigger] rows@[k]) < i && found_rank(
                    apps@[rows@[k] as int],
                    qs,
                ) == Some(ranks@[k]),
            forall|k: int|
                0 <= k < rows.len() ==> ((#[trigger] keys@[k]).num, keys@[k].text@) == app_key(
                    apps@[rows@[k] as int],
                    *usage,
                    qs,
                ),
        decreases apps.len() - i,
    {
        let low = apps[i].name.as_str().to_lowercase();
        let rank = if browse {
            if str_starts(apps[i].name.as_str(), "Settings: ") {
                None
            } else {
                Some(1u8)
            }
        } else {
            app_rank(low.as_str(), q.as_str())
        };
        let ghost before = rows@;
        match rank {
            Some(rk) => {
                let times: u32 = usage.of(apps[i].path.as_str());
                let num: u64 = rk as u64 * 0x1_0000_0000 + (u32::MAX - times) as u64;
                rows.push(i);
                ranks.push(rk);
                keys.push(SortKey { num, text: vstd::slice::slice_to_vec(low.as_str().as_bytes()) });
                assert(rows@.map_values(|x: usize| x as int) =~= before.map_values(
                    |x: usize| x as int,
                ).push(i as int));
            },
            None => {},
        }
        i = i + 1;
    }
    let ghost found = found_apps(apps@, qs, apps.len() as int);
    assert(crate::sort::keys_of(keys@) =~= app_keys(apps@, *usage, qs)) by {
        assert forall|k: int| 0 <= k < keys@.len() implies crate::sort::keys_of(keys@)[k]
            == app_keys(apps@, *usage, qs)[k] by {
            assert(found[k] == rows@[k] as int);
            assert((keys@[k].num, keys@[k].text@) == app_key(apps@[rows@[k] as int], *usage, qs));
        }
    }
    let order = stable_order(&keys);
    let limit: usize = if browse {
        16
    } else {
        10
    };
    let mut out: Vec<UiResult> = Vec::new();
    let mut k: usize = 0;
    while k < order.len() && k < limit
        invariant
            k <= order.len(),
            k <= limit,
            out.len() == k,
            order.len() == rows.len(),
            ranks.len() == rows.len(),
            is_order(order@, app_keys(apps@, *usage, qs)),
            app_keys(apps@, *usage, qs).len() == rows.len(),
            found.len() == rows.len(),
            found == rows@.map_values(|x: usize| x as int),
            forall|m: int|
                0 <= m < rows.len() ==> (#[trigger] rows@[m]) < apps.len() && found_rank(
                    apps@[rows@[m] as int],
                    qs,
                ) == Some(ranks@[m]),
            forall|m: int|
                0 <= m < k ==> {
                    let app = apps@[found[order@[m] as int]];
                    is_app_row(#[trigger] out@[m], app, found_rank(app, qs)->0)
                },
        decreases order.len() - k,
    {
        let row = order[k];
        assert(order@[k as int] < rows.len());
        out.push(app_row(&apps[rows[row]], ranks[row]));
        k = k + 1;
    }
    out
}

/// A path of a pool whose entry is also in the other.
pub open spec fn has_path(pool: Seq<AppEntry>, key: Seq<char>) -> bool {
    exists|i: int| 0 <= i < pool.len() && lowercase((#[trigger] pool[i]).path@) == key
}

/// Whether a pool has a path, given in lowercase.
fn holds_path(pool: &[AppEntry], key: &str) -> (r: bool)
    ensures
        r == has_path(pool@, key@),
{
    let mut i: usize = 0;
    while i < pool.len()
        invariant
            i <= pool@.len(),
            forall|k: int| 0 <= k < i ==> lowercase((#[trigger] pool@[k]).path@) != key@,
        decreases pool@.len() - i,
    {
        if str_eq(pool[i].path.as_str().to_lowercase().as_str(), key) {
            assert(lowercase(pool@[i as int].path@) == key@);
            return true;
        }
        i = i + 1;
    }
    false
}

/// The paths of `a` all stand in `b`.
fn paths_within(a: &[AppEntry], b: &[AppEntry]) -> (r: bool)
    ensures
        r == forall|key: Seq<char>| has_path(a@, key) ==> has_path(b@, key),
{
    let mut i: usize = 0;
    while i < a.len()
        invariant
            i <= a@.len(),
            forall|k: int| 0 <= k < i ==> has_path(b@, lowercase((#[trigger] a@[k]).path@)),
        decreases a@.len() - i,
    {
        let key = a[i].path.as_str().to_lowercase();
        if !holds_path(b, key.as_str()) {
            assert(has_path(a@, key@));
            return false;
        }
        i = i + 1;
    }
    true
}

/// The two pools have the same number of entries and the same paths, whatever
/// their case and order. Icons do not count.
pub open spec fn same_pool(a: Seq<AppEntry>, b: Seq<AppEntry>) -> bool {
    &&& a.len() == b.len()
    &&& forall|key: Seq<char>| has_path(a, key) <==> has_path(b, key)
}

/// Whether two pools have the same number of entries and the same paths.
pub fn pool_equivalent(a: &[AppEntry], b: &[AppEntry]) -> (r: bool)
    ensures
        r == same_pool(a@, b@),
{
    if a.len() != b.len() {
        return false;
    }
    paths_within(a, b) && paths_within(b, a)
}

/// Takes over a newly discovered pool where it differs, and counts the change.
/// An empty one never replaces the pool: the enumeration failed.
pub fn refresh_pool(apps: &mut Vec<AppEntry>, fresh: Vec<AppEntry>, rev: &mut u64) -> (changed:
    bool)
    ensures
        changed == (fresh.len() > 0 && !same_pool(old(apps)@, fresh@)),
        final(apps)@ == if changed {
            fresh@
        } else {
            old(apps)@
        },
        *final(rev) == if changed {
            if *old(rev) == u64::MAX {
                0
            } else {
                (*old(rev) + 1) as u64
            }
        } else {
            *old(rev)
        },
{
    if fresh.len() == 0 || pool_equivalent(apps.as_slice(), fresh.as_slice()) {
        return false;
    }
    *apps = fresh;
    *rev = if *rev == u64::MAX {
        0
    } else {
        *rev + 1
    };
    true
}

/// A path that the launcher may offer: absolute on a drive or a share, or of a
/// virtual namespace. Device paths and relative ones are none.
pub open spec fn launchable(path: Seq<char>) -> bool {
    let p = trimmed(path);
    ||| p.len() >= 3 && is_ascii_letter(p[0]) && p[1] == ':' && (p[2] == '\\' || p[2] == '/')
    ||| {
        &&& text_starts(p, "\\\\"@)
        &&& !device_path(p)
    }
    ||| text_starts(p, "aumid:"@)
    ||| text_starts(p, "ms-"@)
    ||| text_starts(p, "shell:::"@)
}

/// A raw device path.
pub open spec fn device_path(p: Seq<char>) -> bool {
    text_starts(p, "\\\\.\\"@) || text_starts(p, "\\\\?\\"@)
}

/// Whether a path is a raw device path.
pub fn is_device_path(p: &str) -> (r: bool)
    ensures
        r == device_path(p@),
{
    str_starts(p, "\\\\.\\") || str_starts(p, "\\\\?\\")
}

/// Whether the launcher may offer a path.
pub fn is_launchable_path(p: &str) -> (r: bool)
    ensures
        r == launchable(p@),
{
    let path = str_trim(p);
    let c = chars_of(path.as_str());
    if c.len() >= 3 && ascii_letter(c[0]) && c[1] == ':' && (c[2] == '\\' || c[2] == '/') {
        return true;
    }
    (str_starts(path.as_str(), "\\\\") && !is_device_path(path.as_str())) || str_starts(
        path.as_str(),
        "aumid:",
    ) || str_starts(path.as_str(), "ms-") || str_starts(path.as_str(), "shell:::")
}

/// The entries of a saved pool that may be offered, as names and paths.
pub open spec fn offered(saved: Seq<(String, String)>) -> Seq<(Seq<char>, Seq<char>)>
    decreases saved.len(),
{
    if saved.len() == 0 {
        Seq::empty()
    } else if launchable(saved.last().1@) {
        offered(saved.drop_last()).push((saved.last().0@, saved.last().1@))
    } else {
        offered(saved.drop_last())
    }
}

/// The names and paths of a pool.
pub open spec fn rows_of(apps: Seq<AppEntry>) -> Seq<(Seq<char>, Seq<char>)> {
    apps.map_values(|a: AppEntry| (a.name@, a.path@))
}

/// The pool that was saved as names and paths, without what may not be
/// offered: anybody can write the file.
pub fn load_pool_cache(saved: &Vec<(String, String)>) -> (r: Vec<AppEntry>)
    ensures
        rows_of(r@) == offered(saved@),
        forall|i: int| 0 <= i < r.len() ==> (#[trigger] r@[i]).icon is None,
{
    let mut out: Vec<AppEntry> = Vec::new();
    let mut i: usize = 0;
    assert(saved@.take(0) =~= Seq::<(String, String)>::empty());
    assert(rows_of(out@) =~= Seq::<(Seq<char>, Seq<char>)>::empty());
    while i < saved.len()
        invariant
            i <= saved.len(),
            rows_of(out@) == offered(saved@.take(i as int)),
            forall|k: int| 0 <= k < out.len() ==> (#[trigger] out@[k]).icon is None,
        decreases saved.len() - i,
    {
        assert(saved@.take(i + 1).drop_last() =~= saved@.take(i as int));
        assert(saved@.take(i + 1).last() == saved@[i as int]);
        let ghost before = out@;
        if is_launchable_path(saved[i].1.as_str()) {
            out.push(
                AppEntry { name: saved[i].0.clone(), path: saved[i].1.clone(), icon: None },
            );
            assert(rows_of(out@) =~= rows_of(before).push((saved@[i as int].0@, saved@[i as int].1@)));
        }
        i = i + 1;
    }
    assert(saved@.take(i as int) =~= saved@);
    out
}

/// The entries of a pool without those whose path, in lowercase, an earlier
/// entry has.
pub open spec fn first_copies(apps: Seq<AppEntry>) -> Seq<AppEntry>
    decreases apps.len(),
{
    if apps.len() == 0 {
        apps
    } else if has_path(apps.drop_last(), lowercase(apps.last().path@)) {
        first_copies(apps.drop_last())
    } else {
        first_copies(apps.drop_last()).push(apps.last())
    }
}

/// Keeps the first of the entries with one path.
pub fn dedupe_exact_path(apps: &mut Vec<AppEntry>)
    ensures
        final(apps)@ == first_copies(old(apps)@),
{
    let mut out: Vec<AppEntry> = Vec::new();
    let mut i: usize = 0;
    let ghost all = apps@;
    assert(all.take(0) =~= Seq::<AppEntry>::empty());
    while i < apps.len()
        invariant
            i <= apps.len(),
            apps@ == all,
            out@ == first_copies(all.take(i as int)),
        decreases apps.len() - i,
    {
        assert(all.take(i + 1).drop_last() =~= all.take(i as int));
        assert(all.take(i + 1).last() == all[i as int]);
        let key = apps[i].path.as_str().to_lowercase();
        assert(all.subrange(0, i as int) =~= all.take(i as int));
        if !holds_path(&apps.as_slice()[0..i], key.as_str()) {
            out.push(apps[i].clone());
        }
        i = i + 1;
    }
    assert(all.take(i as int) =~= all);
    *apps = out;
}

/// Each path of a pool is kept by exactly one of the first copies.
pub proof fn law_first_copies(apps: Seq<AppEntry>, key: Seq<char>)
    ensures
        has_path(first_copies(apps), key) == has_path(apps, key),
        forall|i: int, j: int|
            0 <= i < j < first_copies(apps).len() ==> lowercase(
                (#[trigger] first_copies(apps)[i]).path@,
            ) != lowercase((#[trigger] first_copies(apps)[j]).path@),
    decreases apps.len(),
{
    if apps.len() > 0 {
        let rest = apps.drop_last();
        law_first_copies(rest, key);
        let last = lowercase(apps.last().path@);
        law_first_copies(rest, last);
        let kept = first_copies(rest);
        if has_path(apps, key) {
            let i = choose|i: int| 0 <= i < apps.len() && lowercase((#[trigger] apps[i]).path@) == key;
            if i < rest.len() {
                assert(lowercase(rest[i].path@) == key);
            }
        }
        if has_path(rest, key) {
            let i = choose|i: int| 0 <= i < rest.len() && lowercase((#[trigger] rest[i]).path@) == key;
            assert(lowercase(apps[i].path@) == key);
        }
        if !has_path(rest, last) {
            let out = first_copies(apps);
            assert(out == kept.push(apps.last()));
            if has_path(kept, key) {
                let i = choose|i: int| 0 <= i < kept.len() && lowercase((#[trigger] kept[i]).path@) == key;
                assert(lowercase(out[i].path@) == key);
            }
            if has_path(out, key) {
                let i = choose|i: int| 0 <= i < out.len() && lowercase((#[trigger] out[i]).path@) == key;
                if i < kept.len() {
                    assert(lowercase(kept[i].path@) == key);
                } else {
                    assert(lowercase(apps[apps.len() - 1].path@) == key);
                }
            }
            if has_path(apps, key) && !has_path(rest, key) {
                assert(lowercase(out[kept.len() as int].path@) == key);
            }
            assert forall|i: int, j: int| 0 <= i < j < out.len() implies lowercase(
                (#[trigger] out[i]).path@,
            ) != lowercase((#[trigger] out[j]).path@) by {
                assert(out[i] == kept[i]);
                if j < kept.len() {
                    assert(out[j] == kept[j]);
                } else if lowercase(kept[i].path@) == last {
                    assert(has_path(kept, last));
                }
            }
        }
    }
}

/// Two pools are the same where each path of one is a path of the other, in
/// whatever letters, and neither has more entries. The order does not matter.
pub proof fn law_same_pools_have_the_same_paths(a: Seq<AppEntry>, b: Seq<AppEntry>, i: int)
    requires
        0 <= i < a.len(),
    ensures
        same_pool(a, b) ==> a.len() == b.len(),
        same_pool(a, b) ==> exists|j: int|
            0 <= j < b.len() && lowercase((#[trigger] b[j]).path@) == lowercase(a[i].path@),
        same_pool(a, b) ==> same_pool(b, a),
        same_pool(a, a),
        same_pool(a, a.reverse()),
{
    assert(has_path(a, lowercase(a[i].path@)));
    let r = a.reverse();
    assert forall|key: Seq<char>| has_path(a, key) <==> has_path(r, key) by {
        if has_path(a, key) {
            let k = choose|k: int| 0 <= k < a.len() && lowercase((#[trigger] a[k]).path@) == key;
            assert(r[a.len() - 1 - k] == a[k]);
        }
        if has_path(r, key) {
            let k = choose|k: int| 0 <= k < r.len() && lowercase((#[trigger] r[k]).path@) == key;
            assert(a[a.len() - 1 - k] == r[k]);
        }
    }
}

/// Without a query sixteen applications are shown at most, with one ten.
pub proof fn law_how_many_apps_are_shown(q: Seq<char>)
    ensures
        q.len() == 0 <==> shown_limit(q) == 16,
        q.len() > 0 <==> shown_limit(q) == 10,
{
}

/// A path behind `\\\\.\\` or `\\\\?\\` is one of a device, and the share of another machine
/// is not.
pub proof fn law_devices_and_shares(rest: Seq<char>)
    ensures
        device_path("\\\\.\\"@ + rest),
        device_path("\\\\?\\"@ + rest),
        rest.len() > 0 && rest[0] != '.' && rest[0] != '?' ==> !device_path("\\\\"@ + rest),
        rest.len() > 0 && rest[0] != '\\' ==> !device_path(rest),
{
    reveal_strlit("\\\\.\\");
    reveal_strlit("\\\\?\\");
    reveal_strlit("\\\\");
    let (d, v, s) = ("\\\\.\\"@, "\\\\?\\"@, "\\\\"@ + rest);
    assert((d + rest).subrange(0, 4) =~= d);
    assert((v + rest).subrange(0, 4) =~= v);
    if s.len() >= 4 {
        assert(s.subrange(0, 4)[2] == rest[0]);
        assert(d[2] == '.' && v[2] == '?');
    }
    if rest.len() >= 4 {
        assert(rest.subrange(0, 4)[0] == rest[0]);
        assert(d[0] == '\\' && v[0] == '\\');
    }
}

} // verus!
