//! Icons of rows: where they come from, and the memory that holds them.
use crate::apps::pool::AppEntry;
use crate::launch::{hex_char, hex_value, low_hex};
use crate::text::{lowercase, str_eq, str_starts, strip_start, text_starts};
use std::collections::hash_map::DefaultHasher;
use std::hash::{BuildHasher, BuildHasherDefault};
use vstd::prelude::*;

verus! {

/// How many icons are held before the memory is emptied.
pub const ICON_CAP: usize = 600;

/// How many entries of the pool get their icons in advance.
pub const WARM_ROWS: usize = 60;

/// The icons that are held, by the path of their rows in lowercase.
pub struct IconCache {
    pub icons: Vec<(String, String)>,
}

/// The icon that is held under a key.
pub open spec fn icon_under(icons: Seq<(String, String)>, key: Seq<char>) -> Option<Seq<char>>
    decreases icons.len(),
{
    if icons.len() == 0 {
        None
    } else if icons[0].0@ == key {
        Some(icons[0].1@)
    } else {
        icon_under(icons.drop_first(), key)
    }
}

impl IconCache {
    /// The icon that is held under a key.
    pub open spec fn held(&self, key: Seq<char>) -> Option<Seq<char>> {
        icon_under(self.icons@, key)
    }

    /// No key is held twice.
    pub open spec fn wf(&self) -> bool {
        forall|i: int, j: int|
            0 <= i < j < self.icons@.len() ==> (#[trigger] self.icons@[i]).0@ != (
            #[trigger] self.icons@[j]).0@
    }

    /// Nothing is held.
    pub fn new() -> (r: IconCache)
        ensures
            r.wf(),
            r.icons@.len() == 0,
            forall|key: Seq<char>| r.held(key) is None,
    {
        IconCache { icons: Vec::new() }
    }

    /// Where a key stands.
    fn find(&self, key: &str) -> (r: Option<usize>)
        ensures
            r is Some <==> self.held(key@) is Some,
            r is Some ==> r->0 < self.icons.len() && self.icons@[r->0 as int].0@ == key@
                && self.held(key@) == Some(self.icons@[r->0 as int].1@),
            r is Some ==> forall|i: int|
                0 <= i < r->0 ==> (#[trigger] self.icons@[i]).0@ != key@,
            r is None ==> forall|i: int|
                0 <= i < self.icons@.len() ==> (#[trigger] self.icons@[i]).0@ != key@,
    {
        let mut i: usize = 0;
        assert(self.icons@.skip(0) =~= self.icons@);
        while i < self.icons.len()
            invariant
                i <= self.icons.len(),
                icon_under(self.icons@.skip(i as int), key@) == self.held(key@),
                forall|k: int| 0 <= k < i ==> (#[trigger] self.icons@[k]).0@ != key@,
            decreases self.icons.len() - i,
        {
            assert(self.icons@.skip(i as int)[0] == self.icons@[i as int]);
            if str_eq(self.icons[i].0.as_str(), key) {
                return Some(i);
            }
            assert(self.icons@.skip(i as int).drop_first() =~= self.icons@.skip(i + 1));
            i = i + 1;
        }
        None
    }

    /// The icon of a row.
    pub fn icon_of(&self, path: &str) -> (r: Option<String>)
        ensures
            r is Some <==> self.held(lowercase(path@)) is Some,
            r is Some ==> r->0@ == self.held(lowercase(path@))->0,
    {
        match self.find(path.to_lowercase().as_str()) {
            Some(i) => Some(self.icons[i].1.clone()),
            None => None,
        }
    }

    /// Holds an icon under a key, whatever is held already.
    pub fn put(&mut self, key: String, uri: String)
        requires
            old(self).wf(),
        ensures
            final(self).wf(),
            forall|k: Seq<char>|
                final(self).held(k) == if k == key@ {
                    Some(uri@)
                } else {
                    old(self).held(k)
                },
            final(self).icons@.len() == old(self).icons@.len() + if old(self).held(
                key@,
            ) is Some {
                0int
            } else {
                1
            },
    {
        let ghost before = self.icons@;
        match self.find(key.as_str()) {
            Some(i) => {
                self.icons.set(i, (key, uri));
                proof {
                    assert forall|k: Seq<char>| #[trigger]
                        icon_under(self.icons@, k) == if k == key@ {
                            Some(uri@)
                        } else {
                            icon_under(before, k)
                        } by {
                        lemma_set_icon(before, i as int, (key, uri), k);
                    }
                }
            },
            None => {
                self.icons.push((key, uri));
                proof {
                    assert forall|k: Seq<char>| #[trigger]
                        icon_under(self.icons@, k) == if k == key@ {
                            Some(uri@)
                        } else {
                            icon_under(before, k)
                        } by {
                        lemma_push_icon(before, (key, uri), k);
                    }
                }
            },
        }
    }

    /// Empties the memory if it is full.
    pub fn relieve(&mut self)
        requires
            old(self).wf(),
        ensures
            final(self).wf(),
            old(self).icons@.len() < ICON_CAP ==> *final(self) == *old(self),
            old(self).icons@.len() >= ICON_CAP ==> final(self).icons@.len() == 0 && forall|
                k: Seq<char>,
            |
                final(self).held(k) is None,
    {
        if self.icons.len() >= ICON_CAP {
            self.icons = Vec::new();
        }
    }

    /// Holds an icon under a key. A full memory is emptied first.
    pub fn icon_cache_insert(&mut self, key: String, uri: String)
        requires
            old(self).wf(),
        ensures
            final(self).wf(),
            final(self).icons@.len() <= ICON_CAP,
            old(self).icons@.len() < 600 ==> forall|k: Seq<char>|
                k != key@ ==> final(self).held(k) == old(self).held(k),
            final(self).icons@.len() <= 600,
            forall|k: Seq<char>|
                final(self).held(k) == if k == key@ {
                    Some(uri@)
                } else if old(self).icons@.len() >= ICON_CAP {
                    None
                } else {
                    old(self).held(k)
                },
    {
        self.relieve();
        self.put(key, uri);
    }

    /// Splits the paths of rows into those whose icons are held, with the icons,
    /// and the others.
    pub fn split(&self, paths: &Vec<String>) -> (r: (Vec<(String, String)>, Vec<String>))
        ensures
            hits_of(*self, paths@, r.0@),
            misses_of(*self, paths@) == r.1@,
    {
        let mut hits: Vec<(String, String)> = Vec::new();
        let mut rest: Vec<String> = Vec::new();
        let mut i: usize = 0;
        assert(paths@.take(0) =~= Seq::<String>::empty());
        while i < paths.len()
            invariant
                i <= paths.len(),
                hits_of(*self, paths@.take(i as int), hits@),
                misses_of(*self, paths@.take(i as int)) == rest@,
            decreases paths.len() - i,
        {
            assert(paths@.take(i + 1).drop_last() =~= paths@.take(i as int));
            assert(paths@.take(i + 1).last() == paths@[i as int]);
            match self.icon_of(paths[i].as_str()) {
                Some(icon) => {
                    let ghost before = hits@;
                    hits.push((paths[i].clone(), icon));
                    assert(hits@.drop_last() =~= before);
                },
                None => {
                    rest.push(paths[i].clone());
                },
            }
            i = i + 1;
        }
        assert(paths@.take(i as int) =~= paths@);
        (hits, rest)
    }

    /// The paths of the pool whose icons are to be made in advance: of the first
    /// rows, those that are no page of the settings and whose icon is not held.
    pub fn warm_icon_cache(&self, pool: &Vec<AppEntry>) -> (r: Vec<String>)
        ensures
            r@ == to_warm(*self, pool@, if pool.len() < WARM_ROWS {
                pool.len() as int
            } else {
                WARM_ROWS as int
            }),
    {
        let mut out: Vec<String> = Vec::new();
        let mut i: usize = 0;
        while i < pool.len() && i < WARM_ROWS
            invariant
                i <= pool.len(),
                i <= WARM_ROWS,
                out@ == to_warm(*self, pool@, i as int),
            decreases pool.len() - i,
        {
            if !str_starts(pool[i].path.as_str(), "ms-settings:") && self.icon_of(
                pool[i].path.as_str(),
            ).is_none() {
                out.push(pool[i].path.clone());
            }
            i = i + 1;
        }
        out
    }
}

/// `hits` are the paths whose icons are held, with the icons.
pub open spec fn hits_of(
    cache: IconCache,
    paths: Seq<String>,
    hits: Seq<(String, String)>,
) -> bool
    decreases paths.len(),
{
    if paths.len() == 0 {
        hits.len() == 0
    } else {
        let icon = cache.held(lowercase(paths.last()@));
        if icon is Some {
            &&& hits.len() > 0
            &&& hits.last().0@ == paths.last()@
            &&& hits.last().1@ == icon->0
            &&& hits_of(cache, paths.drop_last(), hits.drop_last())
        } else {
            hits_of(cache, paths.drop_last(), hits)
        }
    }
}

/// The paths whose icons are not held.
pub open spec fn misses_of(cache: IconCache, paths: Seq<String>) -> Seq<String>
    decreases paths.len(),
{
    if paths.len() == 0 {
        paths
    } else if cache.held(lowercase(paths.last()@)) is Some {
        misses_of(cache, paths.drop_last())
    } else {
        misses_of(cache, paths.drop_last()).push(paths.last())
    }
}

/// Of the first `n` entries, the paths whose icons are to be made in advance.
pub open spec fn to_warm(cache: IconCache, pool: Seq<AppEntry>, n: int) -> Seq<String>
    decreases n,
{
    if n <= 0 {
        Seq::empty()
    } else {
        let p = pool[n - 1].path;
        if text_starts(p@, "ms-settings:"@) || cache.held(lowercase(p@)) is Some {
            to_warm(cache, pool, n - 1)
        } else {
            to_warm(cache, pool, n - 1).push(p)
        }
    }
}

proof fn lemma_set_icon(s: Seq<(String, String)>, i: int, e: (String, String), k: Seq<char>)
    requires
        0 <= i < s.len(),
        s[i].0@ == e.0@,
        forall|j: int| 0 <= j < i ==> (#[trigger] s[j]).0@ != e.0@,
    ensures
        icon_under(s.update(i, e), k) == if k == e.0@ {
            Some(e.1@)
        } else {
            icon_under(s, k)
        },
    decreases s.len(),
{
    let t = s.update(i, e);
    if i == 0 {
        assert(t.drop_first() =~= s.drop_first());
    } else {
        assert(t[0] == s[0]);
        assert(t.drop_first() =~= s.drop_first().update(i - 1, e));
        assert forall|j: int| 0 <= j < i - 1 implies (#[trigger] s.drop_first()[j]).0@ != e.0@ by {
            assert(s.drop_first()[j] == s[j + 1]);
        }
        lemma_set_icon(s.drop_first(), i - 1, e, k);
    }
}

proof fn lemma_push_icon(s: Seq<(String, String)>, e: (String, String), k: Seq<char>)
    requires
        forall|j: int| 0 <= j < s.len() ==> (#[trigger] s[j]).0@ != e.0@,
    ensures
        icon_under(s.push(e), k) == if k == e.0@ {
            Some(e.1@)
        } else {
            icon_under(s, k)
        },
    decreases s.len(),
{
    let t = s.push(e);
    if s.len() == 0 {
        assert(t[0] == e);
        assert(t.drop_first() =~= s);
    } else {
        assert(t[0] == s[0]);
        assert(t.drop_first() =~= s.drop_first().push(e));
        assert forall|j: int| 0 <= j < s.len() - 1 implies (#[trigger] s.drop_first()[j]).0@
            != e.0@ by {
            assert(s.drop_first()[j] == s[j + 1]);
        }
        lemma_push_icon(s.drop_first(), e, k);
    }
}

/// Where the icon of a row comes from.
pub enum IconSource {
    /// A store application of this id.
    App(String),
    /// A file or folder.
    File(String),
    /// Nowhere: only the general icon is left.
    General,
}

/// The application whose icon stands for an address, if one does.
pub open spec fn address_app(uri: Seq<char>) -> Option<Seq<char>> {
    if text_starts(uri, "ms-settings"@) {
        Some("windows.immersivecontrolpanel_cw5n1h2txyewy!microsoft.windows.immersivecontrolpanel"@)
    } else {
        None
    }
}

/// The application whose icon stands for an address: the settings for their
/// pages.
pub fn uri_icon_data_uri(uri: &str) -> (r: Option<String>)
    ensures
        r is Some <==> address_app(uri@) is Some,
        r is Some ==> r->0@ == address_app(uri@)->0,
{
    if str_starts(uri, "ms-settings") {
        Some(
            "windows.immersivecontrolpanel_cw5n1h2txyewy!microsoft.windows.immersivecontrolpanel".to_owned(),
        )
    } else {
        None
    }
}

/// `s` is where the icon of a row comes from.
pub open spec fn comes_from(s: IconSource, path: Seq<char>) -> bool {
    if text_starts(path, "aumid:"@) {
        s is App && s->App_0@ == path.skip("aumid:"@.len() as int)
    } else if text_starts(path, "ms-"@) {
        match address_app(path) {
            Some(id) => s is App && s->App_0@ == id,
            None => s is General,
        }
    } else {
        s is File && s->File_0@ == path
    }
}

/// Where the icon of a row comes from.
pub fn icon_source(path: &str) -> (r: IconSource)
    ensures
        comes_from(r, path@),
{
    match strip_start(path, "aumid:") {
        Some(id) => {
            return IconSource::App(id);
        },
        None => {},
    }
    if str_starts(path, "ms-") {
        match uri_icon_data_uri(path) {
            Some(id) => IconSource::App(id),
            None => IconSource::General,
        }
    } else {
        IconSource::File(path.to_owned())
    }
}

/// The icon that was found, or else the general one.
pub fn or_generic_icon(found: Option<String>, generic: Option<String>) -> (r: Option<String>)
    ensures
        r == if found is Some {
            found
        } else {
            generic
        },
{
    match found {
        Some(icon) => Some(icon),
        None => generic,
    }
}

/// The number that `std::hash::BuildHasher::hash_one` gives for a text with the
/// default hasher.
pub uninterp spec fn text_hash(text: Seq<char>) -> u64;

/// `std::hash::BuildHasher::hash_one` with the default hasher: a number for a
/// text. All default hashers of one release of `std` give the same number for a
/// text; which one is left unsaid.
#[verifier::external_body]
fn path_hash(key: &str) -> (r: u64)
    ensures
        r == text_hash(key@),
{
    BuildHasherDefault::<DefaultHasher>::default().hash_one(key)
}

/// The lowest `n` hexadecimal digits of a number.
pub open spec fn hex_digits(x: u64, n: nat) -> Seq<char>
    decreases n,
{
    if n == 0 {
        Seq::empty()
    } else {
        hex_digits(x / 16, (n - 1) as nat).push(low_hex((x % 16) as int))
    }
}

/// The name of the file that holds an icon: the number of its row, in 16
/// digits.
pub open spec fn icon_name(hash: u64) -> Seq<char> {
    hex_digits(hash, 16) + ".png"@
}

/// The name of the file that holds the icon of the row with a number.
pub fn icon_file_name(hash: u64) -> (r: String)
    ensures
        r@ == icon_name(hash),
{
    let mut digits: Vec<char> = Vec::new();
    let mut x: u64 = hash;
    let mut n: usize = 16;
    assert(hex_digits(x, 16) + digits@ =~= hex_digits(hash, 16));
    while n > 0
        invariant
            n <= 16,
            hex_digits(x, n as nat) + digits@ == hex_digits(hash, 16),
        decreases n,
    {
        let c = hex_char((x % 16) as u32);
        let ghost before = digits@;
        digits.insert(0, c);
        proof {
            let head = hex_digits(x / 16, (n - 1) as nat);
            assert(head.push(c) + before =~= head + digits@);
        }
        x = x / 16;
        n = n - 1;
    }
    assert(hex_digits(x, 0) + digits@ =~= digits@);
    let mut out = crate::text::string_of(digits.as_slice());
    out.push_str(".png");
    out
}

/// The file that holds the icon of a row: in the folder of the icons, under the
/// number of the path in lowercase.
pub fn icon_disk_path(dir: &str, path: &str) -> (r: String)
    ensures
        r@ == dir@ + "\\"@ + icon_name(text_hash(lowercase(path@))),
{
    let hash = path_hash(path.to_lowercase().as_str());
    let name = icon_file_name(hash);
    let mut out = dir.to_owned();
    out.push_str("\\");
    out.push_str(name.as_str());
    out
}

/// Every path is a hit or a miss: what is held is told with its icon, what is not
/// is asked for, and nothing else is told or asked for.
pub proof fn law_paths_are_hits_or_misses(
    cache: IconCache,
    paths: Seq<String>,
    hits: Seq<(String, String)>,
)
    requires
        hits_of(cache, paths, hits),
    ensures
        hits.len() + misses_of(cache, paths).len() == paths.len(),
        forall|k: int|
            0 <= k < hits.len() ==> cache.held(lowercase((#[trigger] hits[k]).0@)) == Some(
                hits[k].1@,
            ),
        forall|k: int|
            0 <= k < misses_of(cache, paths).len() ==> cache.held(
                lowercase((#[trigger] misses_of(cache, paths)[k])@),
            ) is None && paths.contains(misses_of(cache, paths)[k]),
        forall|i: int|
            0 <= i < paths.len() && cache.held(lowercase((#[trigger] paths[i])@)) is None
                ==> misses_of(cache, paths).contains(paths[i]),
        forall|i: int|
            0 <= i < paths.len() && cache.held(lowercase((#[trigger] paths[i])@)) is Some
                ==> exists|k: int| 0 <= k < hits.len() && (#[trigger] hits[k]).0@ == paths[i]@,
    decreases paths.len(),
{
    if paths.len() > 0 {
        let head = paths.drop_last();
        let last = paths.last();
        let all = misses_of(cache, paths);
        let was = misses_of(cache, head);
        let held = cache.held(lowercase(last@)) is Some;
        let front = if held {
            hits.drop_last()
        } else {
            hits
        };
        law_paths_are_hits_or_misses(cache, head, front);
        assert forall|k: int| 0 <= k < hits.len() implies cache.held(
            lowercase((#[trigger] hits[k]).0@),
        ) == Some(hits[k].1@) by {
            if k < front.len() {
                assert(front[k] == hits[k]);
            }
        }
        assert forall|k: int| 0 <= k < all.len() implies cache.held(
            lowercase((#[trigger] all[k])@),
        ) is None && paths.contains(all[k]) by {
            if k < was.len() {
                assert(all[k] == was[k]);
                assert(head.contains(was[k]));
                let i = choose|i: int| 0 <= i < head.len() && head[i] == was[k];
                assert(paths[i] == was[k]);
            } else {
                assert(paths[paths.len() - 1] == all[k]);
            }
        }
        assert forall|i: int|
            0 <= i < paths.len() && cache.held(
                lowercase((#[trigger] paths[i])@),
            ) is None implies all.contains(paths[i]) by {
            if i < head.len() {
                assert(head[i] == paths[i]);
                assert(was.contains(head[i]));
                let k = choose|k: int| 0 <= k < was.len() && was[k] == head[i];
                assert(all[k] == paths[i]);
            } else {
                assert(all[was.len() as int] == paths[i]);
            }
        }
        assert forall|i: int|
            0 <= i < paths.len() && cache.held(
                lowercase((#[trigger] paths[i])@),
            ) is Some implies exists|k: int|
            0 <= k < hits.len() && (#[trigger] hits[k]).0@ == paths[i]@ by {
            if i < head.len() {
                assert(head[i] == paths[i]);
                let k = choose|k: int| 0 <= k < front.len() && (#[trigger] front[k]).0@ == head[i]@;
                assert(hits[k] == front[k]);
            } else {
                assert(hits[hits.len() - 1].0@ == paths[i]@);
            }
        }
    }
}

/// The number that lowercase hexadecimal digits stand for.
pub open spec fn hex_number(s: Seq<char>) -> int
    decreases s.len(),
{
    if s.len() == 0 {
        0
    } else {
        16 * hex_number(s.drop_last()) + hex_value(s.last())
    }
}

/// The file of an icon is named by its number: sixteen hexadecimal digits that
/// stand for it, and the ending of a picture.
pub proof fn law_icon_file_is_named_by_its_number(hash: u64)
    ensures
        icon_name(hash).len() == 20,
        hex_number(icon_name(hash).take(16)) == hash,
        icon_name(hash).skip(16) == ".png"@,
{
    reveal_strlit(".png");
    lemma_hex_digits(hash, 16);
    assert(icon_name(hash).take(16) =~= hex_digits(hash, 16));
    assert(icon_name(hash).skip(16) =~= ".png"@);
    lemma_sixteen(16);
}

proof fn lemma_hex_digits(x: u64, n: nat)
    ensures
        hex_digits(x, n).len() == n,
        x < sixteen_to(n) ==> hex_number(hex_digits(x, n)) == x,
    decreases n,
{
    if n > 0 {
        let up = hex_digits(x / 16, (n - 1) as nat);
        lemma_hex_digits(x / 16, (n - 1) as nat);
        assert(hex_digits(x, n).drop_last() =~= up);
        let d = (x % 16) as int;
        assert(hex_value(low_hex(d)) == d);
    }
}

/// Sixteen to the power of `n`.
spec fn sixteen_to(n: nat) -> int
    decreases n,
{
    if n == 0 {
        1
    } else {
        16 * sixteen_to((n - 1) as nat)
    }
}

proof fn lemma_sixteen(n: nat)
    requires
        n == 16,
    ensures
        sixteen_to(n) == 0x1_0000_0000_0000_0000,
{
    reveal_with_fuel(sixteen_to, 17);
}

/// Where the icon of a row comes from: a store application's from its id, that of
/// a page of the settings from the application of the settings, and that of a
/// file from the file.
pub proof fn law_where_an_icon_comes_from(s: IconSource, path: Seq<char>, id: Seq<char>)
    requires
        comes_from(s, path),
    ensures
        path == "aumid:"@ + id ==> s is App && s->App_0@ == id,
        text_starts(path, "ms-settings"@) ==> s is App,
        text_starts(path, "ms-"@) && !text_starts(path, "ms-settings"@) ==> s is General,
        !text_starts(path, "ms-"@) && !text_starts(path, "aumid:"@) ==> s is File && s->File_0@
            == path,
{
    reveal_strlit("aumid:");
    reveal_strlit("ms-");
    reveal_strlit("ms-settings");
    if path == "aumid:"@ + id {
        assert(path.subrange(0, 6) =~= "aumid:"@);
        assert(path.skip(6) =~= id);
    }
    if text_starts(path, "ms-settings"@) {
        let p = path.subrange(0, 11);
        assert(p[0] == path[0] && p[1] == path[1] && p[2] == path[2]);
        assert(path.subrange(0, 3) =~= "ms-"@);
    }
    if text_starts(path, "aumid:"@) {
        assert(path.subrange(0, 6)[0] == path[0]);
    }
    if text_starts(path, "ms-"@) {
        assert(path.subrange(0, 3)[0] == path[0]);
    }
}

/// The icons that are made in advance: those of the first entries of the pool that
/// are no page of the settings and whose icon is not held.
pub proof fn law_which_icons_are_made_in_advance(
    cache: IconCache,
    pool: Seq<AppEntry>,
    n: int,
    p: String,
)
    requires
        0 <= n <= pool.len(),
    ensures
        to_warm(cache, pool, n).contains(p) <==> !text_starts(p@, "ms-settings:"@) && cache.held(
            lowercase(p@),
        ) is None && exists|i: int| 0 <= i < n && (#[trigger] pool[i]).path == p,
    decreases n,
{
    if n > 0 {
        let was = to_warm(cache, pool, n - 1);
        let all = to_warm(cache, pool, n);
        let last = pool[n - 1].path;
        law_which_icons_are_made_in_advance(cache, pool, n - 1, p);
        if all.len() > was.len() {
            assert(all.contains(p) <==> was.contains(p) || p == last) by {
                if all.contains(p) {
                    let k = choose|k: int| 0 <= k < all.len() && all[k] == p;
                    if k < was.len() {
                        assert(was[k] == p);
                    }
                }
                if was.contains(p) {
                    let k = choose|k: int| 0 <= k < was.len() && was[k] == p;
                    assert(all[k] == p);
                }
                assert(all[was.len() as int] == last);
            }
        }
        if exists|i: int| 0 <= i < n && (#[trigger] pool[i]).path == p {
            let i = choose|i: int| 0 <= i < n && (#[trigger] pool[i]).path == p;
            if i < n - 1 {
                assert(pool[i].path == p);
            }
        }
        if p == last {
            assert(pool[n - 1].path == p);
        }
    }
}

} // verus!
