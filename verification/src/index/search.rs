//! Searches over the index.
//!
//! A search ranks every entry that matches, puts the ranks in order, and shows a
//! page of what may be shown. A query that is a known extension lists the
//! entries of that extension; any other query looks for its text in the names,
//! and fills a first page that is not full with approximate matches.
use crate::bytes::{
    bytes_eq, contains_bytes, has_prefix, has_substring, starts_with_bytes, word_prefix,
    word_prefix_match,
};
use crate::index::ext::{find_ext, has_ext, last_dot, rows_of};
use crate::index::store::{
    name_in, pair_lt, pairs_sorted, sort_pairs, IndexEntry, IndexStore,
};
use crate::text::lowercase;
use fuzzy_matcher::skim::SkimMatcherV2;
use fuzzy_matcher::FuzzyMatcher;
use rayon::prelude::{IntoParallelIterator, ParallelIterator};
use std::collections::HashSet;
use vstd::prelude::*;
use vstd::utf8::*;

pub use crate::index::installed::{apps, get_installed_apps, AppInfo};
pub use crate::index::path::build_path;

verus! {

/// Parts of a lowercased path that mark a user's own files.
pub const USER_PATH_MARKERS: [&'static str; 7] = [
    "\\users\\",
    "\\documents\\",
    "\\downloads\\",
    "\\desktop\\",
    "\\pictures\\",
    "\\videos\\",
    "\\music\\",
];

/// Extensions of documents and source code.
pub const TEXT_EXTS: [&'static str; 37] = [
    "txt", "md", "pdf", "doc", "docx", "xls", "xlsx", "ppt", "pptx", "csv", "rtf", "html", "css",
    "js", "ts", "json", "yml", "yaml", "toml", "ini", "log", "rs", "c", "h", "cpp", "hpp", "py",
    "go", "java", "cs", "rb", "php", "sql", "bat", "cmd", "ps1", "ipynb",
];

/// Extensions of pictures, sound and film.
pub const MEDIA_EXTS: [&'static str; 15] = [
    "png", "jpg", "jpeg", "gif", "bmp", "svg", "webp", "ico", "mp3", "mp4", "mkv", "avi", "mov",
    "wav", "flac",
];

/// Extensions of archives.
pub const ARCHIVE_EXTS: [&'static str; 7] = ["zip", "rar", "7z", "tar", "gz", "bz2", "iso"];

/// Whether `name` is the UTF-8 form of one of `list`.
pub fn in_list(list: &[&'static str], name: &[u8]) -> (r: bool)
    ensures
        r == name_in(list@, name@),
{
    let mut i: usize = 0;
    while i < list.len()
        invariant
            i <= list@.len(),
            forall|k: int| 0 <= k < i ==> encode_utf8((#[trigger] list@[k])@) != name@,
        decreases list@.len() - i,
    {
        if bytes_eq(list[i].as_bytes(), name) {
            return true;
        }
        i = i + 1;
    }
    false
}

/// What follows the last `.` of a name; the whole name where it has none.
pub open spec fn after_dot(lower: Seq<u8>) -> Seq<u8> {
    lower.subrange(last_dot(lower) + 1, lower.len() as int)
}

/// How important an extension is: documents and source code first, then media,
/// then archives, then the rest.
pub open spec fn ext_rank(lower: Seq<u8>) -> u8 {
    let ext = after_dot(lower);
    if name_in(TEXT_EXTS@, ext) {
        0
    } else if name_in(MEDIA_EXTS@, ext) {
        1
    } else if name_in(ARCHIVE_EXTS@, ext) {
        2
    } else {
        3
    }
}

/// How important the extension of a lowercased name is.
pub fn ext_priority(name_lower: &[u8]) -> (r: u8)
    ensures
        r == ext_rank(name_lower@),
{
    let at: usize = match crate::index::ext::find_last_dot(name_lower) {
        Some(p) => p + 1,
        None => 0,
    };
    let ext = &name_lower[at..name_lower.len()];
    if in_list(vstd::array::array_as_slice(&TEXT_EXTS), ext) {
        0
    } else if in_list(vstd::array::array_as_slice(&MEDIA_EXTS), ext) {
        1
    } else if in_list(vstd::array::array_as_slice(&ARCHIVE_EXTS), ext) {
        2
    } else {
        3
    }
}

/// One line of a search.
#[derive(Debug)]
pub struct SearchResult {
    pub full_path: String,
    pub name: String,
    pub rank: u8,
    pub is_dir: bool,
    /// Seconds since 1970, where they are known.
    pub modified_time: Option<u64>,
    pub file_type_priority: u8,
}

impl Clone for SearchResult {
    fn clone(&self) -> (r: Self)
        ensures
            r == *self,
    {
        SearchResult {
            full_path: self.full_path.clone(),
            name: self.name.clone(),
            rank: self.rank,
            is_dir: self.is_dir,
            modified_time: self.modified_time,
            file_type_priority: self.file_type_priority,
        }
    }
}

/// A page of results, and how many matches there are in all.
#[derive(Debug)]
pub struct PagedSearch {
    pub results: Vec<SearchResult>,
    pub total: usize,
}

/// `r` is the line for entry `e`.
pub open spec fn line_for(
    store: IndexStore,
    e: IndexEntry,
    rank: u8,
    priority: u8,
    r: SearchResult,
) -> bool {
    &&& r.full_path@ == store.path_text(e)
    &&& r.name@ == store.name_text(e)
    &&& r.rank == rank
    &&& r.is_dir == e.dir()
    &&& r.modified_time is None
    &&& r.file_type_priority == priority
}

/// How well a name matches the text of a query: 1 for the name itself, 2 for its
/// beginning, 3 for the beginning of a word in it, 4 for any other part of it.
pub open spec fn match_tier(name: Seq<u8>, q: Seq<u8>) -> Option<u8> {
    if name == q {
        Some(1)
    } else if has_prefix(name, q) {
        Some(2)
    } else if word_prefix(name, q) {
        Some(3)
    } else if has_substring(name, q) {
        Some(4)
    } else {
        None
    }
}

/// How well a name matches the text of a query.
fn tier_of(name: &[u8], q: &[u8]) -> (r: Option<u8>)
    ensures
        r == match_tier(name@, q@),
{
    if bytes_eq(name, q) {
        Some(1)
    } else if starts_with_bytes(name, q) {
        Some(2)
    } else if word_prefix_match(name, q) {
        Some(3)
    } else if contains_bytes(name, q) {
        Some(4)
    } else {
        None
    }
}

/// The name that a search compares the text of a query with: as it is written
/// where case matters, else lowercased.
pub open spec fn compared(store: IndexStore, e: IndexEntry, cased: bool) -> Seq<u8> {
    if cased {
        store.name_of(e)
    } else {
        store.lower_of(e)
    }
}

/// The name that a search compares the text of a query with.
fn compared_bytes<'a>(store: &'a IndexStore, e: &IndexEntry, cased: bool) -> (r: &'a [u8])
    requires
        e.in_arenas(store.name_arena@, store.name_lower_arena@),
    ensures
        r@ == compared(*store, *e, cased),
{
    if cased {
        store.name(e).as_bytes()
    } else {
        store.lower_bytes(e)
    }
}

/// The length of a name, as far as it counts for the order.
pub open spec fn short_len(name: Seq<u8>) -> u64 {
    if name.len() < 255 {
        name.len() as u64
    } else {
        255
    }
}

/// The score of `fuzzy_matcher`'s `SkimMatcherV2` for a text and a pattern.
pub uninterp spec fn skim_score(choice: Seq<char>, pattern: Seq<char>) -> Option<i64>;

/// `fuzzy_matcher`'s `SkimMatcherV2::fuzzy_match`, on a matcher that was just
/// made with `default`: the score of the best match, or nothing where the
/// characters of the pattern do not all stand in the text in their order. A
/// matcher that was used before may give another score, because it keeps a part
/// of its last work. Names are at most 65535 bytes long, which keeps the score
/// far inside 32 bits.
#[verifier::external_body]
fn skim_match(choice: &str, pattern: &str) -> (r: Option<i64>)
    requires
        encode_utf8(choice@).len() <= u16::MAX,
    ensures
        r == skim_score(choice@, pattern@),
{
    SkimMatcherV2::default().fuzzy_match(choice, pattern)
}

/// How many bytes of `s` are `b`.
pub open spec fn count_byte(s: Seq<u8>, b: u8) -> nat
    decreases s.len(),
{
    if s.len() == 0 {
        0
    } else {
        count_byte(s.drop_last(), b) + (if s.last() == b {
            1nat
        } else {
            0
        })
    }
}

/// How many bytes of `s` are `b`, but no more than 15.
fn count_up_to_15(s: &[u8], b: u8) -> (r: u64)
    ensures
        r == (if count_byte(s@, b) < 15 {
            count_byte(s@, b) as int
        } else {
            15
        }),
{
    let mut n: u64 = 0;
    let mut i: usize = 0;
    assert(s@.take(0).len() == 0);
    while i < s.len()
        invariant
            i <= s@.len(),
            n <= 15,
            n == (if count_byte(s@.take(i as int), b) < 15 {
                count_byte(s@.take(i as int), b) as int
            } else {
                15
            }),
        decreases s@.len() - i,
    {
        proof {
            assert(s@.take(i + 1).drop_last() =~= s@.take(i as int));
            assert(s@.take(i + 1).last() == s@[i as int]);
        }
        if s[i] == b && n < 15 {
            n = n + 1;
        }
        i = i + 1;
    }
    assert(s@.take(i as int) =~= s@);
    n
}

/// A lowercased path holds one of the parts that mark a user's own files.
pub open spec fn has_user_marker(path_lower: Seq<u8>) -> bool {
    exists|k: int|
        0 <= k < USER_PATH_MARKERS@.len() && has_substring(
            path_lower,
            encode_utf8((#[trigger] USER_PATH_MARKERS@[k])@),
        )
}

/// Whether a lowercased path holds one of the parts that mark a user's own
/// files.
fn user_marked(path_lower: &[u8]) -> (r: bool)
    ensures
        r == has_user_marker(path_lower@),
{
    let mut k: usize = 0;
    while k < 7
        invariant
            k <= 7,
            forall|j: int|
                0 <= j < k ==> !has_substring(
                    path_lower@,
                    encode_utf8((#[trigger] USER_PATH_MARKERS@[j])@),
                ),
        decreases 7 - k,
    {
        if contains_bytes(path_lower, USER_PATH_MARKERS[k].as_bytes()) {
            return true;
        }
        k = k + 1;
    }
    false
}

/// What the lines of an extension search are ordered by: how the name matches
/// the query (1 for the name itself, 2 for its beginning, 3 otherwise), whether
/// the query begins a word in it, whether the path is a user's own, how deep the
/// path is, and how long the name is. Less is better in each.
pub open spec fn ext_meta(path_lower: Seq<u8>, lower: Seq<u8>, q: Seq<u8>) -> (
    u64,
    u64,
    u64,
    u64,
    u64,
) {
    let rank: u64 = if lower == q {
        1
    } else if has_prefix(lower, q) {
        2
    } else {
        3
    };
    (
        rank,
        if rank <= 2 || word_prefix(lower, q) {
            0
        } else {
            1
        },
        if has_user_marker(path_lower) {
            0
        } else {
            1
        },
        if count_byte(path_lower, 0x5c) < 15 {
            count_byte(path_lower, 0x5c) as u64
        } else {
            15
        },
        short_len(lower),
    )
}

/// One number for five: the first counts most.
pub open spec fn pack(m: (u64, u64, u64, u64, u64)) -> int {
    ((((m.0 * 2 + m.1) * 2 + m.2) * 16 + m.3) * 256) + m.4
}

/// The five numbers are in range.
pub open spec fn packable(m: (u64, u64, u64, u64, u64)) -> bool {
    m.0 <= 3 && m.1 <= 1 && m.2 <= 1 && m.3 <= 15 && m.4 <= 255
}

/// Ordering by the one number is ordering by the five, the first one first.
pub proof fn law_pack_is_lexicographic(
    a: (u64, u64, u64, u64, u64),
    b: (u64, u64, u64, u64, u64),
)
    requires
        packable(a),
        packable(b),
    ensures
        pack(a) < pack(b) <==> a.0 < b.0 || (a.0 == b.0 && (a.1 < b.1 || (a.1 == b.1 && (a.2 < b.2
            || (a.2 == b.2 && (a.3 < b.3 || (a.3 == b.3 && a.4 < b.4))))))),
{
}

/// What a search for a text orders the entries by: how well the name matches,
/// and how long it is. Nothing for an entry whose name does not hold the text.
pub open spec fn literal_keys(store: IndexStore, q: Seq<u8>, cased: bool) -> spec_fn(
    u32,
) -> Option<u64> {
    |i: u32|
        {
            let name = compared(store, store.entries@[i as int], cased);
            if i < store.entries@.len() && match_tier(name, q) is Some {
                Some((match_tier(name, q)->0 * 256 + short_len(name)) as u64)
            } else {
                None
            }
        }
}

/// What a search for approximate matches orders the entries by: a higher score
/// comes first. Nothing for an entry that has no score or is in `used`.
pub open spec fn fuzzy_keys(
    store: IndexStore,
    pattern: Seq<char>,
    used: Set<u64>,
) -> spec_fn(u32) -> Option<u64> {
    |i: u32|
        {
            let e = store.entries@[i as int];
            let score = skim_score(store.lower_text(e), pattern);
            if i < store.entries@.len() && !used.contains(e.file_ref) && score is Some {
                Some((i64::MAX - score->0) as u64)
            } else {
                None
            }
        }
}

/// What a search for an extension orders its entries by. Nothing for an entry
/// that is not among the rows or must not be shown.
pub open spec fn ext_keys(
    store: IndexStore,
    rows: Seq<u32>,
    q: Seq<u8>,
    excluded: Seq<String>,
) -> spec_fn(u32) -> Option<u64> {
    |i: u32|
        {
            let e = store.entries@[i as int];
            if rows.contains(i) && store.visible(e, excluded) {
                Some(pack(ext_meta(store.path_lower(e), store.lower_of(e), q)) as u64)
            } else {
                None
            }
        }
}

/// What a search asks of each row.
enum Probe<'a> {
    /// How the name matches a text, and whether case matters.
    Literal { q: &'a [u8], cased: bool },
    /// How the name matches approximately, for entries that are not shown yet.
    Fuzzy { pattern: &'a str, used: &'a HashSet<u64> },
    /// Where an entry of an extension goes, if it may be shown.
    Ext { rows: &'a [u32], q: &'a [u8], excluded: &'a [String] },
}

impl<'a> Probe<'a> {
    /// The entry of a row.
    spec fn row(&self, k: int) -> u32 {
        match self {
            Probe::Ext { rows, .. } => rows@[k],
            _ => k as u32,
        }
    }

    /// How many rows there are.
    spec fn len(&self, store: IndexStore) -> nat {
        match self {
            Probe::Ext { rows, .. } => rows@.len(),
            _ => store.entries@.len(),
        }
    }

    /// What an entry is ordered by; nothing where it is no match.
    spec fn keys(&self, store: IndexStore) -> spec_fn(u32) -> Option<u64> {
        match self {
            Probe::Literal { q, cased } => literal_keys(store, q@, *cased),
            Probe::Fuzzy { pattern, used } => fuzzy_keys(store, pattern@, used@),
            Probe::Ext { rows, q, excluded } => ext_keys(store, rows@, q@, excluded@),
        }
    }

    /// What a row is ordered by; nothing where it is no match.
    spec fn key(&self, store: IndexStore, k: int) -> Option<u64> {
        (self.keys(store))(self.row(k))
    }

    /// The rows are entries of the store, each once.
    spec fn rows_ok(&self, store: IndexStore) -> bool {
        match self {
            Probe::Ext { rows, .. } => {
                &&& forall|k: int|
                    0 <= k < rows@.len() ==> #[trigger] rows@[k] < store.entries@.len()
                &&& forall|j: int, k: int|
                    0 <= j < k < rows@.len() ==> #[trigger] rows@[j] < #[trigger] rows@[k]
            },
            _ => true,
        }
    }

    /// How many rows there are.
    fn count(&self, store: &IndexStore) -> (r: usize)
        ensures
            r == self.len(*store),
    {
        match self {
            Probe::Ext { rows, .. } => rows.len(),
            _ => store.entries.len(),
        }
    }

    /// The entry of a row.
    fn row_at(&self, k: usize) -> (r: u32)
        requires
            k <= u32::MAX,
            self is Ext ==> k < self->rows@.len(),
        ensures
            r == self.row(k as int),
    {
        match self {
            Probe::Ext { rows, .. } => rows[k],
            _ => k as u32,
        }
    }

    /// What a row is ordered by; nothing where it is no match.
    fn key_at(&self, store: &IndexStore, k: usize) -> (r: Option<u64>)
        requires
            store.searchable(),
            self.rows_ok(*store),
            k < self.len(*store),
        ensures
            r == self.key(*store, k as int),
    {
        broadcast use vstd::std_specs::hash::group_hash_axioms;

        proof {
            if let Probe::Ext { rows, .. } = self {
                lemma_ascending_bound(rows@, store.entries@.len() as int, k as int);
            }
        }
        let i: u32 = self.row_at(k);
        assert(self is Ext ==> self->rows@.contains(i));
        let e = store.entries[i as usize];
        assert(store.entries@[i as int] == e);
        match self {
            Probe::Literal { q, cased } => {
                let name = compared_bytes(store, &e, *cased);
                let len: u64 = if name.len() < 255 {
                    name.len() as u64
                } else {
                    255
                };
                match tier_of(name, q) {
                    Some(tier) => Some(tier as u64 * 256 + len),
                    None => None,
                }
            },
            Probe::Fuzzy { pattern, used } => {
                if used.contains(&e.file_ref) {
                    None
                } else {
                    let lower = store.name_lower(&e);
                    proof {
                        encode_utf8_decode_utf8(lower@);
                    }
                    match skim_match(lower, pattern) {
                        None => None,
                        Some(score) => Some((i64::MAX as i128 - score as i128) as u64),
                    }
                }
            },
            Probe::Ext { q, excluded, .. } => {
                match store.shown_path(&e, excluded) {
                    None => None,
                    Some(path) => {
                        let lowered = path.to_lowercase();
                        let path_lower = lowered.as_str().as_bytes();
                        let lower = store.lower_bytes(&e);
                        Some(ext_key_of(path_lower, lower, q))
                    },
                }
            },
        }
    }
}

/// Ascending numbers below `n` are no more than `n`.
proof fn lemma_ascending_bound(rows: Seq<u32>, n: int, k: int)
    requires
        0 <= k < rows.len(),
        forall|i: int| 0 <= i < rows.len() ==> #[trigger] rows[i] < n,
        forall|i: int, j: int| 0 <= i < j < rows.len() ==> #[trigger] rows[i] < #[trigger] rows[j],
    ensures
        k <= rows[k],
        k < n,
    decreases k,
{
    if k > 0 {
        lemma_ascending_bound(rows, n, k - 1);
        assert(rows[k - 1] < rows[k]);
    }
    assert(rows[k] < n);
}

/// The rank of a line of an extension search.
fn ext_key_of(path_lower: &[u8], lower: &[u8], q: &[u8]) -> (r: u64)
    ensures
        r == pack(ext_meta(path_lower@, lower@, q@)),
        packable(ext_meta(path_lower@, lower@, q@)),
{
    let rank: u64 = if bytes_eq(lower, q) {
        1
    } else if starts_with_bytes(lower, q) {
        2
    } else {
        3
    };
    let boundary: u64 = if rank <= 2 || word_prefix_match(lower, q) {
        0
    } else {
        1
    };
    let user: u64 = if user_marked(path_lower) {
        0
    } else {
        1
    };
    let depth: u64 = count_up_to_15(path_lower, 0x5c);
    let len: u64 = if lower.len() < 255 {
        lower.len() as u64
    } else {
        255
    };
    ((((rank * 2 + boundary) * 2 + user) * 16 + depth) * 256) + len
}

/// `rayon`'s parallel map over a range, collected in order: the result of
/// `key_at` for each row.
#[verifier::external_body]
fn all_keys(store: &IndexStore, probe: &Probe, n: usize) -> (r: Vec<Option<u64>>)
    requires
        store.searchable(),
        probe.rows_ok(*store),
        n == probe.len(*store),
    ensures
        r@.len() == n,
        forall|k: int| 0 <= k < n ==> #[trigger] r@[k] == probe.key(*store, k),
{
    (0..n).into_par_iter().map(|k| probe.key_at(store, k)).collect()
}

/// `x` is the rank and entry of one of the first `n` rows.
spec fn is_hit(probe: Probe, store: IndexStore, n: int, x: (u64, u32)) -> bool {
    exists|k: int| 0 <= k < n && #[trigger] probe.key(store, k) == Some(x.0) && probe.row(k) == x.1
}

/// `ranked` holds the rank and entry of every match, in order of rank; of equal
/// ranks the entry that comes first in the index comes first.
pub open spec fn ranking(
    ranked: Seq<(u64, u32)>,
    keys: spec_fn(u32) -> Option<u64>,
) -> bool {
    &&& pairs_sorted(ranked)
    &&& forall|x: (u64, u32)| #[trigger] ranked.contains(x) <==> keys(x.1) == Some(x.0)
}

/// There is one ranking only.
pub proof fn law_ranking_is_unique(
    a: Seq<(u64, u32)>,
    b: Seq<(u64, u32)>,
    keys: spec_fn(u32) -> Option<u64>,
)
    requires
        ranking(a, keys),
        ranking(b, keys),
    ensures
        a == b,
{
    assert forall|x: (u64, u32)| #[trigger] a.contains(x) <==> b.contains(x) by {}
    lemma_sorted_unique(a, b);
}

/// Two ordered lists with the same members are equal.
proof fn lemma_sorted_unique(a: Seq<(u64, u32)>, b: Seq<(u64, u32)>)
    requires
        pairs_sorted(a),
        pairs_sorted(b),
        forall|x: (u64, u32)| #[trigger] a.contains(x) <==> b.contains(x),
    ensures
        a == b,
    decreases a.len(),
{
    if a.len() == 0 {
        if b.len() > 0 {
            assert(b.contains(b[0]));
            assert(a.contains(b[0]));
        }
        assert(a =~= b);
    } else {
        assert(a.contains(a[0]));
        assert(b.contains(a[0]));
        assert(b.contains(b[0]));
        assert(a.contains(b[0]));
        let p = choose|p: int| 0 <= p < b.len() && b[p] == a[0];
        let q = choose|q: int| 0 <= q < a.len() && a[q] == b[0];
        if p > 0 {
            assert(pair_lt(b[0], b[p]));
            if q > 0 {
                assert(pair_lt(a[0], a[q]));
            }
        }
        assert(a[0] == b[0]);
        let x = a.drop_first();
        let y = b.drop_first();
        assert forall|z: (u64, u32)| #[trigger] x.contains(z) <==> y.contains(z) by {
            if x.contains(z) {
                let k = choose|k: int| 0 <= k < x.len() && x[k] == z;
                assert(a[k + 1] == z);
                assert(pair_lt(a[0], a[k + 1]));
                assert(a.contains(z));
                assert(b.contains(z));
                let j = choose|j: int| 0 <= j < b.len() && b[j] == z;
                assert(y[j - 1] == z);
            }
            if y.contains(z) {
                let k = choose|k: int| 0 <= k < y.len() && y[k] == z;
                assert(b[k + 1] == z);
                assert(pair_lt(b[0], b[k + 1]));
                assert(a.contains(z));
                let j = choose|j: int| 0 <= j < a.len() && a[j] == z;
                assert(x[j - 1] == z);
            }
        }
        assert forall|i: int, j: int| 0 <= i < j < x.len() implies pair_lt(
            #[trigger] x[i],
            #[trigger] x[j],
        ) by {
            assert(pair_lt(a[i + 1], a[j + 1]));
        }
        assert forall|i: int, j: int| 0 <= i < j < y.len() implies pair_lt(
            #[trigger] y[i],
            #[trigger] y[j],
        ) by {
            assert(pair_lt(b[i + 1], b[j + 1]));
        }
        lemma_sorted_unique(x, y);
        assert(a =~= seq![a[0]] + x);
        assert(b =~= seq![b[0]] + y);
    }
}

/// The ranking of all matches.
fn rank(store: &IndexStore, probe: &Probe) -> (ranked: Vec<(u64, u32)>)
    requires
        store.searchable(),
        probe.rows_ok(*store),
    ensures
        ranking(ranked@, probe.keys(*store)),
        ranked@.len() <= probe.len(*store),
        forall|k: int| 0 <= k < ranked@.len() ==> (#[trigger] ranked@[k]).1 < store.entries@.len(),
{
    let n: usize = probe.count(store);
    let keys = all_keys(store, probe, n);
    let mut hits: Vec<(u64, u32)> = Vec::new();
    let mut k: usize = 0;
    while k < n
        invariant
            k <= n,
            n == probe.len(*store),
            store.searchable(),
            probe.rows_ok(*store),
            keys@.len() == n,
            forall|j: int| 0 <= j < n ==> #[trigger] keys@[j] == probe.key(*store, j),
            hits@.len() <= k,
            forall|x: (u64, u32)| #[trigger]
                hits@.contains(x) <==> is_hit(*probe, *store, k as int, x),
            forall|j: int| 0 <= j < hits@.len() ==> (#[trigger] hits@[j]).1 < store.entries@.len(),
            forall|j: int|
                0 <= j < hits@.len() ==> exists|i: int|
                    0 <= i < k && probe.row(i) == (#[trigger] hits@[j]).1,
            forall|i: int, j: int|
                0 <= i < j < hits@.len() ==> (#[trigger] hits@[i]).1 < (#[trigger] hits@[j]).1,
        decreases n - k,
    {
        proof {
            if let Probe::Ext { rows, .. } = probe {
                lemma_ascending_bound(rows@, store.entries@.len() as int, k as int);
            }
            assert forall|i: int| 0 <= i < k implies #[trigger] probe.row(i) < probe.row(
                k as int,
            ) by {
                if let Probe::Ext { rows, .. } = probe {
                    assert(rows@[i] < rows@[k as int]);
                }
            }
        }
        let ghost was = hits@;
        if let Some(key) = keys[k] {
            let row: u32 = probe.row_at(k);
            assert(keys@[k as int] == probe.key(*store, k as int));
            hits.push((key, row));
            proof {
                assert forall|x: (u64, u32)| #[trigger] hits@.contains(x) <==> is_hit(
                    *probe,
                    *store,
                    k + 1,
                    x,
                ) by {
                    if x == (key, row) {
                        assert(hits@[was.len() as int] == x);
                        assert(probe.key(*store, k as int) == Some(x.0));
                    } else {
                        if was.contains(x) {
                            let p = choose|p: int| 0 <= p < was.len() && was[p] == x;
                            assert(hits@[p] == x);
                            let j = choose|j: int|
                                0 <= j < k && #[trigger] probe.key(*store, j) == Some(x.0)
                                    && probe.row(j) == x.1;
                            assert(probe.key(*store, j) == Some(x.0));
                        }
                        if hits@.contains(x) {
                            let p = choose|p: int| 0 <= p < hits@.len() && hits@[p] == x;
                            assert(was[p] == x);
                        }
                        if is_hit(*probe, *store, k + 1, x) {
                            let j = choose|j: int|
                                0 <= j < k + 1 && #[trigger] probe.key(*store, j) == Some(x.0)
                                    && probe.row(j) == x.1;
                            assert(j < k);
                            assert(is_hit(*probe, *store, k as int, x));
                        }
                    }
                }
                assert forall|j: int| 0 <= j < hits@.len() implies exists|i: int|
                    0 <= i < k + 1 && probe.row(i) == (#[trigger] hits@[j]).1 by {
                    if j == was.len() {
                        assert(probe.row(k as int) == hits@[j].1);
                    } else {
                        assert(hits@[j] == was[j]);
                        let i = choose|i: int| 0 <= i < k && probe.row(i) == was[j].1;
                        assert(probe.row(i) == hits@[j].1);
                    }
                }
                assert forall|i: int, j: int| 0 <= i < j < hits@.len() implies (
                #[trigger] hits@[i]).1 < (#[trigger] hits@[j]).1 by {
                    assert(hits@[i] == was[i]);
                    if j < was.len() {
                        assert(hits@[j] == was[j]);
                    } else {
                        let m = choose|m: int| 0 <= m < k && probe.row(m) == was[i].1;
                        assert(probe.row(m) < probe.row(k as int));
                    }
                }
            }
        } else {
            assert(keys@[k as int] == probe.key(*store, k as int));
            assert forall|x: (u64, u32)| #[trigger] hits@.contains(x) <==> is_hit(
                *probe,
                *store,
                k + 1,
                x,
            ) by {
                if is_hit(*probe, *store, k as int, x) {
                    let j = choose|j: int|
                        0 <= j < k && #[trigger] probe.key(*store, j) == Some(x.0) && probe.row(j)
                            == x.1;
                    assert(probe.key(*store, j) == Some(x.0));
                }
                if is_hit(*probe, *store, k + 1, x) {
                    let j = choose|j: int|
                        0 <= j < k + 1 && #[trigger] probe.key(*store, j) == Some(x.0)
                            && probe.row(j) == x.1;
                    assert(j < k);
                }
            }
            assert forall|j: int| 0 <= j < hits@.len() implies exists|i: int|
                0 <= i < k + 1 && probe.row(i) == (#[trigger] hits@[j]).1 by {
                let i = choose|i: int| 0 <= i < k && probe.row(i) == hits@[j].1;
                assert(probe.row(i) == hits@[j].1);
            }
        }
        k = k + 1;
    }
    let ghost unsorted = hits@;
    sort_pairs(&mut hits);
    proof {
        lemma_sorted_hits(unsorted, hits@, store.entries@.len() as int);
        assert forall|x: (u64, u32)| #[trigger] hits@.contains(x) <==> (probe.keys(*store))(x.1)
            == Some(x.0) by {
            lemma_hit(*probe, *store, x);
        }
    }
    hits
}

/// Putting different pairs in order keeps them and leaves none equal.
proof fn lemma_sorted_hits(before: Seq<(u64, u32)>, after: Seq<(u64, u32)>, n: int)
    requires
        forall|i: int, j: int|
            0 <= i < j < before.len() ==> (#[trigger] before[i]).1 < (#[trigger] before[j]).1,
        forall|j: int| 0 <= j < before.len() ==> (#[trigger] before[j]).1 < n,
        after.to_multiset() == before.to_multiset(),
        forall|p: int, q: int|
            0 <= p < q < after.len() ==> pair_lt(#[trigger] after[p], #[trigger] after[q])
                || after[p] == after[q],
    ensures
        pairs_sorted(after),
        after.len() == before.len(),
        forall|x: (u64, u32)| #[trigger] after.contains(x) <==> before.contains(x),
        forall|j: int| 0 <= j < after.len() ==> (#[trigger] after[j]).1 < n,
{
    before.to_multiset_ensures();
    after.to_multiset_ensures();
    assert(before.no_duplicates());
    before.lemma_multiset_has_no_duplicates();
    after.lemma_multiset_has_no_duplicates_conv();
    assert forall|x: (u64, u32)| #[trigger] after.contains(x) <==> before.contains(x) by {
        assert(after.contains(x) <==> after.to_multiset().count(x) > 0);
        assert(before.contains(x) <==> before.to_multiset().count(x) > 0);
    }
    assert forall|j: int| 0 <= j < after.len() implies (#[trigger] after[j]).1 < n by {
        assert(after.contains(after[j]));
        assert(before.contains(after[j]));
        let k = choose|k: int| 0 <= k < before.len() && before[k] == after[j];
        assert(before[k].1 < n);
    }
}

/// The hits of a probe are the entries that have a key.
proof fn lemma_hit(probe: Probe, store: IndexStore, x: (u64, u32))
    requires
        store.searchable(),
        probe.rows_ok(store),
    ensures
        is_hit(probe, store, probe.len(store) as int, x) <==> (probe.keys(store))(x.1) == Some(x.0),
{
    if (probe.keys(store))(x.1) == Some(x.0) {
        let k: int = match probe {
            Probe::Ext { rows, .. } => {
                assert(rows@.contains(x.1));
                choose|k: int| 0 <= k < rows@.len() && rows@[k] == x.1
            },
            _ => x.1 as int,
        };
        assert(probe.row(k) == x.1);
        assert(probe.key(store, k) == Some(x.0));
    }
}

/// The pairs that may be shown.
pub open spec fn visible_rows(
    store: IndexStore,
    ranked: Seq<(u64, u32)>,
    excluded: Seq<String>,
) -> Seq<(u64, u32)> {
    ranked.filter(|x: (u64, u32)| store.visible(store.entries@[x.1 as int], excluded))
}

/// The page of a list that begins after `skip` and holds at most `limit`.
pub open spec fn page_of(rows: Seq<(u64, u32)>, skip: nat, limit: nat) -> Seq<(u64, u32)> {
    let lo = if skip < rows.len() {
        skip as int
    } else {
        rows.len() as int
    };
    let hi = if skip + limit < rows.len() {
        (skip + limit) as int
    } else {
        rows.len() as int
    };
    rows.subrange(lo, hi)
}

/// Which kind of search a line comes from.
#[derive(Clone, Copy, PartialEq, Eq, Structural)]
pub enum Lines {
    /// A search for a text, and whether case matters.
    Literal { cased: bool },
    Fuzzy,
    Ext,
}

/// The rank of a line in a search for a text: how well the name matches.
pub open spec fn tier_rank(name: Seq<u8>, q: Seq<u8>) -> u8 {
    match match_tier(name, q) {
        Some(tier) => tier,
        None => 0,
    }
}

impl Lines {
    /// Rank and priority of the line for an entry.
    pub open spec fn marks(self, store: IndexStore, e: IndexEntry, q: Seq<u8>) -> (u8, u8) {
        let lower = store.lower_of(e);
        match self {
            Lines::Literal { cased } => (
                tier_rank(compared(store, e, cased), q),
                ext_rank(lower),
            ),
            Lines::Fuzzy => (5, ext_rank(lower)),
            Lines::Ext => (
                if lower == q {
                    1
                } else if has_prefix(lower, q) {
                    2
                } else {
                    3
                },
                0,
            ),
        }
    }
}

/// `results` are the lines for `rows`.
pub open spec fn lines_for(
    store: IndexStore,
    rows: Seq<(u64, u32)>,
    lines: Lines,
    q: Seq<u8>,
    results: Seq<SearchResult>,
) -> bool {
    &&& results.len() == rows.len()
    &&& forall|k: int|
        0 <= k < rows.len() ==> {
            let e = store.entries@[rows[k].1 as int];
            let marks = lines.marks(store, e, q);
            line_for(store, e, marks.0, marks.1, #[trigger] results[k])
        }
}

/// What a filter keeps of the first `i` comes first in what it keeps of all.
proof fn lemma_filter_prefix(
    s: Seq<(u64, u32)>,
    keep: spec_fn((u64, u32)) -> bool,
    i: int,
)
    requires
        0 <= i <= s.len(),
    ensures
        s.take(i).filter(keep).is_prefix_of(s.filter(keep)),
    decreases s.len() - i,
{
    reveal(Seq::filter);
    if i == s.len() {
        assert(s.take(i) =~= s);
    } else {
        lemma_filter_prefix(s, keep, i + 1);
        assert(s.take(i + 1).drop_last() =~= s.take(i));
        let a = s.take(i).filter(keep);
        let b = s.take(i + 1).filter(keep);
        assert(a.is_prefix_of(b));
        assert(a =~= s.filter(keep).subrange(0, a.len() as int));
    }
}

/// The record numbers of some rows.
pub open spec fn refs_of(store: IndexStore, rows: Seq<(u64, u32)>) -> Set<u64> {
    Set::new(
        |r: u64|
            exists|k: int|
                0 <= k < rows.len() && store.entries@[(#[trigger] rows[k]).1 as int].file_ref == r,
    )
}

/// A page of lines, and the record numbers on it.
fn page_lines(
    store: &IndexStore,
    ranked: &Vec<(u64, u32)>,
    skip: usize,
    limit: usize,
    excluded: &[String],
    lines: Lines,
    q: &[u8],
) -> (r: (Vec<SearchResult>, HashSet<u64>))
    requires
        store.searchable(),
        forall|k: int| 0 <= k < ranked@.len() ==> (#[trigger] ranked@[k]).1 < store.entries@.len(),
    ensures
        ({
            let rows = page_of(visible_rows(*store, ranked@, excluded@), skip as nat, limit as nat);
            lines_for(*store, rows, lines, q@, r.0@) && r.1@ == refs_of(*store, rows)
        }),
{
    broadcast use vstd::std_specs::hash::group_hash_axioms;

    let ghost keep = |x: (u64, u32)| store.visible(store.entries@[x.1 as int], excluded@);
    let ghost all = visible_rows(*store, ranked@, excluded@);
    let mut results: Vec<SearchResult> = Vec::new();
    let mut used: HashSet<u64> = HashSet::new();
    let mut skipped: usize = 0;
    let mut i: usize = 0;
    let ghost mut seen: Seq<(u64, u32)> = Seq::empty();
    proof {
        reveal(Seq::filter);
        assert(ranked@.take(0) =~= Seq::<(u64, u32)>::empty());
        assert(page_of(seen, skip as nat, limit as nat).len() == 0);
        assert(refs_of(*store, page_of(seen, skip as nat, limit as nat)) =~= Set::empty());
    }
    while i < ranked.len() && results.len() < limit
        invariant
            store.searchable(),
            forall|k: int|
                0 <= k < ranked@.len() ==> (#[trigger] ranked@[k]).1 < store.entries@.len(),
            keep == (|x: (u64, u32)| store.visible(store.entries@[x.1 as int], excluded@)),
            i <= ranked@.len(),
            seen == ranked@.take(i as int).filter(keep),
            skipped == (if seen.len() < skip {
                seen.len() as int
            } else {
                skip as int
            }),
            results@.len() <= limit,
            lines_for(
                *store,
                page_of(seen, skip as nat, limit as nat),
                lines,
                q@,
                results@,
            ),
            used@ == refs_of(*store, page_of(seen, skip as nat, limit as nat)),
        decreases ranked@.len() - i,
    {
        let row: u32 = ranked[i].1;
        let e = store.entries[row as usize];
        let ghost was = seen;
        let ghost page = page_of(was, skip as nat, limit as nat);
        proof {
            reveal(Seq::filter);
            assert(ranked@.take(i + 1).drop_last() =~= ranked@.take(i as int));
            assert(ranked@.take(i + 1).last() == ranked@[i as int]);
            seen = ranked@.take(i + 1).filter(keep);
        }
        if let Some(full_path) = store.shown_path(&e, excluded) {
            assert(seen == was.push(ranked@[i as int]));
            if skipped < skip {
                skipped = skipped + 1;
                assert(page_of(seen, skip as nat, limit as nat) =~= page);
            } else {
                let lower = store.lower_bytes(&e);
                let (rank, priority): (u8, u8) = match lines {
                    Lines::Literal { cased } => (
                        match tier_of(compared_bytes(store, &e, cased), q) {
                            Some(tier) => tier,
                            None => 0,
                        },
                        ext_priority(lower),
                    ),
                    Lines::Fuzzy => (5, ext_priority(lower)),
                    Lines::Ext => (
                        if bytes_eq(lower, q) {
                            1
                        } else if starts_with_bytes(lower, q) {
                            2
                        } else {
                            3
                        },
                        0,
                    ),
                };
                let name = store.name(&e);
                proof {
                    encode_utf8_decode_utf8(name@);
                }
                let line = SearchResult {
                    full_path,
                    name: name.to_owned(),
                    rank,
                    is_dir: e.is_dir(),
                    modified_time: None,
                    file_type_priority: priority,
                };
                let ghost before = results@;
                results.push(line);
                used.insert(e.file_ref);
                proof {
                    let now = page_of(seen, skip as nat, limit as nat);
                    assert(now =~= page.push(ranked@[i as int]));
                    assert forall|k: int| 0 <= k < now.len() implies {
                        let e = store.entries@[now[k].1 as int];
                        let marks = lines.marks(*store, e, q@);
                        line_for(*store, e, marks.0, marks.1, #[trigger] results@[k])
                    } by {
                        if k < page.len() {
                            assert(results@[k] == before[k]);
                        }
                    }
                    assert(used@ =~= refs_of(*store, now)) by {
                        assert forall|r: u64| #[trigger] used@.contains(r) == refs_of(
                            *store,
                            now,
                        ).contains(r) by {
                            if refs_of(*store, page).contains(r) {
                                let k = choose|k: int|
                                    0 <= k < page.len() && store.entries@[(
                                    #[trigger] page[k]).1 as int].file_ref == r;
                                assert(now[k] == page[k]);
                            }
                            if r == e.file_ref {
                                assert(now[page.len() as int].1 == row);
                            }
                            if refs_of(*store, now).contains(r) {
                                let k = choose|k: int|
                                    0 <= k < now.len() && store.entries@[(
                                    #[trigger] now[k]).1 as int].file_ref == r;
                                if k < page.len() {
                                    assert(now[k] == page[k]);
                                }
                            }
                        }
                    }
                }
            }
        } else {
            assert(seen == was);
        }
        i = i + 1;
    }
    proof {
        lemma_filter_prefix(ranked@, keep, i as int);
        assert(all == ranked@.filter(keep));
        if i == ranked@.len() {
            assert(ranked@.take(i as int) =~= ranked@);
        } else if limit == 0 {
            assert(page_of(seen, skip as nat, 0) =~= page_of(all, skip as nat, 0));
        } else {
            assert(seen.len() >= skip + limit);
            assert(page_of(seen, skip as nat, limit as nat) =~= page_of(
                all,
                skip as nat,
                limit as nat,
            ));
        }
    }
    (results, used)
}

/// How many approximate matches are looked at, at most.
pub const FUZZY_LIMIT: usize = 200;

/// The best approximate matches, so many of them as lines are missing.
pub open spec fn best_of(best: Seq<(u64, u32)>, missing: nat) -> Seq<(u64, u32)> {
    let need = if missing < FUZZY_LIMIT {
        missing
    } else {
        FUZZY_LIMIT as nat
    };
    if need < best.len() {
        best.take(need as int)
    } else {
        best
    }
}

/// `results` are the lines for `rows`, and behind them those for the best
/// approximate matches among the entries that are not on them.
pub open spec fn filled(
    store: IndexStore,
    q: Seq<char>,
    cased: bool,
    limit: nat,
    excluded: Seq<String>,
    rows: Seq<(u64, u32)>,
    results: Seq<SearchResult>,
) -> bool {
    exists|best: Seq<(u64, u32)>|
        {
            let more = visible_rows(store, best_of(best, (limit - rows.len()) as nat), excluded);
            &&& #[trigger] ranking(best, fuzzy_keys(store, q, refs_of(store, rows)))
            &&& results.len() == rows.len() + more.len()
            &&& lines_for(
                store,
                rows,
                Lines::Literal { cased },
                encode_utf8(q),
                results.take(rows.len() as int),
            )
            &&& lines_for(
                store,
                more,
                Lines::Fuzzy,
                encode_utf8(q),
                results.skip(rows.len() as int),
            )
        }
}

/// What a search for a text finds. The total counts every name that holds the
/// text; the page holds only what may be shown. Where case matters the names are
/// taken as they are written. A first page that is not full is filled with
/// approximate matches.
pub open spec fn literal_found(
    store: IndexStore,
    q: Seq<char>,
    cased: bool,
    limit: nat,
    skip: nat,
    excluded: Seq<String>,
    r: PagedSearch,
) -> bool {
    exists|ranked: Seq<(u64, u32)>|
        {
            let rows = page_of(visible_rows(store, ranked, excluded), skip, limit);
            &&& #[trigger] ranking(ranked, literal_keys(store, encode_utf8(q), cased))
            &&& r.total == ranked.len()
            &&& if encode_utf8(q).len() >= 2 && skip == 0 && rows.len() < limit {
                filled(store, q, cased, limit, excluded, rows, r.results@)
            } else {
                lines_for(store, rows, Lines::Literal { cased }, encode_utf8(q), r.results@)
            }
        }
}

/// What a search for an extension finds: the page of its entries that may be
/// shown, and how many those are.
pub open spec fn ext_found(
    store: IndexStore,
    ext: Seq<u8>,
    q: Seq<char>,
    limit: nat,
    skip: nat,
    excluded: Seq<String>,
    r: PagedSearch,
) -> bool {
    exists|ranked: Seq<(u64, u32)>|
        {
            &&& #[trigger] ranking(
                ranked,
                ext_keys(store, rows_of(store.ext_index@, ext), encode_utf8(q), excluded),
            )
            &&& r.total == ranked.len()
            &&& lines_for(
                store,
                page_of(ranked, skip, limit),
                Lines::Ext,
                encode_utf8(q),
                r.results@,
            )
        }
}

/// The extension that a query may mean: what follows a leading `.`, or a short
/// word without `.`.
pub open spec fn asked_ext(q: Seq<u8>) -> Option<Seq<u8>> {
    if q.len() >= 3 && q[0] == 0x2e {
        Some(q.subrange(1, q.len() as int))
    } else if 2 <= q.len() <= 6 && last_dot(q) == -1 {
        Some(q)
    } else {
        None
    }
}

/// The extension that a query means: one that some entry has.
pub open spec fn query_ext(store: IndexStore, q: Seq<u8>) -> Option<Seq<u8>> {
    if asked_ext(q) is Some && has_ext(store.ext_index@, asked_ext(q)->0) {
        asked_ext(q)
    } else {
        None
    }
}

/// The bucket of the extension that a query means.
fn extension_of(store: &IndexStore, q: &[u8]) -> (r: Option<usize>)
    requires
        store.ext_usable(),
    ensures
        r is Some <==> query_ext(*store, q@) is Some,
        r is Some ==> r->0 < store.ext_index@.len() && store.ext_index@[r->0 as int].rows@
            == rows_of(store.ext_index@, query_ext(*store, q@)->0),
{
    let ext: &[u8] = if q.len() >= 3 && q[0] == 0x2e {
        &q[1..q.len()]
    } else if q.len() >= 2 && q.len() <= 6 && crate::index::ext::find_last_dot(q).is_none() {
        q
    } else {
        return None;
    };
    assert(asked_ext(q@) == Some(ext@));
    let (pos, found) = find_ext(&store.ext_index, ext);
    if found {
        Some(pos)
    } else {
        None
    }
}

/// A search for an extension.
fn search_by_ext(
    store: &IndexStore,
    bucket: usize,
    q: &str,
    limit: usize,
    skip: usize,
    excluded_dirs: &[String],
    Ghost(ext): Ghost<Seq<u8>>,
) -> (r: PagedSearch)
    requires
        store.searchable(),
        store.ext_usable(),
        bucket < store.ext_index@.len(),
        store.ext_index@[bucket as int].rows@ == rows_of(store.ext_index@, ext),
    ensures
        ext_found(*store, ext, q@, limit as nat, skip as nat, excluded_dirs@, r),
{
    let rows = store.ext_index[bucket].rows.as_slice();
    assert forall|k: int| 0 <= k < rows@.len() implies #[trigger] rows@[k]
        < store.entries@.len() by {
        assert(store.ext_index@[bucket as int].rows@[k] < store.entries@.len());
    }
    assert forall|j: int, k: int| 0 <= j < k < rows@.len() implies #[trigger] rows@[j]
        < #[trigger] rows@[k] by {
        assert(store.ext_index@[bucket as int].rows@[j] < store.ext_index@[bucket as int].rows@[k]);
    }
    let probe = Probe::Ext { rows, q: q.as_bytes(), excluded: excluded_dirs };
    let ranked = rank(store, &probe);
    let (results, _) = page_lines(
        store,
        &ranked,
        skip,
        limit,
        excluded_dirs,
        Lines::Ext,
        q.as_bytes(),
    );
    let total: usize = ranked.len();
    proof {
        let keep = |x: (u64, u32)| store.visible(store.entries@[x.1 as int], excluded_dirs@);
        assert forall|k: int| 0 <= k < ranked@.len() implies keep(#[trigger] ranked@[k]) by {
            assert(ranked@.contains(ranked@[k]));
        }
        lemma_filter_all(ranked@, keep);
    }
    PagedSearch { results, total }
}

/// A filter that keeps everything changes nothing.
proof fn lemma_filter_all(s: Seq<(u64, u32)>, keep: spec_fn((u64, u32)) -> bool)
    requires
        forall|k: int| 0 <= k < s.len() ==> keep(#[trigger] s[k]),
    ensures
        s.filter(keep) == s,
    decreases s.len(),
{
    reveal(Seq::filter);
    if s.len() > 0 {
        assert forall|k: int| 0 <= k < s.drop_last().len() implies keep(
            #[trigger] s.drop_last()[k],
        ) by {
            assert(s.drop_last()[k] == s[k]);
        }
        lemma_filter_all(s.drop_last(), keep);
        assert(s =~= s.drop_last().push(s.last()));
    } else {
        assert(s.filter(keep) =~= s);
    }
}

/// A filter keeps no more than there is.
proof fn lemma_filter_len(s: Seq<(u64, u32)>, keep: spec_fn((u64, u32)) -> bool)
    ensures
        s.filter(keep).len() <= s.len(),
    decreases s.len(),
{
    reveal(Seq::filter);
    if s.len() > 0 {
        lemma_filter_len(s.drop_last(), keep);
    }
}

/// The lines of the best approximate matches among the entries that are not in
/// `used`, for a page on which `missing` lines are free.
fn fuzzy_fill(
    store: &IndexStore,
    q: &str,
    excluded_dirs: &[String],
    used: &HashSet<u64>,
    missing: usize,
) -> (r: Vec<SearchResult>)
    requires
        store.searchable(),
    ensures
        exists|best: Seq<(u64, u32)>|
            {
                &&& #[trigger] ranking(best, fuzzy_keys(*store, q@, used@))
                &&& lines_for(
                    *store,
                    visible_rows(*store, best_of(best, missing as nat), excluded_dirs@),
                    Lines::Fuzzy,
                    encode_utf8(q@),
                    r@,
                )
            },
{
    let probe = Probe::Fuzzy { pattern: q, used };
    let mut best = rank(store, &probe);
    let ghost ranked = best@;
    let need: usize = if missing < FUZZY_LIMIT {
        missing
    } else {
        FUZZY_LIMIT
    };
    if need < best.len() {
        best.truncate(need);
    }
    assert(best@ =~= best_of(ranked, missing as nat));
    assert forall|k: int| 0 <= k < best@.len() implies (#[trigger] best@[k]).1
        < store.entries@.len() by {
        assert(best@[k] == ranked[k]);
    }
    let (results, _) = page_lines(
        store,
        &best,
        0,
        need,
        excluded_dirs,
        Lines::Fuzzy,
        q.as_bytes(),
    );
    proof {
        let rows = visible_rows(*store, best@, excluded_dirs@);
        lemma_filter_len(
            best@,
            |x: (u64, u32)| store.visible(store.entries@[x.1 as int], excluded_dirs@),
        );
        assert(page_of(rows, 0, need as nat) =~= rows);
    }
    results
}

/// A search for a text. Where case matters the names are taken as they are
/// written.
fn text_paged(
    store: &IndexStore,
    q: &str,
    cased: bool,
    limit: usize,
    skip: usize,
    excluded_dirs: &[String],
) -> (r: PagedSearch)
    requires
        store.searchable(),
    ensures
        literal_found(*store, q@, cased, limit as nat, skip as nat, excluded_dirs@, r),
{
    let probe = Probe::Literal { q: q.as_bytes(), cased };
    let ranked = rank(store, &probe);
    let total: usize = ranked.len();
    let ghost rows = page_of(
        visible_rows(*store, ranked@, excluded_dirs@),
        skip as nat,
        limit as nat,
    );
    let (mut results, used) = page_lines(
        store,
        &ranked,
        skip,
        limit,
        excluded_dirs,
        Lines::Literal { cased },
        q.as_bytes(),
    );
    if q.as_bytes().len() >= 2 && skip == 0 && results.len() < limit {
        let ghost first = results@;
        let mut more = fuzzy_fill(store, q, excluded_dirs, &used, limit - results.len());
        let ghost extra = more@;
        results.append(&mut more);
        proof {
            assert(results@.take(rows.len() as int) =~= first);
            assert(results@.skip(rows.len() as int) =~= extra);
        }
    }
    PagedSearch { results, total }
}

/// A search for a text in the lowercased names.
pub fn generic_paged(
    store: &IndexStore,
    q: &str,
    limit: usize,
    skip: usize,
    excluded_dirs: &[String],
) -> (r: PagedSearch)
    requires
        store.searchable(),
    ensures
        literal_found(*store, q@, false, limit as nat, skip as nat, excluded_dirs@, r),
{
    text_paged(store, q, false, limit, skip, excluded_dirs)
}

/// What a query is compared as.
pub open spec fn query_text(query: Seq<char>, case_sensitive: bool) -> Seq<char> {
    if case_sensitive {
        query
    } else {
        lowercase(query)
    }
}

/// What a search finds.
pub open spec fn found(
    store: IndexStore,
    query: Seq<char>,
    limit: nat,
    skip: nat,
    case_sensitive: bool,
    excluded: Seq<String>,
    r: PagedSearch,
) -> bool {
    let q = query_text(query, case_sensitive);
    let ext = query_ext(store, encode_utf8(q));
    if q.len() == 0 {
        r.results@.len() == 0 && r.total == 0
    } else if !case_sensitive && ext is Some {
        ext_found(store, ext->0, q, limit, skip, excluded, r)
    } else {
        literal_found(store, q, case_sensitive, limit, skip, excluded, r)
    }
}

/// A page of results for a query. A query that is a known extension lists its
/// entries, unless case matters; any other query is looked for in the names, as
/// they are written where case matters.
pub fn search_paged(
    store: &IndexStore,
    query: &str,
    limit: usize,
    skip: usize,
    case_sensitive: bool,
    excluded_dirs: &[String],
) -> (r: PagedSearch)
    requires
        store.searchable(),
        store.ext_usable(),
    ensures
        found(
            *store,
            query@,
            limit as nat,
            skip as nat,
            case_sensitive,
            excluded_dirs@,
            r,
        ),
{
    let q: String = if case_sensitive {
        query.to_owned()
    } else {
        query.to_lowercase()
    };
    if q.as_str().is_empty() {
        return PagedSearch { results: Vec::new(), total: 0 };
    }
    if case_sensitive {
        text_paged(store, q.as_str(), true, limit, skip, excluded_dirs)
    } else {
        if let Some(bucket) = extension_of(store, q.as_str().as_bytes()) {
            return search_by_ext(
                store,
                bucket,
                q.as_str(),
                limit,
                skip,
                excluded_dirs,
                Ghost(query_ext(*store, encode_utf8(q@))->0),
            );
        }
        generic_paged(store, q.as_str(), limit, skip, excluded_dirs)
    }
}

/// The first page of results for a query.
pub fn search(
    store: &IndexStore,
    query: &str,
    limit: usize,
    case_sensitive: bool,
    excluded_dirs: &[String],
) -> (r: Vec<SearchResult>)
    requires
        store.searchable(),
        store.ext_usable(),
    ensures
        exists|page: PagedSearch|
            page.results == r && #[trigger] found(
                *store,
                query@,
                limit as nat,
                0,
                case_sensitive,
                excluded_dirs@,
                page,
            ),
{
    let page = search_paged(store, query, limit, 0, case_sensitive, excluded_dirs);
    page.results
}

/// Pages follow one another: a page of `a` lines and the next one of `b` lines
/// are together the page of `a + b` lines, and nothing is on both.
pub proof fn law_pages_follow(rows: Seq<(u64, u32)>, skip: nat, a: nat, b: nat)
    requires
        pairs_sorted(rows),
    ensures
        page_of(rows, skip, a) + page_of(rows, skip + a, b) == page_of(rows, skip, a + b),
        forall|x: (u64, u32)|
            page_of(rows, skip, a).contains(x) ==> !(#[trigger] page_of(
                rows,
                skip + a,
                b,
            ).contains(x)),
{
    let one = page_of(rows, skip, a);
    let two = page_of(rows, skip + a, b);
    assert(one + two =~= page_of(rows, skip, a + b));
    assert forall|x: (u64, u32)| one.contains(x) implies !(#[trigger] two.contains(x)) by {
        if two.contains(x) {
            let i = choose|i: int| 0 <= i < one.len() && one[i] == x;
            let j = choose|j: int| 0 <= j < two.len() && two[j] == x;
            assert(rows[skip + i] == x);
            assert(rows[skip + a + j] == x);
            assert(pair_lt(rows[skip + i], rows[skip + a + j]));
        }
    }
}

/// The lines of a page whose name holds the text of the query: those that are no
/// approximate matches.
pub open spec fn literal_lines(results: Seq<SearchResult>) -> Seq<SearchResult> {
    results.filter(|r: SearchResult| r.rank != 5)
}

/// Two lines show the same.
pub open spec fn same_line(a: SearchResult, b: SearchResult) -> bool {
    &&& a.full_path@ == b.full_path@
    &&& a.name@ == b.name@
    &&& a.rank == b.rank
    &&& a.is_dir == b.is_dir
    &&& a.modified_time == b.modified_time
    &&& a.file_type_priority == b.file_type_priority
}

/// A line of a ranking of literal matches has its tier for rank.
proof fn lemma_literal_rank(
    store: IndexStore,
    q: Seq<u8>,
    cased: bool,
    ranked: Seq<(u64, u32)>,
    skip: nat,
    limit: nat,
    excluded: Seq<String>,
    k: int,
)
    requires
        ranking(ranked, literal_keys(store, q, cased)),
        0 <= k < page_of(visible_rows(store, ranked, excluded), skip, limit).len(),
    ensures
        ({
            let row = page_of(visible_rows(store, ranked, excluded), skip, limit)[k].1;
            let name = compared(store, store.entries@[row as int], cased);
            &&& row < store.entries@.len()
            &&& match_tier(name, q) == Some(tier_rank(name, q))
            &&& 1 <= tier_rank(name, q) <= 4
        }),
{
    let rows = visible_rows(store, ranked, excluded);
    let at = if skip < rows.len() { skip + k } else { rows.len() + k };
    assert(page_of(rows, skip, limit)[k] == rows[at]);
    law_only_visible_is_shown(store, ranked, excluded, at);
}

/// The first lines of a list are those that a filter keeps.
proof fn lemma_filter_front(results: Seq<SearchResult>, n: int)
    requires
        0 <= n <= results.len(),
        forall|k: int| 0 <= k < n ==> (#[trigger] results[k]).rank != 5,
        forall|k: int| n <= k < results.len() ==> (#[trigger] results[k]).rank == 5,
    ensures
        literal_lines(results) == results.take(n),
    decreases results.len(),
{
    reveal(Seq::filter);
    if results.len() > 0 {
        let head = results.drop_last();
        assert forall|k: int| 0 <= k < head.len() implies (#[trigger] head[k]) == results[k] by {}
        if n == results.len() {
            lemma_filter_front(head, n - 1);
            assert(head.take(n - 1) =~= head);
            assert(results.take(n) =~= head.push(results.last()));
        } else {
            lemma_filter_front(head, n);
            assert(head.take(n) =~= results.take(n));
        }
    } else {
        assert(results.take(n) =~= Seq::<SearchResult>::empty());
    }
}

/// What the lines of a page are.
proof fn lemma_page_parts(
    store: IndexStore,
    q: Seq<char>,
    cased: bool,
    limit: nat,
    skip: nat,
    excluded: Seq<String>,
    page: PagedSearch,
    ranked: Seq<(u64, u32)>,
)
    requires
        literal_found(store, q, cased, limit, skip, excluded, page),
        ranking(ranked, literal_keys(store, encode_utf8(q), cased)),
    ensures
        page.total == ranked.len(),
        ({
            let rows = page_of(visible_rows(store, ranked, excluded), skip, limit);
            let lines = literal_lines(page.results@);
            &&& lines.len() == rows.len()
            &&& lines == page.results@.take(rows.len() as int)
            &&& lines_for(store, rows, Lines::Literal { cased }, encode_utf8(q), lines)
            &&& skip > 0 ==> lines == page.results@
        }),
{
    let found = choose|found: Seq<(u64, u32)>|
        {
            let rows = page_of(visible_rows(store, found, excluded), skip, limit);
            &&& #[trigger] ranking(found, literal_keys(store, encode_utf8(q), cased))
            &&& page.total == found.len()
            &&& if encode_utf8(q).len() >= 2 && skip == 0 && rows.len() < limit {
                filled(store, q, cased, limit, excluded, rows, page.results@)
            } else {
                lines_for(store, rows, Lines::Literal { cased }, encode_utf8(q), page.results@)
            }
        };
    law_ranking_is_unique(found, ranked, literal_keys(store, encode_utf8(q), cased));
    let rows = page_of(visible_rows(store, ranked, excluded), skip, limit);
    let results = page.results@;
    let n = rows.len() as int;
    if encode_utf8(q).len() >= 2 && skip == 0 && rows.len() < limit {
        lemma_filled(store, q, cased, limit, excluded, rows, results);
    } else {
        assert(results.take(n) =~= results);
    }
    let first = results.take(n);
    assert forall|k: int| 0 <= k < n implies (#[trigger] results[k]).rank != 5 by {
        lemma_literal_rank(store, encode_utf8(q), cased, ranked, skip, limit, excluded, k);
        assert(first[k] == results[k]);
        let e = store.entries@[rows[k].1 as int];
        let marks = Lines::Literal { cased }.marks(store, e, encode_utf8(q));
        assert(line_for(store, e, marks.0, marks.1, first[k]));
    }
    lemma_filter_front(results, n);
}

/// `r` is the line of rank 5 for entry `i`, which may be shown and is not on the
/// rows.
spec fn fuzzy_line_for(
    store: IndexStore,
    rows: Seq<(u64, u32)>,
    excluded: Seq<String>,
    i: u32,
    r: SearchResult,
) -> bool {
    let e = store.entries@[i as int];
    &&& i < store.entries@.len()
    &&& !refs_of(store, rows).contains(e.file_ref)
    &&& store.visible(e, excluded)
    &&& line_for(store, e, 5, ext_rank(store.lower_of(e)), r)
}

/// `r` is a line for an approximate match.
spec fn is_fuzzy_line(
    store: IndexStore,
    rows: Seq<(u64, u32)>,
    excluded: Seq<String>,
    r: SearchResult,
) -> bool {
    &&& r.rank == 5
    &&& exists|i: u32| #[trigger] fuzzy_line_for(store, rows, excluded, i, r)
}

/// The two parts of a page that was filled.
proof fn lemma_filled(
    store: IndexStore,
    q: Seq<char>,
    cased: bool,
    limit: nat,
    excluded: Seq<String>,
    rows: Seq<(u64, u32)>,
    results: Seq<SearchResult>,
)
    requires
        filled(store, q, cased, limit, excluded, rows, results),
    ensures
        rows.len() <= results.len(),
        lines_for(
            store,
            rows,
            Lines::Literal { cased },
            encode_utf8(q),
            results.take(rows.len() as int),
        ),
        forall|k: int|
            rows.len() <= k < results.len() ==> is_fuzzy_line(
                store,
                rows,
                excluded,
                #[trigger] results[k],
            ),
{
    let best = choose|best: Seq<(u64, u32)>|
        {
            let more = visible_rows(store, best_of(best, (limit - rows.len()) as nat), excluded);
            &&& #[trigger] ranking(best, fuzzy_keys(store, q, refs_of(store, rows)))
            &&& results.len() == rows.len() + more.len()
            &&& lines_for(
                store,
                rows,
                Lines::Literal { cased },
                encode_utf8(q),
                results.take(rows.len() as int),
            )
            &&& lines_for(
                store,
                more,
                Lines::Fuzzy,
                encode_utf8(q),
                results.skip(rows.len() as int),
            )
        };
    let some = best_of(best, (limit - rows.len()) as nat);
    let more = visible_rows(store, some, excluded);
    assert forall|k: int| rows.len() <= k < results.len() implies is_fuzzy_line(
        store,
        rows,
        excluded,
        #[trigger] results[k],
    ) by {
        let at = k - rows.len();
        let line = results.skip(rows.len() as int)[at];
        assert(line == results[k]);
        law_only_visible_is_shown(store, some, excluded, at);
        let x = more[at];
        let e = store.entries@[x.1 as int];
        let j = choose|j: int| 0 <= j < some.len() && some[j] == x;
        assert(best[j] == x);
        assert(best.contains(x));
        assert(line_for(store, e, 5, ext_rank(store.lower_of(e)), line)) by {
            let marks = Lines::Fuzzy.marks(store, e, encode_utf8(q));
            assert(line_for(store, e, marks.0, marks.1, line));
        }
        assert((fuzzy_keys(store, q, refs_of(store, rows)))(x.1) == Some(x.0));
        assert(fuzzy_line_for(store, rows, excluded, x.1, results[k]));
    }
}

/// Pages are slices of one order. Of two calls for the same text, one for a page
/// and one for everything up to its end: the literal lines of the page are those
/// of the other from `skip` on, the totals agree, the literal lines stand at the
/// beginning, and a later page holds nothing else.
pub proof fn law_pages_are_slices(
    store: IndexStore,
    q: Seq<char>,
    cased: bool,
    limit: nat,
    skip: nat,
    excluded: Seq<String>,
    page: PagedSearch,
    whole: PagedSearch,
)
    requires
        literal_found(store, q, cased, limit, skip, excluded, page),
        literal_found(store, q, cased, skip + limit, 0, excluded, whole),
    ensures
        page.total == whole.total,
        ({
            let lines = literal_lines(page.results@);
            let all = literal_lines(whole.results@);
            &&& lines.is_prefix_of(page.results@)
            &&& skip > 0 ==> lines == page.results@
            &&& lines.len() == if skip < all.len() {
                all.len() - skip
            } else {
                0
            }
            &&& forall|k: int|
                0 <= k < lines.len() ==> same_line(#[trigger] lines[k], all[skip + k])
        }),
{
    let ranked = choose|found: Seq<(u64, u32)>|
        {
            let rows = page_of(visible_rows(store, found, excluded), skip, limit);
            &&& #[trigger] ranking(found, literal_keys(store, encode_utf8(q), cased))
            &&& page.total == found.len()
            &&& if encode_utf8(q).len() >= 2 && skip == 0 && rows.len() < limit {
                filled(store, q, cased, limit, excluded, rows, page.results@)
            } else {
                lines_for(store, rows, Lines::Literal { cased }, encode_utf8(q), page.results@)
            }
        };
    lemma_page_parts(store, q, cased, limit, skip, excluded, page, ranked);
    lemma_page_parts(store, q, cased, skip + limit, 0, excluded, whole, ranked);
    let rows = visible_rows(store, ranked, excluded);
    let part = page_of(rows, skip, limit);
    let front = page_of(rows, 0, skip + limit);
    let lines = literal_lines(page.results@);
    let all = literal_lines(whole.results@);
    assert forall|k: int| 0 <= k < lines.len() implies same_line(
        #[trigger] lines[k],
        all[skip + k],
    ) by {
        assert(part[k] == front[skip + k]);
        let e = store.entries@[part[k].1 as int];
        let marks = Lines::Literal { cased }.marks(store, e, encode_utf8(q));
        assert(line_for(store, e, marks.0, marks.1, lines[k]));
        assert(line_for(store, e, marks.0, marks.1, all[skip + k]));
    }
}

/// `r` is the line for entry `i`; its rank is the tier of the entry's lowercased
/// name, or 5 where that does not hold the text.
pub open spec fn ranked_by_tier(store: IndexStore, q: Seq<u8>, i: u32, r: SearchResult) -> bool {
    let e = store.entries@[i as int];
    &&& i < store.entries@.len()
    &&& line_for(store, e, r.rank, ext_rank(store.lower_of(e)), r)
    &&& match_tier(store.lower_of(e), q) == if r.rank == 5 {
        None
    } else {
        Some(r.rank)
    }
}

/// The rank of a line says how it was found. A line of rank 5 is an approximate
/// match: the lowercased name of its entry does not hold the text. Any other line
/// is a literal match, and its rank is the tier of its entry's name.
pub proof fn law_rank_is_tier(
    store: IndexStore,
    q: Seq<char>,
    limit: nat,
    skip: nat,
    excluded: Seq<String>,
    page: PagedSearch,
    k: int,
)
    requires
        literal_found(store, q, false, limit, skip, excluded, page),
        0 <= k < page.results@.len(),
    ensures
        exists|i: u32| #[trigger] ranked_by_tier(store, encode_utf8(q), i, page.results@[k]),
{
    let ranked = choose|found: Seq<(u64, u32)>|
        {
            let rows = page_of(visible_rows(store, found, excluded), skip, limit);
            &&& #[trigger] ranking(found, literal_keys(store, encode_utf8(q), false))
            &&& page.total == found.len()
            &&& if encode_utf8(q).len() >= 2 && skip == 0 && rows.len() < limit {
                filled(store, q, false, limit, excluded, rows, page.results@)
            } else {
                lines_for(
                    store,
                    rows,
                    Lines::Literal { cased: false },
                    encode_utf8(q),
                    page.results@,
                )
            }
        };
    lemma_page_parts(store, q, false, limit, skip, excluded, page, ranked);
    let shown = visible_rows(store, ranked, excluded);
    let rows = page_of(shown, skip, limit);
    let lines = literal_lines(page.results@);
    let r = page.results@[k];
    if k < rows.len() {
        lemma_literal_rank(store, encode_utf8(q), false, ranked, skip, limit, excluded, k);
        assert(lines[k] == r);
        let e = store.entries@[rows[k].1 as int];
        let marks = Lines::Literal { cased: false }.marks(store, e, encode_utf8(q));
        assert(line_for(store, e, marks.0, marks.1, lines[k]));
        assert(ranked_by_tier(store, encode_utf8(q), rows[k].1, r));
    } else {
        lemma_filled(store, q, false, limit, excluded, rows, page.results@);
        let i = choose|i: u32| #[trigger] fuzzy_line_for(store, rows, excluded, i, r);
        let e = store.entries@[i as int];
        let keys = literal_keys(store, encode_utf8(q), false);
        if match_tier(store.lower_of(e), encode_utf8(q)) is Some {
            let x = (keys(i)->0, i);
            assert(keys(x.1) == Some(x.0));
            assert(ranked.contains(x));
            let keep = |x: (u64, u32)| store.visible(store.entries@[x.1 as int], excluded);
            lemma_filter_holds(ranked, keep, x);
            let j = choose|j: int| 0 <= j < shown.len() && shown[j] == x;
            assert(rows[j] == x);
            assert(refs_of(store, rows).contains(e.file_ref));
        }
        assert(ranked_by_tier(store, encode_utf8(q), i, r));
    }
}

/// What is in the list and is to be kept is kept.
pub proof fn lemma_filter_holds(s: Seq<(u64, u32)>, keep: spec_fn((u64, u32)) -> bool, x: (u64, u32))
    requires
        s.contains(x),
        keep(x),
    ensures
        s.filter(keep).contains(x),
    decreases s.len(),
{
    reveal(Seq::filter);
    let i = choose|i: int| 0 <= i < s.len() && s[i] == x;
    let head = s.drop_last();
    let part = head.filter(keep);
    if i == s.len() - 1 {
        assert(s.filter(keep) == part.push(x));
        assert(part.push(x)[part.len() as int] == x);
    } else {
        assert(head[i] == x);
        lemma_filter_holds(head, keep, x);
        let j = choose|j: int| 0 <= j < part.len() && part[j] == x;
        assert(s.filter(keep)[j] == x);
    }
}

/// Literal matches come first: an approximate match, which has rank 5, never
/// stands before a line that holds the text of the query.
pub proof fn law_fuzzy_comes_last(
    store: IndexStore,
    q: Seq<char>,
    cased: bool,
    limit: nat,
    skip: nat,
    excluded: Seq<String>,
    page: PagedSearch,
    i: int,
    j: int,
)
    requires
        literal_found(store, q, cased, limit, skip, excluded, page),
        0 <= i < j < page.results@.len(),
        page.results@[i].rank == 5,
    ensures
        page.results@[j].rank == 5,
{
    let ranked = choose|found: Seq<(u64, u32)>|
        {
            let rows = page_of(visible_rows(store, found, excluded), skip, limit);
            &&& #[trigger] ranking(found, literal_keys(store, encode_utf8(q), cased))
            &&& page.total == found.len()
            &&& if encode_utf8(q).len() >= 2 && skip == 0 && rows.len() < limit {
                filled(store, q, cased, limit, excluded, rows, page.results@)
            } else {
                lines_for(store, rows, Lines::Literal { cased }, encode_utf8(q), page.results@)
            }
        };
    lemma_page_parts(store, q, cased, limit, skip, excluded, page, ranked);
    let rows = page_of(visible_rows(store, ranked, excluded), skip, limit);
    let lines = literal_lines(page.results@);
    if i < rows.len() {
        lemma_literal_rank(store, encode_utf8(q), cased, ranked, skip, limit, excluded, i);
        let e = store.entries@[rows[i].1 as int];
        let marks = Lines::Literal { cased }.marks(store, e, encode_utf8(q));
        assert(line_for(store, e, marks.0, marks.1, lines[i]));
    }
    lemma_filled(store, q, cased, limit, excluded, rows, page.results@);
}

/// A better match comes first: of two lines of one ranking, the one whose name
/// is the query comes before one that begins with it, that before one in which
/// a word does, and that before one that holds it elsewhere. Within these,
/// shorter names come first.
pub proof fn law_better_match_first(
    store: IndexStore,
    q: Seq<u8>,
    cased: bool,
    ranked: Seq<(u64, u32)>,
    i: int,
    j: int,
)
    requires
        ranking(ranked, literal_keys(store, q, cased)),
        0 <= i < j < ranked.len(),
    ensures
        ({
            let a = compared(store, store.entries@[ranked[i].1 as int], cased);
            let b = compared(store, store.entries@[ranked[j].1 as int], cased);
            &&& match_tier(a, q) is Some
            &&& match_tier(b, q) is Some
            &&& match_tier(a, q)->0 <= match_tier(b, q)->0
            &&& match_tier(a, q) == match_tier(b, q) ==> short_len(a) <= short_len(b)
        }),
{
    assert(ranked.contains(ranked[i]));
    assert(ranked.contains(ranked[j]));
    assert(pair_lt(ranked[i], ranked[j]));
}

/// Nothing below a junk directory or in an excluded one is ever shown.
pub proof fn law_only_visible_is_shown(
    store: IndexStore,
    ranked: Seq<(u64, u32)>,
    excluded: Seq<String>,
    k: int,
)
    requires
        0 <= k < visible_rows(store, ranked, excluded).len(),
    ensures
        ({
            let row = visible_rows(store, ranked, excluded)[k];
            ranked.contains(row) && store.visible(store.entries@[row.1 as int], excluded)
        }),
    decreases ranked.len(),
{
    let keep = |x: (u64, u32)| store.visible(store.entries@[x.1 as int], excluded);
    lemma_filter_member(ranked, keep, k);
}

/// What a filter keeps is in the list, and is to be kept.
pub proof fn lemma_filter_member(
    s: Seq<(u64, u32)>,
    keep: spec_fn((u64, u32)) -> bool,
    k: int,
)
    requires
        0 <= k < s.filter(keep).len(),
    ensures
        s.contains(s.filter(keep)[k]),
        keep(s.filter(keep)[k]),
    decreases s.len(),
{
    reveal(Seq::filter);
    if s.len() > 0 {
        let head = s.drop_last();
        if k < head.filter(keep).len() {
            lemma_filter_member(head, keep, k);
            let i = choose|i: int| 0 <= i < head.len() && head[i] == head.filter(keep)[k];
            assert(s[i] == s.filter(keep)[k]);
        } else {
            assert(s[s.len() - 1] == s.filter(keep)[k]);
        }
    }
}

} // verus!
