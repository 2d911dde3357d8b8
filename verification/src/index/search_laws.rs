//! What a page of results shows, and in what order.
use crate::bytes::{has_prefix, has_substring, occurs_at, word_prefix};
use crate::index::ext::{ext_key, ext_of, ext_rows, has_ext, last_dot, rows_of};
use crate::index::search::{
    best_of, count_byte, ext_found, ext_keys, ext_meta, ext_rank, filled,
    found, fuzzy_keys, has_user_marker, law_only_visible_is_shown, law_pack_is_lexicographic,
    lemma_filter_holds, lemma_filter_member, line_for, lines_for, literal_found, literal_keys,
    match_tier, pack, packable, page_of, query_text, ranking, refs_of, skim_score, visible_rows,
    Lines, PagedSearch, SearchResult, ARCHIVE_EXTS, MEDIA_EXTS, TEXT_EXTS,
};
use crate::index::store::{name_in, pair_lt, pairs_sorted, IndexEntry, IndexStore};
use vstd::prelude::*;
use vstd::utf8::*;

verus! {

/// `r` shows entry `i`.
pub open spec fn shows(store: IndexStore, i: u32, r: SearchResult) -> bool {
    let e = store.entries@[i as int];
    &&& i < store.entries@.len()
    &&& r.full_path@ == store.path_text(e)
    &&& r.name@ == store.name_text(e)
    &&& r.is_dir == e.dir()
    &&& r.modified_time is None
}

/// An entry that a search may show.
pub open spec fn may_be_shown(store: IndexStore, excluded: Seq<String>, i: u32) -> bool {
    i < store.entries@.len() && store.visible(store.entries@[i as int], excluded)
}

/// The name that a search for a text compares: as it is written where case
/// matters, else in lowercase.
pub open spec fn name_at(store: IndexStore, i: u32, cased: bool) -> Seq<u8> {
    let e = store.entries@[i as int];
    if cased {
        store.name_arena@.subrange(e.name_off as int, e.name_off + e.name_len)
    } else {
        store.name_lower_arena@.subrange(
            e.name_lower_off as int,
            e.name_lower_off + e.name_lower_len,
        )
    }
}

/// The length of a name, as far as it counts: up to 255 bytes.
pub open spec fn seen_len(name: Seq<u8>) -> nat {
    if name.len() < 255 {
        name.len()
    } else {
        255
    }
}

/// No two rows are equal.
pub open spec fn rows_differ(rows: Seq<u32>) -> bool {
    forall|i: int, j: int| 0 <= i < j < rows.len() ==> #[trigger] rows[i] != #[trigger] rows[j]
}

/// How many of the first `n` numbers have a property.
pub open spec fn count_of(p: spec_fn(u32) -> bool, n: nat) -> nat
    decreases n,
{
    if n == 0 {
        0
    } else {
        count_of(p, (n - 1) as nat) + (if p((n - 1) as u32) {
            1nat
        } else {
            0
        })
    }
}

spec fn below(p: spec_fn(u32) -> bool, n: nat) -> Set<u32> {
    Set::new(|i: u32| i < n && p(i))
}

proof fn lemma_count_of(p: spec_fn(u32) -> bool, n: nat)
    requires
        n <= 0x1_0000_0000,
    ensures
        below(p, n).finite(),
        below(p, n).len() == count_of(p, n),
    decreases n,
{
    if n == 0 {
        assert(below(p, n) =~= Set::empty());
    } else {
        let m = (n - 1) as nat;
        lemma_count_of(p, m);
        if p(m as u32) {
            assert(below(p, n) =~= below(p, m).insert(m as u32));
        } else {
            assert(below(p, n) =~= below(p, m));
        }
    }
}

/// Rows that all differ and are those with a property are as many as there are
/// of these.
proof fn lemma_rows_counted(rows: Seq<u32>, p: spec_fn(u32) -> bool, n: nat)
    requires
        n <= 0x1_0000_0000,
        rows_differ(rows),
        forall|i: u32| #[trigger] rows.contains(i) <==> i < n && p(i),
    ensures
        rows.len() == count_of(p, n),
{
    lemma_count_of(p, n);
    assert(rows.no_duplicates());
    rows.unique_seq_to_set();
    assert(rows.to_set() =~= below(p, n)) by {
        assert forall|i: u32| rows.to_set().contains(i) == below(p, n).contains(i) by {
            assert(rows.to_set().contains(i) == rows.contains(i));
        }
    }
}

/// The rows of a ranking.
pub open spec fn rows_in(ranked: Seq<(u64, u32)>) -> Seq<u32> {
    ranked.map_values(|x: (u64, u32)| x.1)
}

/// What a filter keeps is in order if the list is.
proof fn lemma_filter_sorted(s: Seq<(u64, u32)>, keep: spec_fn((u64, u32)) -> bool)
    requires
        pairs_sorted(s),
    ensures
        pairs_sorted(s.filter(keep)),
    decreases s.len(),
{
    reveal(Seq::filter);
    if s.len() > 0 {
        let head = s.drop_last();
        let part = head.filter(keep);
        assert(pairs_sorted(head));
        lemma_filter_sorted(head, keep);
        if keep(s.last()) {
            let all = part.push(s.last());
            assert(s.filter(keep) == all);
            assert forall|p: int, q: int| 0 <= p < q < all.len() implies pair_lt(
                #[trigger] all[p],
                #[trigger] all[q],
            ) by {
                if q == part.len() {
                    lemma_filter_member(head, keep, p);
                    let i = choose|i: int| 0 <= i < head.len() && head[i] == part[p];
                    assert(pair_lt(s[i], s[s.len() - 1]));
                } else {
                    assert(pair_lt(part[p], part[q]));
                }
            }
        }
    }
}

/// A sorted list whose ranks are given by keys names no row twice.
proof fn lemma_rows_differ(s: Seq<(u64, u32)>, keys: spec_fn(u32) -> Option<u64>)
    requires
        pairs_sorted(s),
        forall|k: int| 0 <= k < s.len() ==> keys((#[trigger] s[k]).1) == Some(s[k].0),
    ensures
        rows_differ(rows_in(s)),
{
    let rows = rows_in(s);
    assert forall|i: int, j: int| 0 <= i < j < rows.len() implies #[trigger] rows[i]
        != #[trigger] rows[j] by {
        assert(pair_lt(s[i], s[j]));
        if s[i].1 == s[j].1 {
            assert(keys(s[i].1) == Some(s[i].0));
            assert(keys(s[j].1) == Some(s[j].0));
        }
    }
}

/// A ranking has every row that has a key, once.
proof fn lemma_ranking_rows(ranked: Seq<(u64, u32)>, keys: spec_fn(u32) -> Option<u64>)
    requires
        ranking(ranked, keys),
    ensures
        rows_differ(rows_in(ranked)),
        forall|i: u32| #[trigger] rows_in(ranked).contains(i) <==> keys(i) is Some,
        forall|k: int| 0 <= k < ranked.len() ==> keys((#[trigger] ranked[k]).1) == Some(
            ranked[k].0,
        ),
{
    let rows = rows_in(ranked);
    assert forall|k: int| 0 <= k < ranked.len() implies keys((#[trigger] ranked[k]).1) == Some(
        ranked[k].0,
    ) by {
        assert(ranked.contains(ranked[k]));
    }
    lemma_rows_differ(ranked, keys);
    assert forall|i: u32| #[trigger] rows.contains(i) <==> keys(i) is Some by {
        if rows.contains(i) {
            let k = choose|k: int| 0 <= k < rows.len() && rows[k] == i;
            assert(keys(ranked[k].1) is Some);
        }
        if keys(i) is Some {
            let x = (keys(i)->0, i);
            assert(ranked.contains(x));
            let k = choose|k: int| 0 <= k < ranked.len() && ranked[k] == x;
            assert(rows[k] == i);
        }
    }
}

/// A page of a sorted list of rows that may be shown.
spec fn page_rows(
    store: IndexStore,
    ranked: Seq<(u64, u32)>,
    skip: nat,
    limit: nat,
    excluded: Seq<String>,
) -> Seq<(u64, u32)> {
    page_of(visible_rows(store, ranked, excluded), skip, limit)
}

/// Each pair of a page is one of the ranking and may be shown; the page is in
/// order; and on the first page what is left out comes later than what is shown.
proof fn lemma_page_rows(
    store: IndexStore,
    ranked: Seq<(u64, u32)>,
    keys: spec_fn(u32) -> Option<u64>,
    skip: nat,
    limit: nat,
    excluded: Seq<String>,
)
    requires
        ranking(ranked, keys),
    ensures
        ({
            let page = page_rows(store, ranked, skip, limit, excluded);
            &&& page.len() <= limit
            &&& pairs_sorted(page)
            &&& forall|k: int|
                0 <= k < page.len() ==> keys((#[trigger] page[k]).1) == Some(page[k].0)
                    && store.visible(store.entries@[page[k].1 as int], excluded)
            &&& skip == 0 ==> forall|x: (u64, u32)|
                #[trigger] ranked.contains(x) && store.visible(
                    store.entries@[x.1 as int],
                    excluded,
                ) && !page.contains(x) ==> page.len() == limit && forall|k: int|
                    0 <= k < page.len() ==> pair_lt(#[trigger] page[k], x)
        }),
{
    let keep = |x: (u64, u32)| store.visible(store.entries@[x.1 as int], excluded);
    let shown = visible_rows(store, ranked, excluded);
    let page = page_rows(store, ranked, skip, limit, excluded);
    lemma_filter_sorted(ranked, keep);
    let lo: int = if skip < shown.len() {
        skip as int
    } else {
        shown.len() as int
    };
    assert forall|k: int| 0 <= k < page.len() implies #[trigger] page[k] == shown[lo + k] by {}
    assert forall|k: int| 0 <= k < page.len() implies keys((#[trigger] page[k]).1) == Some(
        page[k].0,
    ) && store.visible(store.entries@[page[k].1 as int], excluded) by {
        law_only_visible_is_shown(store, ranked, excluded, lo + k);
    }
    assert forall|p: int, q: int| 0 <= p < q < page.len() implies pair_lt(
        #[trigger] page[p],
        #[trigger] page[q],
    ) by {
        assert(pair_lt(shown[lo + p], shown[lo + q]));
    }
    if skip == 0 {
        assert forall|x: (u64, u32)|
            #[trigger] ranked.contains(x) && store.visible(store.entries@[x.1 as int], excluded)
                && !page.contains(x) implies page.len() == limit && forall|k: int|
            0 <= k < page.len() ==> pair_lt(#[trigger] page[k], x) by {
            lemma_filter_holds(ranked, keep, x);
            let j = choose|j: int| 0 <= j < shown.len() && shown[j] == x;
            if j < page.len() {
                assert(page[j] == x);
            }
            assert forall|k: int| 0 <= k < page.len() implies pair_lt(#[trigger] page[k], x) by {
                assert(pair_lt(shown[k], shown[j]));
            }
        }
    }
}

/// The name of a line with a literal rank: 1 for the query itself, 2 for a name
/// that begins with it, 3 for one in which a word does, 4 for one that holds it.
pub open spec fn rank_fits(name: Seq<u8>, q: Seq<u8>, rank: u8) -> bool {
    &&& rank == 1 <==> name == q
    &&& rank <= 2 <==> has_prefix(name, q)
    &&& rank <= 3 <==> has_prefix(name, q) || word_prefix(name, q)
    &&& has_substring(name, q)
    &&& 1 <= rank <= 4
}

proof fn lemma_tier_fits(name: Seq<u8>, q: Seq<u8>)
    ensures
        match_tier(name, q) is Some ==> rank_fits(name, q, match_tier(name, q)->0),
        match_tier(name, q) is Some <==> has_substring(name, q),
{
    if name == q {
        assert(name.subrange(0, q.len() as int) =~= q);
        assert(occurs_at(name, q, 0));
    }
    if has_prefix(name, q) {
        assert(occurs_at(name, q, 0));
    }
    if q.len() == 0 {
        assert(name.subrange(0, 0) =~= q);
        assert(occurs_at(name, q, 0));
    }
    if word_prefix(name, q) && q.len() > 0 {
        let at = choose|at: int|
            #[trigger] occurs_at(name, q, at) && (at == 0 || !crate::bytes::is_alnum(
                name[at - 1],
            ));
        assert(occurs_at(name, q, at));
    }
}

/// A first page that is not full is filled, for a query of two bytes or more.
spec fn fills(q: Seq<char>, limit: nat, skip: nat, lits: Seq<(u64, u32)>) -> bool {
    encode_utf8(q).len() >= 2 && skip == 0 && lits.len() < limit
}

/// The pairs behind the literal matches of a page.
spec fn more_rows(
    store: IndexStore,
    q: Seq<char>,
    limit: nat,
    skip: nat,
    excluded: Seq<String>,
    lits: Seq<(u64, u32)>,
    best: Seq<(u64, u32)>,
) -> Seq<(u64, u32)> {
    if fills(q, limit, skip, lits) {
        visible_rows(store, best_of(best, (limit - lits.len()) as nat), excluded)
    } else {
        Seq::empty()
    }
}

/// The rankings behind a page, and its lines.
proof fn lemma_text_page(
    store: IndexStore,
    q: Seq<char>,
    cased: bool,
    limit: nat,
    skip: nat,
    excluded: Seq<String>,
    page: PagedSearch,
) -> (t: (Seq<(u64, u32)>, Seq<(u64, u32)>))
    requires
        literal_found(store, q, cased, limit, skip, excluded, page),
    ensures
        ({
            let lits = page_rows(store, t.0, skip, limit, excluded);
            let more = more_rows(store, q, limit, skip, excluded, lits, t.1);
            let results = page.results@;
            &&& ranking(t.0, literal_keys(store, encode_utf8(q), cased))
            &&& page.total == t.0.len()
            &&& fills(q, limit, skip, lits) ==> ranking(
                t.1,
                fuzzy_keys(store, q, refs_of(store, lits)),
            )
            &&& results.len() == lits.len() + more.len()
            &&& lines_for(
                store,
                lits,
                Lines::Literal { cased },
                encode_utf8(q),
                results.take(lits.len() as int),
            )
            &&& lines_for(
                store,
                more,
                Lines::Fuzzy,
                encode_utf8(q),
                results.skip(lits.len() as int),
            )
        }),
{
    let results = page.results@;
    let ranked = choose|ranked: Seq<(u64, u32)>|
        {
            let rows = page_of(visible_rows(store, ranked, excluded), skip, limit);
            &&& #[trigger] ranking(ranked, literal_keys(store, encode_utf8(q), cased))
            &&& page.total == ranked.len()
            &&& if encode_utf8(q).len() >= 2 && skip == 0 && rows.len() < limit {
                filled(store, q, cased, limit, excluded, rows, page.results@)
            } else {
                lines_for(store, rows, Lines::Literal { cased }, encode_utf8(q), page.results@)
            }
        };
    let lits = page_rows(store, ranked, skip, limit, excluded);
    if fills(q, limit, skip, lits) {
        let best = choose|best: Seq<(u64, u32)>|
            {
                let more = visible_rows(
                    store,
                    best_of(best, (limit - lits.len()) as nat),
                    excluded,
                );
                &&& #[trigger] ranking(best, fuzzy_keys(store, q, refs_of(store, lits)))
                &&& results.len() == lits.len() + more.len()
                &&& lines_for(
                    store,
                    lits,
                    Lines::Literal { cased },
                    encode_utf8(q),
                    results.take(lits.len() as int),
                )
                &&& lines_for(
                    store,
                    more,
                    Lines::Fuzzy,
                    encode_utf8(q),
                    results.skip(lits.len() as int),
                )
            };
        (ranked, best)
    } else {
        assert(results.take(lits.len() as int) =~= results);
        (ranked, Seq::empty())
    }
}

/// The literal lines of a page.
proof fn lemma_literal_lines(
    store: IndexStore,
    q: Seq<u8>,
    cased: bool,
    limit: nat,
    skip: nat,
    excluded: Seq<String>,
    ranked: Seq<(u64, u32)>,
    results: Seq<SearchResult>,
)
    requires
        ranking(ranked, literal_keys(store, q, cased)),
        ({
            let lits = page_rows(store, ranked, skip, limit, excluded);
            lits.len() <= results.len() && lines_for(
                store,
                lits,
                Lines::Literal { cased },
                q,
                results.take(lits.len() as int),
            )
        }),
    ensures
        ({
            let lits = page_rows(store, ranked, skip, limit, excluded);
            &&& forall|k: int|
                0 <= k < lits.len() ==> #[trigger] is_literal_line(
                    store,
                    q,
                    cased,
                    excluded,
                    lits[k].1,
                    results[k],
                )
            &&& forall|i: int, j: int|
                0 <= i < j < lits.len() ==> (#[trigger] results[i]).rank
                    <= (#[trigger] results[j]).rank && (results[i].rank == results[j].rank
                    ==> seen_len(name_at(store, lits[i].1, cased)) <= seen_len(
                    name_at(store, lits[j].1, cased),
                ))
        }),
{
    let keys = literal_keys(store, q, cased);
    let lits = page_rows(store, ranked, skip, limit, excluded);
    lemma_page_rows(store, ranked, keys, skip, limit, excluded);
    let first = results.take(lits.len() as int);
    assert forall|k: int| 0 <= k < lits.len() implies #[trigger] is_literal_line(
        store,
        q,
        cased,
        excluded,
        lits[k].1,
        results[k],
    ) && lits[k].0 == results[k].rank * 256 + seen_len(name_at(store, lits[k].1, cased)) by {
        let e = store.entries@[lits[k].1 as int];
        let name = name_at(store, lits[k].1, cased);
        assert(first[k] == results[k]);
        let marks = Lines::Literal { cased }.marks(store, e, q);
        assert(line_for(store, e, marks.0, marks.1, first[k]));
        assert(keys(lits[k].1) == Some(lits[k].0));
        lemma_tier_fits(name, q);
    }
    assert forall|i: int, j: int| 0 <= i < j < lits.len() implies (#[trigger] results[i]).rank
        <= (#[trigger] results[j]).rank && (results[i].rank == results[j].rank ==> seen_len(
        name_at(store, lits[i].1, cased),
    ) <= seen_len(name_at(store, lits[j].1, cased))) by {
        assert(pair_lt(lits[i], lits[j]));
        assert(is_literal_line(store, q, cased, excluded, lits[i].1, results[i]));
        assert(is_literal_line(store, q, cased, excluded, lits[j].1, results[j]));
    }
}

/// `r` is the line of an entry whose name holds the query.
pub open spec fn is_literal_line(
    store: IndexStore,
    q: Seq<u8>,
    cased: bool,
    excluded: Seq<String>,
    i: u32,
    r: SearchResult,
) -> bool {
    &&& shows(store, i, r)
    &&& may_be_shown(store, excluded, i)
    &&& rank_fits(name_at(store, i, cased), q, r.rank)
    &&& r.file_type_priority == ext_rank(store.lower_of(store.entries@[i as int]))
}

/// A search for a text shows names that hold it, each once and only what may be
/// shown, by their rank: the query itself before names that begin with it, these
/// before names in which a word does, and these before names that hold it
/// elsewhere; shorter names first. The total counts every name that holds the
/// text. The first page leaves out a name that holds the text only where it is
/// full, and shows none that is worse. Lines of rank 5 stand behind all others,
/// and only on a first page for a query of two bytes or more.
pub proof fn law_text_search_shows_what_holds_the_text(
    store: IndexStore,
    q: Seq<char>,
    cased: bool,
    limit: nat,
    skip: nat,
    excluded: Seq<String>,
    page: PagedSearch,
) -> (rows: Seq<u32>)
    requires
        store.entries@.len() <= u32::MAX,
        literal_found(store, q, cased, limit, skip, excluded, page),
    ensures
        rows.len() <= page.results@.len(),
        rows.len() <= limit,
        rows_differ(rows),
        forall|k: int|
            0 <= k < rows.len() ==> is_literal_line(
                store,
                encode_utf8(q),
                cased,
                excluded,
                rows[k],
                #[trigger] page.results@[k],
            ),
        forall|k: int|
            rows.len() <= k < page.results@.len() ==> (#[trigger] page.results@[k]).rank == 5,
        encode_utf8(q).len() < 2 || skip > 0 ==> rows.len() == page.results@.len(),
        forall|i: int, j: int|
            0 <= i < j < rows.len() ==> (#[trigger] page.results@[i]).rank
                <= (#[trigger] page.results@[j]).rank && (page.results@[i].rank
                == page.results@[j].rank ==> seen_len(name_at(store, rows[i], cased))
                <= seen_len(name_at(store, rows[j], cased))),
        page.total == count_of(
            |i: u32| has_substring(name_at(store, i, cased), encode_utf8(q)),
            store.entries@.len(),
        ),
        skip == 0 ==> forall|i: u32|
            #[trigger] may_be_shown(store, excluded, i) && has_substring(
                name_at(store, i, cased),
                encode_utf8(q),
            ) && !rows.contains(i) ==> rows.len() == limit && forall|k: int|
                0 <= k < rows.len() ==> is_no_worse(
                    name_at(store, i, cased),
                    encode_utf8(q),
                    #[trigger] page.results@[k],
                ),
{
    let b = encode_utf8(q);
    let results = page.results@;
    let keys = literal_keys(store, b, cased);
    let t = lemma_text_page(store, q, cased, limit, skip, excluded, page);
    let ranked = t.0;
    let lits = page_rows(store, ranked, skip, limit, excluded);
    let more = more_rows(store, q, limit, skip, excluded, lits, t.1);
    let rows = rows_in(lits);
    lemma_page_rows(store, ranked, keys, skip, limit, excluded);
    lemma_rows_differ(lits, keys);
    lemma_ranking_rows(ranked, keys);
    lemma_literal_lines(store, b, cased, limit, skip, excluded, ranked, results);
    assert forall|k: int| 0 <= k < rows.len() implies is_literal_line(
        store,
        b,
        cased,
        excluded,
        rows[k],
        #[trigger] results[k],
    ) by {
        assert(is_literal_line(store, b, cased, excluded, lits[k].1, results[k]));
    }
    assert forall|k: int| rows.len() <= k < results.len() implies (#[trigger] results[k]).rank
        == 5 by {
        let at = k - lits.len();
        let e = store.entries@[more[at].1 as int];
        let marks = Lines::Fuzzy.marks(store, e, b);
        assert(line_for(
            store,
            e,
            marks.0,
            marks.1,
            results.skip(lits.len() as int)[at],
        ));
    }
    let p = |i: u32| has_substring(name_at(store, i, cased), b);
    assert forall|i: u32| #[trigger] rows_in(ranked).contains(i) <==> i < store.entries@.len()
        && p(i) by {
        lemma_tier_fits(name_at(store, i, cased), b);
    }
    lemma_rows_counted(rows_in(ranked), p, store.entries@.len());
    if skip == 0 {
        assert forall|i: u32|
            #[trigger] may_be_shown(store, excluded, i) && has_substring(
                name_at(store, i, cased),
                b,
            ) && !rows.contains(i) implies rows.len() == limit && forall|k: int|
            0 <= k < rows.len() ==> is_no_worse(
                name_at(store, i, cased),
                b,
                #[trigger] results[k],
            ) by {
            lemma_tier_fits(name_at(store, i, cased), b);
            let x = (keys(i)->0, i);
            assert(keys(x.1) == Some(x.0));
            assert(ranked.contains(x));
            if lits.contains(x) {
                let k = choose|k: int| 0 <= k < lits.len() && lits[k] == x;
                assert(rows[k] == i);
            }
            assert forall|k: int| 0 <= k < rows.len() implies is_no_worse(
                name_at(store, i, cased),
                b,
                #[trigger] results[k],
            ) by {
                assert(pair_lt(lits[k], x));
                assert(keys(lits[k].1) == Some(lits[k].0));
                assert(is_literal_line(store, b, cased, excluded, lits[k].1, results[k]));
                lemma_tier_fits(name_at(store, lits[k].1, cased), b);
            }
        }
    }
    rows
}

/// A line is no worse than a name would be.
pub open spec fn is_no_worse(name: Seq<u8>, q: Seq<u8>, r: SearchResult) -> bool {
    &&& name == q ==> r.rank == 1
    &&& has_prefix(name, q) ==> r.rank <= 2
    &&& word_prefix(name, q) ==> r.rank <= 3
    &&& r.rank <= 4
}

/// The score of an entry's lowercased name for a query.
pub open spec fn score_of(store: IndexStore, q: Seq<char>, i: u32) -> Option<i64> {
    skim_score(store.lower_text(store.entries@[i as int]), q)
}

/// An entry with a score whose record is on none of these rows.
pub open spec fn is_candidate(store: IndexStore, q: Seq<char>, rows: Seq<u32>, i: u32) -> bool {
    &&& i < store.entries@.len()
    &&& score_of(store, q, i) is Some
    &&& forall|k: int|
        0 <= k < rows.len() ==> store.entries@[#[trigger] rows[k] as int].file_ref
            != store.entries@[i as int].file_ref
}

/// So many approximate matches are kept: as many as lines are missing, but 200
/// at most.
pub open spec fn kept_at_most(missing: int) -> int {
    if missing < 200 {
        missing
    } else {
        200
    }
}

proof fn lemma_candidate(store: IndexStore, q: Seq<char>, lits: Seq<(u64, u32)>, i: u32)
    ensures
        (fuzzy_keys(store, q, refs_of(store, lits)))(i) is Some <==> is_candidate(
            store,
            q,
            rows_in(lits),
            i,
        ),
{
    let rows = rows_in(lits);
    let r = store.entries@[i as int].file_ref;
    if refs_of(store, lits).contains(r) {
        let k = choose|k: int|
            0 <= k < lits.len() && store.entries@[(#[trigger] lits[k]).1 as int].file_ref == r;
        assert(rows[k] == lits[k].1);
    } else {
        assert forall|k: int| 0 <= k < rows.len() implies store.entries@[#[trigger] rows[k]
            as int].file_ref != r by {
            assert(rows[k] == lits[k].1);
        }
    }
}

/// What the first page does with approximate matches. `t.0` are the rows of its
/// lines, `t.1` says how many of them are literal, and `t.2` are the rows that
/// were kept, by their score.
///
/// Only entries with a score whose record is on no literal line are kept, a
/// higher score never behind a lower one. What is left out scores no higher than
/// anything that is kept, and something is left out only where as many are kept
/// as lines are missing, or 200. The lines of rank 5 are those of the kept
/// entries that may be shown, all of them, in the same order.
#[verifier::rlimit(40)]
pub proof fn law_higher_scores_come_first(
    store: IndexStore,
    q: Seq<char>,
    cased: bool,
    limit: nat,
    excluded: Seq<String>,
    page: PagedSearch,
) -> (t: (Seq<u32>, int, Seq<u32>))
    requires
        literal_found(store, q, cased, limit, 0, excluded, page),
    ensures
        t.0.len() == page.results@.len(),
        0 <= t.1 <= t.0.len(),
        t.1 <= limit,
        forall|k: int|
            0 <= k < t.0.len() ==> shows(store, t.0[k], #[trigger] page.results@[k]) && (
            page.results@[k].rank == 5 <==> k >= t.1),
        encode_utf8(q).len() < 2 ==> t.2.len() == 0 && t.1 == t.0.len(),
        t.2.len() <= kept_at_most(limit - t.1),
        rows_differ(t.2),
        forall|k: int|
            0 <= k < t.2.len() ==> is_candidate(store, q, t.0.take(t.1), #[trigger] t.2[k]),
        forall|i: int, j: int|
            0 <= i < j < t.2.len() ==> score_of(store, q, #[trigger] t.2[i])->0 >= score_of(
                store,
                q,
                #[trigger] t.2[j],
            )->0,
        encode_utf8(q).len() >= 2 ==> forall|i: u32|
            #[trigger] is_candidate(store, q, t.0.take(t.1), i) && !t.2.contains(i) ==> t.2.len()
                == kept_at_most(limit - t.1) && forall|k: int|
                0 <= k < t.2.len() ==> score_of(store, q, #[trigger] t.2[k])->0 >= score_of(
                    store,
                    q,
                    i,
                )->0,
        forall|k: int|
            t.1 <= k < t.0.len() ==> t.2.contains(#[trigger] t.0[k]) && may_be_shown(
                store,
                excluded,
                t.0[k],
            ),
        forall|k: int|
            0 <= k < t.2.len() && may_be_shown(store, excluded, #[trigger] t.2[k])
                ==> t.0.skip(t.1).contains(t.2[k]),
        forall|i: int, j: int|
            t.1 <= i < j < t.0.len() ==> score_of(store, q, #[trigger] t.0[i])->0 >= score_of(
                store,
                q,
                #[trigger] t.0[j],
            )->0,
{
    let b = encode_utf8(q);
    let results = page.results@;
    let keys = literal_keys(store, b, cased);
    let w = lemma_text_page(store, q, cased, limit, 0, excluded, page);
    let lits = page_rows(store, w.0, 0, limit, excluded);
    let more = more_rows(store, q, limit, 0, excluded, lits, w.1);
    let n = lits.len() as int;
    lemma_page_rows(store, w.0, keys, 0, limit, excluded);
    lemma_literal_lines(store, b, cased, limit, 0, excluded, w.0, results);
    let kept = if fills(q, limit, 0, lits) {
        best_of(w.1, (limit - lits.len()) as nat)
    } else {
        Seq::empty()
    };
    let lines = rows_in(lits) + rows_in(more);
    assert(lines.take(n) =~= rows_in(lits));
    assert(lines.skip(n) =~= rows_in(more));
    if fills(q, limit, 0, lits) {
        lemma_kept(store, q, limit - n, excluded, lits, w.1);
    } else {
        assert(kept =~= Seq::empty());
        assert(n == limit || b.len() < 2);
    }
    assert forall|k: int| 0 <= k < lines.len() implies shows(
        store,
        lines[k],
        #[trigger] results[k],
    ) && (results[k].rank == 5 <==> k >= n) by {
        if k < n {
            assert(is_literal_line(store, b, cased, excluded, lits[k].1, results[k]));
        } else {
            let at = k - n;
            assert(lines[k] == more[at].1);
            let e = store.entries@[more[at].1 as int];
            let marks = Lines::Fuzzy.marks(store, e, b);
            assert(line_for(store, e, marks.0, marks.1, results.skip(n)[at]));
            assert(rows_in(kept).contains(rows_in(more)[at]));
        }
    }
    assert forall|k: int| n <= k < lines.len() implies rows_in(kept).contains(
        #[trigger] lines[k],
    ) && may_be_shown(store, excluded, lines[k]) by {
        assert(lines[k] == rows_in(more)[k - n]);
    }
    assert forall|i: int, j: int| n <= i < j < lines.len() implies score_of(
        store,
        q,
        #[trigger] lines[i],
    )->0 >= score_of(store, q, #[trigger] lines[j])->0 by {
        assert(lines[i] == rows_in(more)[i - n]);
        assert(lines[j] == rows_in(more)[j - n]);
    }
    (lines, n, rows_in(kept))
}

/// What is kept of the approximate matches, and what of it is shown.
proof fn lemma_kept(
    store: IndexStore,
    q: Seq<char>,
    missing: int,
    excluded: Seq<String>,
    lits: Seq<(u64, u32)>,
    best: Seq<(u64, u32)>,
)
    requires
        missing >= 0,
        ranking(best, fuzzy_keys(store, q, refs_of(store, lits))),
    ensures
        ({
            let kept = rows_in(best_of(best, missing as nat));
            let more = rows_in(visible_rows(store, best_of(best, missing as nat), excluded));
            let rows = rows_in(lits);
            &&& kept.len() <= kept_at_most(missing)
            &&& rows_differ(kept)
            &&& forall|k: int|
                0 <= k < kept.len() ==> is_candidate(store, q, rows, #[trigger] kept[k])
            &&& forall|i: int, j: int|
                0 <= i < j < kept.len() ==> score_of(store, q, #[trigger] kept[i])->0 >= score_of(
                    store,
                    q,
                    #[trigger] kept[j],
                )->0
            &&& forall|i: u32|
                #[trigger] is_candidate(store, q, rows, i) && !kept.contains(i) ==> kept.len()
                    == kept_at_most(missing) && forall|k: int|
                    0 <= k < kept.len() ==> score_of(store, q, #[trigger] kept[k])->0 >= score_of(
                        store,
                        q,
                        i,
                    )->0
            &&& forall|k: int|
                0 <= k < more.len() ==> kept.contains(#[trigger] more[k]) && may_be_shown(
                    store,
                    excluded,
                    more[k],
                )
            &&& forall|k: int|
                0 <= k < kept.len() && may_be_shown(store, excluded, #[trigger] kept[k])
                    ==> more.contains(kept[k])
            &&& forall|i: int, j: int|
                0 <= i < j < more.len() ==> score_of(store, q, #[trigger] more[i])->0 >= score_of(
                    store,
                    q,
                    #[trigger] more[j],
                )->0
        }),
{
    let keys = fuzzy_keys(store, q, refs_of(store, lits));
    let some = best_of(best, missing as nat);
    let shown = visible_rows(store, some, excluded);
    let kept = rows_in(some);
    let more = rows_in(shown);
    let rows = rows_in(lits);
    let keep = |x: (u64, u32)| store.visible(store.entries@[x.1 as int], excluded);
    lemma_ranking_rows(best, keys);
    assert forall|k: int| 0 <= k < some.len() implies #[trigger] some[k] == best[k] by {}
    assert(pairs_sorted(some)) by {
        assert forall|p: int, r: int| 0 <= p < r < some.len() implies pair_lt(
            #[trigger] some[p],
            #[trigger] some[r],
        ) by {
            assert(pair_lt(best[p], best[r]));
        }
    }
    lemma_rows_differ(some, keys);
    lemma_filter_sorted(some, keep);
    assert forall|k: int| 0 <= k < kept.len() implies is_candidate(
        store,
        q,
        rows,
        #[trigger] kept[k],
    ) by {
        lemma_candidate(store, q, lits, kept[k]);
        assert(keys(best[k].1) is Some);
    }
    assert forall|i: int, j: int| 0 <= i < j < kept.len() implies score_of(
        store,
        q,
        #[trigger] kept[i],
    )->0 >= score_of(store, q, #[trigger] kept[j])->0 by {
        assert(pair_lt(best[i], best[j]));
        assert(keys(best[i].1) == Some(best[i].0));
        assert(keys(best[j].1) == Some(best[j].0));
    }
    assert forall|i: u32|
        #[trigger] is_candidate(store, q, rows, i) && !kept.contains(i) implies kept.len()
        == kept_at_most(missing) && forall|k: int|
        0 <= k < kept.len() ==> score_of(store, q, #[trigger] kept[k])->0 >= score_of(
            store,
            q,
            i,
        )->0 by {
        lemma_candidate(store, q, lits, i);
        assert(rows_in(best).contains(i));
        let at = choose|at: int| 0 <= at < rows_in(best).len() && rows_in(best)[at] == i;
        if at < some.len() {
            assert(kept[at] == i);
        }
        assert forall|k: int| 0 <= k < kept.len() implies score_of(store, q, #[trigger] kept[k])->0
            >= score_of(store, q, i)->0 by {
            assert(pair_lt(best[k], best[at]));
            assert(keys(best[k].1) == Some(best[k].0));
            assert(keys(best[at].1) == Some(best[at].0));
        }
    }
    assert forall|k: int| 0 <= k < more.len() implies kept.contains(#[trigger] more[k])
        && may_be_shown(store, excluded, more[k]) by {
        lemma_filter_member(some, keep, k);
        let at = choose|at: int| 0 <= at < some.len() && some[at] == shown[k];
        assert(kept[at] == more[k]);
        assert(is_candidate(store, q, rows, kept[at]));
    }
    assert forall|k: int|
        0 <= k < kept.len() && may_be_shown(
            store,
            excluded,
            #[trigger] kept[k],
        ) implies more.contains(kept[k]) by {
        assert(some.contains(some[k]));
        lemma_filter_holds(some, keep, some[k]);
        let at = choose|at: int| 0 <= at < shown.len() && shown[at] == some[k];
        assert(more[at] == kept[k]);
    }
    assert forall|i: int, j: int| 0 <= i < j < more.len() implies score_of(
        store,
        q,
        #[trigger] more[i],
    )->0 >= score_of(store, q, #[trigger] more[j])->0 by {
        assert(pair_lt(shown[i], shown[j]));
        lemma_filter_member(some, keep, i);
        lemma_filter_member(some, keep, j);
        let a = choose|a: int| 0 <= a < some.len() && some[a] == shown[i];
        let c = choose|c: int| 0 <= c < some.len() && some[c] == shown[j];
        assert(keys(best[a].1) == Some(best[a].0));
        assert(keys(best[c].1) == Some(best[c].0));
    }
}

/// The lowercased name ends with a dot and this extension. A file has something
/// before the dot; a directory need not.
pub open spec fn has_ending(lower: Seq<u8>, ext: Seq<u8>, dir: bool) -> bool {
    let dot = lower.len() - ext.len() - 1;
    &&& ext.len() > 0
    &&& forall|k: int| 0 <= k < ext.len() ==> #[trigger] ext[k] != 0x2e
    &&& dot >= 0
    &&& lower[dot] == 0x2e
    &&& lower.skip(dot + 1) == ext
    &&& dot > 0 || dir
}

proof fn lemma_last_dot(s: Seq<u8>)
    ensures
        -1 <= last_dot(s) < s.len(),
        last_dot(s) >= 0 ==> s[last_dot(s)] == 0x2e,
        forall|k: int| last_dot(s) < k < s.len() ==> #[trigger] s[k] != 0x2e,
    decreases s.len(),
{
    if s.len() > 0 && s.last() != 0x2e {
        lemma_last_dot(s.drop_last());
        assert forall|k: int| last_dot(s) < k < s.len() implies #[trigger] s[k] != 0x2e by {
            if k < s.len() - 1 {
                assert(s.drop_last()[k] == s[k]);
            }
        }
    }
}

/// The extension of a name is what follows its last dot.
pub proof fn law_extension_follows_the_last_dot(lower: Seq<u8>, ext: Seq<u8>, dir: bool)
    ensures
        ext_key(lower, dir) == Some(ext) <==> has_ending(lower, ext, dir),
{
    lemma_last_dot(lower);
    let p = last_dot(lower);
    if ext_key(lower, dir) == Some(ext) {
        assert(lower.skip(p + 1) =~= ext);
        assert(ext.len() == lower.len() - p - 1);
        assert forall|k: int| 0 <= k < ext.len() implies #[trigger] ext[k] != 0x2e by {
            assert(ext[k] == lower[p + 1 + k]);
        }
    }
    if has_ending(lower, ext, dir) {
        let dot = lower.len() - ext.len() - 1;
        if p > dot {
            assert(lower.skip(dot + 1)[p - dot - 1] == lower[p]);
            assert(ext[p - dot - 1] != 0x2e);
        }
        assert(p == dot);
        assert(lower.subrange(p + 1, lower.len() as int) =~= lower.skip(dot + 1));
    }
}

proof fn lemma_ext_rows_hold(
    entries: Seq<IndexEntry>,
    lowers: Seq<u8>,
    ext: Seq<u8>,
    n: nat,
    i: u32,
)
    requires
        n <= entries.len(),
        entries.len() <= u32::MAX,
    ensures
        ext_rows(entries, lowers, ext, n).contains(i) <==> i < n && ext_of(
            lowers,
            entries[i as int],
        ) == Some(ext),
    decreases n,
{
    if n > 0 {
        let m = (n - 1) as nat;
        let before = ext_rows(entries, lowers, ext, m);
        let all = ext_rows(entries, lowers, ext, n);
        lemma_ext_rows_hold(entries, lowers, ext, m, i);
        if ext_of(lowers, entries[m as int]) == Some(ext) {
            assert(all == before.push(m as u32));
            if before.contains(i) {
                let k = choose|k: int| 0 <= k < before.len() && before[k] == i;
                assert(all[k] == i);
            }
            if i == m {
                assert(all[before.len() as int] == i);
            }
            if all.contains(i) && i != m {
                let k = choose|k: int| 0 <= k < all.len() && all[k] == i;
                assert(before[k] == i);
            }
        }
    }
}

/// An entry with this extension that may be shown.
pub open spec fn is_ext_row(
    store: IndexStore,
    ext: Seq<u8>,
    excluded: Seq<String>,
    i: u32,
) -> bool {
    let e = store.entries@[i as int];
    may_be_shown(store, excluded, i) && has_ending(store.lower_of(e), ext, e.dir())
}

/// The buckets of an index say which entries have an extension.
proof fn lemma_bucket(store: IndexStore, ext: Seq<u8>, i: u32)
    requires
        store.ext_ok(),
        store.entries@.len() <= u32::MAX,
    ensures
        rows_of(store.ext_index@, ext).contains(i) <==> i < store.entries@.len() && has_ending(
            store.lower_of(store.entries@[i as int]),
            ext,
            store.entries@[i as int].dir(),
        ),
        has_ext(store.ext_index@, ext) <==> exists|k: int|
            0 <= k < store.entries@.len() && has_ending(
                store.lower_of(#[trigger] store.entries@[k]),
                ext,
                store.entries@[k].dir(),
            ),
{
    let entries = store.entries@;
    let lowers = store.name_lower_arena@;
    let index = store.ext_index@;
    let n = entries.len();
    lemma_ext_rows_hold(entries, lowers, ext, n, i);
    law_extension_follows_the_last_dot(
        store.lower_of(entries[i as int]),
        ext,
        entries[i as int].dir(),
    );
    if has_ext(index, ext) {
        let b = choose|b: int| 0 <= b < index.len() && (#[trigger] index[b]).ext@ == ext;
        assert(index[b].rows@ == ext_rows(entries, lowers, index[b].ext@, n));
        assert(index[b].rows@.len() > 0);
        let k = index[b].rows@[0];
        assert(index[b].rows@.contains(k));
        lemma_ext_rows_hold(entries, lowers, ext, n, k);
        let e = entries[k as int];
        law_extension_follows_the_last_dot(store.lower_of(e), ext, e.dir());
        assert(ext_of(lowers, e) == ext_key(store.lower_of(e), e.dir()));
    } else {
        assert forall|k: int| 0 <= k < n implies !has_ending(
            store.lower_of(#[trigger] entries[k]),
            ext,
            entries[k].dir(),
        ) by {
            let e = entries[k];
            law_extension_follows_the_last_dot(store.lower_of(e), ext, e.dir());
            assert(ext_of(lowers, e) == ext_key(store.lower_of(e), e.dir()));
            if ext_of(lowers, entries[k]) is Some {
                assert(has_ext(index, ext_of(lowers, entries[k])->0));
            }
        }
    }
    assert(ext_of(lowers, entries[i as int]) == ext_key(
        store.lower_of(entries[i as int]),
        entries[i as int].dir(),
    ));
}

/// The depth of a path, as far as it counts: up to 15 separators.
pub open spec fn seen_depth(path: Seq<u8>) -> nat {
    if count_byte(path, 0x5c) < 15 {
        count_byte(path, 0x5c)
    } else {
        15
    }
}

/// In a search for an extension the first entry comes before the second: it is
/// the query and the other is not; or it begins with the query; or a word in it
/// does; or its path is a user's own; or that is less deep; or its name is
/// shorter. The first of these in which the two differ decides.
pub open spec fn comes_before(store: IndexStore, q: Seq<u8>, i: u32, j: u32) -> bool {
    let a = store.lower_of(store.entries@[i as int]);
    let b = store.lower_of(store.entries@[j as int]);
    let pa = store.path_lower(store.entries@[i as int]);
    let pb = store.path_lower(store.entries@[j as int]);
    if (a == q) != (b == q) {
        a == q
    } else if has_prefix(a, q) != has_prefix(b, q) {
        has_prefix(a, q)
    } else if word_prefix(a, q) != word_prefix(b, q) {
        word_prefix(a, q)
    } else if has_user_marker(pa) != has_user_marker(pb) {
        has_user_marker(pa)
    } else if seen_depth(pa) != seen_depth(pb) {
        seen_depth(pa) < seen_depth(pb)
    } else {
        seen_len(a) < seen_len(b)
    }
}

proof fn lemma_ext_order(store: IndexStore, q: Seq<u8>, i: u32, j: u32)
    requires
        comes_before(store, q, i, j),
    ensures
        pack(
            ext_meta(
                store.path_lower(store.entries@[i as int]),
                store.lower_of(store.entries@[i as int]),
                q,
            ),
        ) < pack(
            ext_meta(
                store.path_lower(store.entries@[j as int]),
                store.lower_of(store.entries@[j as int]),
                q,
            ),
        ),
{
    let a = store.lower_of(store.entries@[i as int]);
    let b = store.lower_of(store.entries@[j as int]);
    let ma = ext_meta(store.path_lower(store.entries@[i as int]), a, q);
    let mb = ext_meta(store.path_lower(store.entries@[j as int]), b, q);
    lemma_prefix_is_word(a, q);
    lemma_prefix_is_word(b, q);
    assert(packable(ma) && packable(mb));
    law_pack_is_lexicographic(ma, mb);
}

proof fn lemma_prefix_is_word(name: Seq<u8>, q: Seq<u8>)
    ensures
        name == q ==> has_prefix(name, q),
        has_prefix(name, q) ==> word_prefix(name, q),
{
    if name == q {
        assert(name.subrange(0, q.len() as int) =~= q);
    }
    if has_prefix(name, q) {
        assert(occurs_at(name, q, 0));
    }
}

/// A search for an extension shows the entries that have it and may be shown,
/// each once, and no line stands before one that comes first. The total counts
/// all these entries. The first page leaves one out only where it is full, and
/// shows none that the one left out comes before.
pub proof fn law_extension_search_shows_what_has_it(
    store: IndexStore,
    ext: Seq<u8>,
    q: Seq<char>,
    limit: nat,
    skip: nat,
    excluded: Seq<String>,
    page: PagedSearch,
) -> (rows: Seq<u32>)
    requires
        store.ext_ok(),
        store.entries@.len() <= u32::MAX,
        ext_found(store, ext, q, limit, skip, excluded, page),
    ensures
        rows.len() == page.results@.len(),
        rows.len() <= limit,
        rows_differ(rows),
        forall|k: int|
            0 <= k < rows.len() ==> {
                let lower = store.lower_of(store.entries@[rows[k] as int]);
                let r = #[trigger] page.results@[k];
                &&& shows(store, rows[k], r)
                &&& is_ext_row(store, ext, excluded, rows[k])
                &&& 1 <= r.rank <= 3
                &&& r.rank == 1 <==> lower == encode_utf8(q)
                &&& r.rank <= 2 <==> has_prefix(lower, encode_utf8(q))
            },
        forall|i: int, j: int|
            0 <= i < j < rows.len() ==> !comes_before(
                store,
                encode_utf8(q),
                #[trigger] rows[j],
                #[trigger] rows[i],
            ),
        page.total == count_of(
            |i: u32| is_ext_row(store, ext, excluded, i),
            store.entries@.len(),
        ),
        skip == 0 ==> forall|i: u32|
            #[trigger] is_ext_row(store, ext, excluded, i) && !rows.contains(i) ==> rows.len()
                == limit && forall|k: int|
                0 <= k < rows.len() ==> !comes_before(store, encode_utf8(q), i, #[trigger] rows[k]),
{
    let b = encode_utf8(q);
    let results = page.results@;
    let keys = ext_keys(store, rows_of(store.ext_index@, ext), b, excluded);
    let ranked = choose|ranked: Seq<(u64, u32)>|
        {
            &&& #[trigger] ranking(
                ranked,
                ext_keys(store, rows_of(store.ext_index@, ext), encode_utf8(q), excluded),
            )
            &&& page.total == ranked.len()
            &&& lines_for(
                store,
                page_of(ranked, skip, limit),
                Lines::Ext,
                encode_utf8(q),
                page.results@,
            )
        };
    let part = page_of(ranked, skip, limit);
    let rows = rows_in(part);
    let lo: int = if skip < ranked.len() {
        skip as int
    } else {
        ranked.len() as int
    };
    lemma_ranking_rows(ranked, keys);
    assert forall|i: u32| #[trigger] keys(i) is Some <==> is_ext_row(
        store,
        ext,
        excluded,
        i,
    ) by {
        lemma_bucket(store, ext, i);
    }
    assert forall|k: int| 0 <= k < part.len() implies #[trigger] part[k] == ranked[lo + k]
        && keys(part[k].1) == Some(part[k].0) by {}
    assert(pairs_sorted(part)) by {
        assert forall|x: int, y: int| 0 <= x < y < part.len() implies pair_lt(
            #[trigger] part[x],
            #[trigger] part[y],
        ) by {
            assert(pair_lt(ranked[lo + x], ranked[lo + y]));
        }
    }
    lemma_rows_differ(part, keys);
    assert forall|k: int| 0 <= k < rows.len() implies {
        let lower = store.lower_of(store.entries@[rows[k] as int]);
        let r = #[trigger] results[k];
        &&& shows(store, rows[k], r)
        &&& is_ext_row(store, ext, excluded, rows[k])
        &&& 1 <= r.rank <= 3
        &&& r.rank == 1 <==> lower == b
        &&& r.rank <= 2 <==> has_prefix(lower, b)
    } by {
        let e = store.entries@[part[k].1 as int];
        let marks = Lines::Ext.marks(store, e, b);
        assert(line_for(store, e, marks.0, marks.1, results[k]));
        assert(keys(part[k].1) is Some);
        lemma_prefix_is_word(store.lower_of(e), b);
    }
    assert forall|i: int, j: int| 0 <= i < j < rows.len() implies !comes_before(
        store,
        b,
        #[trigger] rows[j],
        #[trigger] rows[i],
    ) by {
        assert(pair_lt(part[i], part[j]));
        assert(keys(part[i].1) == Some(part[i].0));
        assert(keys(part[j].1) == Some(part[j].0));
        if comes_before(store, b, rows[j], rows[i]) {
            lemma_ext_order(store, b, rows[j], rows[i]);
        }
    }
    let p = |i: u32| is_ext_row(store, ext, excluded, i);
    assert forall|i: u32| #[trigger] rows_in(ranked).contains(i) <==> i < store.entries@.len()
        && p(i) by {
        assert(keys(i) is Some <==> is_ext_row(store, ext, excluded, i));
    }
    lemma_rows_counted(rows_in(ranked), p, store.entries@.len());
    if skip == 0 {
        assert forall|i: u32|
            #[trigger] is_ext_row(store, ext, excluded, i) && !rows.contains(
                i,
            ) implies rows.len() == limit && forall|k: int|
            0 <= k < rows.len() ==> !comes_before(store, b, i, #[trigger] rows[k]) by {
            assert(keys(i) is Some);
            let x = (keys(i)->0, i);
            assert(ranked.contains(x));
            let at = choose|at: int| 0 <= at < ranked.len() && ranked[at] == x;
            if at < part.len() {
                assert(part[at] == ranked[at]);
                assert(rows[at] == i);
            }
            assert forall|k: int| 0 <= k < rows.len() implies !comes_before(
                store,
                b,
                i,
                #[trigger] rows[k],
            ) by {
                assert(part[k] == ranked[k]);
                assert(pair_lt(ranked[k], ranked[at]));
                assert(keys(part[k].1) == Some(part[k].0));
                if comes_before(store, b, i, rows[k]) {
                    lemma_ext_order(store, b, i, rows[k]);
                }
            }
        }
    }
    rows
}

/// Some entry has this extension.
pub open spec fn some_entry_ends_with(store: IndexStore, ext: Seq<u8>) -> bool {
    exists|k: int|
        0 <= k < store.entries@.len() && has_ending(
            store.lower_of(#[trigger] store.entries@[k]),
            ext,
            store.entries@[k].dir(),
        )
}

/// A search lists the entries of an extension where case does not matter and the
/// query is a dot with two bytes or more behind it, or two to six bytes without
/// a dot, and some entry has that extension. It looks for the text otherwise. An
/// empty query finds nothing.
pub proof fn law_query_is_an_extension_or_a_text(
    store: IndexStore,
    query: Seq<char>,
    limit: nat,
    skip: nat,
    cased: bool,
    excluded: Seq<String>,
    page: PagedSearch,
    ext: Seq<u8>,
)
    requires
        store.ext_ok(),
        store.entries@.len() <= u32::MAX,
        found(store, query, limit, skip, cased, excluded, page),
    ensures
        ({
            let q = if cased {
                query
            } else {
                crate::text::lowercase(query)
            };
            let b = encode_utf8(q);
            let dotted = b == seq![0x2eu8] + ext && ext.len() >= 2;
            let bare = b == ext && 2 <= b.len() <= 6 && !b.contains(0x2e);
            &&& q.len() == 0 ==> page.results@.len() == 0 && page.total == 0
            &&& q.len() > 0 && !cased && (dotted || bare) && some_entry_ends_with(store, ext)
                ==> ext_found(store, ext, q, limit, skip, excluded, page)
            &&& q.len() > 0 && (cased || ((dotted || bare) && !some_entry_ends_with(store, ext)))
                ==> literal_found(store, q, cased, limit, skip, excluded, page)
            &&& q.len() > 0 && b[0] != 0x2e && (b.len() > 6 || b.contains(0x2e))
                ==> literal_found(store, q, cased, limit, skip, excluded, page)
        }),
{
    let q = query_text(query, cased);
    let b = encode_utf8(q);
    lemma_bucket(store, ext, 0);
    lemma_last_dot(b);
    if b == seq![0x2eu8] + ext {
        assert(b.subrange(1, b.len() as int) =~= ext);
    }
    if !b.contains(0x2e) && last_dot(b) >= 0 {
        assert(b.contains(b[last_dot(b)]));
    }
    if b.contains(0x2e) {
        let k = choose|k: int| 0 <= k < b.len() && b[k] == 0x2e;
        assert(last_dot(b) >= k);
    }
}

/// Counting a byte adds up: in two parts together, and one for each time that it
/// stands there.
pub proof fn law_bytes_are_counted(a: Seq<u8>, b: Seq<u8>, x: u8, y: u8)
    ensures
        count_byte(a + b, x) == count_byte(a, x) + count_byte(b, x),
        count_byte(seq![y], x) == if y == x {
            1nat
        } else {
            0
        },
    decreases b.len(),
{
    reveal_with_fuel(count_byte, 2);
    assert(seq![y].drop_last() =~= Seq::empty());
    if b.len() == 0 {
        assert(a + b =~= a);
    } else {
        law_bytes_are_counted(a, b.drop_last(), x, y);
        assert((a + b).drop_last() =~= a + b.drop_last());
    }
}

/// The extensions of documents and source code, of media, and of archives.
#[verifier::rlimit(50)]
#[verifier::spinoff_prover]
pub proof fn law_extensions_by_importance(ext: Seq<u8>)
    ensures
        name_in(TEXT_EXTS@, ext) <==> {
            ||| ext == encode_utf8("txt"@)
            ||| ext == encode_utf8("md"@)
            ||| ext == encode_utf8("pdf"@)
            ||| ext == encode_utf8("doc"@)
            ||| ext == encode_utf8("docx"@)
            ||| ext == encode_utf8("xls"@)
            ||| ext == encode_utf8("xlsx"@)
            ||| ext == encode_utf8("ppt"@)
            ||| ext == encode_utf8("pptx"@)
            ||| ext == encode_utf8("csv"@)
            ||| ext == encode_utf8("rtf"@)
            ||| ext == encode_utf8("html"@)
            ||| ext == encode_utf8("css"@)
            ||| ext == encode_utf8("js"@)
            ||| ext == encode_utf8("ts"@)
            ||| ext == encode_utf8("json"@)
            ||| ext == encode_utf8("yml"@)
            ||| ext == encode_utf8("yaml"@)
            ||| ext == encode_utf8("toml"@)
            ||| ext == encode_utf8("ini"@)
            ||| ext == encode_utf8("log"@)
            ||| ext == encode_utf8("rs"@)
            ||| ext == encode_utf8("c"@)
            ||| ext == encode_utf8("h"@)
            ||| ext == encode_utf8("cpp"@)
            ||| ext == encode_utf8("hpp"@)
            ||| ext == encode_utf8("py"@)
            ||| ext == encode_utf8("go"@)
            ||| ext == encode_utf8("java"@)
            ||| ext == encode_utf8("cs"@)
            ||| ext == encode_utf8("rb"@)
            ||| ext == encode_utf8("php"@)
            ||| ext == encode_utf8("sql"@)
            ||| ext == encode_utf8("bat"@)
            ||| ext == encode_utf8("cmd"@)
            ||| ext == encode_utf8("ps1"@)
            ||| ext == encode_utf8("ipynb"@)
        },
        name_in(MEDIA_EXTS@, ext) <==> {
            ||| ext == encode_utf8("png"@)
            ||| ext == encode_utf8("jpg"@)
            ||| ext == encode_utf8("jpeg"@)
            ||| ext == encode_utf8("gif"@)
            ||| ext == encode_utf8("bmp"@)
            ||| ext == encode_utf8("svg"@)
            ||| ext == encode_utf8("webp"@)
            ||| ext == encode_utf8("ico"@)
            ||| ext == encode_utf8("mp3"@)
            ||| ext == encode_utf8("mp4"@)
            ||| ext == encode_utf8("mkv"@)
            ||| ext == encode_utf8("avi"@)
            ||| ext == encode_utf8("mov"@)
            ||| ext == encode_utf8("wav"@)
            ||| ext == encode_utf8("flac"@)
        },
        name_in(ARCHIVE_EXTS@, ext) <==> {
            ||| ext == encode_utf8("zip"@)
            ||| ext == encode_utf8("rar"@)
            ||| ext == encode_utf8("7z"@)
            ||| ext == encode_utf8("tar"@)
            ||| ext == encode_utf8("gz"@)
            ||| ext == encode_utf8("bz2"@)
            ||| ext == encode_utf8("iso"@)
        },
{
    assert(TEXT_EXTS@[0]@ == "txt"@);
    assert(TEXT_EXTS@[1]@ == "md"@);
    assert(TEXT_EXTS@[2]@ == "pdf"@);
    assert(TEXT_EXTS@[3]@ == "doc"@);
    assert(TEXT_EXTS@[4]@ == "docx"@);
    assert(TEXT_EXTS@[5]@ == "xls"@);
    assert(TEXT_EXTS@[6]@ == "xlsx"@);
    assert(TEXT_EXTS@[7]@ == "ppt"@);
    assert(TEXT_EXTS@[8]@ == "pptx"@);
    assert(TEXT_EXTS@[9]@ == "csv"@);
    assert(TEXT_EXTS@[10]@ == "rtf"@);
    assert(TEXT_EXTS@[11]@ == "html"@);
    assert(TEXT_EXTS@[12]@ == "css"@);
    assert(TEXT_EXTS@[13]@ == "js"@);
    assert(TEXT_EXTS@[14]@ == "ts"@);
    assert(TEXT_EXTS@[15]@ == "json"@);
    assert(TEXT_EXTS@[16]@ == "yml"@);
    assert(TEXT_EXTS@[17]@ == "yaml"@);
    assert(TEXT_EXTS@[18]@ == "toml"@);
    assert(TEXT_EXTS@[19]@ == "ini"@);
    assert(TEXT_EXTS@[20]@ == "log"@);
    assert(TEXT_EXTS@[21]@ == "rs"@);
    assert(TEXT_EXTS@[22]@ == "c"@);
    assert(TEXT_EXTS@[23]@ == "h"@);
    assert(TEXT_EXTS@[24]@ == "cpp"@);
    assert(TEXT_EXTS@[25]@ == "hpp"@);
    assert(TEXT_EXTS@[26]@ == "py"@);
    assert(TEXT_EXTS@[27]@ == "go"@);
    assert(TEXT_EXTS@[28]@ == "java"@);
    assert(TEXT_EXTS@[29]@ == "cs"@);
    assert(TEXT_EXTS@[30]@ == "rb"@);
    assert(TEXT_EXTS@[31]@ == "php"@);
    assert(TEXT_EXTS@[32]@ == "sql"@);
    assert(TEXT_EXTS@[33]@ == "bat"@);
    assert(TEXT_EXTS@[34]@ == "cmd"@);
    assert(TEXT_EXTS@[35]@ == "ps1"@);
    assert(TEXT_EXTS@[36]@ == "ipynb"@);
    assert(MEDIA_EXTS@[0]@ == "png"@);
    assert(MEDIA_EXTS@[1]@ == "jpg"@);
    assert(MEDIA_EXTS@[2]@ == "jpeg"@);
    assert(MEDIA_EXTS@[3]@ == "gif"@);
    assert(MEDIA_EXTS@[4]@ == "bmp"@);
    assert(MEDIA_EXTS@[5]@ == "svg"@);
    assert(MEDIA_EXTS@[6]@ == "webp"@);
    assert(MEDIA_EXTS@[7]@ == "ico"@);
    assert(MEDIA_EXTS@[8]@ == "mp3"@);
    assert(MEDIA_EXTS@[9]@ == "mp4"@);
    assert(MEDIA_EXTS@[10]@ == "mkv"@);
    assert(MEDIA_EXTS@[11]@ == "avi"@);
    assert(MEDIA_EXTS@[12]@ == "mov"@);
    assert(MEDIA_EXTS@[13]@ == "wav"@);
    assert(MEDIA_EXTS@[14]@ == "flac"@);
    assert(ARCHIVE_EXTS@[0]@ == "zip"@);
    assert(ARCHIVE_EXTS@[1]@ == "rar"@);
    assert(ARCHIVE_EXTS@[2]@ == "7z"@);
    assert(ARCHIVE_EXTS@[3]@ == "tar"@);
    assert(ARCHIVE_EXTS@[4]@ == "gz"@);
    assert(ARCHIVE_EXTS@[5]@ == "bz2"@);
    assert(ARCHIVE_EXTS@[6]@ == "iso"@);
}

/// How important a file is follows from what stands behind the last dot of its
/// lowercased name: documents and source code first, then media, then archives,
/// then the rest.
pub proof fn law_importance_follows_the_extension(head: Seq<u8>, ext: Seq<u8>)
    requires
        forall|k: int| 0 <= k < ext.len() ==> #[trigger] ext[k] != 0x2e,
    ensures
        ({
            let rank = ext_rank(head.push(0x2e) + ext);
            &&& rank == 0 <==> name_in(TEXT_EXTS@, ext)
            &&& rank <= 1 <==> name_in(TEXT_EXTS@, ext) || name_in(MEDIA_EXTS@, ext)
            &&& rank <= 2 <==> name_in(TEXT_EXTS@, ext) || name_in(MEDIA_EXTS@, ext) || name_in(
                ARCHIVE_EXTS@,
                ext,
            )
            &&& rank <= 3
        }),
{
    let name = head.push(0x2e) + ext;
    let n: int = head.len() as int;
    lemma_last_dot(name);
    let p = last_dot(name);
    assert(name[n] == 0x2e);
    if p > n {
        assert(name[p] == ext[p - n - 1]);
    }
    assert(p == n);
    assert(name.subrange(n + 1, name.len() as int) =~= ext);
}

} // verus!
