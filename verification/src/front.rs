//! The requests of the front end: searches, settings, and when the launcher is
//! shown.
use crate::apps::pool::UiResult;
use crate::env::Env;
use crate::index::search::{found, search, search_paged, PagedSearch, SearchResult};
use crate::index::store::{lemma_frame, IndexStore};
use crate::paths::{bare_query, expand_path_query, place_of};
use crate::rows::{kind_for_result, kind_of, kind_rank_keys, ordered_by, sort_by_kind_and_rank};
use crate::settings::{folder_keys, page_size, save_exclusions, save_settings, with_breaks};
use crate::text::{str_trim, texts, trimmed};
use vstd::prelude::*;

verus! {

/// How many files a page holds.
pub const FILE_PAGE: usize = 100;

/// One page of files, and how many there are in all.
pub struct FileResults {
    pub items: Vec<UiResult>,
    pub total: usize,
}

/// A row shows a file.
pub open spec fn is_file_row(row: UiResult, r: SearchResult) -> bool {
    &&& row.name == r.name
    &&& row.path == r.full_path
    &&& row.is_dir == r.is_dir
    &&& row.kind@ == if r.is_dir {
        "dir"@
    } else {
        "file"@
    }
    &&& row.rank == r.rank
}

/// A page shows these files.
pub open spec fn shows_files(page: FileResults, p: PagedSearch) -> bool {
    &&& page.total == p.total
    &&& page.items.len() == p.results.len()
    &&& forall|i: int|
        0 <= i < page.items.len() ==> is_file_row(#[trigger] page.items@[i], p.results@[i])
}

/// A page of the files for a query, from the `offset`-th on. Where the
/// extension buckets are out of date they are made anew first.
pub fn search_files(store: &mut IndexStore, query: &str, offset: usize) -> (r: FileResults)
    requires
        old(store).searchable(),
        !old(store).ext_dirty ==> old(store).ext_usable(),
    ensures
        trimmed(query@).len() == 0 ==> r.items.len() == 0 && r.total == 0 && *final(store) == *old(
            store,
        ),
        trimmed(query@).len() > 0 ==> {
            &&& *final(store) == (IndexStore {
                ext_index: final(store).ext_index,
                ext_dirty: false,
                ..*old(store)
            })
            &&& old(store).ext_dirty ==> final(store).ext_ok()
            &&& !old(store).ext_dirty ==> *final(store) == *old(store)
            &&& exists|p: PagedSearch|
                {
                    &&& #[trigger] found(
                        *final(store),
                        trimmed(query@),
                        FILE_PAGE as nat,
                        offset as nat,
                        false,
                        Seq::empty(),
                        p,
                    )
                    &&& shows_files(r, p)
                }
        },
{
    let q = str_trim(query);
    if q.as_str().is_empty() {
        return FileResults { items: Vec::new(), total: 0 };
    }
    if store.ext_dirty {
        store.rebuild_ext_index();
        proof {
            store.lemma_ext_usable();
            lemma_frame(*old(store), *store);
        }
    }
    let none: Vec<String> = Vec::new();
    let page = search_paged(store, q.as_str(), FILE_PAGE, offset, false, none.as_slice());
    assert(none@ =~= Seq::<String>::empty());
    let mut items: Vec<UiResult> = Vec::new();
    let mut i: usize = 0;
    while i < page.results.len()
        invariant
            i <= page.results.len(),
            items.len() == i,
            forall|k: int|
                0 <= k < i ==> is_file_row(#[trigger] items@[k], page.results@[k]),
        decreases page.results.len() - i,
    {
        let found = &page.results[i];
        items.push(
            UiResult {
                name: found.name.clone(),
                path: found.full_path.clone(),
                is_dir: found.is_dir,
                kind: if found.is_dir {
                    "dir"
                } else {
                    "file"
                },
                rank: found.rank,
            },
        );
        i = i + 1;
    }
    let r = FileResults { items, total: page.total };
    assert(shows_files(r, page));
    r
}

/// The folder or file that a query names, if it is the path of one.
pub fn search_path(query: &str, env: &Env) -> (r: Option<String>)
    ensures
        r is Some <==> place_of(bare_query(trimmed(query@)), *env) is Some,
        r is Some ==> r->0@ == place_of(bare_query(trimmed(query@)), *env)->0,
{
    let q = str_trim(query);
    expand_path_query(q.as_str(), env)
}

/// The settings of the window.
pub struct Settings {
    pub excluded_paths: Vec<String>,
    pub case_sensitive: bool,
}

/// A row shows a result with its kind.
pub open spec fn is_kind_row(row: UiResult, r: SearchResult) -> bool {
    &&& row.name == r.name
    &&& row.path == r.full_path
    &&& row.is_dir == r.is_dir
    &&& row.kind@ == kind_of(r, true).word("FILE"@)
    &&& row.rank == r.rank
}

impl Settings {
    /// The settings, to be shown.
    pub fn get_settings(&self) -> (r: Settings)
        ensures
            r.case_sensitive == self.case_sensitive,
            texts(r.excluded_paths@) == texts(self.excluded_paths@),
    {
        let mut out: Vec<String> = Vec::new();
        let mut i: usize = 0;
        while i < self.excluded_paths.len()
            invariant
                i <= self.excluded_paths.len(),
                out@ == self.excluded_paths@.take(i as int),
            decreases self.excluded_paths.len() - i,
        {
            out.push(self.excluded_paths[i].clone());
            i = i + 1;
        }
        assert(out@ =~= self.excluded_paths@);
        Settings { excluded_paths: out, case_sensitive: self.case_sensitive }
    }

    /// Takes new settings, and gives the text of the settings file for them.
    pub fn save_settings(&mut self, payload: &Settings) -> (r: String)
        ensures
            texts(final(self).excluded_paths@) == folder_keys(texts(payload.excluded_paths@)),
            final(self).case_sensitive == payload.case_sensitive,
            r@ == with_breaks(folder_keys(texts(payload.excluded_paths@))),
    {
        self.excluded_paths = save_settings(&payload.excluded_paths);
        self.case_sensitive = payload.case_sensitive;
        save_exclusions(&self.excluded_paths)
    }

    /// The results for a query, by kind and rank. Where the request says whether
    /// case counts, the settings keep it.
    pub fn search(
        &mut self,
        store: &IndexStore,
        query: &str,
        limit: Option<usize>,
        case_sensitive: Option<bool>,
    ) -> (r: Vec<UiResult>)
        requires
            store.searchable(),
            store.ext_usable(),
        ensures
            *final(self) == (Settings {
                case_sensitive: match case_sensitive {
                    Some(c) => c,
                    None => old(self).case_sensitive,
                },
                ..*old(self)
            }),
            exists|p: PagedSearch, sorted: Seq<SearchResult>|
                {
                    &&& #[trigger] found(
                        *store,
                        trimmed(query@),
                        page_limit(limit),
                        0,
                        final(self).case_sensitive,
                        final(self).excluded_paths@,
                        p,
                    )
                    &&& #[trigger] ordered_by(sorted, p.results@, kind_rank_keys(p.results@))
                    &&& r.len() == sorted.len()
                    &&& forall|i: int|
                        0 <= i < r.len() ==> is_kind_row(#[trigger] r@[i], sorted[i])
                },
    {
        let n = page_size(limit);
        match case_sensitive {
            Some(c) => {
                self.case_sensitive = c;
            },
            None => {},
        }
        let q = str_trim(query);
        let raw = search(
            store,
            q.as_str(),
            n,
            self.case_sensitive,
            self.excluded_paths.as_slice(),
        );
        let ghost page = choose|p: PagedSearch|
            p.results == raw && #[trigger] found(
                *store,
                q@,
                n as nat,
                0,
                self.case_sensitive,
                self.excluded_paths@,
                p,
            );
        let sorted = sort_by_kind_and_rank(&raw);
        let mut out: Vec<UiResult> = Vec::new();
        let mut i: usize = 0;
        while i < sorted.len()
            invariant
                i <= sorted.len(),
                out.len() == i,
                forall|k: int| 0 <= k < i ==> is_kind_row(#[trigger] out@[k], sorted@[k]),
            decreases sorted.len() - i,
        {
            let found = &sorted[i];
            out.push(
                UiResult {
                    name: found.name.clone(),
                    path: found.full_path.clone(),
                    is_dir: found.is_dir,
                    kind: kind_for_result(found).as_str(),
                    rank: found.rank,
                },
            );
            i = i + 1;
        }
        assert(found(
            *store,
            trimmed(query@),
            page_limit(limit),
            0,
            self.case_sensitive,
            self.excluded_paths@,
            page,
        ));
        assert(ordered_by(sorted@, page.results@, kind_rank_keys(page.results@)));
        out
    }
}

/// How many results a request gets.
pub open spec fn page_limit(limit: Option<usize>) -> nat {
    match limit {
        None => 50,
        Some(n) => if n < 1 {
            1
        } else if n > 200 {
            200
        } else {
            n as nat
        },
    }
}

/// Whether the launcher was shown for the first time.
pub struct FirstShow {
    pub shown: bool,
}

impl FirstShow {
    /// The page is loaded, or it took too long. Says whether the launcher is
    /// shown now: the first time only.
    pub fn frontend_loaded(&mut self) -> (show: bool)
        ensures
            show == !old(self).shown,
            final(self).shown,
    {
        let show = !self.shown;
        self.shown = true;
        show
    }
}

/// Whether the launcher is hidden as it loses the keyboard. It stays until the
/// index is ready, because a program that was just started is often refused the
/// keyboard, and during the first scan.
pub fn hides_on_blur(first_scan: bool, ready: bool, visible: bool) -> (r: bool)
    ensures
        r == (!first_scan && ready && visible),
{
    !first_scan && ready && visible
}

/// A page has at least one row and at most two hundred; a wish in between is
/// granted, and without a wish there are fifty.
pub proof fn law_how_many_rows_are_given(n: usize, m: usize)
    ensures
        1 <= page_limit(Some(n)) <= 200,
        1 <= n <= 200 ==> page_limit(Some(n)) == n,
        n <= m ==> page_limit(Some(n)) <= page_limit(Some(m)),
        page_limit(None) == 50,
{
}

/// A page of files shows each result in its place, tells folders from files, and
/// counts what the search counted.
pub proof fn law_each_result_has_its_row(page: FileResults, p: PagedSearch, i: int)
    requires
        shows_files(page, p),
        0 <= i < p.results.len(),
    ensures
        page.total == p.total,
        page.items.len() == p.results.len(),
        ({
            let row = page.items@[i];
            let r = p.results@[i];
            &&& row.name@ == r.name@
            &&& row.path@ == r.full_path@
            &&& row.rank == r.rank
            &&& r.is_dir <==> row.kind@ == "dir"@
            &&& !r.is_dir <==> row.kind@ == "file"@
            &&& row.is_dir <==> row.kind@ == "dir"@
        }),
{
    reveal_strlit("dir");
    reveal_strlit("file");
    assert(is_file_row(page.items@[i], p.results@[i]));
    assert("dir"@.len() == 3 && "file"@.len() == 4);
}

} // verus!
