//! The command line: queries with filters, and the commands beside them.
use crate::index::path::{build_path, excluded_path, is_excluded};
use crate::index::search::{found, search, PagedSearch, SearchResult};
use crate::index::store::{IndexEntry, IndexStore};
use crate::num::{decimal, decimal_text};
use crate::settings::{folder_key, normal_folder};
use crate::text::{
    chars_of, lowercase, str_ends, str_eq, str_trim, strip_start, text_ends, text_starts, texts,
    trimmed,
};
use vstd::prelude::*;
use vstd::utf8::encode_utf8_decode_utf8;

verus! {

/// How many results a query shows.
pub const RESULT_LIMIT: usize = 300;

/// Which results a query wants.
#[derive(Clone, Copy, PartialEq, Eq, Structural)]
pub enum Filter {
    All,
    Dirs,
    Files,
}

/// A query, taken apart.
pub struct ParsedQuery {
    pub query: String,
    pub filter: Filter,
    pub ext_filter: Option<String>,
}

/// `p` is a query taken apart: `ext:pdf` and `*.pdf` want an extension,
/// `folder:` and `:` folders, `file:` and `!` files.
pub open spec fn parsed(p: ParsedQuery, input: Seq<char>) -> bool {
    if text_starts(input, "ext:"@) {
        &&& p.query@.len() == 0
        &&& p.filter == Filter::Files
        &&& p.ext_filter is Some
        &&& p.ext_filter->0@ == lowercase(input.skip("ext:"@.len() as int))
    } else if text_starts(input, "*."@) {
        &&& p.query@.len() == 0
        &&& p.filter == Filter::All
        &&& p.ext_filter is Some
        &&& p.ext_filter->0@ == lowercase(input.skip("*."@.len() as int))
    } else if text_starts(input, "folder:"@) {
        &&& p.query@ == trimmed(input.skip("folder:"@.len() as int))
        &&& p.filter == Filter::Dirs
        &&& p.ext_filter is None
    } else if text_starts(input, "file:"@) {
        &&& p.query@ == trimmed(input.skip("file:"@.len() as int))
        &&& p.filter == Filter::Files
        &&& p.ext_filter is None
    } else if text_starts(input, ":"@) {
        &&& p.query@ == input.skip(":"@.len() as int)
        &&& p.filter == Filter::Dirs
        &&& p.ext_filter is None
    } else if text_starts(input, "!"@) {
        &&& p.query@ == input.skip("!"@.len() as int)
        &&& p.filter == Filter::Files
        &&& p.ext_filter is None
    } else {
        &&& p.query@ == input
        &&& p.filter == Filter::All
        &&& p.ext_filter is None
    }
}

/// Takes a query apart.
pub fn parse_query(input: &str) -> (r: ParsedQuery)
    ensures
        parsed(r, input@),
{
    match strip_start(input, "ext:") {
        Some(ext) => {
            return ParsedQuery {
                query: String::new(),
                filter: Filter::Files,
                ext_filter: Some(ext.as_str().to_lowercase()),
            };
        },
        None => {},
    }
    match strip_start(input, "*.") {
        Some(ext) => {
            return ParsedQuery {
                query: String::new(),
                filter: Filter::All,
                ext_filter: Some(ext.as_str().to_lowercase()),
            };
        },
        None => {},
    }
    match strip_start(input, "folder:") {
        Some(q) => {
            return ParsedQuery {
                query: str_trim(q.as_str()),
                filter: Filter::Dirs,
                ext_filter: None,
            };
        },
        None => {},
    }
    match strip_start(input, "file:") {
        Some(q) => {
            return ParsedQuery {
                query: str_trim(q.as_str()),
                filter: Filter::Files,
                ext_filter: None,
            };
        },
        None => {},
    }
    match strip_start(input, ":") {
        Some(q) => {
            return ParsedQuery { query: q, filter: Filter::Dirs, ext_filter: None };
        },
        None => {},
    }
    match strip_start(input, "!") {
        Some(q) => {
            return ParsedQuery { query: q, filter: Filter::Files, ext_filter: None };
        },
        None => {},
    }
    ParsedQuery { query: input.to_owned(), filter: Filter::All, ext_filter: None }
}

/// A filter lets a folder or a file through.
pub open spec fn lets_through(filter: Filter, is_dir: bool) -> bool {
    match filter {
        Filter::All => true,
        Filter::Dirs => is_dir,
        Filter::Files => !is_dir,
    }
}

/// Whether a filter lets a folder or a file through.
fn passes(filter: Filter, is_dir: bool) -> (r: bool)
    ensures
        r == lets_through(filter, is_dir),
{
    match filter {
        Filter::All => true,
        Filter::Dirs => is_dir,
        Filter::Files => !is_dir,
    }
}

/// An entry has an extension, passes the filter, and is not excluded.
pub open spec fn ext_match(
    store: IndexStore,
    e: IndexEntry,
    ext: Seq<char>,
    filter: Filter,
    excluded: Seq<String>,
) -> bool {
    &&& text_ends(store.lower_text(e), "."@ + ext)
    &&& lets_through(filter, e.dir())
    &&& !is_excluded(store.path_lower(e), excluded)
}

/// The positions of the matching entries among the first `n`.
pub open spec fn ext_matches(
    store: IndexStore,
    ext: Seq<char>,
    filter: Filter,
    excluded: Seq<String>,
    n: int,
) -> Seq<int>
    decreases n,
{
    if n <= 0 {
        Seq::empty()
    } else if ext_match(store, store.entries@[n - 1], ext, filter, excluded) {
        ext_matches(store, ext, filter, excluded, n - 1).push(n - 1)
    } else {
        ext_matches(store, ext, filter, excluded, n - 1)
    }
}

/// The result for an entry that was found by its extension.
pub open spec fn is_ext_result(r: SearchResult, store: IndexStore, e: IndexEntry) -> bool {
    &&& r.full_path@ == store.path_text(e)
    &&& r.name@ == store.name_text(e)
    &&& r.rank == 0
    &&& r.is_dir == e.dir()
    &&& r.modified_time is None
    &&& r.file_type_priority == 0
}

/// How many results are shown of this many matches.
pub open spec fn shown_count(n: nat) -> nat {
    if n < RESULT_LIMIT {
        n
    } else {
        RESULT_LIMIT as nat
    }
}

proof fn lemma_ext_prefix(
    store: IndexStore,
    ext: Seq<char>,
    filter: Filter,
    excluded: Seq<String>,
    n: int,
    m: int,
)
    requires
        0 <= n <= m,
    ensures
        ext_matches(store, ext, filter, excluded, n).len() <= ext_matches(
            store,
            ext,
            filter,
            excluded,
            m,
        ).len(),
        forall|i: int|
            0 <= i < ext_matches(store, ext, filter, excluded, n).len() ==> (
            #[trigger] ext_matches(store, ext, filter, excluded, m)[i]) == ext_matches(
                store,
                ext,
                filter,
                excluded,
                n,
            )[i],
    decreases m,
{
    if n < m {
        lemma_ext_prefix(store, ext, filter, excluded, n, m - 1);
    }
}

/// The first entries with an extension, in the order of the index.
pub fn find_by_ext(
    store: &IndexStore,
    ext: &str,
    filter: Filter,
    excluded: &Vec<String>,
) -> (r: Vec<SearchResult>)
    requires
        store.searchable(),
    ensures
        ({
            let rows = ext_matches(*store, ext@, filter, excluded@, store.entries@.len() as int);
            &&& r.len() == shown_count(rows.len())
            &&& forall|i: int|
                0 <= i < r.len() ==> is_ext_result(
                    #[trigger] r@[i],
                    *store,
                    store.entries@[rows[i]],
                )
        }),
{
    let mut dot_ext = ".".to_owned();
    dot_ext.push_str(ext);
    let mut out: Vec<SearchResult> = Vec::new();
    let mut i: usize = 0;
    while i < store.entries.len() && out.len() < RESULT_LIMIT
        invariant
            i <= store.entries.len(),
            store.searchable(),
            dot_ext@ == "."@ + ext@,
            out.len() <= RESULT_LIMIT,
            out.len() == ext_matches(*store, ext@, filter, excluded@, i as int).len(),
            forall|k: int|
                0 <= k < out.len() ==> is_ext_result(
                    #[trigger] out@[k],
                    *store,
                    store.entries@[ext_matches(*store, ext@, filter, excluded@, i as int)[k]],
                ),
        decreases store.entries.len() - i,
    {
        let e = store.entries[i];
        assert(store.entries@[i as int] == e);
        assert(e.in_arenas(store.name_arena@, store.name_lower_arena@));
        let ghost rows = ext_matches(*store, ext@, filter, excluded@, i as int);
        let low = store.name_lower(&e);
        proof {
            encode_utf8_decode_utf8(low@);
            assert(store.lower_text(e) == low@);
        }
        if str_ends(low, dot_ext.as_str()) && passes(filter, e.is_dir()) {
            let full_path = build_path(&e, store);
            let path_lower = full_path.as_str().to_lowercase();
            if !excluded_path(path_lower.as_str(), excluded.as_slice()) {
                let name = store.name(&e);
                proof {
                    encode_utf8_decode_utf8(name@);
                    assert(ext_match(*store, e, ext@, filter, excluded@));
                }
                out.push(
                    SearchResult {
                        full_path,
                        name: name.to_owned(),
                        rank: 0,
                        is_dir: e.is_dir(),
                        modified_time: None,
                        file_type_priority: 0,
                    },
                );
            }
        }
        proof {
            lemma_ext_prefix(*store, ext@, filter, excluded@, i as int, i + 1);
        }
        i = i + 1;
    }
    proof {
        lemma_ext_prefix(
            *store,
            ext@,
            filter,
            excluded@,
            i as int,
            store.entries@.len() as int,
        );
    }
    out
}

/// The results that a filter lets through.
pub open spec fn through(results: Seq<SearchResult>, filter: Filter) -> Seq<SearchResult>
    decreases results.len(),
{
    if results.len() == 0 {
        results
    } else if lets_through(filter, results.last().is_dir) {
        through(results.drop_last(), filter).push(results.last())
    } else {
        through(results.drop_last(), filter)
    }
}

/// The results of a query that wants no extension: those of the search that the
/// filter lets through.
pub fn find_by_name(
    store: &IndexStore,
    query: &str,
    filter: Filter,
    case_sensitive: bool,
    excluded: &Vec<String>,
) -> (r: Vec<SearchResult>)
    requires
        store.searchable(),
        store.ext_usable(),
    ensures
        exists|page: PagedSearch|
            {
                &&& #[trigger] found(
                    *store,
                    query@,
                    RESULT_LIMIT as nat,
                    0,
                    case_sensitive,
                    excluded@,
                    page,
                )
                &&& r@ == through(page.results@, filter)
            },
{
    let raw = search(store, query, RESULT_LIMIT, case_sensitive, excluded.as_slice());
    let mut out: Vec<SearchResult> = Vec::new();
    let mut i: usize = 0;
    assert(raw@.take(0) =~= Seq::<SearchResult>::empty());
    while i < raw.len()
        invariant
            i <= raw.len(),
            out@ == through(raw@.take(i as int), filter),
        decreases raw.len() - i,
    {
        assert(raw@.take(i + 1).drop_last() =~= raw@.take(i as int));
        assert(raw@.take(i + 1).last() == raw@[i as int]);
        if passes(filter, raw[i].is_dir) {
            out.push(raw[i].clone());
        }
        i = i + 1;
    }
    assert(raw@.take(i as int) =~= raw@);
    out
}

/// What the command line holds: whether case counts, and the excluded folders.
pub struct CliState {
    pub case_sensitive: bool,
    pub excluded: Vec<String>,
}

/// What a line of input leads to.
pub enum CliStep {
    /// Nothing.
    Nothing,
    /// The program ends.
    Quit,
    /// These words are printed.
    Say(String),
    /// The excluded folders are written to the settings, and these words printed.
    Save(String),
    /// The cache is removed.
    Rescan,
    /// The excluded folders are listed.
    List,
    /// This is searched for.
    Find(ParsedQuery),
}

/// The excluded folders without one of them.
pub open spec fn without_folder(dirs: Seq<String>, key: Seq<char>) -> Seq<String>
    decreases dirs.len(),
{
    if dirs.len() == 0 {
        dirs
    } else if dirs.last()@ == key {
        without_folder(dirs.drop_last(), key)
    } else {
        without_folder(dirs.drop_last(), key).push(dirs.last())
    }
}

/// What a line of input leads to, and what it makes of the state.
pub open spec fn obeys(
    before: CliState,
    input: Seq<char>,
    count: nat,
    after: CliState,
    step: CliStep,
) -> bool {
    let line = trimmed(input);
    let exclude = trimmed(line.skip("exclude "@.len() as int));
    let key = folder_key(line.skip("exclude "@.len() as int));
    let drop = folder_key(line.skip("unexclude "@.len() as int));
    if line.len() == 0 {
        step is Nothing && after == before
    } else if line == "quit"@ || line == "exit"@ || line == "q"@ {
        step is Quit && after == before
    } else if line == "count"@ {
        &&& step is Say
        &&& step->Say_0@ == "  "@ + decimal(count) + " files in index\n"@
        &&& after == before
    } else if line == "rescan"@ {
        step is Rescan && after == before
    } else if line == "case"@ {
        &&& step is Say
        &&& step->Say_0@ == if before.case_sensitive {
            "  case sensitivity: OFF\n"@
        } else {
            "  case sensitivity: ON\n"@
        }
        &&& after == (CliState { case_sensitive: !before.case_sensitive, ..before })
    } else if line == "exclusions"@ {
        step is List && after == before
    } else if text_starts(line, "exclude "@) {
        if lowercase(exclude).len() == 0 {
            step is Nothing && after == before
        } else if texts(before.excluded@).contains(key) {
            &&& step is Say
            &&& step->Say_0@ == "  excluded: "@ + key + "\n"@
            &&& after == before
        } else {
            &&& step is Save
            &&& step->Save_0@ == "  excluded: "@ + key + "\n"@
            &&& after.case_sensitive == before.case_sensitive
            &&& texts(after.excluded@) == texts(before.excluded@).push(key)
        }
    } else if text_starts(line, "unexclude "@) {
        &&& step is Save
        &&& after.case_sensitive == before.case_sensitive
        &&& after.excluded@ == without_folder(before.excluded@, drop)
        &&& step->Save_0@ == if after.excluded@.len() < before.excluded@.len() {
            "  removed: "@ + drop + "\n"@
        } else {
            "  not found in exclusions\n"@
        }
    } else {
        step is Find && parsed(step->Find_0, line) && after == before
    }
}

/// Three texts, one behind the other.
fn three_texts(a: &str, b: &str, c: &str) -> (r: String)
    ensures
        r@ == a@ + b@ + c@,
{
    let mut out = a.to_owned();
    out.push_str(b);
    out.push_str(c);
    out
}

impl CliState {
    /// Whether a folder is excluded.
    fn has_folder(&self, key: &str) -> (r: bool)
        ensures
            r == texts(self.excluded@).contains(key@),
    {
        let mut i: usize = 0;
        while i < self.excluded.len()
            invariant
                i <= self.excluded.len(),
                forall|k: int| 0 <= k < i ==> (#[trigger] self.excluded@[k])@ != key@,
            decreases self.excluded.len() - i,
        {
            if str_eq(self.excluded[i].as_str(), key) {
                assert(texts(self.excluded@)[i as int] == key@);
                return true;
            }
            i = i + 1;
        }
        assert forall|k: int| 0 <= k < texts(self.excluded@).len() implies texts(
            self.excluded@,
        )[k] != key@ by {
            assert(self.excluded@[k]@ != key@);
        }
        false
    }

    /// The excluded folders without one of them.
    fn dropped(&self, key: &str) -> (r: Vec<String>)
        ensures
            r@ == without_folder(self.excluded@, key@),
            r.len() <= self.excluded.len(),
    {
        let mut out: Vec<String> = Vec::new();
        let mut i: usize = 0;
        assert(self.excluded@.take(0) =~= Seq::<String>::empty());
        while i < self.excluded.len()
            invariant
                i <= self.excluded.len(),
                out.len() <= i,
                out@ == without_folder(self.excluded@.take(i as int), key@),
            decreases self.excluded.len() - i,
        {
            assert(self.excluded@.take(i + 1).drop_last() =~= self.excluded@.take(i as int));
            assert(self.excluded@.take(i + 1).last() == self.excluded@[i as int]);
            if !str_eq(self.excluded[i].as_str(), key) {
                out.push(self.excluded[i].clone());
            }
            i = i + 1;
        }
        assert(self.excluded@.take(i as int) =~= self.excluded@);
        out
    }

    /// Obeys a line of input. `count` is how many entries the index has.
    pub fn search_loop(&mut self, input: &str, count: usize) -> (r: CliStep)
        ensures
            obeys(*old(self), input@, count as nat, *final(self), r),
    {
        let trimmed_line = str_trim(input);
        let line = trimmed_line.as_str();
        if line.is_empty() {
            return CliStep::Nothing;
        }
        if str_eq(line, "quit") || str_eq(line, "exit") || str_eq(line, "q") {
            return CliStep::Quit;
        }
        if str_eq(line, "count") {
            let n = decimal_text(count as u64);
            return CliStep::Say(three_texts("  ", n.as_str(), " files in index\n"));
        }
        if str_eq(line, "rescan") {
            return CliStep::Rescan;
        }
        if str_eq(line, "case") {
            self.case_sensitive = !self.case_sensitive;
            return CliStep::Say(
                if self.case_sensitive {
                    "  case sensitivity: ON\n".to_owned()
                } else {
                    "  case sensitivity: OFF\n".to_owned()
                },
            );
        }
        if str_eq(line, "exclusions") {
            return CliStep::List;
        }
        match strip_start(line, "exclude ") {
            Some(rest) => {
                return self.exclude(rest.as_str());
            },
            None => {},
        }
        match strip_start(line, "unexclude ") {
            Some(rest) => {
                return self.unexclude(rest.as_str());
            },
            None => {},
        }
        CliStep::Find(parse_query(line))
    }

    /// Excludes a folder.
    fn exclude(&mut self, rest: &str) -> (r: CliStep)
        ensures
            final(self).case_sensitive == old(self).case_sensitive,
            if lowercase(trimmed(rest@)).len() == 0 {
                r is Nothing && *final(self) == *old(self)
            } else if texts(old(self).excluded@).contains(folder_key(rest@)) {
                &&& r is Say
                &&& r->Say_0@ == "  excluded: "@ + folder_key(rest@) + "\n"@
                &&& *final(self) == *old(self)
            } else {
                &&& r is Save
                &&& r->Save_0@ == "  excluded: "@ + folder_key(rest@) + "\n"@
                &&& texts(final(self).excluded@) == texts(old(self).excluded@).push(
                    folder_key(rest@),
                )
            },
    {
        let blank = str_trim(rest).as_str().to_lowercase().as_str().is_empty();
        if blank {
            return CliStep::Nothing;
        }
        let key = normal_folder(rest);
        let words = three_texts("  excluded: ", key.as_str(), "\n");
        if self.has_folder(key.as_str()) {
            return CliStep::Say(words);
        }
        let ghost before = self.excluded@;
        self.excluded.push(key);
        assert(texts(self.excluded@) =~= texts(before).push(key@));
        CliStep::Save(words)
    }

    /// Takes a folder out of the excluded ones.
    fn unexclude(&mut self, rest: &str) -> (r: CliStep)
        ensures
            final(self).case_sensitive == old(self).case_sensitive,
            final(self).excluded@ == without_folder(old(self).excluded@, folder_key(rest@)),
            r is Save,
            r->Save_0@ == if final(self).excluded@.len() < old(self).excluded@.len() {
                "  removed: "@ + folder_key(rest@) + "\n"@
            } else {
                "  not found in exclusions\n"@
            },
    {
        let key = normal_folder(rest);
        let left = self.dropped(key.as_str());
        let removed = left.len() < self.excluded.len();
        self.excluded = left;
        if removed {
            CliStep::Save(three_texts("  removed: ", key.as_str(), "\n"))
        } else {
            CliStep::Save("  not found in exclusions\n".to_owned())
        }
    }

    /// The results of a query that was taken apart.
    pub fn find(&self, store: &IndexStore, parsed: &ParsedQuery) -> (r: Vec<SearchResult>)
        requires
            store.searchable(),
            store.ext_usable(),
        ensures
            match parsed.ext_filter {
                Some(ext) => {
                    let rows = ext_matches(
                        *store,
                        ext@,
                        parsed.filter,
                        self.excluded@,
                        store.entries@.len() as int,
                    );
                    &&& r.len() == shown_count(rows.len())
                    &&& forall|i: int|
                        0 <= i < r.len() ==> is_ext_result(
                            #[trigger] r@[i],
                            *store,
                            store.entries@[rows[i]],
                        )
                },
                None => exists|page: PagedSearch|
                    {
                        &&& #[trigger] found(
                            *store,
                            parsed.query@,
                            RESULT_LIMIT as nat,
                            0,
                            self.case_sensitive,
                            self.excluded@,
                            page,
                        )
                        &&& r@ == through(page.results@, parsed.filter)
                    },
            },
    {
        match &parsed.ext_filter {
            Some(ext) => find_by_ext(store, ext.as_str(), parsed.filter, &self.excluded),
            None => find_by_name(
                store,
                parsed.query.as_str(),
                parsed.filter,
                self.case_sensitive,
                &self.excluded,
            ),
        }
    }
}

/// A number in at least three places.
pub open spec fn padded(n: nat) -> Seq<char> {
    let d = decimal(n);
    if d.len() == 1 {
        "  "@ + d
    } else if d.len() == 2 {
        " "@ + d
    } else {
        d
    }
}

/// A number in at least three places.
pub fn pad_three(n: usize) -> (r: String)
    ensures
        r@ == padded(n as nat),
{
    let d = decimal_text(n as u64);
    let len = chars_of(d.as_str()).len();
    let mut out = if len == 1 {
        "  ".to_owned()
    } else if len == 2 {
        " ".to_owned()
    } else {
        return d;
    };
    out.push_str(d.as_str());
    out
}

/// The line of a result with a number.
pub fn result_line(number: usize, r: &SearchResult) -> (s: String)
    ensures
        s@ == "  ["@ + padded(number as nat) + (if r.is_dir {
            "] [DIR ] "@
        } else {
            "] [FILE] "@
        }) + r.full_path@,
{
    let n = pad_three(number);
    let head = three_texts(
        "  [",
        n.as_str(),
        if r.is_dir {
            "] [DIR ] "
        } else {
            "] [FILE] "
        },
    );
    let mut out = head;
    out.push_str(r.full_path.as_str());
    out
}

/// What a query asks for: `ext:` files with an extension, `*.` anything with it,
/// `folder:` and `:` folders, `file:` and `!` files.
pub proof fn law_prefixes_of_a_query(p: ParsedQuery, x: Seq<char>, input: Seq<char>)
    requires
        parsed(p, input),
    ensures
        input == "ext:"@ + x ==> p.filter == Filter::Files && p.ext_filter is Some
            && p.ext_filter->0@ == lowercase(x) && p.query@.len() == 0,
        input == "*."@ + x ==> p.filter == Filter::All && p.ext_filter is Some && p.ext_filter->0@
            == lowercase(x) && p.query@.len() == 0,
        input == "folder:"@ + x ==> p.filter == Filter::Dirs && p.ext_filter is None && p.query@
            == trimmed(x),
        input == "file:"@ + x ==> p.filter == Filter::Files && p.ext_filter is None && p.query@
            == trimmed(x),
        input == ":"@ + x ==> p.filter == Filter::Dirs && p.ext_filter is None && p.query@ == x,
        input == "!"@ + x ==> p.filter == Filter::Files && p.ext_filter is None && p.query@ == x,
        input.len() > 0 && input[0] != 'e' && input[0] != '*' && input[0] != 'f' && input[0] != ':'
            && input[0] != '!' ==> p.filter == Filter::All && p.ext_filter is None && p.query@
            == input,
{
    reveal_strlit("ext:");
    reveal_strlit("*.");
    reveal_strlit("folder:");
    reveal_strlit("file:");
    reveal_strlit(":");
    reveal_strlit("!");
    lemma_prefix("ext:"@, x, input);
    lemma_prefix("*."@, x, input);
    lemma_prefix("folder:"@, x, input);
    lemma_prefix("file:"@, x, input);
    lemma_prefix(":"@, x, input);
    lemma_prefix("!"@, x, input);
}

proof fn lemma_prefix(q: Seq<char>, x: Seq<char>, input: Seq<char>)
    requires
        q.len() > 0,
    ensures
        input == q + x ==> text_starts(input, q) && input.skip(q.len() as int) == x,
        text_starts(input, q) ==> input.len() > 0 && input[0] == q[0],
        text_starts(input, q) && q.len() > 1 ==> input.len() > 1 && input[1] == q[1],
{
    if input == q + x {
        assert(input.subrange(0, q.len() as int) =~= q);
        assert(input.skip(q.len() as int) =~= x);
    }
    if text_starts(input, q) {
        assert(input.subrange(0, q.len() as int)[0] == input[0]);
        if q.len() > 1 {
            assert(input.subrange(0, q.len() as int)[1] == input[1]);
        }
    }
}

/// A listing by extension holds the entries whose lowercased name ends with a dot
/// and the extension, that the filter lets through and that are not excluded: all
/// of them, each once, in the order of the index.
pub proof fn law_listing_by_extension(
    store: IndexStore,
    ext: Seq<char>,
    filter: Filter,
    excluded: Seq<String>,
    n: int,
)
    requires
        0 <= n <= store.entries@.len(),
    ensures
        ({
            let rows = ext_matches(store, ext, filter, excluded, n);
            &&& forall|i: int| #[trigger]
                rows.contains(i) <==> 0 <= i < n && {
                    let e = store.entries@[i];
                    &&& text_ends(store.lower_text(e), "."@ + ext)
                    &&& filter == Filter::Dirs ==> e.dir()
                    &&& filter == Filter::Files ==> !e.dir()
                    &&& !is_excluded(store.path_lower(e), excluded)
                }
            &&& forall|j: int, k: int|
                0 <= j < k < rows.len() ==> #[trigger] rows[j] < #[trigger] rows[k]
        }),
    decreases n,
{
    if n > 0 {
        let was = ext_matches(store, ext, filter, excluded, n - 1);
        let rows = ext_matches(store, ext, filter, excluded, n);
        law_listing_by_extension(store, ext, filter, excluded, n - 1);
        assert forall|i: int| #[trigger] rows.contains(i) <==> was.contains(i) || (i == n - 1
            && ext_match(store, store.entries@[n - 1], ext, filter, excluded)) by {
            if rows.contains(i) {
                let k = choose|k: int| 0 <= k < rows.len() && rows[k] == i;
                if k < was.len() {
                    assert(was[k] == i);
                }
            }
            if was.contains(i) {
                let k = choose|k: int| 0 <= k < was.len() && was[k] == i;
                assert(rows[k] == i);
            }
            if rows.len() > was.len() {
                assert(rows[was.len() as int] == n - 1);
            }
        }
        assert forall|j: int, k: int| 0 <= j < k < rows.len() implies #[trigger] rows[j]
            < #[trigger] rows[k] by {
            assert(was.contains(was[j]));
            assert(rows[j] == was[j]);
            if k < was.len() {
                assert(rows[k] == was[k]);
            }
        }
    }
}

/// A filter keeps the results of its kind, all of them, and drops the others.
pub proof fn law_filter_keeps_its_kind(
    results: Seq<SearchResult>,
    filter: Filter,
    r: SearchResult,
)
    ensures
        through(results, filter).contains(r) <==> results.contains(r) && (filter == Filter::Dirs
            ==> r.is_dir) && (filter == Filter::Files ==> !r.is_dir),
        filter == Filter::All ==> through(results, filter) == results,
    decreases results.len(),
{
    let out = through(results, filter);
    if results.len() > 0 {
        let head = results.drop_last();
        let was = through(head, filter);
        let last = results.last();
        law_filter_keeps_its_kind(head, filter, r);
        assert(results =~= head.push(last));
        assert(results.contains(r) <==> head.contains(r) || r == last) by {
            if results.contains(r) {
                let i = choose|i: int| 0 <= i < results.len() && results[i] == r;
                if i < head.len() {
                    assert(head[i] == r);
                }
            }
            if head.contains(r) {
                let i = choose|i: int| 0 <= i < head.len() && head[i] == r;
                assert(results[i] == r);
            }
            assert(results[results.len() - 1] == last);
        }
        if lets_through(filter, last.is_dir) {
            assert(out.contains(r) <==> was.contains(r) || r == last) by {
                if out.contains(r) {
                    let i = choose|i: int| 0 <= i < out.len() && out[i] == r;
                    if i < was.len() {
                        assert(was[i] == r);
                    }
                }
                if was.contains(r) {
                    let i = choose|i: int| 0 <= i < was.len() && was[i] == r;
                    assert(out[i] == r);
                }
                assert(out[was.len() as int] == last);
            }
        }
    }
}

/// Taking an excluded folder out leaves all others, in their order.
pub proof fn law_folder_is_taken_out(dirs: Seq<String>, key: Seq<char>, d: String)
    ensures
        without_folder(dirs, key).contains(d) <==> dirs.contains(d) && d@ != key,
        without_folder(dirs, key).len() <= dirs.len(),
        !texts(dirs).contains(key) ==> without_folder(dirs, key) == dirs,
    decreases dirs.len(),
{
    if dirs.len() > 0 {
        let head = dirs.drop_last();
        let last = dirs.last();
        let was = without_folder(head, key);
        let out = without_folder(dirs, key);
        law_folder_is_taken_out(head, key, d);
        assert(dirs =~= head.push(last));
        assert(dirs.contains(d) <==> head.contains(d) || d == last) by {
            if dirs.contains(d) {
                let i = choose|i: int| 0 <= i < dirs.len() && dirs[i] == d;
                if i < head.len() {
                    assert(head[i] == d);
                }
            }
            if head.contains(d) {
                let i = choose|i: int| 0 <= i < head.len() && head[i] == d;
                assert(dirs[i] == d);
            }
            assert(dirs[dirs.len() - 1] == last);
        }
        if last@ != key {
            assert(out.contains(d) <==> was.contains(d) || d == last) by {
                if out.contains(d) {
                    let i = choose|i: int| 0 <= i < out.len() && out[i] == d;
                    if i < was.len() {
                        assert(was[i] == d);
                    }
                }
                if was.contains(d) {
                    let i = choose|i: int| 0 <= i < was.len() && was[i] == d;
                    assert(out[i] == d);
                }
                assert(out[was.len() as int] == last);
            }
        }
        if !texts(dirs).contains(key) {
            assert(texts(dirs)[dirs.len() - 1] == last@);
            if texts(head).contains(key) {
                let i = choose|i: int| 0 <= i < texts(head).len() && texts(head)[i] == key;
                assert(texts(dirs)[i] == key);
            }
        }
    }
}

/// Excluding a folder and taking it out again leaves the excluded folders as they
/// were.
pub proof fn law_unexcluding_undoes_excluding(
    before: CliState,
    folder: Seq<char>,
    n: nat,
    mid: CliState,
    a: CliStep,
    after: CliState,
    b: CliStep,
)
    requires
        trimmed("exclude "@ + folder) == "exclude "@ + folder,
        trimmed("unexclude "@ + folder) == "unexclude "@ + folder,
        lowercase(trimmed(folder)).len() > 0,
        !texts(before.excluded@).contains(folder_key(folder)),
        obeys(before, "exclude "@ + folder, n, mid, a),
        obeys(mid, "unexclude "@ + folder, n, after, b),
    ensures
        a is Save,
        b is Save,
        texts(mid.excluded@) == texts(before.excluded@).push(folder_key(folder)),
        texts(after.excluded@) == texts(before.excluded@),
        after.case_sensitive == before.case_sensitive,
{
    reveal_strlit("exclude ");
    reveal_strlit("unexclude ");
    reveal_strlit("quit");
    reveal_strlit("exit");
    reveal_strlit("q");
    reveal_strlit("count");
    reveal_strlit("rescan");
    reveal_strlit("case");
    reveal_strlit("exclusions");
    let on = "exclude "@ + folder;
    let off = "unexclude "@ + folder;
    let key = folder_key(folder);
    assert(on[7] == ' ' && on[0] == 'e' && on[1] == 'x');
    assert(off[9] == ' ' && off[0] == 'u');
    assert("exclusions"@[7] == 'o');
    assert("exit"@.len() == 4 && "exclude "@.len() == 8);
    lemma_prefix("exclude "@, folder, on);
    lemma_prefix("unexclude "@, folder, off);
    lemma_prefix("exclude "@, folder, off);
    let was = texts(before.excluded@);
    let dirs = mid.excluded@;
    assert(texts(dirs).len() == dirs.len());
    let head = dirs.drop_last();
    assert(texts(head) =~= was) by {
        assert forall|i: int| 0 <= i < head.len() implies texts(head)[i] == was[i] by {
            assert(texts(dirs)[i] == was[i]);
        }
    }
    assert(texts(dirs)[dirs.len() - 1] == key);
    assert(dirs.last()@ == key);
    law_folder_is_taken_out(head, key, dirs.last());
    assert(without_folder(dirs, key) == head);
}

/// The number of a row stands at the right of a column of three, and is never
/// cut.
pub proof fn law_numbers_stand_at_the_right(n: nat)
    ensures
        text_ends(padded(n), decimal(n)),
        padded(n).len() == if decimal(n).len() < 3 {
            3
        } else {
            decimal(n).len()
        },
        forall|k: int|
            0 <= k < padded(n).len() - decimal(n).len() ==> #[trigger] padded(n)[k] == ' ',
{
    reveal_strlit("  ");
    reveal_strlit(" ");
    let d = decimal(n);
    let p = padded(n);
    assert(d.len() >= 1);
    assert(p.subrange(p.len() - d.len(), p.len() as int) =~= d);
}

/// A listing shows all that there is, up to three hundred.
pub proof fn law_how_many_are_listed(n: nat)
    ensures
        n <= 300 ==> shown_count(n) == n,
        n > 300 ==> shown_count(n) == 300,
{
}

} // verus!
