//! Full paths of entries, and which entries a search may show.
use crate::bytes::{has_prefix, starts_with_bytes};
use crate::index::store::{
    is_junk_name, is_record, junk_at, junk_name, junk_view, lemma_row_is, lemma_row_of, lower_in,
    row_of, same_record, IndexEntry, IndexStore, WALK_LIMIT,
};
use crate::text::lowercase;
use crate::winpath::{path_push, pushed};
use vstd::prelude::*;
use vstd::utf8::*;

verus! {

/// How many parents a path is made of at most.
pub const PATH_LIMIT: usize = 64;

/// The names from a record up to the volume root, by at most `fuel` steps.
pub open spec fn names_up(
    entries: Seq<IndexEntry>,
    names: Seq<u8>,
    drive: u8,
    current: u64,
    fuel: nat,
) -> Seq<Seq<u8>>
    decreases fuel,
{
    if fuel == 0 {
        Seq::empty()
    } else {
        match row_of(entries, drive, current) {
            None => Seq::empty(),
            Some(i) => {
                let e = entries[i];
                let own = names.subrange(e.name_off as int, e.name_off + e.name_len);
                let up = if e.parent_ref == current {
                    Seq::empty()
                } else {
                    names_up(entries, names, drive, e.parent_ref, (fuel - 1) as nat)
                };
                seq![own] + up
            },
        }
    }
}

/// A path with components that are given from the last one to the first.
pub open spec fn join_all(path: Seq<char>, up: Seq<Seq<u8>>) -> Seq<char>
    decreases up.len(),
{
    if up.len() == 0 {
        path
    } else {
        pushed(join_all(path, up.drop_first()), decode_utf8(up[0]))
    }
}

impl IndexStore {
    /// The root of a volume.
    pub open spec fn root_of(&self, drive: u8) -> Seq<char> {
        if drive < self.drive_roots@.len() {
            self.drive_roots@[drive as int].root@
        } else {
            "C:\\"@
        }
    }

    /// An entry's full path.
    pub open spec fn path_text(&self, e: IndexEntry) -> Seq<char> {
        join_all(
            self.root_of(e.drive),
            names_up(self.entries@, self.name_arena@, e.drive, e.file_ref, PATH_LIMIT as nat),
        )
    }

    /// The bytes of an entry's full path in lowercase.
    pub open spec fn path_lower(&self, e: IndexEntry) -> Seq<u8> {
        encode_utf8(lowercase(self.path_text(e)))
    }

    /// An entry's name.
    pub open spec fn name_text(&self, e: IndexEntry) -> Seq<char> {
        decode_utf8(self.name_of(e))
    }

    /// An entry's lowercased name.
    pub open spec fn lower_text(&self, e: IndexEntry) -> Seq<char> {
        decode_utf8(self.lower_of(e))
    }

    /// Nothing is found but what entries and arenas allow.
    pub open spec fn searchable(&self) -> bool {
        self.arenas_ok() && self.lookup_ok()
    }
}

/// A path has as many components less as the first one is left out.
proof fn lemma_join_step(path: Seq<char>, up: Seq<Seq<u8>>, k: int)
    requires
        0 <= k < up.len(),
    ensures
        join_all(path, up.skip(k)) == pushed(
            join_all(path, up.skip(k + 1)),
            decode_utf8(up[k]),
        ),
{
    assert(up.skip(k).drop_first() =~= up.skip(k + 1));
    assert(up.skip(k)[0] == up[k]);
}

/// The full path of an entry: the root of its volume, and the names of the
/// directories above it.
pub fn build_path(entry: &IndexEntry, store: &IndexStore) -> (r: String)
    requires
        store.searchable(),
    ensures
        r@ == store.path_text(*entry),
{
    let drive: u8 = entry.drive;
    let d: usize = drive as usize;
    let ghost whole = names_up(
        store.entries@,
        store.name_arena@,
        drive,
        entry.file_ref,
        PATH_LIMIT as nat,
    );
    let mut rows: Vec<usize> = Vec::new();
    let mut current: u64 = entry.file_ref;
    let mut left: usize = PATH_LIMIT;
    let mut done: bool = false;
    let ghost names = store.name_arena@;
    while left > 0 && !done
        invariant
            store.searchable(),
            names == store.name_arena@,
            whole == Seq::new(
                rows@.len(),
                |k: int| store.name_of(store.entries@[rows@[k] as int]),
            ) + (if done {
                Seq::empty()
            } else {
                names_up(store.entries@, names, drive, current, left as nat)
            }),
            forall|k: int| 0 <= k < rows@.len() ==> #[trigger] rows@[k] < store.entries@.len(),
        decreases left + (if done {
            0int
        } else {
            1int
        }),
    {
        match store.lookup_idx(drive, current) {
            None => {
                done = true;
            },
            Some(idx) => {
                let e = store.entries[idx as usize];
                let ghost was = rows@;
                let ghost rest = names_up(store.entries@, names, drive, current, left as nat);
                rows.push(idx as usize);
                proof {
                    let up = if e.parent_ref == current {
                        Seq::empty()
                    } else {
                        names_up(store.entries@, names, drive, e.parent_ref, (left - 1) as nat)
                    };
                    assert(rest == seq![store.name_of(e)] + up);
                    let f = |s: Seq<usize>|
                        Seq::new(
                            s.len(),
                            |k: int| store.name_of(store.entries@[s[k] as int]),
                        );
                    assert(f(rows@) =~= f(was).push(store.name_of(e)));
                    assert(f(was) + rest =~= f(rows@) + up);
                }
                if e.parent_ref == current {
                    done = true;
                } else {
                    current = e.parent_ref;
                    left = left - 1;
                }
            },
        }
    }
    let ghost base = store.root_of(drive);
    let root: &str = if d < store.drive_roots.len() {
        store.drive_roots[d].root.as_str()
    } else {
        "C:\\"
    };
    let mut path = root.to_owned();
    proof {
        assert(whole.len() == rows@.len());
        assert(whole.skip(whole.len() as int).len() == 0);
    }
    let mut k: usize = rows.len();
    while k > 0
        invariant
            store.searchable(),
            k <= rows@.len(),
            whole.len() == rows@.len(),
            forall|j: int| 0 <= j < rows@.len() ==> #[trigger] rows@[j] < store.entries@.len(),
            forall|j: int|
                0 <= j < rows@.len() ==> #[trigger] whole[j] == store.name_of(
                    store.entries@[rows@[j] as int],
                ),
            path@ == join_all(base, whole.skip(k as int)),
        decreases k,
    {
        k = k - 1;
        let e = store.entries[rows[k]];
        assert(store.entries@[rows@[k as int] as int] == e);
        proof {
            lemma_join_step(base, whole, k as int);
            assert(whole[k as int] == store.name_of(e));
        }
        let name = store.name(&e);
        proof {
            encode_utf8_decode_utf8(name@);
        }
        path = path_push(path.as_str(), name);
    }
    assert(whole.skip(0) =~= whole);
    path
}

/// Going up from `current` by at most `fuel` directories meets one that is junk.
/// The walk ends at what is no directory.
pub open spec fn junk_chain(
    entries: Seq<IndexEntry>,
    lowers: Seq<u8>,
    junk: Set<u64>,
    drive: u8,
    current: u64,
    fuel: nat,
) -> bool
    decreases fuel,
{
    fuel > 0 && (junk.contains(current) || match row_of(entries, drive, current) {
        None => false,
        Some(i) => {
            let e = entries[i];
            e.dir() && (is_junk_name(lower_in(lowers, e)) || (e.parent_ref != current
                && e.parent_ref != 0 && junk_chain(
                entries,
                lowers,
                junk,
                drive,
                e.parent_ref,
                (fuel - 1) as nat,
            )))
        },
    })
}

/// A lowercased path begins with one of the excluded directories.
pub open spec fn is_excluded(path_lower: Seq<u8>, excluded: Seq<String>) -> bool {
    exists|k: int|
        0 <= k < excluded.len() && has_prefix(path_lower, encode_utf8((#[trigger] excluded[k])@))
}

/// Whether a lowercased path begins with one of the excluded directories.
pub fn excluded_path(path_lower: &str, excluded: &[String]) -> (r: bool)
    ensures
        r == is_excluded(encode_utf8(path_lower@), excluded@),
{
    let mut k: usize = 0;
    while k < excluded.len()
        invariant
            k <= excluded@.len(),
            forall|j: int|
                0 <= j < k ==> !has_prefix(
                    encode_utf8(path_lower@),
                    encode_utf8((#[trigger] excluded@[j])@),
                ),
        decreases excluded@.len() - k,
    {
        if starts_with_bytes(path_lower.as_bytes(), excluded[k].as_str().as_bytes()) {
            return true;
        }
        k = k + 1;
    }
    false
}

impl IndexStore {
    /// A search may show the entry: it is not below junk, and not excluded.
    pub open spec fn visible(&self, e: IndexEntry, excluded: Seq<String>) -> bool {
        &&& !junk_chain(
            self.entries@,
            self.name_lower_arena@,
            junk_at(junk_view(self.junk_refs@), e.drive as int),
            e.drive,
            e.parent_ref,
            WALK_LIMIT as nat,
        )
        &&& !is_excluded(self.path_lower(e), excluded)
    }

    /// Whether an entry is below junk.
    pub fn is_junk_chain(&self, entry: &IndexEntry) -> (r: bool)
        requires
            self.searchable(),
        ensures
            r == junk_chain(
                self.entries@,
                self.name_lower_arena@,
                junk_at(junk_view(self.junk_refs@), entry.drive as int),
                entry.drive,
                entry.parent_ref,
                WALK_LIMIT as nat,
            ),
    {
        let drive: u8 = entry.drive;
        let ghost junk = junk_at(junk_view(self.junk_refs@), drive as int);
        let ghost lowers = self.name_lower_arena@;
        let ghost whole = junk_chain(
            self.entries@,
            lowers,
            junk,
            drive,
            entry.parent_ref,
            WALK_LIMIT as nat,
        );
        let mut current: u64 = entry.parent_ref;
        let mut left: usize = WALK_LIMIT;
        while left > 0
            invariant
                self.searchable(),
                drive == entry.drive,
                junk == junk_at(junk_view(self.junk_refs@), drive as int),
                lowers == self.name_lower_arena@,
                whole == junk_chain(
                    self.entries@,
                    lowers,
                    junk,
                    drive,
                    entry.parent_ref,
                    WALK_LIMIT as nat,
                ),
                whole == junk_chain(self.entries@, lowers, junk, drive, current, left as nat),
            decreases left,
        {
            if self.has_junk(drive, current) {
                return true;
            }
            match self.lookup_idx(drive, current) {
                None => {
                    return false;
                },
                Some(idx) => {
                    let e = self.entries[idx as usize];
                    assert(self.entries@[idx as int] == e);
                    if !e.is_dir() {
                        return false;
                    }
                    if junk_name(self.lower_bytes(&e)) {
                        return true;
                    }
                    if e.parent_ref == current || e.parent_ref == 0 {
                        return false;
                    }
                    current = e.parent_ref;
                },
            }
            left = left - 1;
        }
        false
    }

    /// The full path of an entry that a search may show.
    pub(crate) fn shown_path(&self, entry: &IndexEntry, excluded: &[String]) -> (r: Option<String>)
        requires
            self.searchable(),
        ensures
            r is Some <==> self.visible(*entry, excluded@),
            r is Some ==> r->0@ == self.path_text(*entry),
    {
        if self.is_junk_chain(entry) {
            return None;
        }
        let path = build_path(entry, self);
        let lower = path.to_lowercase();
        if excluded_path(lower.as_str(), excluded) {
            return None;
        }
        Some(path)
    }
}

/// Rows that lead up from the first one: each is the directory that the record
/// before it names as its parent.
pub open spec fn is_climb(store: IndexStore, way: Seq<int>) -> bool {
    &&& way.len() > 0
    &&& forall|k: int| 0 <= k < way.len() ==> 0 <= #[trigger] way[k] < store.entries@.len()
    &&& forall|k: int| 0 < k < way.len() ==> #[trigger] is_step(store, way, k)
}

/// The `k`-th row is the parent of the one before it, and another record.
pub open spec fn is_step(store: IndexStore, way: Seq<int>, k: int) -> bool {
    let below = store.entries@[way[k - 1]];
    let above = store.entries@[way[k]];
    below.drive == above.drive && below.parent_ref == above.file_ref && below.file_ref
        != above.file_ref
}

/// A way up ends here: the record is its own parent, or its parent is not in the
/// index.
pub open spec fn is_top(store: IndexStore, e: IndexEntry) -> bool {
    e.parent_ref == e.file_ref || forall|i: int|
        0 <= i < store.entries@.len() ==> !((#[trigger] store.entries@[i]).drive == e.drive
            && store.entries@[i].file_ref == e.parent_ref)
}

/// The names of the first `n` rows.
spec fn names_along(store: IndexStore, way: Seq<int>, n: int) -> Seq<Seq<u8>> {
    Seq::new(n as nat, |k: int| store.name_of(store.entries@[way[k]]))
}

pub proof fn lemma_row_found(store: IndexStore, i: int)
    requires
        store.unique_refs(),
        0 <= i < store.entries@.len(),
    ensures
        row_of(store.entries@, store.entries@[i].drive, store.entries@[i].file_ref) == Some(i),
{
    let e = store.entries@[i];
    assert forall|k: int| 0 <= k < i implies !is_record(
        #[trigger] store.entries@[k],
        e.drive,
        e.file_ref,
    ) by {
        assert(!same_record(store.entries@[k], store.entries@[i]));
    }
    lemma_row_is(store.entries@, e.drive, e.file_ref, i);
}

pub proof fn lemma_climb_rest(store: IndexStore, way: Seq<int>)
    requires
        is_climb(store, way),
        way.len() > 1,
    ensures
        is_climb(store, way.drop_first()),
{
    let rest = way.drop_first();
    assert forall|k: int| 0 <= k < rest.len() implies 0 <= #[trigger] rest[k]
        < store.entries@.len() by {
        assert(rest[k] == way[k + 1]);
    }
    assert forall|k: int| 0 < k < rest.len() implies #[trigger] is_step(store, rest, k) by {
        assert(is_step(store, way, k + 1));
    }
}

/// Going up by at most `fuel` steps gives the names along the way.
proof fn lemma_names_along(store: IndexStore, way: Seq<int>, fuel: nat)
    requires
        store.unique_refs(),
        is_climb(store, way),
        way.len() >= fuel || is_top(store, store.entries@[way.last()]),
    ensures
        names_up(
            store.entries@,
            store.name_arena@,
            store.entries@[way[0]].drive,
            store.entries@[way[0]].file_ref,
            fuel,
        ) == names_along(
            store,
            way,
            if way.len() < fuel {
                way.len() as int
            } else {
                fuel as int
            },
        ),
    decreases way.len(),
{
    let n: int = if way.len() < fuel {
        way.len() as int
    } else {
        fuel as int
    };
    let e = store.entries@[way[0]];
    let all = names_up(store.entries@, store.name_arena@, e.drive, e.file_ref, fuel);
    if fuel > 0 {
        assert(0 <= way[0] < store.entries@.len());
        lemma_row_found(store, way[0]);
        if way.len() == 1 {
            if e.parent_ref != e.file_ref {
                lemma_row_of(store.entries@, e.drive, e.parent_ref);
                if fuel > 1 {
                    assert forall|i: int| 0 <= i < store.entries@.len() implies !is_record(
                        #[trigger] store.entries@[i],
                        e.drive,
                        e.parent_ref,
                    ) by {}
                }
                assert(names_up(
                    store.entries@,
                    store.name_arena@,
                    e.drive,
                    e.parent_ref,
                    (fuel - 1) as nat,
                ) =~= Seq::empty());
            }
            assert(all =~= seq![store.name_of(e)]);
        } else {
            let rest = way.drop_first();
            lemma_climb_rest(store, way);
            assert(is_step(store, way, 1));
            assert(rest[0] == way[1]);
            assert(rest.last() == way.last());
            lemma_names_along(store, rest, (fuel - 1) as nat);
            assert forall|k: int| 0 <= k < n - 1 implies #[trigger] names_along(
                store,
                rest,
                n - 1,
            )[k] == names_along(store, way, n)[k + 1] by {
                assert(rest[k] == way[k + 1]);
            }
            assert(all =~= seq![store.name_of(e)] + names_along(store, rest, n - 1));
        }
    }
    assert(all =~= names_along(store, way, n));
}

/// The path of an entry whose way up has at most 64 names is the path of its
/// parent with the entry's own name behind it. The path of an entry that has no
/// parent in the index is the root of its volume with the name behind it.
pub proof fn law_path_extends_the_parents_path(store: IndexStore, way: Seq<int>)
    requires
        store.unique_refs(),
        is_climb(store, way),
        is_top(store, store.entries@[way.last()]),
        way.len() <= 64,
    ensures
        way.len() > 1 ==> store.path_text(store.entries@[way[0]]) == pushed(
            store.path_text(store.entries@[way[1]]),
            store.name_text(store.entries@[way[0]]),
        ),
        way.len() == 1 ==> store.path_text(store.entries@[way[0]]) == pushed(
            store.root_of(store.entries@[way[0]].drive),
            store.name_text(store.entries@[way[0]]),
        ),
{
    let e = store.entries@[way[0]];
    let names = names_along(store, way, way.len() as int);
    lemma_names_along(store, way, 64);
    let rest = way.drop_first();
    assert(names.drop_first() =~= names_along(store, rest, way.len() - 1)) by {
        assert forall|k: int| 0 <= k < way.len() - 1 implies #[trigger] names.drop_first()[k]
            == names_along(store, rest, way.len() - 1)[k] by {
            assert(rest[k] == way[k + 1]);
        }
    }
    assert(names[0] == store.name_of(e));
    if way.len() > 1 {
        lemma_climb_rest(store, way);
        assert(is_step(store, way, 1));
        assert(rest[0] == way[1]);
        assert(rest.last() == way.last());
        lemma_names_along(store, rest, 64);
    } else {
        assert(names.drop_first() =~= Seq::empty());
        reveal_with_fuel(join_all, 2);
    }
}

/// A path with names behind it: the `n` rows from the first one on, the last of
/// them directly behind the path.
pub open spec fn path_along(store: IndexStore, root: Seq<char>, way: Seq<int>, n: int) -> Seq<char>
    decreases n,
{
    if n <= 0 {
        root
    } else {
        pushed(
            path_along(store, root, way.drop_first(), n - 1),
            store.name_text(store.entries@[way[0]]),
        )
    }
}

/// A path has 64 names at most: where the way up is longer, the names above the
/// 64th are left out.
pub proof fn law_long_path_is_cut(store: IndexStore, way: Seq<int>)
    requires
        store.unique_refs(),
        is_climb(store, way),
        way.len() >= 64,
    ensures
        store.path_text(store.entries@[way[0]]) == path_along(
            store,
            store.root_of(store.entries@[way[0]].drive),
            way,
            64,
        ),
{
    lemma_names_along(store, way, 64);
    lemma_path_along(store, store.root_of(store.entries@[way[0]].drive), way, 64);
}

proof fn lemma_path_along(store: IndexStore, root: Seq<char>, way: Seq<int>, n: int)
    requires
        0 <= n <= way.len(),
    ensures
        join_all(root, names_along(store, way, n)) == path_along(store, root, way, n),
    decreases n,
{
    if n > 0 {
        let names = names_along(store, way, n);
        let rest = way.drop_first();
        lemma_path_along(store, root, rest, n - 1);
        assert(names.drop_first() =~= names_along(store, rest, n - 1)) by {
            assert forall|k: int| 0 <= k < n - 1 implies #[trigger] names.drop_first()[k]
                == names_along(store, rest, n - 1)[k] by {
                assert(rest[k] == way[k + 1]);
            }
        }
        assert(names[0] == store.name_of(store.entries@[way[0]]));
    }
}

} // verus!
