//! The index store: one compact entry per file or directory, ordered by
//! lowercased name, with a table from record number to entry for each volume.
use crate::bytes::{bytes_eq, lex_le};
use crate::index::ext::ExtBucket;
use crate::mft::types::{FileKind, JournalCheckpoint};
use crate::text::utf8_str;
use rayon::prelude::ParallelSliceMut;
use std::collections::HashSet;
use vstd::prelude::*;
use vstd::utf8::*;

verus! {

/// Names (lowercased) of directories whose contents are never indexed.
pub const JUNK_DIR_NAMES: [&'static str; 15] = [
    "windows",
    "program files",
    "program files (x86)",
    "$recycle.bin",
    "prefetch",
    "appdata",
    "temp",
    "perflogs",
    "debug",
    "bin",
    "obj",
    "node_modules",
    ".git",
    "__pycache__",
    "microsoft",
];

/// Names (lowercased) of directories that mark what is below them as the
/// user's own.
pub const USER_DIR_NAMES: [&'static str; 7] = [
    "users",
    "documents",
    "downloads",
    "desktop",
    "pictures",
    "videos",
    "music",
];

/// `name` is the UTF-8 form of one of `list`.
pub open spec fn name_in(list: Seq<&'static str>, name: Seq<u8>) -> bool {
    exists|i: int| 0 <= i < list.len() && encode_utf8((#[trigger] list[i])@) == name
}

/// `name` is that of a junk directory.
pub open spec fn is_junk_name(name: Seq<u8>) -> bool {
    name_in(JUNK_DIR_NAMES@, name)
}

/// `name` is that of a directory that marks a user's own files.
pub open spec fn is_user_name(name: Seq<u8>) -> bool {
    name_in(USER_DIR_NAMES@, name)
}

/// Whether `name` is that of a junk directory.
pub fn junk_name(name: &[u8]) -> (r: bool)
    ensures
        r == is_junk_name(name@),
{
    let mut i: usize = 0;
    while i < 15
        invariant
            i <= 15,
            forall|k: int| 0 <= k < i ==> encode_utf8((#[trigger] JUNK_DIR_NAMES@[k])@) != name@,
        decreases 15 - i,
    {
        if bytes_eq(JUNK_DIR_NAMES[i].as_bytes(), name) {
            return true;
        }
        i = i + 1;
    }
    false
}

/// Whether `name` is that of a directory that marks a user's own files.
pub fn user_name(name: &[u8]) -> (r: bool)
    ensures
        r == is_user_name(name@),
{
    let mut i: usize = 0;
    while i < 7
        invariant
            i <= 7,
            forall|k: int| 0 <= k < i ==> encode_utf8((#[trigger] USER_DIR_NAMES@[k])@) != name@,
        decreases 7 - i,
    {
        if bytes_eq(USER_DIR_NAMES[i].as_bytes(), name) {
            return true;
        }
        i = i + 1;
    }
    false
}

/// A volume's root path. Entries name their volume by its position in the
/// store's list of roots, so record numbers of different volumes never collide.
#[derive(Debug)]
pub struct DriveRoot {
    pub letter: char,
    pub root: String,
}

impl Clone for DriveRoot {
    fn clone(&self) -> (r: Self)
        ensures
            r == *self,
    {
        DriveRoot { letter: self.letter, root: self.root.clone() }
    }
}

/// One file or directory. The two names are ranges of the store's arenas.
#[derive(Debug, Clone, Copy, PartialEq, Eq, Structural)]
pub struct IndexEntry {
    pub file_ref: u64,
    pub parent_ref: u64,
    pub name_off: u32,
    pub name_lower_off: u32,
    pub name_len: u16,
    pub name_lower_len: u16,
    /// Bit 0: the entry is a directory.
    pub flags: u8,
    /// Depth below the volume root, from 1 to 15.
    pub depth: u8,
    /// 1 when a directory of `USER_DIR_NAMES` is above the entry, or is it.
    pub user_path: u8,
    /// The volume: a position in the store's list of roots.
    pub drive: u8,
}

impl IndexEntry {
    /// The entry is a directory.
    pub open spec fn dir(self) -> bool {
        self.flags & 1 != 0
    }

    /// Both names lie inside their arenas and are UTF-8.
    pub open spec fn in_arenas(self, names: Seq<u8>, lowers: Seq<u8>) -> bool {
        &&& self.name_off + self.name_len <= names.len()
        &&& valid_utf8(names.subrange(self.name_off as int, self.name_off + self.name_len))
        &&& self.name_lower_off + self.name_lower_len <= lowers.len()
        &&& valid_utf8(
            lowers.subrange(
                self.name_lower_off as int,
                self.name_lower_off + self.name_lower_len,
            ),
        )
    }

    /// Whether the entry is a directory.
    pub fn is_dir(&self) -> (r: bool)
        ensures
            r == self.dir(),
    {
        self.flags & 1 != 0
    }

    /// The entry's kind.
    pub fn kind(&self) -> (r: FileKind)
        ensures
            r == (if self.dir() {
                FileKind::Directory
            } else {
                FileKind::File
            }),
    {
        if self.is_dir() {
            FileKind::Directory
        } else {
            FileKind::File
        }
    }
}

/// The index.
pub struct IndexStore {
    /// Ordered by lowercased name.
    pub entries: Vec<IndexEntry>,
    pub name_arena: Vec<u8>,
    pub name_lower_arena: Vec<u8>,
    /// Per volume, pairs of record number and position in `entries`, ordered by
    /// record number.
    pub ref_lookup: Vec<Vec<(u64, u32)>>,
    pub drive_roots: Vec<DriveRoot>,
    pub checkpoints: Vec<JournalCheckpoint>,
    /// Per volume, the record numbers of what was left out as junk. Journal
    /// events below them are recognized although their parents are unknown.
    pub junk_refs: Vec<HashSet<u64>>,
    /// The entries of each extension. Right unless `ext_dirty` is set.
    pub ext_index: Vec<ExtBucket>,
    pub ext_dirty: bool,
}

/// An entry of volume `drive` with record number `r`.
pub open spec fn is_record(e: IndexEntry, drive: u8, r: u64) -> bool {
    e.drive == drive && e.file_ref == r
}

/// `i` is the first position of record `r` of volume `drive`.
pub open spec fn first_row(entries: Seq<IndexEntry>, drive: u8, r: u64, i: int) -> bool {
    &&& 0 <= i < entries.len()
    &&& is_record(entries[i], drive, r)
    &&& forall|k: int| 0 <= k < i ==> !is_record(#[trigger] entries[k], drive, r)
}

/// Where record `r` of volume `drive` is: its first position, if it has one.
pub open spec fn row_of(entries: Seq<IndexEntry>, drive: u8, r: u64) -> Option<int> {
    if exists|i: int| first_row(entries, drive, r, i) {
        Some(choose|i: int| first_row(entries, drive, r, i))
    } else {
        None
    }
}

/// A first position is the one that `row_of` gives.
pub proof fn lemma_row_is(entries: Seq<IndexEntry>, drive: u8, r: u64, i: int)
    requires
        first_row(entries, drive, r, i),
    ensures
        row_of(entries, drive, r) == Some(i),
{
    let j = choose|j: int| first_row(entries, drive, r, j);
    if i < j {
        assert(!is_record(entries[i], drive, r));
    } else if j < i {
        assert(!is_record(entries[j], drive, r));
    }
}

/// Where the record has a position at or before `i`, `row_of` gives one.
proof fn lemma_row_before(entries: Seq<IndexEntry>, drive: u8, r: u64, i: int)
    requires
        0 <= i < entries.len(),
        is_record(entries[i], drive, r),
    ensures
        exists|j: int| j <= i && first_row(entries, drive, r, j),
    decreases i,
{
    if exists|k: int| 0 <= k < i && is_record(#[trigger] entries[k], drive, r) {
        let k = choose|k: int| 0 <= k < i && is_record(#[trigger] entries[k], drive, r);
        lemma_row_before(entries, drive, r, k);
    } else {
        assert(first_row(entries, drive, r, i));
    }
}

/// `row_of` gives a position of the record, the first one, exactly where it has
/// one.
pub proof fn lemma_row_of(entries: Seq<IndexEntry>, drive: u8, r: u64)
    ensures
        row_of(entries, drive, r) is Some ==> first_row(
            entries,
            drive,
            r,
            row_of(entries, drive, r)->0,
        ),
        row_of(entries, drive, r) is None <==> forall|i: int|
            0 <= i < entries.len() ==> !is_record(#[trigger] entries[i], drive, r),
{
    if row_of(entries, drive, r) is None {
        assert forall|i: int| 0 <= i < entries.len() implies !is_record(
            #[trigger] entries[i],
            drive,
            r,
        ) by {
            if is_record(entries[i], drive, r) {
                lemma_row_before(entries, drive, r, i);
            }
        }
    }
}

impl IndexStore {
    /// The bytes of an entry's name.
    pub open spec fn name_of(&self, e: IndexEntry) -> Seq<u8> {
        self.name_arena@.subrange(e.name_off as int, e.name_off + e.name_len)
    }

    /// The bytes of an entry's lowercased name.
    pub open spec fn lower_of(&self, e: IndexEntry) -> Seq<u8> {
        self.name_lower_arena@.subrange(
            e.name_lower_off as int,
            e.name_lower_off + e.name_lower_len,
        )
    }

    /// Every entry's names lie in the arenas.
    pub open spec fn arenas_ok(&self) -> bool {
        &&& self.entries@.len() <= u32::MAX
        &&& self.name_arena@.len() <= u32::MAX
        &&& self.name_lower_arena@.len() <= u32::MAX
        &&& forall|i: int|
            0 <= i < self.entries@.len() ==> (#[trigger] self.entries@[i]).in_arenas(
                self.name_arena@,
                self.name_lower_arena@,
            )
    }

    /// The table of volume `d`.
    pub open spec fn bucket(&self, d: int) -> Seq<(u64, u32)> {
        if 0 <= d < self.ref_lookup@.len() {
            self.ref_lookup@[d]@
        } else {
            Seq::empty()
        }
    }

    /// Every table is right.
    pub open spec fn lookup_ok(&self) -> bool {
        &&& self.ref_lookup@.len() <= 256
        &&& forall|d: int| 0 <= d < 256 ==> bucket_ok(self.entries@, #[trigger] self.bucket(d), d)
    }

    /// The entries are ordered by lowercased name.
    pub open spec fn sorted(&self) -> bool {
        forall|i: int, j: int|
            0 <= i < j < self.entries@.len() ==> lex_le(
                self.lower_of(#[trigger] self.entries@[i]),
                self.lower_of(#[trigger] self.entries@[j]),
            )
    }

    /// No two entries of one volume have the same record number.
    pub open spec fn unique_refs(&self) -> bool {
        forall|i: int, j: int|
            0 <= i < j < self.entries@.len() ==> !same_record(
                #[trigger] self.entries@[i],
                #[trigger] self.entries@[j],
            )
    }

    /// What every operation on a built index keeps.
    pub open spec fn wf(&self) -> bool {
        &&& self.arenas_ok()
        &&& self.lookup_ok()
        &&& self.sorted()
        &&& !self.ext_dirty ==> self.ext_ok()
    }
}

/// What is said of the entries of a store, of its tables and of its extension
/// buckets depends on these fields alone.
pub proof fn lemma_frame(a: IndexStore, b: IndexStore)
    requires
        a.entries@ == b.entries@,
        a.name_arena@ == b.name_arena@,
        a.name_lower_arena@ == b.name_lower_arena@,
    ensures
        a.arenas_ok() == b.arenas_ok(),
        a.sorted() == b.sorted(),
        a.unique_refs() == b.unique_refs(),
        a.ref_lookup == b.ref_lookup ==> a.lookup_ok() == b.lookup_ok(),
        a.ext_index == b.ext_index ==> a.ext_ok() == b.ext_ok() && a.ext_usable()
            == b.ext_usable(),
{
    assert(forall|e: IndexEntry| a.lower_of(e) == b.lower_of(e));
    if a.ref_lookup == b.ref_lookup {
        assert forall|d: int| #[trigger] a.bucket(d) == b.bucket(d) by {}
        assert forall|d: int| #[trigger] b.bucket(d) == a.bucket(d) by {}
    }
}

/// Two entries stand for one record.
pub open spec fn same_record(a: IndexEntry, b: IndexEntry) -> bool {
    a.drive == b.drive && a.file_ref == b.file_ref
}

/// One pair of record number and position comes before another.
pub open spec fn pair_lt(a: (u64, u32), b: (u64, u32)) -> bool {
    a.0 < b.0 || (a.0 == b.0 && a.1 < b.1)
}

/// The pairs are in order, and no two are equal.
pub open spec fn pairs_sorted(pairs: Seq<(u64, u32)>) -> bool {
    forall|p: int, q: int|
        0 <= p < q < pairs.len() ==> pair_lt(#[trigger] pairs[p], #[trigger] pairs[q])
}

/// A pair stands for the entry at its position, which is of volume `d`.
pub open spec fn pair_ok(entries: Seq<IndexEntry>, pair: (u64, u32), d: int) -> bool {
    &&& pair.1 < entries.len()
    &&& entries[pair.1 as int].drive == d
    &&& entries[pair.1 as int].file_ref == pair.0
}

/// `bucket` is the table of volume `d`: in order, with one pair for each entry
/// of the volume, and no others.
pub open spec fn bucket_ok(
    entries: Seq<IndexEntry>,
    bucket: Seq<(u64, u32)>,
    d: int,
) -> bool {
    &&& pairs_sorted(bucket)
    &&& forall|p: int| 0 <= p < bucket.len() ==> pair_ok(entries, #[trigger] bucket[p], d)
    &&& forall|i: int|
        0 <= i < entries.len() && (#[trigger] entries[i]).drive == d ==> bucket.contains(
            (entries[i].file_ref, i as u32),
        )
}

/// `rayon`'s `par_sort_unstable` on pairs of integers: the same pairs, in the
/// order of `Ord` on tuples, which compares the first components and, where
/// they are equal, the second ones.
#[verifier::external_body]
pub(crate) fn sort_pairs(pairs: &mut Vec<(u64, u32)>)
    ensures
        final(pairs)@.to_multiset() == old(pairs)@.to_multiset(),
        forall|p: int, q: int|
            0 <= p < q < final(pairs)@.len() ==> pair_lt(
                #[trigger] final(pairs)@[p],
                #[trigger] final(pairs)@[q],
            ) || final(pairs)@[p] == final(pairs)@[q],
{
    pairs.par_sort_unstable();
}

impl IndexStore {
    /// The name of an entry.
    pub fn name(&self, e: &IndexEntry) -> (r: &str)
        requires
            e.in_arenas(self.name_arena@, self.name_lower_arena@),
        ensures
            encode_utf8(r@) == self.name_of(*e),
    {
        assert(self.name_arena.len() == self.name_arena@.len());
        let lo: usize = e.name_off as usize;
        let hi: usize = lo + e.name_len as usize;
        let bytes = &self.name_arena.as_slice()[lo..hi];
        utf8_str(bytes).unwrap()
    }

    /// The lowercased name of an entry.
    pub fn name_lower(&self, e: &IndexEntry) -> (r: &str)
        requires
            e.in_arenas(self.name_arena@, self.name_lower_arena@),
        ensures
            encode_utf8(r@) == self.lower_of(*e),
    {
        utf8_str(self.lower_bytes(e)).unwrap()
    }

    /// The bytes of an entry's lowercased name.
    pub fn lower_bytes(&self, e: &IndexEntry) -> (r: &[u8])
        requires
            e.name_lower_off + e.name_lower_len <= self.name_lower_arena@.len(),
        ensures
            r@ == self.lower_of(*e),
    {
        assert(self.name_lower_arena.len() == self.name_lower_arena@.len());
        let lo: usize = e.name_lower_off as usize;
        let hi: usize = lo + e.name_lower_len as usize;
        &self.name_lower_arena.as_slice()[lo..hi]
    }

    /// The position of a record in `entries`: the first one.
    pub fn lookup_idx(&self, drive: u8, file_ref: u64) -> (r: Option<u32>)
        requires
            self.entries@.len() <= u32::MAX,
            self.lookup_ok(),
        ensures
            r is Some <==> row_of(self.entries@, drive, file_ref) is Some,
            r is Some ==> r->0 == row_of(self.entries@, drive, file_ref)->0 && first_row(
                self.entries@,
                drive,
                file_ref,
                r->0 as int,
            ),
    {
        let d: usize = drive as usize;
        let ghost b = self.bucket(d as int);
        assert(bucket_ok(self.entries@, b, d as int));
        proof {
            lemma_row_of(self.entries@, drive, file_ref);
        }
        if d >= self.ref_lookup.len() {
            assert forall|i: int| 0 <= i < self.entries@.len() implies !is_record(
                #[trigger] self.entries@[i],
                drive,
                file_ref,
            ) by {
                if self.entries@[i].drive == drive {
                    assert(b.contains((self.entries@[i].file_ref, i as u32)));
                }
            }
            return None;
        }
        let bucket = &self.ref_lookup[d];
        let mut lo: usize = 0;
        let mut hi: usize = bucket.len();
        while lo < hi
            invariant
                bucket@ == b,
                pairs_sorted(b),
                lo <= hi <= bucket.len(),
                forall|k: int| 0 <= k < lo ==> (#[trigger] b[k]).0 < file_ref,
                forall|k: int| hi <= k < b.len() ==> (#[trigger] b[k]).0 >= file_ref,
            decreases hi - lo,
        {
            let mid: usize = lo + (hi - lo) / 2;
            if bucket[mid].0 < file_ref {
                assert forall|k: int| 0 <= k < mid + 1 implies (#[trigger] b[k]).0 < file_ref by {
                    if k < mid {
                        assert(pair_lt(b[k], b[mid as int]));
                    }
                }
                lo = mid + 1;
            } else {
                assert forall|k: int| mid <= k < b.len() implies (#[trigger] b[k]).0
                    >= file_ref by {
                    if k > mid {
                        assert(pair_lt(b[mid as int], b[k]));
                    }
                }
                hi = mid;
            }
        }
        if lo < bucket.len() && bucket[lo].0 == file_ref {
            proof {
                let at = b[lo as int].1 as int;
                assert(pair_ok(self.entries@, b[lo as int], d as int));
                assert forall|k: int| 0 <= k < at implies !is_record(
                    #[trigger] self.entries@[k],
                    drive,
                    file_ref,
                ) by {
                    if is_record(self.entries@[k], drive, file_ref) {
                        assert(b.contains((file_ref, k as u32)));
                        let p = choose|p: int| 0 <= p < b.len() && b[p] == (file_ref, k as u32);
                        if p < lo {
                            assert(b[p].0 < file_ref);
                        } else if p > lo {
                            assert(pair_lt(b[lo as int], b[p]));
                        }
                    }
                }
                lemma_row_is(self.entries@, drive, file_ref, at);
            }
            Some(bucket[lo].1)
        } else {
            proof {
                assert forall|i: int| 0 <= i < self.entries@.len() implies !is_record(
                    #[trigger] self.entries@[i],
                    drive,
                    file_ref,
                ) by {
                    if is_record(self.entries@[i], drive, file_ref) {
                        assert(b.contains((file_ref, i as u32)));
                        let p = choose|p: int| 0 <= p < b.len() && b[p] == (file_ref, i as u32);
                        if p > lo {
                            assert(pair_lt(b[lo as int], b[p]));
                        }
                    }
                }
            }
            None
        }
    }
}

/// The drive letters and roots of a list of volumes.
pub open spec fn roots_view(roots: Seq<DriveRoot>) -> Seq<(char, Seq<char>)> {
    roots.map_values(|d: DriveRoot| (d.letter, d.root@))
}

/// The first position of `letter` in a list of volumes; the list's length where
/// it has none.
pub open spec fn drive_pos(roots: Seq<(char, Seq<char>)>, letter: char) -> int
    decreases roots.len(),
{
    if roots.len() == 0 || roots[0].0 == letter {
        0
    } else {
        1 + drive_pos(roots.drop_first(), letter)
    }
}

/// The list of volumes with `letter` in it: a volume that was not known gets
/// the root that its letter suggests.
pub open spec fn register(roots: Seq<(char, Seq<char>)>, letter: char) -> Seq<(char, Seq<char>)> {
    if drive_pos(roots, letter) < roots.len() {
        roots
    } else {
        roots.push((letter, seq![letter] + ":\\"@))
    }
}

/// `drive_pos` by position.
proof fn lemma_drive_pos(roots: Seq<(char, Seq<char>)>, letter: char, p: int)
    requires
        0 <= p <= roots.len(),
        p < roots.len() ==> roots[p].0 == letter,
        forall|k: int| 0 <= k < p ==> (#[trigger] roots[k]).0 != letter,
    ensures
        drive_pos(roots, letter) == p,
    decreases p,
{
    if p > 0 {
        assert(roots[0].0 != letter);
        let rest = roots.drop_first();
        assert forall|k: int| 0 <= k < p - 1 implies (#[trigger] rest[k]).0 != letter by {
            assert(rest[k] == roots[k + 1]);
        }
        lemma_drive_pos(rest, letter, p - 1);
    }
}

/// `drive_pos` is a position or the length.
pub proof fn lemma_drive_pos_range(roots: Seq<(char, Seq<char>)>, letter: char)
    ensures
        0 <= drive_pos(roots, letter) <= roots.len(),
        drive_pos(roots, letter) < roots.len() ==> roots[drive_pos(roots, letter)].0 == letter,
    decreases roots.len(),
{
    if roots.len() > 0 && roots[0].0 != letter {
        lemma_drive_pos_range(roots.drop_first(), letter);
    }
}

/// Per volume, the record numbers of what was left out as junk.
pub open spec fn junk_view(junk: Seq<HashSet<u64>>) -> Seq<Set<u64>> {
    junk.map_values(|s: HashSet<u64>| s@)
}

/// The junk records of volume `d`.
pub open spec fn junk_at(junk: Seq<Set<u64>>, d: int) -> Set<u64> {
    if 0 <= d < junk.len() {
        junk[d]
    } else {
        Set::empty()
    }
}

/// The list of junk sets, long enough to hold volume `d`.
pub open spec fn junk_grown(junk: Seq<Set<u64>>, d: int) -> Seq<Set<u64>> {
    if d < junk.len() {
        junk
    } else {
        junk + Seq::new((d + 1 - junk.len()) as nat, |i: int| Set::<u64>::empty())
    }
}

/// The junk sets with record `r` of volume `d` in them.
pub open spec fn junk_with(junk: Seq<Set<u64>>, d: int, r: u64) -> Seq<Set<u64>> {
    junk_grown(junk, d).update(d, junk_at(junk, d).insert(r))
}

/// The junk sets without record `r` of volume `d`.
pub open spec fn junk_without(junk: Seq<Set<u64>>, d: int, r: u64) -> Seq<Set<u64>> {
    junk_grown(junk, d).update(d, junk_at(junk, d).remove(r))
}

/// The bytes of the lowercased name of `e` in the arena `lowers`.
pub open spec fn lower_in(lowers: Seq<u8>, e: IndexEntry) -> Seq<u8> {
    lowers.subrange(e.name_lower_off as int, e.name_lower_off + e.name_lower_len)
}

/// How many parents are looked at before a walk up the directories gives up.
pub const WALK_LIMIT: usize = 32;

/// Going up from `current` by at most `fuel` directories meets one that is
/// junk: by its record number, or by its name.
pub open spec fn junk_above(
    entries: Seq<IndexEntry>,
    lowers: Seq<u8>,
    junk: Set<u64>,
    drive: u8,
    current: u64,
    fuel: nat,
) -> bool
    decreases fuel,
{
    fuel > 0 && (junk.contains(current) || match row_of(entries, drive, current) {
        None => false,
        Some(i) => {
            let e = entries[i];
            is_junk_name(lower_in(lowers, e)) || (e.parent_ref != current && e.parent_ref != 0
                && junk_above(entries, lowers, junk, drive, e.parent_ref, (fuel - 1) as nat))
        },
    })
}

/// How many directories below the volume root stand above, counted up from
/// `current` and at most `fuel`, and whether one of those met is a user's own.
pub open spec fn dirs_above(
    entries: Seq<IndexEntry>,
    lowers: Seq<u8>,
    drive: u8,
    current: u64,
    fuel: nat,
) -> (nat, bool)
    decreases fuel,
{
    if fuel == 0 {
        (0, false)
    } else {
        match row_of(entries, drive, current) {
            None => (0, false),
            Some(i) => {
                let e = entries[i];
                let own = is_user_name(lower_in(lowers, e));
                if e.parent_ref == current || e.parent_ref == 0 {
                    (0, own)
                } else {
                    let up = dirs_above(entries, lowers, drive, e.parent_ref, (fuel - 1) as nat);
                    (up.0 + 1, own || up.1)
                }
            },
        }
    }
}

/// The depth and the user bit of a record, by the directories above it and its
/// own name.
pub open spec fn meta_of(
    entries: Seq<IndexEntry>,
    lowers: Seq<u8>,
    drive: u8,
    parent_ref: u64,
    own_lower: Seq<u8>,
    own_is_dir: bool,
) -> (u8, u8) {
    let up = dirs_above(entries, lowers, drive, parent_ref, WALK_LIMIT as nat);
    (
        (if up.0 + 1 < 15 {
            up.0 + 1
        } else {
            15
        }) as u8,
        if up.1 || (own_is_dir && is_user_name(own_lower)) {
            1u8
        } else {
            0u8
        },
    )
}

impl IndexStore {
    /// An empty index.
    pub fn new() -> (r: Self)
        ensures
            r.wf(),
            r.unique_refs(),
            r.entries@.len() == 0,
            r.name_arena@.len() == 0,
            r.name_lower_arena@.len() == 0,
            r.ref_lookup@.len() == 0,
            r.drive_roots@.len() == 0,
            r.checkpoints@.len() == 0,
            r.junk_refs@.len() == 0,
            r.ext_index@.len() == 0,
            r.ext_dirty,
    {
        IndexStore {
            entries: Vec::new(),
            name_arena: Vec::new(),
            name_lower_arena: Vec::new(),
            ref_lookup: Vec::new(),
            drive_roots: Vec::new(),
            checkpoints: Vec::new(),
            junk_refs: Vec::new(),
            ext_index: Vec::new(),
            ext_dirty: true,
        }
    }

    /// How many entries the index holds.
    pub fn len(&self) -> (r: usize)
        ensures
            r == self.entries@.len(),
    {
        self.entries.len()
    }

    /// Fills the tables anew from the entries.
    pub(crate) fn rebuild_ref_lookup(&mut self)
        requires
            old(self).entries@.len() <= u32::MAX,
        ensures
            final(self).lookup_ok(),
            *final(self) == (IndexStore { ref_lookup: final(self).ref_lookup, ..*old(self) }),
    {
        let tables = tables_of(&self.entries);
        self.ref_lookup = tables;
        assert forall|d: int| 0 <= d < 256 implies bucket_ok(
            self.entries@,
            #[trigger] self.bucket(d),
            d,
        ) by {
            assert(bucket_ok(self.entries@, bucket_of(tables@, d), d));
        }
    }

    /// The position of the volume with `letter`, which is registered first
    /// where it is not known.
    pub(crate) fn drive_index(&mut self, letter: char) -> (r: u8)
        requires
            register(roots_view(old(self).drive_roots@), letter).len() <= 256,
        ensures
            r == drive_pos(roots_view(final(self).drive_roots@), letter),
            r == drive_pos(roots_view(old(self).drive_roots@), letter),
            r < final(self).drive_roots@.len(),
            roots_view(final(self).drive_roots@) == register(
                roots_view(old(self).drive_roots@),
                letter,
            ),
            *final(self) == (IndexStore { drive_roots: final(self).drive_roots, ..*old(self) }),
    {
        let ghost roots = roots_view(self.drive_roots@);
        let mut i: usize = 0;
        while i < self.drive_roots.len()
            invariant
                roots == roots_view(self.drive_roots@),
                *self == *old(self),
                register(roots, letter).len() <= 256,
                i <= self.drive_roots@.len(),
                forall|k: int| 0 <= k < i ==> (#[trigger] roots[k]).0 != letter,
            decreases self.drive_roots@.len() - i,
        {
            if self.drive_roots[i].letter == letter {
                proof {
                    lemma_drive_pos(roots, letter, i as int);
                }
                return i as u8;
            }
            i = i + 1;
        }
        proof {
            lemma_drive_pos(roots, letter, i as int);
        }
        let mut root = String::new();
        root.push(letter);
        root.push_str(":\\");
        assert(root@ =~= seq![letter] + ":\\"@);
        self.drive_roots.push(DriveRoot { letter, root });
        proof {
            assert(roots_view(self.drive_roots@) =~= roots.push((letter, root@)));
            lemma_drive_pos(roots_view(self.drive_roots@), letter, i as int);
        }
        i as u8
    }

    /// Makes the list of junk sets long enough to hold volume `drive`.
    pub(crate) fn grow_junk(&mut self, drive: u8)
        ensures
            drive < final(self).junk_refs@.len(),
            junk_view(final(self).junk_refs@) == junk_grown(
                junk_view(old(self).junk_refs@),
                drive as int,
            ),
            *final(self) == (IndexStore { junk_refs: final(self).junk_refs, ..*old(self) }),
    {
        let d: usize = drive as usize;
        let ghost n = self.junk_refs@.len() as int;
        while self.junk_refs.len() <= d
            invariant
                d == drive,
                n == old(self).junk_refs@.len(),
                n <= self.junk_refs@.len(),
                self.junk_refs@.len() <= d + 1 || self.junk_refs@.len() == n,
                junk_view(self.junk_refs@) =~= junk_view(old(self).junk_refs@) + Seq::new(
                    (self.junk_refs@.len() - n) as nat,
                    |i: int| Set::<u64>::empty(),
                ),
                *self == (IndexStore { junk_refs: self.junk_refs, ..*old(self) }),
            decreases d + 1 - self.junk_refs@.len(),
        {
            let ghost before = self.junk_refs@;
            let fresh: HashSet<u64> = HashSet::new();
            self.junk_refs.push(fresh);
            assert(junk_view(self.junk_refs@) =~= junk_view(before).push(Set::<u64>::empty()));
        }
        assert(junk_view(self.junk_refs@) =~= junk_grown(
            junk_view(old(self).junk_refs@),
            drive as int,
        ));
    }

    /// Remembers a record as junk.
    pub(crate) fn add_junk(&mut self, drive: u8, file_ref: u64)
        ensures
            junk_view(final(self).junk_refs@) == junk_with(
                junk_view(old(self).junk_refs@),
                drive as int,
                file_ref,
            ),
            *final(self) == (IndexStore { junk_refs: final(self).junk_refs, ..*old(self) }),
    {
        broadcast use vstd::std_specs::hash::group_hash_axioms;

        self.grow_junk(drive);
        let d: usize = drive as usize;
        let ghost before = junk_view(self.junk_refs@);
        let ghost was = self.junk_refs@[d as int]@;
        assert(before[d as int] == was);
        self.junk_refs[d].insert(file_ref);
        assert(junk_view(self.junk_refs@) =~= before.update(d as int, was.insert(file_ref)));
    }

    /// Forgets that a record is junk.
    pub(crate) fn drop_junk(&mut self, drive: u8, file_ref: u64)
        ensures
            junk_view(final(self).junk_refs@) == junk_without(
                junk_view(old(self).junk_refs@),
                drive as int,
                file_ref,
            ),
            *final(self) == (IndexStore { junk_refs: final(self).junk_refs, ..*old(self) }),
    {
        broadcast use vstd::std_specs::hash::group_hash_axioms;

        self.grow_junk(drive);
        let d: usize = drive as usize;
        let ghost before = junk_view(self.junk_refs@);
        let ghost was = self.junk_refs@[d as int]@;
        assert(before[d as int] == was);
        self.junk_refs[d].remove(&file_ref);
        assert(junk_view(self.junk_refs@) =~= before.update(d as int, was.remove(file_ref)));
    }

    /// Whether a record is remembered as junk.
    pub(crate) fn has_junk(&self, drive: u8, file_ref: u64) -> (r: bool)
        ensures
            r == junk_at(junk_view(self.junk_refs@), drive as int).contains(file_ref),
    {
        broadcast use vstd::std_specs::hash::group_hash_axioms;

        let d: usize = drive as usize;
        if d < self.junk_refs.len() {
            assert(junk_view(self.junk_refs@)[d as int] == self.junk_refs@[d as int]@);
            self.junk_refs[d].contains(&file_ref)
        } else {
            false
        }
    }

    /// True when walking up from `parent_ref` touches a junk directory name or
    /// a record that was left out as junk. The walk stays on volume `drive`.
    pub fn is_live_junk(&self, parent_ref: u64, drive: u8) -> (r: bool)
        requires
            self.arenas_ok(),
            self.lookup_ok(),
        ensures
            r == junk_above(
                self.entries@,
                self.name_lower_arena@,
                junk_at(junk_view(self.junk_refs@), drive as int),
                drive,
                parent_ref,
                WALK_LIMIT as nat,
            ),
    {
        let ghost junk = junk_at(junk_view(self.junk_refs@), drive as int);
        let ghost lowers = self.name_lower_arena@;
        let mut current: u64 = parent_ref;
        let mut left: usize = WALK_LIMIT;
        while left > 0
            invariant
                self.arenas_ok(),
                self.lookup_ok(),
                junk == junk_at(junk_view(self.junk_refs@), drive as int),
                lowers == self.name_lower_arena@,
                junk_above(self.entries@, lowers, junk, drive, parent_ref, WALK_LIMIT as nat)
                    == junk_above(self.entries@, lowers, junk, drive, current, left as nat),
            decreases left,
        {
            if self.has_junk(drive, current) {
                return true;
            }
            match self.lookup_idx(drive, current) {
                None => {
                    return false;
                },
                Some(idx) => {
                    let e = self.entries[idx as usize];
                    assert(self.entries@[idx as int] == e);
                    if junk_name(self.lower_bytes(&e)) {
                        return true;
                    }
                    if e.parent_ref == current || e.parent_ref == 0 {
                        return false;
                    }
                    current = e.parent_ref;
                },
            }
            left = left - 1;
        }
        false
    }

    /// Depth and user bit of a record, by walking up from its parent.
    pub fn path_meta(
        &self,
        drive: u8,
        parent_ref: u64,
        own_name_lower: &str,
        own_is_dir: bool,
    ) -> (r: (u8, u8))
        requires
            self.arenas_ok(),
            self.lookup_ok(),
        ensures
            r == meta_of(
                self.entries@,
                self.name_lower_arena@,
                drive,
                parent_ref,
                encode_utf8(own_name_lower@),
                own_is_dir,
            ),
            1 <= r.0 <= 15,
            r.1 <= 1,
    {
        let ghost lowers = self.name_lower_arena@;
        let ghost whole = dirs_above(self.entries@, lowers, drive, parent_ref, WALK_LIMIT as nat);
        let mut depth: u8 = 0;
        let mut user: bool = false;
        let mut current: u64 = parent_ref;
        let mut left: usize = WALK_LIMIT;
        let mut done: bool = false;
        while left > 0 && !done
            invariant
                self.arenas_ok(),
                self.lookup_ok(),
                lowers == self.name_lower_arena@,
                depth + left <= WALK_LIMIT,
                !done ==> whole.0 == depth + dirs_above(
                    self.entries@,
                    lowers,
                    drive,
                    current,
                    left as nat,
                ).0,
                !done ==> whole.1 == (user || dirs_above(
                    self.entries@,
                    lowers,
                    drive,
                    current,
                    left as nat,
                ).1),
                done ==> whole.0 == depth && whole.1 == user,
            decreases left + (if done {
                0int
            } else {
                1int
            }),
        {
            match self.lookup_idx(drive, current) {
                None => {
                    done = true;
                },
                Some(idx) => {
                    let e = self.entries[idx as usize];
                    assert(self.entries@[idx as int] == e);
                    if user_name(self.lower_bytes(&e)) {
                        user = true;
                    }
                    if e.parent_ref == current || e.parent_ref == 0 {
                        done = true;
                    } else {
                        depth = depth + 1;
                        current = e.parent_ref;
                        left = left - 1;
                    }
                },
            }
        }
        if own_is_dir && user_name(own_name_lower.as_bytes()) {
            user = true;
        }
        let d: u8 = if depth + 1 < 15 {
            depth + 1
        } else {
            15
        };
        (
            d,
            if user {
                1
            } else {
                0
            },
        )
    }
}

/// The table of volume `d` among `tables`.
pub open spec fn bucket_of(tables: Seq<Vec<(u64, u32)>>, d: int) -> Seq<(u64, u32)> {
    if 0 <= d < tables.len() {
        tables[d]@
    } else {
        Seq::empty()
    }
}

/// `bucket` holds, in order of position, a pair for each of the first `n`
/// entries that is of volume `d`, and no others.
spec fn filled(entries: Seq<IndexEntry>, bucket: Seq<(u64, u32)>, d: int, n: int) -> bool {
    &&& forall|p: int, q: int|
        0 <= p < q < bucket.len() ==> (#[trigger] bucket[p]).1 < (#[trigger] bucket[q]).1
    &&& forall|p: int|
        0 <= p < bucket.len() ==> pair_ok(entries, #[trigger] bucket[p], d) && bucket[p].1 < n
    &&& forall|i: int|
        0 <= i < n && (#[trigger] entries[i]).drive == d ==> bucket.contains(
            (entries[i].file_ref, i as u32),
        )
}

/// A bucket of distinct pairs, once it is in order, is a right table.
proof fn lemma_sorted_bucket(
    entries: Seq<IndexEntry>,
    before: Seq<(u64, u32)>,
    after: Seq<(u64, u32)>,
    d: int,
)
    requires
        filled(entries, before, d, entries.len() as int),
        after.to_multiset() == before.to_multiset(),
        forall|p: int, q: int|
            0 <= p < q < after.len() ==> pair_lt(#[trigger] after[p], #[trigger] after[q])
                || after[p] == after[q],
    ensures
        bucket_ok(entries, after, d),
{
    before.to_multiset_ensures();
    after.to_multiset_ensures();
    assert(before.no_duplicates());
    before.lemma_multiset_has_no_duplicates();
    after.lemma_multiset_has_no_duplicates_conv();
    assert forall|p: int| 0 <= p < after.len() implies pair_ok(entries, #[trigger] after[p], d) by {
        assert(after.contains(after[p]));
        assert(after.to_multiset().count(after[p]) > 0);
        assert(before.contains(after[p]));
        let k = choose|k: int| 0 <= k < before.len() && before[k] == after[p];
        assert(pair_ok(entries, before[k], d));
    }
    assert forall|i: int| 0 <= i < entries.len() && (#[trigger] entries[i]).drive
        == d implies after.contains((entries[i].file_ref, i as u32)) by {
        let pair = (entries[i].file_ref, i as u32);
        assert(before.contains(pair));
        assert(before.to_multiset().count(pair) > 0);
    }
}

/// The tables of a list of entries.
fn tables_of(entries: &Vec<IndexEntry>) -> (r: Vec<Vec<(u64, u32)>>)
    requires
        entries@.len() <= u32::MAX,
    ensures
        r@.len() <= 256,
        forall|d: int| 0 <= d < 256 ==> bucket_ok(entries@, #[trigger] bucket_of(r@, d), d),
{
    let mut tables: Vec<Vec<(u64, u32)>> = Vec::new();
    let mut i: usize = 0;
    while i < entries.len()
        invariant
            entries@.len() <= u32::MAX,
            i <= entries@.len(),
            tables@.len() <= 256,
            forall|d: int|
                0 <= d < 256 ==> filled(entries@, #[trigger] bucket_of(tables@, d), d, i as int),
        decreases entries@.len() - i,
    {
        let e = entries[i];
        let at: usize = e.drive as usize;
        while tables.len() <= at
            invariant
                at < 256,
                tables@.len() <= 256,
                forall|d: int|
                    0 <= d < 256 ==> filled(
                        entries@,
                        #[trigger] bucket_of(tables@, d),
                        d,
                        i as int,
                    ),
            ensures
                at < tables@.len() <= 256,
            decreases at + 1 - tables@.len(),
        {
            let ghost before = tables@;
            tables.push(Vec::new());
            assert forall|d: int| 0 <= d < 256 implies filled(
                entries@,
                #[trigger] bucket_of(tables@, d),
                d,
                i as int,
            ) by {
                assert(bucket_of(tables@, d) =~= bucket_of(before, d));
            }
        }
        let ghost before = tables@;
        tables[at].push((e.file_ref, i as u32));
        proof {
            let pair = (e.file_ref, i as u32);
            assert forall|d: int| 0 <= d < 256 implies filled(
                entries@,
                #[trigger] bucket_of(tables@, d),
                d,
                i + 1,
            ) by {
                let was = bucket_of(before, d);
                let now = bucket_of(tables@, d);
                assert(filled(entries@, was, d, i as int));
                if d == at {
                    assert(now =~= was.push(pair));
                    assert forall|k: int| 0 <= k < i + 1 && (#[trigger] entries@[k]).drive
                        == d implies now.contains((entries@[k].file_ref, k as u32)) by {
                        if k == i {
                            assert(now[was.len() as int] == pair);
                        } else {
                            let p = choose|p: int|
                                0 <= p < was.len() && was[p] == (entries@[k].file_ref, k as u32);
                            assert(now[p] == was[p]);
                        }
                    }
                } else {
                    assert(now =~= was);
                }
            }
        }
        i = i + 1;
    }
    let ghost unsorted = tables@;
    let mut b: usize = 0;
    while b < tables.len()
        invariant
            tables@.len() == unsorted.len() <= 256,
            b <= tables@.len(),
            forall|d: int|
                0 <= d < 256 ==> filled(
                    entries@,
                    #[trigger] bucket_of(unsorted, d),
                    d,
                    entries@.len() as int,
                ),
            forall|d: int| 0 <= d < b ==> bucket_ok(entries@, #[trigger] bucket_of(tables@, d), d),
            forall|d: int| b <= d < tables@.len() ==> tables@[d] == #[trigger] unsorted[d],
        decreases tables@.len() - b,
    {
        let ghost before = tables@;
        sort_pairs(&mut tables[b]);
        proof {
            assert(bucket_of(unsorted, b as int) == before[b as int]@);
            lemma_sorted_bucket(entries@, before[b as int]@, tables@[b as int]@, b as int);
            assert forall|d: int| 0 <= d < b + 1 implies bucket_ok(
                entries@,
                #[trigger] bucket_of(tables@, d),
                d,
            ) by {
                if d < b {
                    assert(tables@[d] == before[d]);
                    assert(bucket_of(tables@, d) == bucket_of(before, d));
                }
            }
        }
        b = b + 1;
    }
    assert forall|d: int| 0 <= d < 256 implies bucket_ok(
        entries@,
        #[trigger] bucket_of(tables@, d),
        d,
    ) by {
        if d >= tables@.len() {
            assert(filled(entries@, bucket_of(unsorted, d), d, entries@.len() as int));
            assert(bucket_of(unsorted, d) =~= bucket_of(tables@, d));
        }
    }
    tables
}

} // verus!
