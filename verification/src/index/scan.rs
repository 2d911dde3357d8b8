//! Filling the index from a volume scan.
use crate::bytes::lex_le;
use crate::index::batch::lemma_known;
use crate::index::live::{lemma_arenas_grow, lower_utf8, name_utf8};
use crate::index::order::sort_by_name;
use crate::index::store::{
    drive_pos, is_junk_name, is_user_name, junk_at, junk_grown, junk_name, junk_view,
    lemma_drive_pos_range, lemma_frame, lower_in, register, roots_view, same_record, user_name,
    DriveRoot, IndexEntry, IndexStore, WALK_LIMIT,
};
use crate::mft::reader::{CompactRecord, ScanResult};
use crate::mft::types::{FileKind, FileRecord, NtfsDrive};
use crate::text::{lowercase, utf16_text};
use rayon::prelude::{IntoParallelRefIterator, ParallelIterator};
use std::collections::HashMap;
use vstd::prelude::*;
use vstd::utf8::*;

verus! {

/// The directories of a scan: lowercased name and parent, by record number.
pub open spec fn dirs_view(dirs: Map<u64, (String, u64)>) -> Map<u64, (Seq<char>, u64)> {
    dirs.map_values(|v: (String, u64)| (v.0@, v.1))
}

/// Going up from `current` by at most `fuel` directories: how many of them are
/// below the volume root, and whether one is a user's own. Nothing where one is
/// junk.
pub open spec fn scan_above(
    dirs: Map<u64, (Seq<char>, u64)>,
    current: u64,
    fuel: nat,
) -> Option<(nat, bool)>
    decreases fuel,
{
    if fuel == 0 || !dirs.contains_key(current) {
        Some((0, false))
    } else {
        let name = encode_utf8(dirs[current].0);
        let parent = dirs[current].1;
        if is_junk_name(name) {
            None
        } else if parent == current || parent == 0 {
            Some((0, is_user_name(name)))
        } else {
            match scan_above(dirs, parent, (fuel - 1) as nat) {
                None => None,
                Some(up) => Some((up.0 + 1, is_user_name(name) || up.1)),
            }
        }
    }
}

/// Depth and user bit of a record below `parent_ref`; nothing where it is below
/// junk.
pub open spec fn scan_meta(dirs: Map<u64, (Seq<char>, u64)>, parent_ref: u64) -> Option<(u8, u8)> {
    match scan_above(dirs, parent_ref, WALK_LIMIT as nat) {
        None => None,
        Some(up) => Some(
            (
                (if up.0 + 1 < 15 {
                    up.0 + 1
                } else {
                    15
                }) as u8,
                if up.1 {
                    1u8
                } else {
                    0u8
                },
            ),
        ),
    }
}

/// Depth and user bit of a record of a scan, by walking up its directories.
/// `None` where one of them is junk: such a record does not enter the index.
pub fn path_meta_from_dirs(parent_ref: u64, dirs: &HashMap<u64, (String, u64)>) -> (r: Option<
    (u8, u8),
>)
    ensures
        r == scan_meta(dirs_view(dirs@), parent_ref),
        r is Some ==> 1 <= (r->0).0 <= 15 && (r->0).1 <= 1,
{
    broadcast use vstd::std_specs::hash::group_hash_axioms;

    let ghost view = dirs_view(dirs@);
    let ghost whole = scan_above(view, parent_ref, WALK_LIMIT as nat);
    let mut depth: u8 = 0;
    let mut user: bool = false;
    let mut current: u64 = parent_ref;
    let mut left: usize = WALK_LIMIT;
    let mut done: bool = false;
    while left > 0 && !done
        invariant
            view == dirs_view(dirs@),
            whole == scan_above(view, parent_ref, WALK_LIMIT as nat),
            depth + left <= WALK_LIMIT,
            !done ==> whole == (match scan_above(view, current, left as nat) {
                None => None,
                Some(up) => Some((depth as nat + up.0, user || up.1)),
            }),
            done ==> whole == Some((depth as nat, user)),
        decreases left + (if done {
            0int
        } else {
            1int
        }),
    {
        match dirs.get(&current) {
            None => {
                done = true;
            },
            Some(dir) => {
                assert(view.contains_key(current) && view[current] == (dir.0@, dir.1));
                let name = dir.0.as_str().as_bytes();
                if junk_name(name) {
                    return None;
                }
                if user_name(name) {
                    user = true;
                }
                if dir.1 == current || dir.1 == 0 {
                    done = true;
                } else {
                    depth = depth + 1;
                    current = dir.1;
                    left = left - 1;
                }
            },
        }
    }
    let d: u8 = if depth + 1 < 15 {
        depth + 1
    } else {
        15
    };
    Some(
        (
            d,
            if user {
                1
            } else {
                0
            },
        ),
    )
}

/// The name of record `i` of a scan.
pub open spec fn scan_name(scan: ScanResult, i: int) -> Seq<char> {
    let r = scan.records@[i];
    utf16_text(scan.name_data@.subrange(r.name_off as int, r.name_off + r.name_len))
}

/// The directories among the first `n` records of a scan. Of records with the
/// same number the last one counts.
pub open spec fn scan_dirs(scan: ScanResult, n: nat) -> Map<u64, (Seq<char>, u64)>
    decreases n,
{
    if n == 0 {
        Map::empty()
    } else {
        let before = scan_dirs(scan, (n - 1) as nat);
        let r = scan.records@[n - 1];
        if r.is_dir {
            before.insert(r.file_ref, (lowercase(scan_name(scan, n - 1)), r.parent_ref))
        } else {
            before
        }
    }
}

/// All directories of a scan.
pub open spec fn all_dirs(scan: ScanResult) -> Map<u64, (Seq<char>, u64)> {
    scan_dirs(scan, scan.records@.len())
}

/// Record `i` of a scan is not below junk.
pub open spec fn clean(scan: ScanResult, i: int) -> bool {
    scan_meta(all_dirs(scan), scan.records@[i].parent_ref) is Some
}

/// Which of the first `n` records of a scan enter the index, in order.
pub open spec fn clean_rows(scan: ScanResult, n: nat) -> Seq<int>
    decreases n,
{
    if n == 0 {
        Seq::empty()
    } else {
        let before = clean_rows(scan, (n - 1) as nat);
        if clean(scan, n - 1) {
            before.push(n - 1)
        } else {
            before
        }
    }
}

/// The numbers of those of the first `n` records that do not enter the index.
pub open spec fn pruned(scan: ScanResult, n: nat) -> Set<u64> {
    Set::new(
        |r: u64|
            exists|i: int|
                0 <= i < n && !clean(scan, i) && (#[trigger] scan.records@[i]).file_ref == r,
    )
}

/// Depth and user bit of record `i` of a scan. A directory that bears the name
/// of a user's own counts as one.
pub open spec fn scan_stamp(scan: ScanResult, i: int) -> (u8, u8) {
    let meta = scan_meta(all_dirs(scan), scan.records@[i].parent_ref)->0;
    (
        meta.0,
        if scan.records@[i].is_dir && is_user_name(lower_utf8(scan_name(scan, i))) {
            1
        } else {
            meta.1
        },
    )
}

/// `e` is the entry of record `i` of a scan.
pub open spec fn scanned(
    e: IndexEntry,
    scan: ScanResult,
    i: int,
    drive: u8,
    names: Seq<u8>,
    lowers: Seq<u8>,
) -> bool {
    let r = scan.records@[i];
    &&& e.file_ref == r.file_ref
    &&& e.parent_ref == r.parent_ref
    &&& e.drive == drive
    &&& e.flags == (if r.is_dir {
        1u8
    } else {
        0u8
    })
    &&& (e.depth, e.user_path) == scan_stamp(scan, i)
    &&& e.in_arenas(names, lowers)
    &&& names.subrange(e.name_off as int, e.name_off + e.name_len) == name_utf8(scan_name(scan, i))
    &&& lower_in(lowers, e) == lower_utf8(scan_name(scan, i))
}

/// How many bytes the names of the records that enter the index take, and their
/// lowercase forms, among the first `n` records.
pub open spec fn scan_bytes(scan: ScanResult, n: nat) -> (nat, nat)
    decreases n,
{
    if n == 0 {
        (0, 0)
    } else {
        let before = scan_bytes(scan, (n - 1) as nat);
        if clean(scan, n - 1) {
            let name = scan_name(scan, n - 1);
            (before.0 + name_utf8(name).len(), before.1 + lower_utf8(name).len())
        } else {
            before
        }
    }
}

/// No name of the first `n` records is too long for an entry.
pub open spec fn scan_short(scan: ScanResult, n: nat) -> bool {
    forall|i: int|
        0 <= i < n && #[trigger] clean(scan, i) ==> name_utf8(scan_name(scan, i)).len() <= u16::MAX
            && lower_utf8(scan_name(scan, i)).len() <= u16::MAX
}

proof fn lemma_scan_bytes(scan: ScanResult, m: nat, n: nat)
    requires
        m <= n,
    ensures
        scan_bytes(scan, m).0 <= scan_bytes(scan, n).0,
        scan_bytes(scan, m).1 <= scan_bytes(scan, n).1,
    decreases n,
{
    if m < n {
        lemma_scan_bytes(scan, m, (n - 1) as nat);
    }
}

/// `rayon`'s parallel map over a slice, collected in order: the result of
/// `path_meta_from_dirs` for the parent of each record.
#[verifier::external_body]
fn sweep(records: &Vec<CompactRecord>, dirs: &HashMap<u64, (String, u64)>) -> (r: Vec<
    Option<(u8, u8)>,
>)
    ensures
        r@.len() == records@.len(),
        forall|i: int|
            0 <= i < r@.len() ==> #[trigger] r@[i] == scan_meta(
                dirs_view(dirs@),
                records@[i].parent_ref,
            ),
{
    records.par_iter().map(|r| path_meta_from_dirs(r.parent_ref, dirs)).collect()
}

/// The decoded name of a record.
fn decode_name(scan: &ScanResult, i: usize) -> (r: String)
    requires
        scan.wf(),
        i < scan.records@.len(),
    ensures
        r@ == scan_name(*scan, i as int),
{
    let r = scan.records[i];
    assert(scan.records@[i as int] == r);
    assert(scan.name_data.len() == scan.name_data@.len());
    let lo: usize = r.name_off as usize;
    let hi: usize = lo + r.name_len as usize;
    String::from_utf16_lossy(&scan.name_data.as_slice()[lo..hi])
}

/// The directories of a scan.
fn collect_dirs(scan: &ScanResult) -> (dirs: HashMap<u64, (String, u64)>)
    requires
        scan.wf(),
    ensures
        dirs_view(dirs@) == all_dirs(*scan),
{
    broadcast use vstd::std_specs::hash::group_hash_axioms;

    let mut dirs: HashMap<u64, (String, u64)> = HashMap::new();
    assert(dirs_view(dirs@) =~= Map::<u64, (Seq<char>, u64)>::empty());
    let mut i: usize = 0;
    while i < scan.records.len()
        invariant
            scan.wf(),
            i <= scan.records@.len(),
            dirs_view(dirs@) == scan_dirs(*scan, i as nat),
        decreases scan.records@.len() - i,
    {
        let r = scan.records[i];
        if r.is_dir {
            let name = decode_name(scan, i);
            let lower = name.to_lowercase();
            let ghost before = dirs@;
            dirs.insert(r.file_ref, (lower, r.parent_ref));
            assert(dirs_view(dirs@) =~= dirs_view(before).insert(
                r.file_ref,
                (lower@, r.parent_ref),
            ));
        }
        i = i + 1;
    }
    dirs
}

/// What adding the scan of the volume with this letter and root makes of an
/// index: the entries of its records that are not below junk come behind those
/// that were there; the others are remembered as junk.
pub open spec fn populated(
    before: IndexStore,
    scan: ScanResult,
    letter: char,
    root: Seq<char>,
    after: IndexStore,
) -> bool {
    let roots = register(roots_view(before.drive_roots@), letter);
    let d = drive_pos(roots_view(before.drive_roots@), letter);
    let junk = junk_view(before.junk_refs@);
    let rows = clean_rows(scan, scan.records@.len());
    &&& roots_view(after.drive_roots@) == roots.update(d, (letter, root))
    &&& junk_view(after.junk_refs@) == junk_grown(junk, d).update(
        d,
        junk_at(junk, d).union(pruned(scan, scan.records@.len())),
    )
    &&& after.entries@.len() == before.entries@.len() + rows.len()
    &&& after.entries@.take(before.entries@.len() as int) == before.entries@
    &&& forall|k: int|
        0 <= k < rows.len() ==> scanned(
            after.entries@[before.entries@.len() + k],
            scan,
            #[trigger] rows[k],
            d as u8,
            after.name_arena@,
            after.name_lower_arena@,
        )
    &&& before.name_arena@.is_prefix_of(after.name_arena@)
    &&& before.name_lower_arena@.is_prefix_of(after.name_lower_arena@)
    &&& after.ref_lookup == before.ref_lookup
    &&& after.checkpoints == before.checkpoints
    &&& after.ext_index == before.ext_index
    &&& after.ext_dirty
}

/// The rows that enter the index ascend, and each is a clean record.
pub proof fn lemma_clean_rows(scan: ScanResult, n: nat)
    ensures
        forall|k: int|
            0 <= k < clean_rows(scan, n).len() ==> 0 <= #[trigger] clean_rows(scan, n)[k] < n
                && clean(scan, clean_rows(scan, n)[k]),
        forall|j: int, k: int|
            0 <= j < k < clean_rows(scan, n).len() ==> #[trigger] clean_rows(scan, n)[j]
                < #[trigger] clean_rows(scan, n)[k],
    decreases n,
{
    if n > 0 {
        let before = clean_rows(scan, (n - 1) as nat);
        let rows = clean_rows(scan, n);
        lemma_clean_rows(scan, (n - 1) as nat);
        assert forall|k: int| 0 <= k < rows.len() implies 0 <= #[trigger] rows[k] < n && clean(
            scan,
            rows[k],
        ) by {
            if k < before.len() {
                assert(rows[k] == before[k]);
            }
        }
        assert forall|j: int, k: int| 0 <= j < k < rows.len() implies #[trigger] rows[j]
            < #[trigger] rows[k] by {
            assert(rows[j] == before[j]);
            if k < before.len() {
                assert(rows[k] == before[k]);
            }
        }
    }
}

/// A first scan of a volume makes no duplicates: where the records of the scan
/// have different numbers, and the index holds nothing of the volume yet, no two
/// entries of a volume share a record number.
pub proof fn law_scan_keeps_refs_unique(
    before: IndexStore,
    scan: ScanResult,
    letter: char,
    root: Seq<char>,
    after: IndexStore,
)
    requires
        populated(before, scan, letter, root, after),
        register(roots_view(before.drive_roots@), letter).len() <= 256,
        before.unique_refs(),
        forall|i: int|
            0 <= i < before.entries@.len() ==> (#[trigger] before.entries@[i]).drive != drive_pos(
                roots_view(before.drive_roots@),
                letter,
            ),
        forall|i: int, j: int|
            0 <= i < j < scan.records@.len() ==> (#[trigger] scan.records@[i]).file_ref != (
            #[trigger] scan.records@[j]).file_ref,
    ensures
        after.unique_refs(),
{
    let n = before.entries@.len() as int;
    let d = drive_pos(roots_view(before.drive_roots@), letter);
    let rows = clean_rows(scan, scan.records@.len());
    lemma_drive_pos_range(roots_view(before.drive_roots@), letter);
    lemma_clean_rows(scan, scan.records@.len());
    assert forall|i: int, j: int| 0 <= i < j < after.entries@.len() implies !same_record(
        #[trigger] after.entries@[i],
        #[trigger] after.entries@[j],
    ) by {
        if i < n {
            assert(after.entries@.take(n)[i] == before.entries@[i]);
        } else {
            assert(scanned(
                after.entries@[n + (i - n)],
                scan,
                rows[i - n],
                d as u8,
                after.name_arena@,
                after.name_lower_arena@,
            ));
        }
        if j < n {
            assert(after.entries@.take(n)[j] == before.entries@[j]);
        } else {
            assert(scanned(
                after.entries@[n + (j - n)],
                scan,
                rows[j - n],
                d as u8,
                after.name_arena@,
                after.name_lower_arena@,
            ));
        }
        if i >= n {
            assert(rows[i - n] < rows[j - n]);
        }
    }
}

impl IndexStore {
    /// A scan fits into the index: its volume can be named, its names are short
    /// enough, and arenas and positions stay within 32 bits.
    pub open spec fn scan_room(&self, scan: ScanResult, letter: char) -> bool {
        &&& register(roots_view(self.drive_roots@), letter).len() <= 256
        &&& scan_short(scan, scan.records@.len())
        &&& self.name_arena@.len() + scan_bytes(scan, scan.records@.len()).0 <= u32::MAX
        &&& self.name_lower_arena@.len() + scan_bytes(scan, scan.records@.len()).1 <= u32::MAX
        &&& self.entries@.len() + scan.records@.len() <= u32::MAX
    }

    /// Remembers as junk every record of a scan that does not enter the index.
    fn remember_pruned(
        &mut self,
        scan: &ScanResult,
        metas: &Vec<Option<(u8, u8)>>,
        drive: u8,
    )
        requires
            metas@.len() == scan.records@.len(),
            forall|i: int|
                0 <= i < metas@.len() ==> (#[trigger] metas@[i] is Some <==> clean(*scan, i)),
        ensures
            junk_view(final(self).junk_refs@) == junk_grown(
                junk_view(old(self).junk_refs@),
                drive as int,
            ).update(
                drive as int,
                junk_at(junk_view(old(self).junk_refs@), drive as int).union(
                    pruned(*scan, scan.records@.len()),
                ),
            ),
            *final(self) == (IndexStore { junk_refs: final(self).junk_refs, ..*old(self) }),
    {
        broadcast use vstd::std_specs::hash::group_hash_axioms;

        let ghost junk = junk_view(self.junk_refs@);
        let ghost own = junk_at(junk, drive as int);
        self.grow_junk(drive);
        let ghost grown = junk_grown(junk, drive as int);
        let d: usize = drive as usize;
        let mut i: usize = 0;
        assert(own.union(pruned(*scan, 0)) =~= own);
        assert(grown.update(d as int, own) =~= grown);
        while i < scan.records.len()
            invariant
                i <= scan.records@.len(),
                d == drive,
                d < self.junk_refs@.len(),
                d < grown.len(),
                metas@.len() == scan.records@.len(),
                forall|k: int|
                    0 <= k < metas@.len() ==> (#[trigger] metas@[k] is Some <==> clean(*scan, k)),
                junk_view(self.junk_refs@) == grown.update(
                    d as int,
                    own.union(pruned(*scan, i as nat)),
                ),
                *self == (IndexStore { junk_refs: self.junk_refs, ..*old(self) }),
            decreases scan.records@.len() - i,
        {
            let r = scan.records[i];
            let ghost was = junk_view(self.junk_refs@);
            let ghost set = self.junk_refs@[d as int]@;
            assert(was[d as int] == set);
            if metas[i].is_none() {
                self.junk_refs[d].insert(r.file_ref);
                assert(junk_view(self.junk_refs@) =~= was.update(d as int, set.insert(r.file_ref)));
                assert(set.insert(r.file_ref) =~= own.union(pruned(*scan, (i + 1) as nat))) by {
                    assert forall|x: u64| set.insert(r.file_ref).contains(x) == own.union(
                        pruned(*scan, (i + 1) as nat),
                    ).contains(x) by {
                        if x == r.file_ref {
                            assert(scan.records@[i as int].file_ref == x);
                        }
                        if pruned(*scan, i as nat).contains(x) {
                            let k = choose|k: int|
                                0 <= k < i && !clean(*scan, k) && (
                                #[trigger] scan.records@[k]).file_ref == x;
                            assert(scan.records@[k].file_ref == x);
                        }
                    }
                }
            } else {
                assert(metas@[i as int] is Some);
                assert(own.union(pruned(*scan, i as nat)) =~= own.union(
                    pruned(*scan, (i + 1) as nat),
                ));
            }
            assert(junk_view(self.junk_refs@) =~= grown.update(
                d as int,
                own.union(pruned(*scan, (i + 1) as nat)),
            ));
            i = i + 1;
        }
    }

    /// Adds the records of a volume scan that are not below junk. The entries
    /// are not in order, and the tables do not know them, until `finalize`.
    pub fn populate_from_scan(&mut self, scan: ScanResult, drive: &NtfsDrive)
        requires
            old(self).arenas_ok(),
            scan.wf(),
            old(self).scan_room(scan, drive.letter),
        ensures
            final(self).arenas_ok(),
            populated(*old(self), scan, drive.letter, drive.root@, *final(self)),
    {
        let ghost start = *self;
        let d: u8 = self.drive_index(drive.letter);
        let ghost roots = roots_view(self.drive_roots@);
        let fresh = DriveRoot { letter: drive.letter, root: drive.root.clone() };
        proof {
            lemma_drive_pos_range(roots_view(start.drive_roots@), drive.letter);
        }
        self.drive_roots.set(d as usize, fresh);
        assert(roots_view(self.drive_roots@) =~= roots.update(
            d as int,
            (drive.letter, drive.root@),
        ));
        let dirs = collect_dirs(&scan);
        let metas = sweep(&scan.records, &dirs);
        self.remember_pruned(&scan, &metas, d);
        let ghost mid = *self;
        let mut i: usize = 0;
        assert(self.entries@.take(start.entries@.len() as int) =~= start.entries@);
        assert(start.name_arena@ =~= self.name_arena@.subrange(
            0,
            start.name_arena@.len() as int,
        ));
        while i < scan.records.len()
            invariant
                scan.wf(),
                start.scan_room(scan, drive.letter),
                i <= scan.records@.len(),
                metas@.len() == scan.records@.len(),
                forall|k: int|
                    0 <= k < metas@.len() ==> #[trigger] metas@[k] == scan_meta(
                        all_dirs(scan),
                        scan.records@[k].parent_ref,
                    ),
                self.arenas_ok(),
                self.entries@.len() == start.entries@.len() + clean_rows(scan, i as nat).len(),
                clean_rows(scan, i as nat).len() <= i,
                self.entries@.take(start.entries@.len() as int) == start.entries@,
                self.name_arena@.len() == start.name_arena@.len() + scan_bytes(scan, i as nat).0,
                self.name_lower_arena@.len() == start.name_lower_arena@.len() + scan_bytes(
                    scan,
                    i as nat,
                ).1,
                forall|k: int|
                    0 <= k < clean_rows(scan, i as nat).len() ==> scanned(
                        self.entries@[start.entries@.len() + k],
                        scan,
                        #[trigger] clean_rows(scan, i as nat)[k],
                        d,
                        self.name_arena@,
                        self.name_lower_arena@,
                    ),
                start.name_arena@.is_prefix_of(self.name_arena@),
                start.name_lower_arena@.is_prefix_of(self.name_lower_arena@),
                *self == (IndexStore {
                    entries: self.entries,
                    name_arena: self.name_arena,
                    name_lower_arena: self.name_lower_arena,
                    ..mid
                }),
            decreases scan.records@.len() - i,
        {
            let r = scan.records[i];
            proof {
                lemma_scan_bytes(scan, (i + 1) as nat, scan.records@.len());
            }
            if let Some((depth, user)) = metas[i] {
                assert(clean(scan, i as int));
                let name = decode_name(&scan, i);
                let lower = name.to_lowercase();
                let stamp: u8 = if r.is_dir && user_name(lower.as_str().as_bytes()) {
                    1
                } else {
                    user
                };
                let record = FileRecord {
                    file_ref: r.file_ref,
                    parent_ref: r.parent_ref,
                    name,
                    kind: if r.is_dir {
                        FileKind::Directory
                    } else {
                        FileKind::File
                    },
                };
                let ghost before = *self;
                let e = self.arena_entry(&record, d, depth, stamp);
                self.entries.push(e);
                proof {
                    lemma_scan_step(scan, i as nat, start, before, *self, e, record, d);
                }
            }
            i = i + 1;
        }
        self.ext_dirty = true;
        proof {
            lemma_frame(IndexStore { ext_dirty: false, ..*self }, *self);
        }
    }
}

/// One record more.
proof fn lemma_scan_step(
    scan: ScanResult,
    i: nat,
    start: IndexStore,
    before: IndexStore,
    after: IndexStore,
    e: IndexEntry,
    record: FileRecord,
    d: u8,
)
    requires
        i < scan.records@.len(),
        clean(scan, i as int),
        before.arenas_ok(),
        before.entries@.len() < u32::MAX,
        before.entries@.len() == start.entries@.len() + clean_rows(scan, i).len(),
        before.entries@.take(start.entries@.len() as int) == start.entries@,
        forall|k: int|
            0 <= k < clean_rows(scan, i).len() ==> scanned(
                before.entries@[start.entries@.len() + k],
                scan,
                #[trigger] clean_rows(scan, i)[k],
                d,
                before.name_arena@,
                before.name_lower_arena@,
            ),
        start.name_arena@.is_prefix_of(before.name_arena@),
        start.name_lower_arena@.is_prefix_of(before.name_lower_arena@),
        record.name@ == scan_name(scan, i as int),
        after.entries@ == before.entries@.push(e),
        after.name_arena@ == before.name_arena@ + name_utf8(record.name@),
        after.name_lower_arena@ == before.name_lower_arena@ + lower_utf8(record.name@),
        after.name_arena@.len() <= u32::MAX,
        after.name_lower_arena@.len() <= u32::MAX,
        scanned(e, scan, i as int, d, after.name_arena@, after.name_lower_arena@),
    ensures
        after.arenas_ok(),
        after.entries@.take(start.entries@.len() as int) == start.entries@,
        forall|k: int|
            0 <= k < clean_rows(scan, i + 1).len() ==> scanned(
                after.entries@[start.entries@.len() + k],
                scan,
                #[trigger] clean_rows(scan, i + 1)[k],
                d,
                after.name_arena@,
                after.name_lower_arena@,
            ),
        start.name_arena@.is_prefix_of(after.name_arena@),
        start.name_lower_arena@.is_prefix_of(after.name_lower_arena@),
{
    let n = start.entries@.len();
    let more = name_utf8(record.name@);
    let more_lower = lower_utf8(record.name@);
    assert forall|j: int| 0 <= j < after.entries@.len() implies (
    #[trigger] after.entries@[j]).in_arenas(after.name_arena@, after.name_lower_arena@) by {
        if j < before.entries@.len() {
            lemma_arenas_grow(
                before.entries@[j],
                before.name_arena@,
                before.name_lower_arena@,
                more,
                more_lower,
            );
        }
    }
    assert(after.entries@.take(n as int) =~= start.entries@) by {
        assert forall|j: int| 0 <= j < n implies after.entries@[j] == start.entries@[j] by {
            assert(before.entries@.take(n as int)[j] == start.entries@[j]);
        }
    }
    let rows = clean_rows(scan, i);
    let next = clean_rows(scan, i + 1);
    assert forall|k: int| 0 <= k < next.len() implies scanned(
        after.entries@[n + k],
        scan,
        #[trigger] next[k],
        d,
        after.name_arena@,
        after.name_lower_arena@,
    ) by {
        if k < rows.len() {
            assert(next[k] == rows[k]);
            assert(after.entries@[n + k] == before.entries@[n + k]);
            lemma_arenas_grow(
                before.entries@[n + k],
                before.name_arena@,
                before.name_lower_arena@,
                more,
                more_lower,
            );
        }
    }
    assert(start.name_arena@ =~= after.name_arena@.subrange(0, start.name_arena@.len() as int));
    assert(start.name_lower_arena@ =~= after.name_lower_arena@.subrange(
        0,
        start.name_lower_arena@.len() as int,
    ));
}

/// Two lists of the same entries: what is in one is in the other, and where no
/// two entries of one are of the same record, none of the other are.
pub proof fn lemma_permuted(a: Seq<IndexEntry>, b: Seq<IndexEntry>)
    requires
        a.to_multiset() == b.to_multiset(),
    ensures
        a.len() == b.len(),
        forall|i: int| 0 <= i < b.len() ==> a.contains(#[trigger] b[i]),
        (forall|i: int, j: int|
            0 <= i < j < a.len() ==> !same_record(#[trigger] a[i], #[trigger] a[j])) ==> (forall|
            i: int,
            j: int,
        |
            0 <= i < j < b.len() ==> !same_record(#[trigger] b[i], #[trigger] b[j])),
{
    a.to_multiset_ensures();
    b.to_multiset_ensures();
    assert forall|i: int| 0 <= i < b.len() implies a.contains(#[trigger] b[i]) by {
        assert(b.contains(b[i]));
        assert(b.to_multiset().count(b[i]) > 0);
    }
    if forall|i: int, j: int|
        0 <= i < j < a.len() ==> !same_record(#[trigger] a[i], #[trigger] a[j]) {
        assert(a.no_duplicates()) by {
            assert forall|i: int, j: int| 0 <= i < a.len() && 0 <= j < a.len() && i
                != j implies a[i] != a[j] by {
                if i < j {
                    assert(!same_record(a[i], a[j]));
                } else {
                    assert(!same_record(a[j], a[i]));
                }
            }
        }
        a.lemma_multiset_has_no_duplicates();
        b.lemma_multiset_has_no_duplicates_conv();
        assert forall|i: int, j: int| 0 <= i < j < b.len() implies !same_record(
            #[trigger] b[i],
            #[trigger] b[j],
        ) by {
            if same_record(b[i], b[j]) {
                assert(a.contains(b[i]) && a.contains(b[j]));
                let p = choose|p: int| 0 <= p < a.len() && a[p] == b[i];
                let q = choose|q: int| 0 <= q < a.len() && a[q] == b[j];
                if p < q {
                    assert(!same_record(a[p], a[q]));
                } else if q < p {
                    assert(!same_record(a[q], a[p]));
                }
            }
        }
    }
}

impl IndexStore {
    /// Puts the entries in order and fills the tables and extension buckets.
    pub fn finalize(&mut self)
        requires
            old(self).arenas_ok(),
        ensures
            final(self).wf(),
            !final(self).ext_dirty,
            final(self).entries@.to_multiset() == old(self).entries@.to_multiset(),
            old(self).unique_refs() ==> final(self).unique_refs(),
            *final(self) == (IndexStore {
                entries: final(self).entries,
                ref_lookup: final(self).ref_lookup,
                ext_index: final(self).ext_index,
                ext_dirty: false,
                ..*old(self)
            }),
    {
        let ghost before = self.entries@;
        let ghost names = self.name_arena@;
        let ghost lowers = self.name_lower_arena@;
        sort_by_name(&mut self.entries, self.name_lower_arena.as_slice());
        let ghost ordered = *self;
        proof {
            lemma_permuted(before, self.entries@);
            assert forall|i: int| 0 <= i < self.entries@.len() implies (
            #[trigger] self.entries@[i]).in_arenas(names, lowers) by {
                assert(before.contains(self.entries@[i]));
                let k = choose|k: int| 0 <= k < before.len() && before[k] == self.entries@[i];
                assert(old(self).entries@[k].in_arenas(names, lowers));
            }
            assert forall|i: int, j: int| 0 <= i < j < self.entries@.len() implies lex_le(
                self.lower_of(#[trigger] self.entries@[i]),
                self.lower_of(#[trigger] self.entries@[j]),
            ) by {
                assert(lex_le(
                    lower_in(lowers, self.entries@[i]),
                    lower_in(lowers, self.entries@[j]),
                ));
            }
        }
        self.rebuild_ref_lookup();
        let ghost tabled = *self;
        proof {
            lemma_frame(ordered, tabled);
        }
        self.rebuild_ext_index();
        proof {
            lemma_frame(tabled, *self);
        }
    }
}

impl IndexStore {
    /// Whether a scan fits into the index.
    pub fn scan_fits(&self, scan: &ScanResult, letter: char) -> (r: bool)
        requires
            scan.wf(),
        ensures
            r == self.scan_room(*scan, letter),
    {
        let mut known: bool = false;
        let mut p: usize = 0;
        let ghost roots = roots_view(self.drive_roots@);
        while p < self.drive_roots.len() && !known
            invariant
                p <= self.drive_roots@.len(),
                roots == roots_view(self.drive_roots@),
                known <==> exists|k: int| 0 <= k < p && (#[trigger] roots[k]).0 == letter,
            decreases self.drive_roots@.len() - p,
        {
            if self.drive_roots[p].letter == letter {
                assert(roots[p as int].0 == letter);
                known = true;
            }
            p = p + 1;
        }
        proof {
            lemma_drive_pos_range(roots, letter);
            lemma_known(roots, letter);
        }
        if self.drive_roots.len() > 256 || (!known && self.drive_roots.len() >= 256) {
            return false;
        }
        let max: u64 = u32::MAX as u64;
        if self.name_arena.len() as u64 > max || self.name_lower_arena.len() as u64 > max {
            return false;
        }
        let dirs = collect_dirs(scan);
        let metas = sweep(&scan.records, &dirs);
        let mut names: u64 = self.name_arena.len() as u64;
        let mut lowers: u64 = self.name_lower_arena.len() as u64;
        let mut i: usize = 0;
        while i < scan.records.len()
            invariant
                scan.wf(),
                i <= scan.records@.len(),
                metas@.len() == scan.records@.len(),
                forall|k: int|
                    0 <= k < metas@.len() ==> #[trigger] metas@[k] == scan_meta(
                        all_dirs(*scan),
                        scan.records@[k].parent_ref,
                    ),
                max == u32::MAX,
                names <= max,
                lowers <= max,
                names == self.name_arena@.len() + scan_bytes(*scan, i as nat).0,
                lowers == self.name_lower_arena@.len() + scan_bytes(*scan, i as nat).1,
                scan_short(*scan, i as nat),
            decreases scan.records@.len() - i,
        {
            proof {
                lemma_scan_bytes(*scan, (i + 1) as nat, scan.records@.len());
            }
            if metas[i].is_some() {
                assert(clean(*scan, i as int));
                let name = decode_name(scan, i);
                let lower = name.to_lowercase();
                let a: usize = name.as_str().as_bytes().len();
                let b: usize = lower.as_str().as_bytes().len();
                if a > u16::MAX as usize || b > u16::MAX as usize {
                    return false;
                }
                names = names + a as u64;
                lowers = lowers + b as u64;
                if names > max || lowers > max {
                    return false;
                }
            }
            i = i + 1;
        }
        (self.entries.len() as u128 + scan.records.len() as u128) <= u32::MAX as u128
    }

    /// `populate_from_scan`, where the scan fits; otherwise nothing changes.
    pub fn try_populate_from_scan(&mut self, scan: ScanResult, drive: &NtfsDrive) -> (r: bool)
        requires
            old(self).arenas_ok(),
            scan.wf(),
        ensures
            r == old(self).scan_room(scan, drive.letter),
            final(self).arenas_ok(),
            r ==> populated(*old(self), scan, drive.letter, drive.root@, *final(self)),
            !r ==> *final(self) == *old(self),
    {
        if self.scan_fits(&scan, drive.letter) {
            self.populate_from_scan(scan, drive);
            true
        } else {
            false
        }
    }
}

} // verus!
