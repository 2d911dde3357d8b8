//! The life of the index behind the launcher: loading it at the start, bringing
//! it up to date from the journals, building it anew, and keeping it current.
use crate::bytes::{bytes_le, lemma_lex_transitive, lex_le};
use crate::index::batch::batch_result;
use crate::index::cache::{loaded, CacheData};
use crate::index::scan::populated;
use crate::index::store::{lemma_frame, IndexEntry, IndexStore};
use crate::mft::reader::ScanResult;
use crate::mft::types::{IndexEvent, JournalCheckpoint, NtfsDrive};
use crate::num::{ago, decimal, decimal_text, fmt_ago};
use crate::text::{str_starts, text_starts};
use vstd::prelude::*;

verus! {

/// How many live events cause the cache to be written.
pub const SAVE_EVENT_WATERMARK: u64 = 500;

/// How many events are applied at once.
pub const LIVE_BATCH: usize = 64;

/// After how many milliseconds without a sign a watcher counts as stopped.
pub const WATCH_TIMEOUT_MS: u64 = 60_000;

/// What came of loading the saved index.
#[derive(Clone, Copy, PartialEq, Eq, Structural)]
pub enum CacheLoad {
    /// The index is current.
    Ready,
    /// The index of this time, in seconds since 1970, is served until a new one
    /// is built.
    Provisional { snapshot_secs: u64 },
    /// There is no saved index.
    Scanning,
}

/// A saved index, as far as it can be used.
pub enum Snapshot {
    /// It cannot be used; the file is to be removed.
    Unusable,
    /// It can be searched, but not brought up to date.
    Fixed(IndexStore),
    /// It can be brought up to date from these positions of the journals.
    Open(IndexStore, Vec<JournalCheckpoint>),
}

/// Whether the entries of an index are in order.
pub fn in_order(store: &IndexStore) -> (r: bool)
    requires
        store.arenas_ok(),
    ensures
        r == store.sorted(),
{
    let mut i: usize = 1;
    proof {
        assert forall|a: int| 0 <= a < store.entries@.len() implies (
        #[trigger] store.entries@[a]).name_lower_off + store.entries@[a].name_lower_len
            <= store.name_lower_arena@.len() by {}
    }
    while i < store.entries.len()
        invariant
            1 <= i,
            store.arenas_ok(),
            forall|a: int, b: int|
                0 <= a < b < i && b < store.entries@.len() ==> lex_le(
                    store.lower_of(#[trigger] store.entries@[a]),
                    store.lower_of(#[trigger] store.entries@[b]),
                ),
        decreases store.entries.len() - i,
    {
        let x = &store.entries[i - 1];
        let y = &store.entries[i];
        assert(store.entries@[i - 1] == *x && store.entries@[i as int] == *y);
        if !bytes_le(store.lower_bytes(x), store.lower_bytes(y)) {
            return false;
        }
        proof {
            assert forall|a: int, b: int| 0 <= a < b < i + 1 && b < store.entries@.len() implies lex_le(
                store.lower_of(#[trigger] store.entries@[a]),
                store.lower_of(#[trigger] store.entries@[b]),
            ) by {
                if b == i && a < i - 1 {
                    lemma_lex_transitive(
                        store.lower_of(store.entries@[a]),
                        store.lower_of(store.entries@[i - 1]),
                        store.lower_of(store.entries@[b]),
                    );
                }
            }
        }
        i = i + 1;
    }
    true
}

/// `store` is the index of a cache, put in order if it was not.
pub open spec fn opened(cache: CacheData, store: IndexStore) -> bool {
    &&& store.wf()
    &&& exists|first: IndexStore|
        {
            &&& #[trigger] loaded(cache, first)
            &&& if first.sorted() {
                store == first
            } else {
                finished(first, store)
            }
        }
}

/// What a decoded cache is good for.
pub open spec fn snapshot_of(cache: Option<CacheData>, s: Snapshot) -> bool {
    match cache {
        None => s is Unusable,
        Some(c) => if c.entries@.len() == 0 || !c.small() || !c.valid() {
            s is Unusable
        } else {
            match s {
                Snapshot::Unusable => false,
                Snapshot::Fixed(store) => opened(c, store) && c.checkpoints@.len() == 0,
                Snapshot::Open(store, cps) => opened(c, store) && c.checkpoints@.len() > 0
                    && cps@ == c.checkpoints@,
            }
        },
    }
}

/// Takes the decoded cache, if there is one. A cache without entries, or that is
/// no valid cache, cannot be used. One without positions in the journals cannot
/// be brought up to date. Entries that are out of order are put in order.
pub fn open_snapshot(cache: Option<CacheData>) -> (r: Snapshot)
    ensures
        snapshot_of(cache, r),
{
    let c = match cache {
        Some(c) => c,
        None => {
            return Snapshot::Unusable;
        },
    };
    if c.entries.len() == 0 {
        return Snapshot::Unusable;
    }
    if c.entries.len() as u64 > u32::MAX as u64 || c.name_arena.len() as u64 > u32::MAX as u64
        || c.name_lower_arena.len() as u64 > u32::MAX as u64 {
        return Snapshot::Unusable;
    }
    let checkpoints = c.checkpoints.clone();
    assert(checkpoints@ =~= c.checkpoints@);
    match IndexStore::from_cache(c) {
        None => Snapshot::Unusable,
        Some(first) => {
            let mut store = first;
            if !in_order(&store) {
                store.finalize();
                assert(finished(first, store));
            }
            assert(loaded(cache->0, first));
            if checkpoints.len() == 0 {
                Snapshot::Fixed(store)
            } else {
                Snapshot::Open(store, checkpoints)
            }
        },
    }
}

/// How the index starts.
pub enum LoadStep {
    /// With this index; `discard` says whether the file of the cache goes.
    Done { store: IndexStore, load: CacheLoad, discard: bool },
    /// With this index, once it is brought up to date from these positions.
    CatchUp { store: IndexStore, positions: Vec<JournalCheckpoint> },
}

/// How the index starts from a file that was read as `cache`, or from none.
pub open spec fn load_steps(
    present: bool,
    cache: Option<CacheData>,
    snapshot_secs: u64,
    r: LoadStep,
) -> bool {
    match r {
        LoadStep::Done { store, load, discard } => if !present || snapshot_of(
            cache,
            Snapshot::Unusable,
        ) {
            &&& load == CacheLoad::Scanning
            &&& discard == present
            &&& store.entries@.len() == 0
            &&& store.checkpoints@.len() == 0
            &&& store.wf()
        } else {
            &&& load == (CacheLoad::Provisional { snapshot_secs })
            &&& !discard
            &&& snapshot_of(cache, Snapshot::Fixed(store))
        },
        LoadStep::CatchUp { store, positions } => present && snapshot_of(
            cache,
            Snapshot::Open(store, positions),
        ),
    }
}

/// Decides how the index starts: `present` says whether there is a file of the
/// cache, `cache` is what was read from it, and `snapshot_secs` is its time. A
/// file that cannot be used is discarded, and an index is built. One that cannot
/// be brought up to date is served meanwhile.
pub fn load_step(present: bool, cache: Option<CacheData>, snapshot_secs: u64) -> (r: LoadStep)
    ensures
        load_steps(present, cache, snapshot_secs, r),
{
    if !present {
        return LoadStep::Done {
            store: IndexStore::new(),
            load: CacheLoad::Scanning,
            discard: false,
        };
    }
    match open_snapshot(cache) {
        Snapshot::Unusable => LoadStep::Done {
            store: IndexStore::new(),
            load: CacheLoad::Scanning,
            discard: true,
        },
        Snapshot::Fixed(store) => LoadStep::Done {
            store,
            load: CacheLoad::Provisional { snapshot_secs },
            discard: false,
        },
        Snapshot::Open(store, positions) => LoadStep::CatchUp { store, positions },
    }
}

/// Whether a file beside the cache was left over by a save that was cut off.
pub fn is_cache_leftover(name: &str) -> (r: bool)
    ensures
        r == text_starts(name@, "finder_cache.tmp."@),
{
    str_starts(name, "finder_cache.tmp.")
}

/// The first position that is known of a volume.
pub open spec fn position_of(cps: Seq<JournalCheckpoint>, letter: char) -> Option<
    JournalCheckpoint,
>
    decreases cps.len(),
{
    if cps.len() == 0 {
        None
    } else if cps[0].drive_letter == letter {
        Some(cps[0])
    } else {
        position_of(cps.drop_first(), letter)
    }
}

/// The first position that is known of a volume.
pub fn find_position(cps: &Vec<JournalCheckpoint>, letter: char) -> (r: Option<JournalCheckpoint>)
    ensures
        r == position_of(cps@, letter),
{
    let mut i: usize = 0;
    assert(cps@.skip(0) =~= cps@);
    while i < cps.len()
        invariant
            i <= cps.len(),
            position_of(cps@.skip(i as int), letter) == position_of(cps@, letter),
        decreases cps.len() - i,
    {
        assert(cps@.skip(i as int)[0] == cps@[i as int]);
        if cps[i].drive_letter == letter {
            return Some(cps[i]);
        }
        assert(cps@.skip(i as int).drop_first() =~= cps@.skip(i + 1));
        i = i + 1;
    }
    None
}

/// The positions with that of one volume replaced: it stands last.
pub open spec fn with_position(cps: Seq<JournalCheckpoint>, cp: JournalCheckpoint) -> Seq<
    JournalCheckpoint,
> {
    cps.filter(|c: JournalCheckpoint| c.drive_letter != cp.drive_letter).push(cp)
}

/// After a position of a volume is recorded, it is the one that is known of
/// the volume, and those of other volumes are as before.
pub proof fn law_position_is_recorded(
    cps: Seq<JournalCheckpoint>,
    cp: JournalCheckpoint,
    letter: char,
)
    ensures
        position_of(with_position(cps, cp), letter) == if letter == cp.drive_letter {
            Some(cp)
        } else {
            position_of(cps, letter)
        },
{
    lemma_filtered_position(cps, cp.drive_letter, letter);
    let kept = cps.filter(|c: JournalCheckpoint| c.drive_letter != cp.drive_letter);
    lemma_pushed_position(kept, cp, letter);
}

proof fn lemma_filtered_position(cps: Seq<JournalCheckpoint>, drop: char, letter: char)
    ensures
        position_of(cps.filter(|c: JournalCheckpoint| c.drive_letter != drop), letter) == if letter
            == drop {
            None
        } else {
            position_of(cps, letter)
        },
    decreases cps.len(),
{
    let pred = |c: JournalCheckpoint| c.drive_letter != drop;
    reveal(Seq::filter);
    if cps.len() > 0 {
        lemma_filtered_position(cps.drop_first(), drop, letter);
        lemma_filter_front(cps, drop);
        let rest = cps.drop_first().filter(pred);
        if pred(cps[0]) {
            assert((seq![cps[0]] + rest).drop_first() =~= rest);
            assert((seq![cps[0]] + rest)[0] == cps[0]);
        }
    }
}

proof fn lemma_filter_front(cps: Seq<JournalCheckpoint>, drop: char)
    requires
        cps.len() > 0,
    ensures
        ({
            let pred = |c: JournalCheckpoint| c.drive_letter != drop;
            cps.filter(pred) == if pred(cps[0]) {
                seq![cps[0]] + cps.drop_first().filter(pred)
            } else {
                cps.drop_first().filter(pred)
            }
        }),
    decreases cps.len(),
{
    let pred = |c: JournalCheckpoint| c.drive_letter != drop;
    reveal(Seq::filter);
    if cps.len() == 1 {
        assert(cps.drop_last() =~= Seq::<JournalCheckpoint>::empty());
        assert(cps.drop_first() =~= Seq::<JournalCheckpoint>::empty());
        assert(cps.filter(pred) =~= if pred(cps[0]) {
            seq![cps[0]] + cps.drop_first().filter(pred)
        } else {
            cps.drop_first().filter(pred)
        });
    } else {
        lemma_filter_front(cps.drop_last(), drop);
        assert(cps.drop_last().drop_first() =~= cps.drop_first().drop_last());
        assert(cps.drop_first().last() == cps.last());
        assert(cps.filter(pred) =~= if pred(cps[0]) {
            seq![cps[0]] + cps.drop_first().filter(pred)
        } else {
            cps.drop_first().filter(pred)
        });
    }
}

proof fn lemma_pushed_position(cps: Seq<JournalCheckpoint>, cp: JournalCheckpoint, letter: char)
    ensures
        position_of(cps.push(cp), letter) == if position_of(cps, letter) is Some {
            position_of(cps, letter)
        } else if letter == cp.drive_letter {
            Some(cp)
        } else {
            None
        },
    decreases cps.len(),
{
    let t = cps.push(cp);
    if cps.len() == 0 {
        assert(t.drop_first() =~= cps);
    } else {
        assert(t[0] == cps[0]);
        assert(t.drop_first() =~= cps.drop_first().push(cp));
        lemma_pushed_position(cps.drop_first(), cp, letter);
    }
}

/// Records how far the journal of a volume is in the index.
pub fn set_position(store: &mut IndexStore, cp: JournalCheckpoint)
    ensures
        final(store).checkpoints@ == with_position(old(store).checkpoints@, cp),
        *final(store) == (IndexStore { checkpoints: final(store).checkpoints, ..*old(store) }),
        old(store).wf() ==> final(store).wf(),
{
    let ghost before = store.checkpoints@;
    let mut kept: Vec<JournalCheckpoint> = Vec::new();
    let mut i: usize = 0;
    let ghost pred = |c: JournalCheckpoint| c.drive_letter != cp.drive_letter;
    proof {
        reveal(Seq::filter);
        assert(before.take(0).filter(pred) =~= Seq::<JournalCheckpoint>::empty());
    }
    while i < store.checkpoints.len()
        invariant
            *store == *old(store),
            store.checkpoints@ == before,
            i <= before.len(),
            pred == (|c: JournalCheckpoint| c.drive_letter != cp.drive_letter),
            kept@ == before.take(i as int).filter(pred),
        decreases before.len() - i,
    {
        proof {
            reveal(Seq::filter);
            assert(before.take(i + 1).drop_last() =~= before.take(i as int));
            assert(before.take(i + 1).last() == before[i as int]);
        }
        if store.checkpoints[i].drive_letter != cp.drive_letter {
            kept.push(store.checkpoints[i]);
        }
        i = i + 1;
    }
    assert(before.take(i as int) =~= before);
    kept.push(cp);
    store.checkpoints = kept;
    proof {
        lemma_frame(*old(store), *store);
    }
}

/// What came of reading the journal of a volume from its saved position.
pub enum Replay {
    /// No position is known, the journal could not be opened there, or reading
    /// it failed.
    Lost,
    /// It was read up to here.
    Done(JournalCheckpoint),
}

/// The positions after the first `n` volumes were read.
pub open spec fn replayed(
    cps: Seq<JournalCheckpoint>,
    replays: Seq<Replay>,
    n: int,
) -> Seq<JournalCheckpoint>
    decreases n,
{
    if n <= 0 {
        cps
    } else {
        match replays[n - 1] {
            Replay::Lost => replayed(cps, replays, n - 1),
            Replay::Done(cp) => with_position(replayed(cps, replays, n - 1), cp),
        }
    }
}

/// No volume was lost.
pub open spec fn none_lost(replays: Seq<Replay>) -> bool {
    forall|i: int| 0 <= i < replays.len() ==> #[trigger] replays[i] is Done
}

/// Whether a saved index can be used as current: the journal of every volume was
/// read from its saved position.
pub fn all_resumed(replays: &Vec<Replay>) -> (r: bool)
    ensures
        r == none_lost(replays@),
{
    let mut i: usize = 0;
    while i < replays.len()
        invariant
            i <= replays.len(),
            forall|k: int| 0 <= k < i ==> #[trigger] replays@[k] is Done,
        decreases replays.len() - i,
    {
        match &replays[i] {
            Replay::Lost => {
                assert(!(replays@[i as int] is Done));
                return false;
            },
            Replay::Done(_) => {},
        }
        i = i + 1;
    }
    true
}

/// Brings a loaded index up to date: `replays` tells what came of the journal of
/// each volume, and `events` are the changes that were read. The index is
/// current only if no volume was lost; else it is served until a new one is
/// built. Whether the changes fit into the index is told too: where they do not,
/// they are left out, and the index is not current.
pub fn load_cache_and_catch_up(
    store: &mut IndexStore,
    replays: &Vec<Replay>,
    events: Vec<IndexEvent>,
    snapshot_secs: u64,
) -> (r: CacheLoad)
    requires
        old(store).wf(),
    ensures
        final(store).wf(),
        final(store).checkpoints@ == replayed(
            old(store).checkpoints@,
            replays@,
            replays@.len() as int,
        ),
        ({
            let mid = IndexStore { checkpoints: final(store).checkpoints, ..*old(store) };
            if mid.batch_room(events@) {
                &&& batch_result(mid, mid.plan(events@), *final(store))
                &&& r == if none_lost(replays@) {
                    CacheLoad::Ready
                } else {
                    CacheLoad::Provisional { snapshot_secs }
                }
            } else {
                *final(store) == mid && r == (CacheLoad::Provisional { snapshot_secs })
            }
        }),
{
    let ghost before = *store;
    let mut i: usize = 0;
    while i < replays.len()
        invariant
            i <= replays.len(),
            store.wf(),
            before == *old(store),
            *store == (IndexStore { checkpoints: store.checkpoints, ..before }),
            store.checkpoints@ == replayed(before.checkpoints@, replays@, i as int),
        decreases replays.len() - i,
    {
        match &replays[i] {
            Replay::Lost => {},
            Replay::Done(cp) => {
                set_position(store, *cp);
            },
        }
        i = i + 1;
    }
    if !store.try_apply_events(events) {
        return CacheLoad::Provisional { snapshot_secs };
    }
    if all_resumed(replays) {
        CacheLoad::Ready
    } else {
        CacheLoad::Provisional { snapshot_secs }
    }
}

/// Whether the cache is to be written after the changes were applied: only a
/// current index that changed is.
pub fn save_after_catch_up(load: CacheLoad, event_count: usize) -> (r: bool)
    ensures
        r == (load == CacheLoad::Ready && event_count > 0),
{
    match load {
        CacheLoad::Ready => event_count > 0,
        _ => false,
    }
}

/// What comes next while a volume is read. `None` is what was not tried yet.
#[derive(Clone, Copy, PartialEq, Eq, Structural)]
pub enum ScanStep {
    /// Read the records through the journal interface.
    Enumerate,
    /// Read the master file table itself.
    ReadTable,
    /// Take what the journal interface gave.
    TakeEnumerated,
    /// Take what the master file table gave.
    TakeTable,
}

/// Which reading of a volume counts. `enumerated` is how many records the
/// journal interface gave, `table` how many the master file table gave, with
/// `Some(0)` where it could not be read. The table is read first only if that is
/// forced, else only where the interface gave nothing; a reading that gave
/// nothing never counts for more than the interface's.
pub fn scan_step(forced: bool, enumerated: Option<usize>, table: Option<usize>) -> (r: ScanStep)
    ensures
        r == if forced && table is None {
            ScanStep::ReadTable
        } else if forced && table->0 > 0 {
            ScanStep::TakeTable
        } else if enumerated is None {
            ScanStep::Enumerate
        } else if forced || enumerated->0 > 0 {
            ScanStep::TakeEnumerated
        } else if table is None {
            ScanStep::ReadTable
        } else if table->0 > 0 {
            ScanStep::TakeTable
        } else {
            ScanStep::TakeEnumerated
        },
{
    match (enumerated, table) {
        (None, None) => if forced {
            ScanStep::ReadTable
        } else {
            ScanStep::Enumerate
        },
        (None, Some(t)) => if forced && t > 0 {
            ScanStep::TakeTable
        } else {
            ScanStep::Enumerate
        },
        (Some(e), None) => if forced || e == 0 {
            ScanStep::ReadTable
        } else {
            ScanStep::TakeEnumerated
        },
        (Some(e), Some(t)) => if (forced || e == 0) && t > 0 {
            ScanStep::TakeTable
        } else {
            ScanStep::TakeEnumerated
        },
    }
}

/// The scan of a volume.
pub struct DriveScan {
    pub drive: NtfsDrive,
    pub scan: ScanResult,
}

/// `after` is `before` with the first `n` scans put in, one behind the other. A
/// scan that does not fit is left out.
pub open spec fn scans_put_in(
    before: IndexStore,
    scans: Seq<DriveScan>,
    n: int,
    after: IndexStore,
) -> bool
    decreases n,
{
    if n <= 0 {
        after == before
    } else {
        exists|mid: IndexStore|
            {
                &&& #[trigger] put_in(mid, scans[n - 1], after)
                &&& scans_put_in(before, scans, n - 1, mid)
            }
    }
}

/// `after` is `before` with a scan put in, if it fits.
pub open spec fn put_in(before: IndexStore, s: DriveScan, after: IndexStore) -> bool {
    if before.scan_room(s.scan, s.drive.letter) {
        populated(before, s.scan, s.drive.letter, s.drive.root@, after)
    } else {
        after == before
    }
}

/// `after` is `before` put in order, with its tables and buckets built.
pub open spec fn finished(before: IndexStore, after: IndexStore) -> bool {
    &&& after.wf()
    &&& !after.ext_dirty
    &&& after.entries@.to_multiset() == before.entries@.to_multiset()
    &&& after == (IndexStore {
        entries: after.entries,
        ref_lookup: after.ref_lookup,
        ext_index: after.ext_index,
        ext_dirty: false,
        ..before
    })
}

/// `start` is an empty index with these positions.
pub open spec fn begins_with(start: IndexStore, checkpoints: Seq<JournalCheckpoint>) -> bool {
    &&& start.entries@.len() == 0
    &&& start.name_arena@.len() == 0
    &&& start.name_lower_arena@.len() == 0
    &&& start.ref_lookup@.len() == 0
    &&& start.ext_index@.len() == 0
    &&& start.ext_dirty
    &&& start.drive_roots@.len() == 0
    &&& start.junk_refs@.len() == 0
    &&& start.checkpoints@ == checkpoints
}

/// Builds an index from the scans of the volumes. `checkpoints` are the positions
/// of the journals when the scans began, so that what changes meanwhile is read
/// later. There is no index where nothing was read.
pub fn build_full_index(checkpoints: Vec<JournalCheckpoint>, scans: Vec<DriveScan>) -> (r: Option<
    IndexStore,
>)
    requires
        forall|i: int| 0 <= i < scans.len() ==> (#[trigger] scans@[i]).scan.wf(),
    ensures
        exists|start: IndexStore, mid: IndexStore|
            {
                &&& begins_with(start, checkpoints@)
                &&& #[trigger] scans_put_in(start, scans@, scans@.len() as int, mid)
                &&& r is None <==> mid.entries@.len() == 0
                &&& r is Some ==> finished(mid, r->0)
            },
{
    let mut store = IndexStore::new();
    store.checkpoints = checkpoints;
    let ghost start = store;
    proof {
        lemma_frame(start, start);
    }
    let ghost all = scans@;
    let ghost n = all.len() as int;
    let mut rest = scans;
    let mut left: Vec<DriveScan> = Vec::new();
    while rest.len() > 0
        invariant
            rest@ + left@.reverse() == all,
        decreases rest.len(),
    {
        let ghost before = rest@;
        let ghost was = left@;
        match rest.pop() {
            Some(s) => {
                left.push(s);
                assert(was.push(s).reverse() =~= seq![s] + was.reverse());
                assert(before =~= rest@.push(s));
                assert(rest@ + (seq![s] + was.reverse()) =~= before + was.reverse());
            },
            None => {},
        }
    }
    assert(left@.reverse() =~= all);
    let ghost mut done: int = 0;
    assert(scans_put_in(start, all, 0, store));
    while left.len() > 0
        invariant
            store.arenas_ok(),
            0 <= done <= n,
            n == all.len(),
            left.len() == n - done,
            forall|k: int| 0 <= k < left.len() ==> (#[trigger] left@[k]) == all[n - 1 - k],
            forall|i: int| 0 <= i < n ==> (#[trigger] all[i]).scan.wf(),
            scans_put_in(start, all, done, store),
        decreases left.len(),
    {
        let ghost mid = store;
        assert(left@.last() == all[done]);
        match left.pop() {
            Some(s) => {
                let drive = s.drive;
                store.try_populate_from_scan(s.scan, &drive);
                proof {
                    assert(put_in(mid, all[done], store));
                    done = done + 1;
                    lemma_put_next(start, all, done, mid, store);
                }
            },
            None => {},
        }
    }
    let ghost mid = store;
    assert(scans_put_in(start, all, n, mid));
    store.finalize();
    if store.entries.len() == 0 {
        proof {
            lemma_same_size(mid.entries@, store.entries@);
        }
        return None;
    }
    proof {
        lemma_same_size(mid.entries@, store.entries@);
        assert(finished(mid, store));
    }
    Some(store)
}

proof fn lemma_put_next(
    before: IndexStore,
    scans: Seq<DriveScan>,
    n: int,
    mid: IndexStore,
    after: IndexStore,
)
    requires
        n > 0,
        scans_put_in(before, scans, n - 1, mid),
        put_in(mid, scans[n - 1], after),
    ensures
        scans_put_in(before, scans, n, after),
{
}

proof fn lemma_same_size<A>(a: Seq<A>, b: Seq<A>)
    requires
        a.to_multiset() == b.to_multiset(),
    ensures
        a.len() == b.len(),
{
    a.to_multiset_ensures();
    b.to_multiset_ensures();
}

/// The live events that wait to be applied.
pub struct Applier {
    pub pending: Vec<IndexEvent>,
}

/// What came of an event.
#[derive(Clone, Copy, PartialEq, Eq, Structural)]
pub struct Applied {
    /// How many changes count towards the next save.
    pub counted: u64,
    /// The waiting events did not fit into the index and were left out.
    pub overflow: bool,
}

/// `after` is `before` with the waiting events applied, if they fit.
pub open spec fn flushed(before: IndexStore, pending: Seq<IndexEvent>, after: IndexStore) -> bool {
    if before.batch_room(pending) {
        batch_result(before, before.plan(pending), after)
    } else {
        after == before
    }
}

impl Applier {
    /// Nothing waits.
    pub fn new() -> (r: Applier)
        ensures
            r.pending@.len() == 0,
    {
        Applier { pending: Vec::new() }
    }

    /// Takes an event from the journals. A position is recorded only after all
    /// events before it are in the index, so a saved index always matches its
    /// positions. Other events wait until there are enough of them.
    pub fn take(&mut self, store: &mut IndexStore, event: IndexEvent) -> (r: Applied)
        requires
            old(store).wf(),
            old(self).pending@.len() < LIVE_BATCH,
        ensures
            final(store).wf(),
            final(self).pending@.len() < LIVE_BATCH,
            final(self).pending@.len() < 64,
            match event {
                IndexEvent::Checkpoint(cp) => {
                    &&& final(self).pending@.len() == 0
                    &&& final(store).checkpoints@ == with_position(old(store).checkpoints@, cp)
                    &&& r.counted == 1
                    &&& if old(self).pending@.len() == 0 {
                        !r.overflow && *final(store) == (IndexStore {
                            checkpoints: final(store).checkpoints,
                            ..*old(store)
                        })
                    } else {
                        &&& r.overflow == !old(store).batch_room(old(self).pending@)
                        &&& flushed(*old(store), old(self).pending@, IndexStore {
                            checkpoints: old(store).checkpoints,
                            ..*final(store)
                        })
                    }
                },
                _ => if old(self).pending@.len() + 1 < LIVE_BATCH {
                    &&& final(self).pending@ == old(self).pending@.push(event)
                    &&& *final(store) == *old(store)
                    &&& r == (Applied { counted: 0, overflow: false })
                } else {
                    &&& final(self).pending@.len() == 0
                    &&& flushed(*old(store), old(self).pending@.push(event), *final(store))
                    &&& r.counted == LIVE_BATCH
                    &&& r.overflow == !old(store).batch_room(old(self).pending@.push(event))
                },
            },
    {
        match event {
            IndexEvent::Checkpoint(cp) => {
                let mut overflow = false;
                if self.pending.len() > 0 {
                    let mut batch: Vec<IndexEvent> = Vec::new();
                    batch.append(&mut self.pending);
                    assert(batch@ =~= old(self).pending@);
                    overflow = !store.try_apply_events(batch);
                }
                let ghost mid = *store;
                assert(mid.checkpoints == old(store).checkpoints);
                set_position(store, cp);
                assert((IndexStore { checkpoints: old(store).checkpoints, ..*store }) == mid);
                Applied { counted: 1, overflow }
            },
            other => {
                self.pending.push(other);
                if self.pending.len() < LIVE_BATCH {
                    return Applied { counted: 0, overflow: false };
                }
                let n: u64 = self.pending.len() as u64;
                let mut batch: Vec<IndexEvent> = Vec::new();
                batch.append(&mut self.pending);
                assert(batch@ =~= old(self).pending@.push(other));
                let fits = store.try_apply_events(batch);
                Applied { counted: n, overflow: !fits }
            },
        }
    }
}

/// The last sign of the watcher of a volume, in milliseconds.
#[derive(Clone, Copy, PartialEq, Eq, Structural)]
pub struct Heartbeat {
    pub letter: char,
    pub at: u64,
}

/// A watcher that gave no sign for too long.
pub open spec fn is_stopped(beat: Heartbeat, now: u64) -> bool {
    now - beat.at > WATCH_TIMEOUT_MS
}

/// The volumes of the first `n` watchers that stopped.
pub open spec fn stopped(beats: Seq<Heartbeat>, now: u64, n: int) -> Seq<char>
    decreases n,
{
    if n <= 0 {
        Seq::empty()
    } else if is_stopped(beats[n - 1], now) {
        stopped(beats, now, n - 1).push(beats[n - 1].letter)
    } else {
        stopped(beats, now, n - 1)
    }
}

/// Looks at the signs of the watchers: the volumes whose watcher stopped, in
/// their order. Such a watcher counts as stopped from now on.
pub fn watchdog(beats: &mut Vec<Heartbeat>, now: u64) -> (r: Vec<char>)
    ensures
        r@ == stopped(old(beats)@, now, old(beats).len() as int),
        final(beats).len() == old(beats).len(),
        forall|i: int|
            0 <= i < old(beats).len() ==> #[trigger] final(beats)@[i] == if is_stopped(
                old(beats)@[i],
                now,
            ) {
                Heartbeat { at: 0, ..old(beats)@[i] }
            } else {
                old(beats)@[i]
            },
{
    let ghost before = beats@;
    let mut out: Vec<char> = Vec::new();
    let mut i: usize = 0;
    while i < beats.len()
        invariant
            i <= beats.len(),
            beats@.len() == before.len(),
            out@ == stopped(before, now, i as int),
            forall|k: int|
                0 <= k < before.len() ==> #[trigger] beats@[k] == if k < i && is_stopped(
                    before[k],
                    now,
                ) {
                    Heartbeat { at: 0, ..before[k] }
                } else {
                    before[k]
                },
        decreases beats.len() - i,
    {
        let b = beats[i];
        assert(b == before[i as int]);
        if now > b.at && now - b.at > WATCH_TIMEOUT_MS {
            beats.set(i, Heartbeat { letter: b.letter, at: 0 });
            out.push(b.letter);
        }
        i = i + 1;
    }
    out
}

/// The words for a watcher that stopped.
pub fn stopped_status(letter: char) -> (r: String)
    ensures
        r@ == ("File watcher on "@.push(letter))
            + " stopped — results may be stale. Use \"Try again\" to re-index."@,
{
    let mut out = "File watcher on ".to_owned();
    out.push(letter);
    out.push_str(" stopped — results may be stale. Use \"Try again\" to re-index.");
    out
}

/// Whether the cache is to be written after this many live changes.
pub fn save_due(changes: u64) -> (r: bool)
    ensures
        r == (changes >= SAVE_EVENT_WATERMARK),
        r <==> 500 <= changes,
{
    changes >= SAVE_EVENT_WATERMARK
}

/// The words for an index with this many entries.
pub fn indexed_status(count: usize) -> (r: String)
    ensures
        r@ == decimal(count as nat) + " files indexed"@,
{
    let mut out = decimal_text(count as u64);
    out.push_str(" files indexed");
    out
}

/// What the backend does once the saved index was loaded or not.
pub enum StartStep {
    /// Build an index now. `first_run` says whether to show that it is the first
    /// one.
    Build { first_run: bool },
    /// Serve what was loaded, with these words, and build an index meanwhile.
    Refresh(String),
    /// Begin to watch the volumes.
    Watch,
    /// Stop, with these words.
    Stop(String),
}

/// The words for an index that stayed empty.
pub const EMPTY_INDEX: &'static str = "No files were indexed — Finder needs administrator rights to read the NTFS journal. Relaunch as Administrator and press \"Try again\".";

/// The words for a refresh that read nothing.
pub const EMPTY_REFRESH: &'static str = "Refresh finished but nothing could be read — Finder needs administrator rights to read the NTFS journal.";

/// The words where no volume was found.
pub const NO_DRIVES: &'static str = "No NTFS drives found. Run as Administrator.";

/// What the backend does once the saved index was loaded, at a time in
/// milliseconds. `count` is how many entries the index has. An index without
/// entries is never presented as one.
pub fn after_load(load: CacheLoad, first_run: bool, count: usize, now: u64) -> (r: StartStep)
    ensures
        match load {
            CacheLoad::Scanning => r == (StartStep::Build { first_run }),
            CacheLoad::Provisional { snapshot_secs } => r is Refresh && r->Refresh_0@
                == "Index loaded from snapshot ("@ + ago(if now / 1000 > snapshot_secs {
                now as int / 1000 - snapshot_secs
            } else {
                0
            }) + ") — refreshing…"@,
            CacheLoad::Ready => if count == 0 {
                r is Stop && r->Stop_0@ == EMPTY_INDEX@
            } else {
                r is Watch
            },
        },
{
    match load {
        CacheLoad::Scanning => StartStep::Build { first_run },
        CacheLoad::Provisional { snapshot_secs } => {
            let mut words = "Index loaded from snapshot (".to_owned();
            let age = fmt_ago(now, snapshot_secs);
            words.push_str(age.as_str());
            words.push_str(") — refreshing…");
            StartStep::Refresh(words)
        },
        CacheLoad::Ready => {
            if count == 0 {
                StartStep::Stop(EMPTY_INDEX.to_owned())
            } else {
                StartStep::Watch
            }
        },
    }
}

/// What the backend does once an index was built: `refresh` says whether another
/// one was served meanwhile, `built` whether anything was read.
pub fn after_build(refresh: bool, built: bool) -> (r: StartStep)
    ensures
        built ==> r is Watch,
        !built ==> r is Stop && r->Stop_0@ == if refresh {
            EMPTY_REFRESH@
        } else {
            EMPTY_INDEX@
        },
{
    if built {
        StartStep::Watch
    } else if refresh {
        StartStep::Stop(EMPTY_REFRESH.to_owned())
    } else {
        StartStep::Stop(EMPTY_INDEX.to_owned())
    }
}

/// What is done about starting with the system.
#[derive(Clone, Copy, PartialEq, Eq, Structural)]
pub enum Autostart {
    /// Nothing.
    Leave,
    /// It is switched on: this is the first run.
    Create,
    /// A startup shortcut becomes a task.
    Migrate,
    /// The power conditions of the task are taken away.
    Repair,
}

/// What is done about starting with the system, by whether the task and the
/// shortcut are there, and whether the task was repaired before.
pub fn autostart_step(first_run: bool, task: bool, shortcut: bool, repaired: bool) -> (r: Autostart)
    ensures
        r == if first_run && !task && !shortcut {
            Autostart::Create
        } else if shortcut && !task {
            Autostart::Migrate
        } else if task && !repaired {
            Autostart::Repair
        } else {
            Autostart::Leave
        },
{
    if first_run && !(task || shortcut) {
        Autostart::Create
    } else if shortcut && !task {
        Autostart::Migrate
    } else if task && !repaired {
        Autostart::Repair
    } else {
        Autostart::Leave
    }
}

/// Where the cache file comes from.
#[derive(Clone, Copy, PartialEq, Eq, Structural)]
pub enum CacheSource {
    /// It is in its place, or there is none.
    InPlace,
    /// The file under the former name takes its place.
    Earlier,
    /// The file in the folder for temporary files takes its place.
    Temporary,
}

/// Where the cache file comes from, by which of the files are there.
pub fn cache_source(in_place: bool, earlier: bool, temporary: bool) -> (r: CacheSource)
    ensures
        r == if in_place {
            CacheSource::InPlace
        } else if earlier {
            CacheSource::Earlier
        } else if temporary {
            CacheSource::Temporary
        } else {
            CacheSource::InPlace
        },
{
    if in_place {
        CacheSource::InPlace
    } else if earlier {
        CacheSource::Earlier
    } else if temporary {
        CacheSource::Temporary
    } else {
        CacheSource::InPlace
    }
}

/// The words for a rebuild that read nothing.
pub const EMPTY_REBUILD: &'static str = "Rebuild finished but nothing could be read — run as Administrator and try again.";

/// What a rebuild that the user asked for ends in: whether the index is ready,
/// and the words for it. `volumes` says whether any volume was found, and
/// `built` how many entries the new index has, if anything was read.
pub fn rebuild_index(volumes: bool, built: Option<usize>) -> (r: (bool, String))
    ensures
        r.0 == (volumes && built is Some),
        r.1@ == if !volumes {
            NO_DRIVES@
        } else {
            match built {
                None => EMPTY_REBUILD@,
                Some(n) => decimal(n as nat) + " files indexed"@,
            }
        },
{
    if !volumes {
        return (false, NO_DRIVES.to_owned());
    }
    match built {
        None => (false, EMPTY_REBUILD.to_owned()),
        Some(n) => (true, indexed_status(n)),
    }
}

/// The words while a volume is scanned, the `number`-th of `total`.
pub fn scanning_status(letter: char, number: usize, total: usize) -> (r: String)
    ensures
        r@ == "Scanning "@.push(letter) + ": (drive "@ + decimal(number as nat) + "/"@ + decimal(
            total as nat,
        ) + ")..."@,
{
    let mut out = "Scanning ".to_owned();
    out.push(letter);
    out.push_str(": (drive ");
    out.push_str(decimal_text(number as u64).as_str());
    out.push_str("/");
    out.push_str(decimal_text(total as u64).as_str());
    out.push_str(")...");
    out
}

/// Putting an index in order keeps its entries, each as often as it was there,
/// and leaves them in the order of their lowercased names.
pub proof fn law_ordering_keeps_the_entries(before: IndexStore, after: IndexStore, e: IndexEntry)
    requires
        finished(before, after),
    ensures
        before.entries@.contains(e) <==> after.entries@.contains(e),
        before.entries@.len() == after.entries@.len(),
        forall|i: int, j: int|
            0 <= i < j < after.entries@.len() ==> lex_le(
                after.lower_of(#[trigger] after.entries@[i]),
                after.lower_of(#[trigger] after.entries@[j]),
            ),
        after.name_of(e) == before.name_of(e),
        after.drive_roots == before.drive_roots,
        after.checkpoints == before.checkpoints,
        after.junk_refs == before.junk_refs,
{
    before.entries@.to_multiset_ensures();
    after.entries@.to_multiset_ensures();
    assert(before.entries@.contains(e) <==> before.entries@.to_multiset().count(e) > 0);
    assert(after.entries@.contains(e) <==> after.entries@.to_multiset().count(e) > 0);
}

/// The volumes whose watchers gave no sign for more than a minute are told, all
/// of them and no others.
pub proof fn law_silent_watchers_are_told(beats: Seq<Heartbeat>, now: u64, n: int, letter: char)
    requires
        0 <= n <= beats.len(),
    ensures
        stopped(beats, now, n).contains(letter) <==> exists|i: int|
            0 <= i < n && (#[trigger] beats[i]).letter == letter && now > beats[i].at + 60_000,
    decreases n,
{
    if n > 0 {
        let was = stopped(beats, now, n - 1);
        let all = stopped(beats, now, n);
        law_silent_watchers_are_told(beats, now, n - 1, letter);
        if is_stopped(beats[n - 1], now) {
            assert(all.contains(letter) <==> was.contains(letter) || letter == beats[n - 1].letter)
                by {
                if all.contains(letter) {
                    let k = choose|k: int| 0 <= k < all.len() && all[k] == letter;
                    if k < was.len() {
                        assert(was[k] == letter);
                    }
                }
                if was.contains(letter) {
                    let k = choose|k: int| 0 <= k < was.len() && was[k] == letter;
                    assert(all[k] == letter);
                }
                assert(all[was.len() as int] == beats[n - 1].letter);
            }
        }
        if exists|i: int|
            0 <= i < n && (#[trigger] beats[i]).letter == letter && now > beats[i].at + 60_000 {
            let i = choose|i: int|
                0 <= i < n && (#[trigger] beats[i]).letter == letter && now > beats[i].at + 60_000;
            if i == n - 1 {
                assert(is_stopped(beats[n - 1], now));
            }
        }
    }
}

/// After the journals were read the position of a volume is the last one that its
/// journal was read to, and that of a volume whose journal was not read stays.
pub proof fn law_last_position_counts(
    cps: Seq<JournalCheckpoint>,
    replays: Seq<Replay>,
    n: int,
    letter: char,
    i: int,
)
    requires
        0 <= n <= replays.len(),
    ensures
        0 <= i < n && replays[i] is Done && replays[i]->Done_0.drive_letter == letter && (forall|
            k: int,
        |
            i < k < n && (#[trigger] replays[k]) is Done ==> replays[k]->Done_0.drive_letter
                != letter) ==> position_of(replayed(cps, replays, n), letter) == Some(
            replays[i]->Done_0,
        ),
        (forall|k: int|
            0 <= k < n && (#[trigger] replays[k]) is Done ==> replays[k]->Done_0.drive_letter
                != letter) ==> position_of(replayed(cps, replays, n), letter) == position_of(
            cps,
            letter,
        ),
    decreases n,
{
    if n > 0 {
        law_last_position_counts(cps, replays, n - 1, letter, i);
        match replays[n - 1] {
            Replay::Done(cp) => {
                law_position_is_recorded(replayed(cps, replays, n - 1), cp, letter);
            },
            Replay::Lost => {},
        }
    }
}

/// What comes of the saved index: without one all volumes are read; one that
/// cannot be used is thrown away; one without positions in the journals is served
/// until a new one is built; any other is brought up to date from its positions.
pub proof fn law_what_comes_of_the_saved_index(
    present: bool,
    cache: Option<CacheData>,
    secs: u64,
    r: LoadStep,
)
    requires
        load_steps(present, cache, secs, r),
    ensures
        ({
            let usable = present && cache is Some && cache->0.entries@.len() > 0
                && cache->0.small() && cache->0.valid();
            &&& r matches LoadStep::Done { store, load, discard } ==> {
                &&& !usable ==> load == CacheLoad::Scanning && store.entries@.len() == 0
                &&& usable ==> load == (CacheLoad::Provisional { snapshot_secs: secs }) && opened(
                    cache->0,
                    store,
                ) && cache->0.checkpoints@.len() == 0
                &&& discard <==> present && !usable
            }
            &&& r matches LoadStep::CatchUp { store, positions } ==> {
                &&& usable
                &&& opened(cache->0, store)
                &&& positions@ == cache->0.checkpoints@
                &&& positions@.len() > 0
            }
            &&& r is CatchUp <==> usable && cache->0.checkpoints@.len() > 0
        }),
{
}

} // verus!
