//! What a batch of journal events asks of the index.
use crate::index::live::{lower_utf8, name_utf8};
use crate::index::store::{
    drive_pos, junk_above, junk_at, junk_view, junk_with, junk_without, lemma_frame, register,
    roots_view, IndexEntry, IndexStore, WALK_LIMIT,
};
use crate::mft::types::{FileRecord, IndexEvent};
use std::collections::{HashMap, HashSet};
use vstd::prelude::*;

verus! {

/// What a batch of events asks: which records must vanish, and which must be
/// there, each with its newest state. On the way volumes are registered and
/// junk is remembered or forgotten.
#[verifier::ext_equal]
pub ghost struct Plan {
    pub roots: Seq<(char, Seq<char>)>,
    pub junk: Seq<Set<u64>>,
    pub gone: Set<(u8, u64)>,
    pub newest: Map<(u8, u64), FileRecord>,
}

impl Plan {
    /// A record that must be there with this state: its entry's place is taken
    /// by the newest one, unless it is below junk, in which case it is remembered
    /// as junk and must have no entry.
    pub open spec fn put(
        self,
        entries: Seq<IndexEntry>,
        lowers: Seq<u8>,
        d: int,
        record: FileRecord,
    ) -> Plan {
        if junk_above(
            entries,
            lowers,
            junk_at(self.junk, d),
            d as u8,
            record.parent_ref,
            WALK_LIMIT as nat,
        ) {
            Plan {
                junk: junk_with(self.junk, d, record.file_ref),
                ..self.drop(d, record.file_ref)
            }
        } else {
            Plan { newest: self.newest.insert((d as u8, record.file_ref), record), ..self }
        }
    }

    /// The record must vanish, with what the batch brought of it before.
    pub open spec fn drop(self, d: int, r: u64) -> Plan {
        Plan {
            gone: self.gone.insert((d as u8, r)),
            newest: self.newest.remove((d as u8, r)),
            ..self
        }
    }

    /// The record is no longer junk.
    pub open spec fn forget(self, d: int, r: u64) -> Plan {
        Plan { junk: junk_without(self.junk, d, r), ..self }
    }

    /// The volume is known.
    pub open spec fn with_drive(self, letter: char) -> Plan {
        Plan { roots: register(self.roots, letter), ..self }
    }

    /// One event more. Whether a record is below junk is decided by the index
    /// as it was before the batch.
    pub open spec fn step(
        self,
        entries: Seq<IndexEntry>,
        lowers: Seq<u8>,
        event: IndexEvent,
    ) -> Plan {
        match event {
            IndexEvent::Created { drive_letter, record } => {
                let d = drive_pos(self.roots, drive_letter);
                self.with_drive(drive_letter).put(entries, lowers, d, record)
            },
            IndexEvent::Deleted { drive_letter, file_ref } => {
                let d = drive_pos(self.roots, drive_letter);
                self.with_drive(drive_letter).drop(d, file_ref).forget(d, file_ref)
            },
            IndexEvent::Renamed { drive_letter, old_ref, new_record } => {
                let d = drive_pos(self.roots, drive_letter);
                self.with_drive(drive_letter).drop(d, old_ref).forget(d, old_ref).put(
                    entries,
                    lowers,
                    d,
                    new_record,
                )
            },
            IndexEvent::Moved { drive_letter, file_ref, new_parent_ref, name, kind } => {
                let d = drive_pos(self.roots, drive_letter);
                self.with_drive(drive_letter).drop(d, file_ref).put(
                    entries,
                    lowers,
                    d,
                    FileRecord { file_ref, parent_ref: new_parent_ref, name, kind },
                )
            },
            IndexEvent::Checkpoint(_) => self,
        }
    }

    /// Every record that loses the entry it has: those that must vanish, and
    /// those that get a newer one.
    pub open spec fn replaced(self) -> Set<(u8, u64)> {
        self.gone.union(self.newest.dom())
    }
}

impl IndexStore {
    /// The plan of an empty batch.
    pub open spec fn no_plan(&self) -> Plan {
        Plan {
            roots: roots_view(self.drive_roots@),
            junk: junk_view(self.junk_refs@),
            gone: Set::empty(),
            newest: Map::empty(),
        }
    }

    /// The plan of a batch of events.
    pub open spec fn plan(&self, events: Seq<IndexEvent>) -> Plan
        decreases events.len(),
    {
        if events.len() == 0 {
            self.no_plan()
        } else {
            self.plan(events.drop_last()).step(
                self.entries@,
                self.name_lower_arena@,
                events.last(),
            )
        }
    }
}

/// The name that an event brings into the index.
pub open spec fn event_name(event: IndexEvent) -> Option<Seq<char>> {
    match event {
        IndexEvent::Created { record, .. } => Some(record.name@),
        IndexEvent::Renamed { new_record, .. } => Some(new_record.name@),
        IndexEvent::Moved { name, .. } => Some(name@),
        _ => None,
    }
}

/// How many bytes the names of the events take, and their lowercase forms.
pub open spec fn event_bytes(events: Seq<IndexEvent>) -> (nat, nat)
    decreases events.len(),
{
    if events.len() == 0 {
        (0, 0)
    } else {
        let before = event_bytes(events.drop_last());
        match event_name(events.last()) {
            None => before,
            Some(name) => (before.0 + name_utf8(name).len(), before.1 + lower_utf8(name).len()),
        }
    }
}

/// No name of the events is too long for an entry.
pub open spec fn names_short(events: Seq<IndexEvent>) -> bool {
    forall|k: int|
        0 <= k < events.len() && (#[trigger] event_name(events[k])) is Some ==> name_utf8(
            event_name(events[k])->0,
        ).len() <= u16::MAX && lower_utf8(event_name(events[k])->0).len() <= u16::MAX
}

/// How many bytes the names of records take, and their lowercase forms.
pub open spec fn slot_bytes(slots: Seq<(u8, FileRecord)>) -> (nat, nat)
    decreases slots.len(),
{
    if slots.len() == 0 {
        (0, 0)
    } else {
        let before = slot_bytes(slots.drop_last());
        let name = slots.last().1.name@;
        (before.0 + name_utf8(name).len(), before.1 + lower_utf8(name).len())
    }
}

/// No name of the records is too long for an entry.
pub open spec fn slots_short(slots: Seq<(u8, FileRecord)>) -> bool {
    forall|s: int|
        0 <= s < slots.len() ==> name_utf8((#[trigger] slots[s]).1.name@).len() <= u16::MAX
            && lower_utf8(slots[s].1.name@).len() <= u16::MAX
}

/// The name of the record is not too long for an entry.
pub open spec fn record_short(record: FileRecord) -> bool {
    name_utf8(record.name@).len() <= u16::MAX && lower_utf8(record.name@).len() <= u16::MAX
}

/// Replacing a record replaces its share of the bytes.
proof fn lemma_slot_bytes_update(slots: Seq<(u8, FileRecord)>, s: int, x: (u8, FileRecord))
    requires
        0 <= s < slots.len(),
    ensures
        slot_bytes(slots.update(s, x)).0 + name_utf8(slots[s].1.name@).len() == slot_bytes(slots).0
            + name_utf8(x.1.name@).len(),
        slot_bytes(slots.update(s, x)).1 + lower_utf8(slots[s].1.name@).len() == slot_bytes(
            slots,
        ).1 + lower_utf8(x.1.name@).len(),
    decreases slots.len(),
{
    let up = slots.update(s, x);
    if s == slots.len() - 1 {
        assert(up.drop_last() =~= slots.drop_last());
    } else {
        assert(up.drop_last() =~= slots.drop_last().update(s, x));
        lemma_slot_bytes_update(slots.drop_last(), s, x);
    }
}

/// The first records take no more bytes than all.
pub proof fn lemma_slot_bytes_prefix(slots: Seq<(u8, FileRecord)>, n: int)
    requires
        0 <= n <= slots.len(),
    ensures
        slot_bytes(slots.take(n)).0 <= slot_bytes(slots).0,
        slot_bytes(slots.take(n)).1 <= slot_bytes(slots).1,
    decreases slots.len(),
{
    if n == slots.len() {
        assert(slots.take(n) =~= slots);
    } else {
        lemma_slot_bytes_prefix(slots.drop_last(), n);
        assert(slots.drop_last().take(n) =~= slots.take(n));
    }
}

/// A set of records, per volume.
pub struct RefSet {
    pub sets: Vec<HashSet<u64>>,
}

impl RefSet {
    /// The records in the set.
    pub open spec fn view(&self) -> Set<(u8, u64)> {
        Set::new(
            |k: (u8, u64)| k.0 < self.sets@.len() && self.sets@[k.0 as int]@.contains(k.1),
        )
    }

    /// An empty set.
    pub fn new() -> (r: Self)
        ensures
            r@ == Set::<(u8, u64)>::empty(),
    {
        let r = RefSet { sets: Vec::new() };
        assert(r@ =~= Set::<(u8, u64)>::empty());
        r
    }

    /// Puts a record in.
    pub fn insert(&mut self, drive: u8, r: u64)
        ensures
            final(self)@ == old(self)@.insert((drive, r)),
    {
        broadcast use vstd::std_specs::hash::group_hash_axioms;

        let d: usize = drive as usize;
        while self.sets.len() <= d
            invariant
                self@ == old(self)@,
            ensures
                self.sets@.len() > d,
            decreases d + 1 - self.sets@.len(),
        {
            let ghost before = self@;
            let ghost sets = self.sets@;
            let fresh: HashSet<u64> = HashSet::new();
            self.sets.push(fresh);
            assert forall|k: (u8, u64)| #[trigger] self@.contains(k) == before.contains(k) by {
                if k.0 < sets.len() {
                    assert(self.sets@[k.0 as int] == sets[k.0 as int]);
                }
            }
            assert(self@ =~= before);
        }
        let ghost sets = self.sets@;
        self.sets[d].insert(r);
        assert forall|k: (u8, u64)| #[trigger]
            self@.contains(k) == old(self)@.insert((drive, r)).contains(k) by {
            assert(old(self)@.contains(k) == (k.0 < sets.len() && sets[k.0 as int]@.contains(k.1)));
            if k.0 != drive && k.0 < sets.len() {
                assert(self.sets@[k.0 as int] == sets[k.0 as int]);
            }
        }
        assert(self@ =~= old(self)@.insert((drive, r)));
    }

    /// Whether a record is in the set.
    pub fn contains(&self, drive: u8, r: u64) -> (b: bool)
        ensures
            b == self@.contains((drive, r)),
    {
        broadcast use vstd::std_specs::hash::group_hash_axioms;

        let d: usize = drive as usize;
        d < self.sets.len() && self.sets[d].contains(&r)
    }
}

/// The newest state of each record of a batch, in the order in which the
/// records first came.
pub struct Newest {
    pub slots: Vec<(u8, FileRecord)>,
    pub seen: Vec<HashMap<u64, usize>>,
}

impl Newest {
    /// The record number of a slot.
    pub open spec fn key(&self, s: int) -> (u8, u64) {
        (self.slots@[s].0, self.slots@[s].1.file_ref)
    }

    /// Each slot is found by its record number, and nothing else is.
    pub open spec fn wf(&self) -> bool {
        &&& forall|s: int|
            0 <= s < self.slots@.len() ==> {
                let k = #[trigger] self.key(s);
                k.0 < self.seen@.len() && self.seen@[k.0 as int]@.contains_key(k.1)
                    && self.seen@[k.0 as int]@[k.1] == s
            }
        &&& forall|d: int, r: u64|
            0 <= d < self.seen@.len() && #[trigger] self.seen@[d]@.contains_key(r) ==> {
                let s = self.seen@[d]@[r];
                s < self.slots@.len() && self.key(s as int) == (d as u8, r) && d < 256
            }
        &&& self.seen@.len() <= 256
    }

    /// The slots hold exactly the records of `newest`.
    pub open spec fn holds(&self, newest: Map<(u8, u64), FileRecord>) -> bool {
        &&& forall|s: int|
            0 <= s < self.slots@.len() ==> newest.contains_key(#[trigger] self.key(s))
                && newest[self.key(s)] == self.slots@[s].1
        &&& forall|k: (u8, u64)| #[trigger]
            newest.contains_key(k) ==> exists|s: int|
                0 <= s < self.slots@.len() && #[trigger] self.key(s) == k
    }

    /// No records.
    pub fn new() -> (r: Self)
        ensures
            r.wf(),
            r.slots@.len() == 0,
            r.holds(Map::empty()),
    {
        Newest { slots: Vec::new(), seen: Vec::new() }
    }

    /// Puts the newest state of a record in.
    pub(crate) fn put(&mut self, drive: u8, record: FileRecord, Ghost(newest): Ghost<
        Map<(u8, u64), FileRecord>,
    >)
        requires
            old(self).wf(),
            old(self).holds(newest),
        ensures
            final(self).wf(),
            final(self).holds(newest.insert((drive, record.file_ref), record)),
            final(self).slots@.len() <= old(self).slots@.len() + 1,
            forall|t: int|
                0 <= t < final(self).slots@.len() ==> #[trigger] final(self).slots@[t] == (
                    drive,
                    record,
                ) || (t < old(self).slots@.len() && final(self).slots@[t] == old(self).slots@[t]),
            slot_bytes(final(self).slots@).0 <= slot_bytes(old(self).slots@).0 + name_utf8(
                record.name@,
            ).len(),
            slot_bytes(final(self).slots@).1 <= slot_bytes(old(self).slots@).1 + lower_utf8(
                record.name@,
            ).len(),
    {
        broadcast use vstd::std_specs::hash::group_hash_axioms;

        let d: usize = drive as usize;
        let r: u64 = record.file_ref;
        while self.seen.len() <= d
            invariant
                d < 256,
                self.wf(),
                self.slots == old(self).slots,
            ensures
                self.seen@.len() > d,
            decreases d + 1 - self.seen@.len(),
        {
            let ghost before = self.seen@;
            let ghost was = *self;
            let fresh: HashMap<u64, usize> = HashMap::new();
            self.seen.push(fresh);
            proof {
                assert(self.seen@ == before.push(fresh));
                assert forall|s: int| 0 <= s < self.slots@.len() implies {
                    let k = #[trigger] self.key(s);
                    k.0 < self.seen@.len() && self.seen@[k.0 as int]@.contains_key(k.1)
                        && self.seen@[k.0 as int]@[k.1] == s
                } by {
                    assert(was.key(s) == self.key(s));
                }
                assert forall|e: int, q: u64|
                    0 <= e < self.seen@.len() && #[trigger] self.seen@[e]@.contains_key(q) implies {
                    let s = self.seen@[e]@[q];
                    s < self.slots@.len() && self.key(s as int) == (e as u8, q) && e < 256
                } by {
                    if e < before.len() {
                        assert(before[e]@.contains_key(q));
                        assert(was.key(before[e]@[q] as int) == (e as u8, q));
                    }
                }
            }
        }
        let ghost was = *self;
        let found: Option<usize> = match self.seen[d].get(&r) {
            Some(s) => Some(*s),
            None => None,
        };
        let ghost after = newest.insert((drive, r), record);
        match found {
            Some(s) => {
                assert(self.seen@[d as int]@.contains_key(r));
                assert(self.key(s as int) == (drive, r));
                proof {
                    lemma_slot_bytes_update(self.slots@, s as int, (drive, record));
                }
                self.slots.set(s, (drive, record));
                assert forall|t: int| 0 <= t < self.slots@.len() implies #[trigger] self.key(t)
                    == was.key(t) by {}
                assert forall|e: int, q: u64|
                    0 <= e < self.seen@.len() && #[trigger] self.seen@[e]@.contains_key(q) implies {
                    let t = self.seen@[e]@[q];
                    t < self.slots@.len() && self.key(t as int) == (e as u8, q) && e < 256
                } by {
                    assert(was.seen@[e]@.contains_key(q));
                    assert(was.key(was.seen@[e]@[q] as int) == (e as u8, q));
                }
                assert forall|t: int| 0 <= t < self.slots@.len() implies after.contains_key(
                    #[trigger] self.key(t),
                ) && after[self.key(t)] == self.slots@[t].1 by {
                    assert(old(self).key(t) == self.key(t));
                    if t != s {
                        assert(was.seen@[was.key(t).0 as int]@[was.key(t).1] == t);
                        assert(self.key(t) != (drive, r));
                    }
                }
                assert forall|k: (u8, u64)| #[trigger] after.contains_key(k) implies exists|t: int|
                    0 <= t < self.slots@.len() && #[trigger] self.key(t) == k by {
                    if k == (drive, r) {
                        assert(self.key(s as int) == k);
                    } else {
                        assert(newest.contains_key(k));
                        let t = choose|t: int|
                            0 <= t < old(self).slots@.len() && #[trigger] old(self).key(t) == k;
                        assert(self.key(t) == k);
                    }
                }
            },
            None => {
                let n: usize = self.slots.len();
                assert(!was.seen@[d as int]@.contains_key(r));
                self.seen[d].insert(r, n);
                self.slots.push((drive, record));
                proof {
                    assert(self.slots@.drop_last() =~= was.slots@);
                    assert(self.key(n as int) == (drive, r));
                    assert forall|t: int| 0 <= t < n implies #[trigger] self.key(t) == was.key(
                        t,
                    ) by {}
                    assert(self.seen@[d as int]@ == was.seen@[d as int]@.insert(r, n));
                    assert forall|s: int| 0 <= s < self.slots@.len() implies {
                        let k = #[trigger] self.key(s);
                        k.0 < self.seen@.len() && self.seen@[k.0 as int]@.contains_key(k.1)
                            && self.seen@[k.0 as int]@[k.1] == s
                    } by {
                        if s < n {
                            let k = was.key(s);
                            assert(was.seen@[k.0 as int]@.contains_key(k.1));
                            if k.0 != d {
                                assert(self.seen@[k.0 as int] == was.seen@[k.0 as int]);
                            }
                        }
                    }
                    assert forall|e: int, q: u64|
                        0 <= e < self.seen@.len()
                            && #[trigger] self.seen@[e]@.contains_key(q) implies {
                        let t = self.seen@[e]@[q];
                        t < self.slots@.len() && self.key(t as int) == (e as u8, q) && e < 256
                    } by {
                        if e != d {
                            assert(self.seen@[e] == was.seen@[e]);
                            assert(was.seen@[e]@.contains_key(q));
                        } else if q != r {
                            assert(was.seen@[e]@.contains_key(q));
                        }
                    }
                    assert forall|t: int| 0 <= t < self.slots@.len() implies after.contains_key(
                        #[trigger] self.key(t),
                    ) && after[self.key(t)] == self.slots@[t].1 by {
                        if t < n {
                            assert(old(self).key(t) == self.key(t));
                            assert(was.seen@[was.key(t).0 as int]@.contains_key(was.key(t).1));
                        }
                    }
                    assert forall|k: (u8, u64)| #[trigger] after.contains_key(k) implies exists|
                        t: int,
                    |
                        0 <= t < self.slots@.len() && #[trigger] self.key(t) == k by {
                        if k == (drive, r) {
                            assert(self.key(n as int) == k);
                        } else {
                            assert(newest.contains_key(k));
                            let t = choose|t: int|
                                0 <= t < old(self).slots@.len() && #[trigger] old(self).key(t) == k;
                            assert(self.key(t) == k);
                        }
                    }
                }
            },
        }
    }
    /// Takes a record out, if it is in.
    pub(crate) fn take_out(&mut self, drive: u8, r: u64, Ghost(newest): Ghost<
        Map<(u8, u64), FileRecord>,
    >)
        requires
            old(self).wf(),
            old(self).holds(newest),
        ensures
            final(self).wf(),
            final(self).holds(newest.remove((drive, r))),
            final(self).slots@.len() <= old(self).slots@.len(),
            slots_short(old(self).slots@) ==> slots_short(final(self).slots@),
            slot_bytes(final(self).slots@).0 <= slot_bytes(old(self).slots@).0,
            slot_bytes(final(self).slots@).1 <= slot_bytes(old(self).slots@).1,
    {
        broadcast use vstd::std_specs::hash::group_hash_axioms;

        let d: usize = drive as usize;
        let ghost was = *self;
        let ghost after = newest.remove((drive, r));
        let found: Option<usize> = if d < self.seen.len() {
            match self.seen[d].get(&r) {
                Some(s) => Some(*s),
                None => None,
            }
        } else {
            None
        };
        let s: usize = match found {
            Some(s) => s,
            None => {
                proof {
                    if newest.contains_key((drive, r)) {
                        let t = choose|t: int|
                            0 <= t < was.slots@.len() && #[trigger] was.key(t) == (drive, r);
                        assert(was.seen@[was.key(t).0 as int]@.contains_key(r));
                    }
                    assert(after =~= newest);
                }
                return;
            },
        };
        assert(was.seen@[d as int]@.contains_key(r));
        assert(was.key(s as int) == (drive, r));
        assert(newest.contains_key(was.key(s as int)));
        self.seen[d].remove(&r);
        let ghost cut = *self;
        let last: usize = self.slots.len() - 1;
        let popped = self.slots.pop();
        let ghost x = was.slots@.last();
        assert(popped == Some(x));
        match popped {
            Some(moved) => {
                if s < last {
                    let e: usize = moved.0 as usize;
                    assert(was.key(last as int) == (moved.0, moved.1.file_ref));
                    self.seen[e].insert(moved.1.file_ref, s);
                    self.slots.set(s, moved);
                }
            },
            None => {},
        }
        proof {
            if s < last {
                lemma_slot_bytes_update(was.slots@, s as int, x);
                assert(self.slots@ =~= was.slots@.update(s as int, x).drop_last());
                assert(was.slots@.update(s as int, x).last() == x);
            } else {
                assert(self.slots@ =~= was.slots@.drop_last());
            }
            assert forall|t: int| 0 <= t < last && t != s implies #[trigger] self.key(t)
                == was.key(t) by {}
            if s < last {
                assert(self.key(s as int) == was.key(last as int));
            }
            let moved = was.key(last as int);
            assert(was.seen@[moved.0 as int]@[moved.1] == last);
            assert forall|t: int| 0 <= t < self.slots@.len() implies {
                let k = #[trigger] self.key(t);
                k.0 < self.seen@.len() && self.seen@[k.0 as int]@.contains_key(k.1)
                    && self.seen@[k.0 as int]@[k.1] == t
            } by {
                let from = if t == s { last as int } else { t };
                let k = was.key(from);
                assert(k == self.key(t));
                assert(was.seen@[k.0 as int]@[k.1] == from);
                assert(k != (drive, r));
                assert(cut.seen@[k.0 as int]@.contains_key(k.1));
                assert(cut.seen@[k.0 as int]@[k.1] == from);
                if t != s {
                    assert(k != moved);
                }
            }
            assert forall|e: int, q: u64|
                0 <= e < self.seen@.len() && #[trigger] self.seen@[e]@.contains_key(q) implies {
                let t = self.seen@[e]@[q];
                t < self.slots@.len() && self.key(t as int) == (e as u8, q) && e < 256
            } by {
                if s < last && e == moved.0 && q == moved.1 {
                    assert(self.seen@[e]@[q] == s);
                } else {
                    assert(cut.seen@[e]@.contains_key(q));
                    assert(was.seen@[e]@.contains_key(q));
                    let t = was.seen@[e]@[q];
                    assert(was.key(t as int) == (e as u8, q));
                    assert(self.seen@[e]@[q] == t);
                    assert(!(e == d && q == r));
                    assert(t != s);
                    assert(t != last);
                }
            }
            assert forall|t: int| 0 <= t < self.slots@.len() implies after.contains_key(
                #[trigger] self.key(t),
            ) && after[self.key(t)] == self.slots@[t].1 by {
                let from = if t == s { last as int } else { t };
                let k = was.key(from);
                assert(k == self.key(t));
                assert(newest.contains_key(k));
                assert(was.seen@[k.0 as int]@[k.1] == from);
                assert(k != (drive, r));
            }
            assert forall|k: (u8, u64)| #[trigger] after.contains_key(k) implies exists|t: int|
                0 <= t < self.slots@.len() && #[trigger] self.key(t) == k by {
                assert(newest.contains_key(k));
                let t = choose|t: int| 0 <= t < was.slots@.len() && #[trigger] was.key(t) == k;
                assert(t != s);
                if t == last {
                    assert(self.key(s as int) == k);
                } else {
                    assert(self.key(t) == k);
                }
            }
            if slots_short(was.slots@) {
                assert forall|t: int| 0 <= t < self.slots@.len() implies record_short(
                    (#[trigger] self.slots@[t]).1,
                ) by {
                    assert(self.slots@[t] == was.slots@[if t == s { last as int } else { t }]);
                }
            }
        }
    }
}

/// The volumes of a plan are never forgotten.
proof fn lemma_roots_grow(
    plan: Plan,
    entries: Seq<IndexEntry>,
    lowers: Seq<u8>,
    event: IndexEvent,
)
    ensures
        plan.roots.len() <= plan.step(entries, lowers, event).roots.len(),
        forall|letter: char|
            register(plan.roots, letter).len() <= plan.step(entries, lowers, event).roots.len()
                || !is_of(event, letter),
{
}

/// The event is of the volume with this letter.
pub open spec fn is_of(event: IndexEvent, letter: char) -> bool {
    match event {
        IndexEvent::Created { drive_letter, .. } => drive_letter == letter,
        IndexEvent::Deleted { drive_letter, .. } => drive_letter == letter,
        IndexEvent::Renamed { drive_letter, .. } => drive_letter == letter,
        IndexEvent::Moved { drive_letter, .. } => drive_letter == letter,
        IndexEvent::Checkpoint(_) => false,
    }
}

/// A part of a batch knows no more volumes than the whole.
proof fn lemma_roots_prefix(store: IndexStore, events: Seq<IndexEvent>, n: int)
    requires
        0 <= n <= events.len(),
    ensures
        store.plan(events.take(n)).roots.len() <= store.plan(events).roots.len(),
    decreases events.len(),
{
    if n == events.len() {
        assert(events.take(n) =~= events);
    } else {
        lemma_roots_prefix(store, events.drop_last(), n);
        assert(events.drop_last().take(n) =~= events.take(n));
        lemma_roots_grow(
            store.plan(events.drop_last()),
            store.entries@,
            store.name_lower_arena@,
            events.last(),
        );
    }
}

impl IndexStore {
    /// Puts the newest state of a record in, or remembers it as junk and drops it.
    fn place(
        &mut self,
        gone: &mut RefSet,
        newest: &mut Newest,
        drive: u8,
        record: FileRecord,
        Ghost(plan): Ghost<Plan>,
    )
        requires
            old(self).arenas_ok(),
            old(self).lookup_ok(),
            old(newest).wf(),
            old(newest).holds(plan.newest),
            old(gone)@ == plan.gone,
            junk_view(old(self).junk_refs@) == plan.junk,
        ensures
            *final(self) == (IndexStore { junk_refs: final(self).junk_refs, ..*old(self) }),
            ({
                let after = plan.put(
                    old(self).entries@,
                    old(self).name_lower_arena@,
                    drive as int,
                    record,
                );
                final(newest).holds(after.newest) && final(gone)@ == after.gone && junk_view(
                    final(self).junk_refs@,
                ) == after.junk
            }),
            final(newest).wf(),
            final(newest).slots@.len() <= old(newest).slots@.len() + 1,
            slots_short(old(newest).slots@) && record_short(record) ==> slots_short(
                final(newest).slots@,
            ),
            slot_bytes(final(newest).slots@).0 <= slot_bytes(old(newest).slots@).0 + name_utf8(
                record.name@,
            ).len(),
            slot_bytes(final(newest).slots@).1 <= slot_bytes(old(newest).slots@).1 + lower_utf8(
                record.name@,
            ).len(),
    {
        if self.is_live_junk(record.parent_ref, drive) {
            self.add_junk(drive, record.file_ref);
            gone.insert(drive, record.file_ref);
            newest.take_out(drive, record.file_ref, Ghost(plan.newest));
        } else {
            newest.put(drive, record, Ghost(plan.newest));
        }
    }

    /// Sorts the events of a batch into records that must vanish and records
    /// that must be there. Volumes are registered and junk is remembered or
    /// forgotten on the way; nothing else changes.
    pub(crate) fn classify(&mut self, events: &Vec<IndexEvent>) -> (r: (RefSet, Newest))
        requires
            old(self).arenas_ok(),
            old(self).lookup_ok(),
            old(self).plan(events@).roots.len() <= 256,
        ensures
            roots_view(final(self).drive_roots@) == old(self).plan(events@).roots,
            junk_view(final(self).junk_refs@) == old(self).plan(events@).junk,
            r.0@ == old(self).plan(events@).gone,
            r.1.wf(),
            r.1.holds(old(self).plan(events@).newest),
            r.1.slots@.len() <= events@.len(),
            names_short(events@) ==> slots_short(r.1.slots@),
            slot_bytes(r.1.slots@).0 <= event_bytes(events@).0,
            slot_bytes(r.1.slots@).1 <= event_bytes(events@).1,
            *final(self) == (IndexStore {
                drive_roots: final(self).drive_roots,
                junk_refs: final(self).junk_refs,
                ..*old(self)
            }),
    {
        let ghost start = *self;
        let mut gone = RefSet::new();
        let mut newest = Newest::new();
        let mut i: usize = 0;
        assert(events@.take(0).len() == 0);
        while i < events.len()
            invariant
                i <= events@.len(),
                start == *old(self),
                start.arenas_ok(),
                start.lookup_ok(),
                start.plan(events@).roots.len() <= 256,
                roots_view(self.drive_roots@) == start.plan(events@.take(i as int)).roots,
                junk_view(self.junk_refs@) == start.plan(events@.take(i as int)).junk,
                gone@ == start.plan(events@.take(i as int)).gone,
                newest.wf(),
                newest.holds(start.plan(events@.take(i as int)).newest),
                newest.slots@.len() <= i,
                names_short(events@) ==> slots_short(newest.slots@),
                slot_bytes(newest.slots@).0 <= event_bytes(events@.take(i as int)).0,
                slot_bytes(newest.slots@).1 <= event_bytes(events@.take(i as int)).1,
                *self == (IndexStore {
                    drive_roots: self.drive_roots,
                    junk_refs: self.junk_refs,
                    ..start
                }),
            decreases events@.len() - i,
        {
            let ghost plan = start.plan(events@.take(i as int));
            let ghost next = start.plan(events@.take(i + 1));
            proof {
                assert(events@.take(i + 1).drop_last() =~= events@.take(i as int));
                assert(events@.take(i + 1).last() == events@[i as int]);
                assert(next == plan.step(
                    start.entries@,
                    start.name_lower_arena@,
                    events@[i as int],
                ));
                lemma_roots_prefix(start, events@, i + 1);
                lemma_roots_grow(
                    plan,
                    start.entries@,
                    start.name_lower_arena@,
                    events@[i as int],
                );
                lemma_frame(start, *self);
            }
            assert(names_short(events@) && event_name(events@[i as int]) is Some ==> name_utf8(
                event_name(events@[i as int])->0,
            ).len() <= u16::MAX);
            match &events[i] {
                IndexEvent::Created { drive_letter, record } => {
                    assert(is_of(events@[i as int], *drive_letter));
                    let d: u8 = self.drive_index(*drive_letter);
                    proof {
                        lemma_frame(start, *self);
                    }
                    self.place(
                        &mut gone,
                        &mut newest,
                        d,
                        record.clone(),
                        Ghost(plan.with_drive(*drive_letter)),
                    );
                },
                IndexEvent::Deleted { drive_letter, file_ref } => {
                    assert(is_of(events@[i as int], *drive_letter));
                    let d: u8 = self.drive_index(*drive_letter);
                    gone.insert(d, *file_ref);
                    newest.take_out(d, *file_ref, Ghost(plan.newest));
                    self.drop_junk(d, *file_ref);
                },
                IndexEvent::Renamed { drive_letter, old_ref, new_record } => {
                    assert(is_of(events@[i as int], *drive_letter));
                    let d: u8 = self.drive_index(*drive_letter);
                    gone.insert(d, *old_ref);
                    newest.take_out(d, *old_ref, Ghost(plan.newest));
                    self.drop_junk(d, *old_ref);
                    proof {
                        lemma_frame(start, *self);
                    }
                    self.place(
                        &mut gone,
                        &mut newest,
                        d,
                        new_record.clone(),
                        Ghost(
                            plan.with_drive(*drive_letter).drop(d as int, *old_ref).forget(
                                d as int,
                                *old_ref,
                            ),
                        ),
                    );
                },
                IndexEvent::Moved { drive_letter, file_ref, new_parent_ref, name, kind } => {
                    assert(is_of(events@[i as int], *drive_letter));
                    let d: u8 = self.drive_index(*drive_letter);
                    gone.insert(d, *file_ref);
                    newest.take_out(d, *file_ref, Ghost(plan.newest));
                    proof {
                        lemma_frame(start, *self);
                    }
                    let record = FileRecord {
                        file_ref: *file_ref,
                        parent_ref: *new_parent_ref,
                        name: name.clone(),
                        kind: *kind,
                    };
                    self.place(
                        &mut gone,
                        &mut newest,
                        d,
                        record,
                        Ghost(plan.with_drive(*drive_letter).drop(d as int, *file_ref)),
                    );
                },
                IndexEvent::Checkpoint(_) => {},
            }
            i = i + 1;
        }
        assert(events@.take(i as int) =~= events@);
        (gone, newest)
    }
}

} // verus!
