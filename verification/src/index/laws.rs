//! What holds of the index as a whole.
use crate::backend::finished;
use crate::index::batch::{batch_result, key_of, stands_for};
use crate::index::live::{lemma_filter_embeds, lower_utf8};
use crate::index::plan::{is_of, Plan};
use crate::index::scan::{
    all_dirs, clean, clean_rows, lemma_clean_rows, lemma_permuted, populated, scan_above, scan_dirs,
    scan_name, scanned,
};
use crate::index::store::{
    dirs_above, drive_pos, is_record, junk_above, junk_at, junk_view, junk_without,
    lemma_drive_pos_range, lemma_row_is, lemma_row_of, lower_in, meta_of, register, roots_view,
    row_of, same_record, IndexEntry, IndexStore, WALK_LIMIT,
};
use crate::mft::reader::ScanResult;
use crate::mft::types::{FileKind, FileRecord, IndexEvent};
use crate::text::lowercase;
use vstd::prelude::*;
use vstd::utf8::*;

verus! {

/// Every entry is found by its record number: where no two entries of a volume
/// share one, looking an entry's number up gives its own position.
pub proof fn law_every_entry_is_reachable(store: IndexStore, i: int)
    requires
        store.unique_refs(),
        0 <= i < store.entries@.len(),
    ensures
        row_of(store.entries@, store.entries@[i].drive, store.entries@[i].file_ref) == Some(i),
{
    let e = store.entries@[i];
    assert forall|k: int| 0 <= k < i implies !is_record(
        #[trigger] store.entries@[k],
        e.drive,
        e.file_ref,
    ) by {
        assert(!same_record(store.entries@[k], store.entries@[i]));
    }
    lemma_row_is(store.entries@, e.drive, e.file_ref, i);
}

/// Where an entry that a filter keeps comes from, and that it is kept.
proof fn lemma_filter_contains(
    s: Seq<IndexEntry>,
    keep: spec_fn(IndexEntry) -> bool,
    e: IndexEntry,
)
    ensures
        s.filter(keep).contains(e) <==> s.contains(e) && keep(e),
{
    let at = lemma_filter_embeds(s, keep);
    let part = s.filter(keep);
    if part.contains(e) {
        let k = choose|k: int| 0 <= k < part.len() && part[k] == e;
        assert(s[at[k]] == e);
        assert(keep(part[k]));
    }
    if s.contains(e) && keep(e) {
        let i = choose|i: int| 0 <= i < s.len() && s[i] == e;
        assert(at.contains(i));
        let k = choose|k: int| 0 <= k < at.len() && at[k] == i;
        assert(part[k] == e);
    }
}

/// A batch leaves alone what it does not name: the entries of all other records
/// are in the index after it exactly where they were before it.
pub proof fn law_batch_leaves_others(
    before: IndexStore,
    plan: Plan,
    after: IndexStore,
    e: IndexEntry,
)
    requires
        batch_result(before, plan, after),
        !plan.replaced().contains(key_of(e)),
    ensures
        before.entries@.contains(e) <==> after.entries@.contains(e),
{
    lemma_filter_contains(
        before.entries@,
        |e: IndexEntry| !plan.replaced().contains(key_of(e)),
        e,
    );
    lemma_filter_contains(
        after.entries@,
        |e: IndexEntry| !plan.newest.contains_key(key_of(e)),
        e,
    );
}

/// What a batch drops is gone: a record that must vanish and does not come back
/// in the same batch has no entry after it.
pub proof fn law_batch_drops(before: IndexStore, plan: Plan, after: IndexStore, k: (u8, u64))
    requires
        batch_result(before, plan, after),
        plan.gone.contains(k),
        !plan.newest.contains_key(k),
    ensures
        forall|i: int|
            0 <= i < after.entries@.len() ==> !is_record(#[trigger] after.entries@[i], k.0, k.1),
{
    assert forall|i: int| 0 <= i < after.entries@.len() implies !is_record(
        #[trigger] after.entries@[i],
        k.0,
        k.1,
    ) by {
        let e = after.entries@[i];
        if is_record(e, k.0, k.1) {
            assert(after.entries@.contains(e));
            lemma_filter_contains(
                after.entries@,
                |e: IndexEntry| !plan.newest.contains_key(key_of(e)),
                e,
            );
            lemma_filter_contains(
                before.entries@,
                |e: IndexEntry| !plan.replaced().contains(key_of(e)),
                e,
            );
            assert(plan.replaced().contains(key_of(e)));
        }
    }
}

/// No batch makes duplicates: where no two entries of a volume share a record
/// number before it, none do after it.
pub proof fn law_batch_keeps_refs_unique(before: IndexStore, plan: Plan, after: IndexStore)
    requires
        batch_result(before, plan, after),
        before.unique_refs(),
    ensures
        after.unique_refs(),
{
    let keep_old = |e: IndexEntry| !plan.replaced().contains(key_of(e));
    let keep_new = |e: IndexEntry| !plan.newest.contains_key(key_of(e));
    let from = lemma_filter_embeds(before.entries@, keep_old);
    let to = lemma_filter_embeds(after.entries@, keep_new);
    let kept = before.entries@.filter(keep_old);
    assert forall|i: int, j: int| 0 <= i < j < after.entries@.len() implies !same_record(
        #[trigger] after.entries@[i],
        #[trigger] after.entries@[j],
    ) by {
        let a = after.entries@[i];
        let b = after.entries@[j];
        if same_record(a, b) {
            assert(key_of(a) == key_of(b));
            assert(keep_new(a) && keep_new(b));
            assert(to.contains(i) && to.contains(j));
            let p = choose|p: int| 0 <= p < to.len() && to[p] == i;
            let q = choose|q: int| 0 <= q < to.len() && to[q] == j;
            if q < p {
                assert(to[q] < to[p]);
            }
            assert(kept[p] == a && kept[q] == b);
            assert(from[p] < from[q]);
            assert(before.entries@[from[p]] == a);
            assert(before.entries@[from[q]] == b);
        }
    }
}

/// The plan names records of one volume only.
spec fn plan_is_of(plan: Plan, d: int) -> bool {
    &&& forall|k: (u8, u64)| #[trigger] plan.gone.contains(k) ==> k.0 == d
    &&& forall|k: (u8, u64)| #[trigger] plan.newest.contains_key(k) ==> k.0 == d
}

proof fn lemma_plan_is_of(store: IndexStore, events: Seq<IndexEvent>, letter: char)
    requires
        forall|k: int, c: char|
            0 <= k < events.len() && #[trigger] is_of(events[k], c) ==> c == letter,
        store.plan(events).roots.len() <= 256,
    ensures
        plan_is_of(store.plan(events), drive_pos(roots_view(store.drive_roots@), letter)),
        drive_pos(store.plan(events).roots, letter) == drive_pos(
            roots_view(store.drive_roots@),
            letter,
        ),
    decreases events.len(),
{
    let roots = roots_view(store.drive_roots@);
    if events.len() > 0 {
        let head = events.drop_last();
        let event = events.last();
        assert forall|k: int, c: char| 0 <= k < head.len() && #[trigger] is_of(
            head[k],
            c,
        ) implies c == letter by {
            assert(is_of(events[k], c));
        }
        let plan = store.plan(head);
        assert(plan.roots.len() <= store.plan(events).roots.len());
        lemma_plan_is_of(store, head, letter);
        lemma_drive_pos_range(plan.roots, letter);
        lemma_drive_pos_range(roots, letter);
        lemma_register_pos(plan.roots, letter);
        assert(events[events.len() - 1] == event);
        match event {
            IndexEvent::Created { drive_letter, .. } => {
                assert(is_of(event, drive_letter));
            },
            IndexEvent::Deleted { drive_letter, .. } => {
                assert(is_of(event, drive_letter));
            },
            IndexEvent::Renamed { drive_letter, .. } => {
                assert(is_of(event, drive_letter));
            },
            IndexEvent::Moved { drive_letter, .. } => {
                assert(is_of(event, drive_letter));
            },
            IndexEvent::Checkpoint(_) => {},
        }
    }
}

/// Registering a volume does not move it.
proof fn lemma_register_pos(roots: Seq<(char, Seq<char>)>, letter: char)
    ensures
        drive_pos(register(roots, letter), letter) == drive_pos(roots, letter),
{
    lemma_drive_pos_range(roots, letter);
    if drive_pos(roots, letter) == roots.len() {
        lemma_pos_push(roots, letter, (letter, seq![letter] + ":\\"@));
    }
}

proof fn lemma_pos_push(
    roots: Seq<(char, Seq<char>)>,
    letter: char,
    x: (char, Seq<char>),
)
    requires
        drive_pos(roots, letter) == roots.len(),
        x.0 == letter,
    ensures
        drive_pos(roots.push(x), letter) == roots.len(),
    decreases roots.len(),
{
    if roots.len() > 0 {
        assert(roots.push(x)[0] == roots[0]);
        if roots[0].0 == letter {
            assert(drive_pos(roots, letter) == 0);
        }
        assert(roots.push(x).drop_first() =~= roots.drop_first().push(x));
        lemma_pos_push(roots.drop_first(), letter, x);
    }
}

/// Live events stay on their volume: a batch of events of one volume changes no
/// entry of any other.
pub proof fn law_events_stay_on_their_drive(
    before: IndexStore,
    events: Seq<IndexEvent>,
    letter: char,
    after: IndexStore,
    e: IndexEntry,
)
    requires
        forall|k: int, c: char|
            0 <= k < events.len() && #[trigger] is_of(events[k], c) ==> c == letter,
        before.plan(events).roots.len() <= 256,
        batch_result(before, before.plan(events), after),
        e.drive != drive_pos(roots_view(before.drive_roots@), letter),
    ensures
        before.entries@.contains(e) <==> after.entries@.contains(e),
{
    lemma_plan_is_of(before, events, letter);
    law_batch_leaves_others(before, before.plan(events), after, e);
}

/// The record that an event brings, and the letter of its volume.
pub open spec fn brings(event: IndexEvent) -> Option<(char, FileRecord)> {
    match event {
        IndexEvent::Created { drive_letter, record } => Some((drive_letter, record)),
        IndexEvent::Renamed { drive_letter, new_record, .. } => Some((drive_letter, new_record)),
        IndexEvent::Moved { drive_letter, file_ref, new_parent_ref, name, kind } => Some(
            (drive_letter, FileRecord { file_ref, parent_ref: new_parent_ref, name, kind }),
        ),
        _ => None,
    }
}

/// The junk records that decide whether what an event brings is below junk: a
/// rename first forgets that the old record was.
pub open spec fn junk_for(plan: Plan, event: IndexEvent) -> Seq<Set<u64>> {
    match event {
        IndexEvent::Renamed { drive_letter, old_ref, .. } => junk_without(
            plan.junk,
            drive_pos(plan.roots, drive_letter),
            old_ref,
        ),
        _ => plan.junk,
    }
}

/// The newest record wins: whatever came before in a batch, an event that brings
/// a record to a place that is not below junk decides the record's entry.
pub proof fn law_newest_record_wins(
    store: IndexStore,
    events: Seq<IndexEvent>,
    event: IndexEvent,
)
    requires
        brings(event) is Some,
        ({
            let plan = store.plan(events);
            let d = drive_pos(plan.roots, (brings(event)->0).0);
            !junk_above(
                store.entries@,
                store.name_lower_arena@,
                junk_at(junk_for(plan, event), d),
                d as u8,
                (brings(event)->0).1.parent_ref,
                WALK_LIMIT as nat,
            )
        }),
    ensures
        ({
            let d = drive_pos(store.plan(events).roots, (brings(event)->0).0);
            let record = (brings(event)->0).1;
            let newest = store.plan(events.push(event)).newest;
            newest.contains_key((d as u8, record.file_ref)) && newest[(d as u8, record.file_ref)]
                == record
        }),
{
    assert(events.push(event).drop_last() =~= events);
}

/// What is brought below junk has no entry: whatever came before in a batch, the
/// record must vanish, and it is remembered as junk.
pub proof fn law_junk_drops(store: IndexStore, events: Seq<IndexEvent>, event: IndexEvent)
    requires
        brings(event) is Some,
        ({
            let plan = store.plan(events);
            let d = drive_pos(plan.roots, (brings(event)->0).0);
            junk_above(
                store.entries@,
                store.name_lower_arena@,
                junk_at(junk_for(plan, event), d),
                d as u8,
                (brings(event)->0).1.parent_ref,
                WALK_LIMIT as nat,
            )
        }),
    ensures
        ({
            let d = drive_pos(store.plan(events).roots, (brings(event)->0).0);
            let r = (brings(event)->0).1.file_ref;
            let after = store.plan(events.push(event));
            &&& after.gone.contains((d as u8, r))
            &&& !after.newest.contains_key((d as u8, r))
            &&& junk_at(after.junk, d).contains(r)
        }),
{
    assert(events.push(event).drop_last() =~= events);
    lemma_drive_pos_range(store.plan(events).roots, (brings(event)->0).0);
}

/// A deletion is remembered: whatever came before in a batch, the record must
/// vanish, and nothing that the batch brought of it is left.
pub proof fn law_delete_drops(
    store: IndexStore,
    events: Seq<IndexEvent>,
    letter: char,
    file_ref: u64,
)
    ensures
        ({
            let k = (drive_pos(store.plan(events).roots, letter) as u8, file_ref);
            let after = store.plan(
                events.push(IndexEvent::Deleted { drive_letter: letter, file_ref }),
            );
            after.gone.contains(k) && !after.newest.contains_key(k)
        }),
{
    let event = IndexEvent::Deleted { drive_letter: letter, file_ref };
    assert(events.push(event).drop_last() =~= events);
}

/// Where a volume stands in a list does not change as the list grows.
proof fn lemma_pos_prefix(
    roots: Seq<(char, Seq<char>)>,
    more: Seq<(char, Seq<char>)>,
    letter: char,
)
    requires
        roots.is_prefix_of(more),
        drive_pos(roots, letter) < roots.len(),
    ensures
        drive_pos(more, letter) == drive_pos(roots, letter),
    decreases roots.len(),
{
    assert(more[0] == roots[0]);
    if roots[0].0 != letter {
        assert(roots.drop_first() =~= more.drop_first().take(roots.len() - 1));
        lemma_pos_prefix(roots.drop_first(), more.drop_first(), letter);
    }
}

/// The volumes of a part of a batch come first among those of the batch.
proof fn lemma_roots_come_first(store: IndexStore, events: Seq<IndexEvent>, n: int)
    requires
        0 <= n <= events.len(),
    ensures
        store.plan(events.take(n)).roots.is_prefix_of(store.plan(events).roots),
    decreases events.len(),
{
    if n == events.len() {
        assert(events.take(n) =~= events);
    } else {
        let head = events.drop_last();
        lemma_roots_come_first(store, head, n);
        assert(head.take(n) =~= events.take(n));
        let a = store.plan(head).roots;
        let b = store.plan(events).roots;
        assert(a.is_prefix_of(b));
        let first = store.plan(events.take(n)).roots;
        assert(first =~= b.take(first.len() as int));
    }
}

/// The volume of an event stands where it stands after the whole batch.
proof fn lemma_event_pos(store: IndexStore, events: Seq<IndexEvent>, n: int, letter: char)
    requires
        0 <= n < events.len(),
        is_of(events[n], letter),
    ensures
        drive_pos(store.plan(events.take(n)).roots, letter) == drive_pos(
            store.plan(events).roots,
            letter,
        ),
{
    let roots = store.plan(events.take(n)).roots;
    assert(events.take(n + 1).drop_last() =~= events.take(n));
    assert(events.take(n + 1).last() == events[n]);
    let next = store.plan(events.take(n + 1)).roots;
    assert(next == register(roots, letter));
    lemma_register_pos(roots, letter);
    lemma_drive_pos_range(roots, letter);
    lemma_roots_come_first(store, events, n + 1);
    lemma_pos_prefix(next, store.plan(events).roots, letter);
}

/// What is below junk stays there as more is junk.
proof fn lemma_more_junk(
    entries: Seq<IndexEntry>,
    lowers: Seq<u8>,
    junk: Set<u64>,
    more: Set<u64>,
    drive: u8,
    current: u64,
    fuel: nat,
)
    requires
        junk.subset_of(more),
        junk_above(entries, lowers, junk, drive, current, fuel),
    ensures
        junk_above(entries, lowers, more, drive, current, fuel),
    decreases fuel,
{
    if !junk.contains(current) {
        let e = entries[row_of(entries, drive, current)->0];
        if junk_above(entries, lowers, junk, drive, e.parent_ref, (fuel - 1) as nat) {
            lemma_more_junk(entries, lowers, junk, more, drive, e.parent_ref, (fuel - 1) as nat);
        }
    }
}

/// The record that an event brings, under its volume's place and its number.
pub open spec fn brings_under(
    roots: Seq<(char, Seq<char>)>,
    event: IndexEvent,
    k: (u8, u64),
) -> bool {
    brings(event) is Some && k == (
        drive_pos(roots, (brings(event)->0).0) as u8,
        (brings(event)->0).1.file_ref,
    )
}

/// The record of the last event of a batch that brings one under `k`.
pub open spec fn last_brought(
    roots: Seq<(char, Seq<char>)>,
    events: Seq<IndexEvent>,
    k: (u8, u64),
) -> Option<FileRecord>
    decreases events.len(),
{
    if events.len() == 0 {
        None
    } else if brings_under(roots, events.last(), k) {
        Some((brings(events.last())->0).1)
    } else {
        last_brought(roots, events.drop_last(), k)
    }
}

/// An event takes no record away: it is no deletion, and a rename keeps the
/// number of its record.
pub open spec fn takes_nothing(event: IndexEvent) -> bool {
    match event {
        IndexEvent::Deleted { .. } => false,
        IndexEvent::Renamed { old_ref, new_record, .. } => old_ref == new_record.file_ref,
        _ => true,
    }
}

/// No event takes a record away, and none brings one below what is junk in the
/// index.
pub open spec fn only_changes(store: IndexStore, events: Seq<IndexEvent>) -> bool {
    &&& forall|n: int| 0 <= n < events.len() ==> takes_nothing(#[trigger] events[n])
    &&& forall|n: int|
        0 <= n < events.len() && (#[trigger] brings(events[n])) is Some ==> {
            let d = drive_pos(store.plan(events).roots, (brings(events[n])->0).0);
            !junk_above(
                store.entries@,
                store.name_lower_arena@,
                junk_at(junk_view(store.junk_refs@), d),
                d as u8,
                (brings(events[n])->0).1.parent_ref,
                WALK_LIMIT as nat,
            )
        }
}

/// The plan of the first `n` events of a batch that takes nothing away.
proof fn lemma_only_changes(store: IndexStore, events: Seq<IndexEvent>, n: int)
    requires
        only_changes(store, events),
        0 <= n <= events.len(),
    ensures
        ({
            let plan = store.plan(events.take(n));
            let roots = store.plan(events).roots;
            &&& forall|k: (u8, u64)| #[trigger]
                plan.newest.contains_key(k) <==> last_brought(roots, events.take(n), k) is Some
            &&& forall|k: (u8, u64)| #[trigger]
                plan.newest.contains_key(k) ==> last_brought(roots, events.take(n), k) == Some(
                    plan.newest[k],
                )
            &&& plan.gone.subset_of(plan.newest.dom())
            &&& forall|d: int|
                d >= 0 ==> (#[trigger] junk_at(plan.junk, d)).subset_of(
                    junk_at(junk_view(store.junk_refs@), d),
                )
        }),
    decreases n,
{
    if n > 0 {
        let roots = store.plan(events).roots;
        let junk = junk_view(store.junk_refs@);
        let part = events.take(n);
        let event = events[n - 1];
        assert(part.drop_last() =~= events.take(n - 1));
        assert(part.last() == event);
        lemma_only_changes(store, events, n - 1);
        let was = store.plan(events.take(n - 1));
        let plan = store.plan(part);
        assert(takes_nothing(events[n - 1]));
        match brings(event) {
            Some(b) => {
                let d = drive_pos(was.roots, b.0);
                assert(is_of(event, b.0));
                lemma_event_pos(store, events, n - 1, b.0);
                lemma_drive_pos_range(was.roots, b.0);
                assert(brings(events[n - 1]) is Some);
                let at = junk_at(junk_for(was, event), d);
                assert(at.subset_of(junk_at(was.junk, d)));
                if junk_above(
                    store.entries@,
                    store.name_lower_arena@,
                    at,
                    d as u8,
                    b.1.parent_ref,
                    WALK_LIMIT as nat,
                ) {
                    lemma_more_junk(
                        store.entries@,
                        store.name_lower_arena@,
                        at,
                        junk_at(junk, d),
                        d as u8,
                        b.1.parent_ref,
                        WALK_LIMIT as nat,
                    );
                }
                let key = (d as u8, b.1.file_ref);
                assert(plan.newest =~= was.newest.insert(key, b.1));
                assert(plan.junk == junk_for(was, event));
                assert forall|c: int| c >= 0 implies (#[trigger] junk_at(plan.junk, c)).subset_of(
                    junk_at(junk, c),
                ) by {
                    assert(junk_at(plan.junk, c).subset_of(junk_at(was.junk, c)));
                }
            },
            None => {},
        }
    } else {
        assert(events.take(0).len() == 0);
    }
}

/// The only entry of `k` is that of `record`.
pub open spec fn only_entry(store: IndexStore, k: (u8, u64), record: FileRecord, i: int) -> bool {
    &&& 0 <= i < store.entries@.len()
    &&& stands_for(store, i, k.0, record)
    &&& forall|j: int|
        0 <= j < store.entries@.len() && is_record(#[trigger] store.entries@[j], k.0, k.1) ==> j
            == i
}

/// A batch that takes nothing away leaves the last state of each record that it
/// names, each once, and everything else as it was: the other entries with all
/// their fields and in their order, and the positions in the journals.
pub proof fn law_batch_is_its_last_states(
    before: IndexStore,
    events: Seq<IndexEvent>,
    after: IndexStore,
)
    requires
        only_changes(before, events),
        batch_result(before, before.plan(events), after),
    ensures
        ({
            let roots = before.plan(events).roots;
            let other = |e: IndexEntry| last_brought(roots, events, key_of(e)) is None;
            &&& forall|k: (u8, u64)|
                (#[trigger] last_brought(roots, events, k)) is Some ==> exists|i: int| #[trigger]
                    only_entry(after, k, last_brought(roots, events, k)->0, i)
            &&& after.entries@.filter(other) == before.entries@.filter(other)
            &&& after.checkpoints == before.checkpoints
        }),
{
    let plan = before.plan(events);
    let roots = plan.roots;
    let other = |e: IndexEntry| last_brought(roots, events, key_of(e)) is None;
    assert(events.take(events.len() as int) =~= events);
    lemma_only_changes(before, events, events.len() as int);
    assert forall|k: (u8, u64)| (#[trigger] last_brought(roots, events, k)) is Some implies exists|
        i: int,
    | #[trigger] only_entry(after, k, last_brought(roots, events, k)->0, i) by {
        assert(plan.newest.contains_key(k));
        let record = plan.newest[k];
        let i = choose|i: int|
            0 <= i < after.entries@.len() && #[trigger] stands_for(after, i, k.0, record);
        lemma_brought_key(roots, events, k);
        assert forall|j: int|
            0 <= j < after.entries@.len() && is_record(
                #[trigger] after.entries@[j],
                k.0,
                k.1,
            ) implies j == i by {
            let a = after.entries@[i];
            let b = after.entries@[j];
            assert(key_of(a) == k && key_of(b) == k);
            assert(plan.newest.contains_key(key_of(a)) && plan.newest.contains_key(key_of(b)));
            assert(same_record(a, b) && same_record(b, a));
        }
        assert(only_entry(after, k, record, i));
    }
    assert((|e: IndexEntry| !plan.newest.contains_key(key_of(e))) =~= other);
    assert((|e: IndexEntry| !plan.replaced().contains(key_of(e))) =~= other);
}

/// What is brought under `k` has its number.
proof fn lemma_brought_key(
    roots: Seq<(char, Seq<char>)>,
    events: Seq<IndexEvent>,
    k: (u8, u64),
)
    requires
        last_brought(roots, events, k) is Some,
    ensures
        (last_brought(roots, events, k)->0).file_ref == k.1,
    decreases events.len(),
{
    if !brings_under(roots, events.last(), k) {
        lemma_brought_key(roots, events.drop_last(), k);
    }
}

/// Going up from `current` ends within `fuel` directories: at one that is not
/// in the scan, or at the root of the volume.
pub open spec fn ends_within(dirs: Map<u64, (Seq<char>, u64)>, current: u64, fuel: nat) -> bool
    decreases fuel,
{
    fuel > 0 && (!dirs.contains_key(current) || dirs[current].1 == current || dirs[current].1 == 0
        || ends_within(dirs, dirs[current].1, (fuel - 1) as nat))
}

/// A way up that has ended is not longer with more fuel.
proof fn lemma_more_fuel(dirs: Map<u64, (Seq<char>, u64)>, current: u64, fuel: nat, more: nat)
    requires
        ends_within(dirs, current, fuel),
        fuel <= more,
    ensures
        scan_above(dirs, current, more) == scan_above(dirs, current, fuel),
    decreases fuel,
{
    if dirs.contains_key(current) && dirs[current].1 != current && dirs[current].1 != 0 {
        lemma_more_fuel(dirs, dirs[current].1, (fuel - 1) as nat, (more - 1) as nat);
    }
}

/// The records of a scan have different numbers, and those that are parents are
/// directories.
#[verifier::opaque]
pub open spec fn is_tree(scan: ScanResult) -> bool {
    &&& forall|i: int, j: int|
        0 <= i < j < scan.records@.len() ==> (#[trigger] scan.records@[i]).file_ref != (
        #[trigger] scan.records@[j]).file_ref
    &&& forall|i: int, j: int|
        0 <= i < scan.records@.len() && 0 <= j < scan.records@.len() && (
        #[trigger] scan.records@[i]).parent_ref == (#[trigger] scan.records@[j]).file_ref
            ==> scan.records@[j].is_dir
}

proof fn lemma_one_record(scan: ScanResult, i: int, j: int)
    requires
        is_tree(scan),
        0 <= i < scan.records@.len(),
        0 <= j < scan.records@.len(),
        scan.records@[i].file_ref == scan.records@[j].file_ref,
    ensures
        i == j,
{
    reveal(is_tree);
    if i < j {
        assert(scan.records@[i].file_ref != scan.records@[j].file_ref);
    } else if j < i {
        assert(scan.records@[j].file_ref != scan.records@[i].file_ref);
    }
}

/// The directories of a scan are its records that are directories.
proof fn lemma_dirs(scan: ScanResult, n: nat, j: int)
    requires
        is_tree(scan),
        0 <= j < n <= scan.records@.len(),
    ensures
        scan.records@[j].is_dir ==> scan_dirs(scan, n).contains_key(scan.records@[j].file_ref)
            && scan_dirs(scan, n)[scan.records@[j].file_ref] == (
            lowercase(scan_name(scan, j)),
            scan.records@[j].parent_ref,
        ),
    decreases n,
{
    if j < n - 1 {
        lemma_dirs(scan, (n - 1) as nat, j);
        if scan.records@[j].file_ref == scan.records@[n - 1].file_ref {
            lemma_one_record(scan, j, n - 1);
        }
    }
}

/// A directory of a scan is one of its records.
proof fn lemma_dir_record(scan: ScanResult, n: nat, r: u64) -> (j: int)
    requires
        n <= scan.records@.len(),
        scan_dirs(scan, n).contains_key(r),
    ensures
        0 <= j < n,
        scan.records@[j].is_dir,
        scan.records@[j].file_ref == r,
    decreases n,
{
    let last = scan.records@[n - 1];
    if last.is_dir && last.file_ref == r {
        n - 1
    } else {
        lemma_dir_record(scan, (n - 1) as nat, r)
    }
}

/// Each record that is not below junk is among the clean rows.
proof fn lemma_clean_row(scan: ScanResult, n: nat, j: int) -> (k: int)
    requires
        0 <= j < n,
        clean(scan, j),
    ensures
        0 <= k < clean_rows(scan, n).len(),
        clean_rows(scan, n)[k] == j,
    decreases n,
{
    if j == n - 1 {
        clean_rows(scan, (n - 1) as nat).len() as int
    } else {
        lemma_clean_row(scan, (n - 1) as nat, j)
    }
}

/// Entry `p` is that of the clean record `i` of a scan.
spec fn entry_of(store: IndexStore, p: int, scan: ScanResult, i: int, d: u8) -> bool {
    &&& 0 <= p < store.entries@.len()
    &&& 0 <= i < scan.records@.len()
    &&& clean(scan, i)
    &&& scanned(store.entries@[p], scan, i, d, store.name_arena@, store.name_lower_arena@)
}

/// Entry `p` is that of a clean record.
spec fn has_source(store: IndexStore, p: int, scan: ScanResult, d: u8) -> bool {
    exists|i: int| #[trigger] entry_of(store, p, scan, i, d)
}

/// Record `i` has an entry.
spec fn has_entry(store: IndexStore, scan: ScanResult, i: int, d: u8) -> bool {
    exists|p: int| #[trigger] entry_of(store, p, scan, i, d)
}

/// The entries are those of the clean records of a scan.
#[verifier::opaque]
spec fn entries_of(store: IndexStore, scan: ScanResult, d: u8) -> bool {
    &&& forall|p: int| 0 <= p < store.entries@.len() ==> #[trigger] has_source(store, p, scan, d)
    &&& forall|i: int|
        0 <= i < scan.records@.len() && clean(scan, i) ==> #[trigger] has_entry(store, scan, i, d)
}

/// The record of an entry.
proof fn lemma_source(store: IndexStore, p: int, scan: ScanResult, d: u8) -> (i: int)
    requires
        entries_of(store, scan, d),
        0 <= p < store.entries@.len(),
    ensures
        entry_of(store, p, scan, i, d),
{
    reveal(entries_of);
    assert(has_source(store, p, scan, d));
    choose|i: int| #[trigger] entry_of(store, p, scan, i, d)
}

/// The entry of a record.
proof fn lemma_entry(store: IndexStore, scan: ScanResult, i: int, d: u8) -> (p: int)
    requires
        entries_of(store, scan, d),
        0 <= i < scan.records@.len(),
        clean(scan, i),
    ensures
        entry_of(store, p, scan, i, d),
{
    reveal(entries_of);
    assert(has_entry(store, scan, i, d));
    choose|p: int| #[trigger] entry_of(store, p, scan, i, d)
}

proof fn lemma_entries_of(
    before: IndexStore,
    scan: ScanResult,
    letter: char,
    root: Seq<char>,
    mid: IndexStore,
    after: IndexStore,
)
    requires
        before.entries@.len() == 0,
        populated(before, scan, letter, root, mid),
        finished(mid, after),
    ensures
        entries_of(after, scan, drive_pos(roots_view(before.drive_roots@), letter) as u8),
{
    reveal(entries_of);
    let d = drive_pos(roots_view(before.drive_roots@), letter) as u8;
    let names = after.name_arena@;
    let lowers = after.name_lower_arena@;
    let rows = clean_rows(scan, scan.records@.len());
    lemma_clean_rows(scan, scan.records@.len());
    lemma_permuted(mid.entries@, after.entries@);
    lemma_permuted(after.entries@, mid.entries@);
    assert forall|p: int| 0 <= p < after.entries@.len() implies #[trigger] has_source(
        after,
        p,
        scan,
        d,
    ) by {
        let e = after.entries@[p];
        assert(mid.entries@.contains(e));
        let k = choose|k: int| 0 <= k < mid.entries@.len() && mid.entries@[k] == e;
        assert(clean(scan, rows[k]));
        assert(scanned(mid.entries@[0 + k], scan, rows[k], d, names, lowers));
        assert(entry_of(after, p, scan, rows[k], d));
    }
    assert forall|i: int| 0 <= i < scan.records@.len() && clean(
        scan,
        i,
    ) implies #[trigger] has_entry(after, scan, i, d) by {
        let k = lemma_clean_row(scan, scan.records@.len(), i);
        assert(rows[k] == i);
        let e = mid.entries@[0 + k];
        assert(scanned(e, scan, rows[k], d, names, lowers));
        assert(after.entries@.contains(mid.entries@[k]));
        let p = choose|p: int| 0 <= p < after.entries@.len() && after.entries@[p] == e;
        assert(entry_of(after, p, scan, i, d));
    }
}

/// A directory of the scan that is not below junk is found among the entries.
proof fn lemma_dir_row(store: IndexStore, scan: ScanResult, d: u8, j: int)
    requires
        is_tree(scan),
        entries_of(store, scan, d),
        0 <= j < scan.records@.len(),
        clean(scan, j),
    ensures
        row_of(store.entries@, d, scan.records@[j].file_ref) is Some,
        ({
            let row = row_of(store.entries@, d, scan.records@[j].file_ref)->0;
            let e = store.entries@[row];
            &&& e.parent_ref == scan.records@[j].parent_ref
            &&& lower_in(store.name_lower_arena@, e) == lower_utf8(scan_name(scan, j))
        }),
{
    let r = scan.records@[j].file_ref;
    lemma_row_of(store.entries@, d, r);
    let p = lemma_entry(store, scan, j, d);
    assert(is_record(store.entries@[p], d, r));
    let row = row_of(store.entries@, d, r)->0;
    let i = lemma_source(store, row, scan, d);
    lemma_one_record(scan, i, j);
}

/// What has no directory in the scan has none among the entries.
proof fn lemma_no_row(store: IndexStore, scan: ScanResult, d: u8, child: int)
    requires
        is_tree(scan),
        entries_of(store, scan, d),
        0 <= child < scan.records@.len(),
        !all_dirs(scan).contains_key(scan.records@[child].parent_ref),
    ensures
        row_of(store.entries@, d, scan.records@[child].parent_ref) is None,
{
    let r = scan.records@[child].parent_ref;
    lemma_row_of(store.entries@, d, r);
    if row_of(store.entries@, d, r) is Some {
        let i = lemma_source(store, row_of(store.entries@, d, r)->0, scan, d);
        assert(scan.records@[i].is_dir) by {
            reveal(is_tree);
            assert(scan.records@[child].parent_ref == scan.records@[i].file_ref);
        }
        lemma_dirs(scan, scan.records@.len(), i);
    }
}

/// The way up through the entries is the way up through the scan.
proof fn lemma_same_way_up(store: IndexStore, scan: ScanResult, d: u8, child: int, fuel: nat)
    requires
        is_tree(scan),
        entries_of(store, scan, d),
        scan_above(all_dirs(scan), 0, WALK_LIMIT as nat) is Some,
        fuel <= WALK_LIMIT,
        0 <= child < scan.records@.len(),
        ends_within(all_dirs(scan), scan.records@[child].parent_ref, fuel),
        scan_above(all_dirs(scan), scan.records@[child].parent_ref, fuel) is Some,
    ensures
        dirs_above(
            store.entries@,
            store.name_lower_arena@,
            d,
            scan.records@[child].parent_ref,
            fuel,
        ) == scan_above(all_dirs(scan), scan.records@[child].parent_ref, fuel)->0,
    decreases fuel,
{
    let dirs = all_dirs(scan);
    let n = scan.records@.len();
    let current = scan.records@[child].parent_ref;
    if dirs.contains_key(current) {
        let j = lemma_dir_record(scan, n, current);
        lemma_dirs(scan, n, j);
        let parent = dirs[current].1;
        if parent == current {
            assert(scan_above(dirs, current, WALK_LIMIT as nat) is Some);
        } else if parent != 0 {
            lemma_more_fuel(dirs, parent, (fuel - 1) as nat, WALK_LIMIT as nat);
            lemma_same_way_up(store, scan, d, j, (fuel - 1) as nat);
        }
        assert(clean(scan, j));
        lemma_dir_row(store, scan, d, j);
    } else {
        lemma_no_row(store, scan, d, child);
    }
}

/// Depth and user bit of an entry, in an index whose entries are those of a scan.
proof fn lemma_stamp(store: IndexStore, scan: ScanResult, d: u8, p: int)
    requires
        is_tree(scan),
        entries_of(store, scan, d),
        scan_above(all_dirs(scan), 0, WALK_LIMIT as nat) is Some,
        0 <= p < store.entries@.len(),
        ends_within(all_dirs(scan), store.entries@[p].parent_ref, WALK_LIMIT as nat),
    ensures
        ({
            let e = store.entries@[p];
            meta_of(
                store.entries@,
                store.name_lower_arena@,
                e.drive,
                e.parent_ref,
                store.lower_of(e),
                e.dir(),
            ) == (e.depth, e.user_path)
        }),
{
    let e = store.entries@[p];
    let i = lemma_source(store, p, scan, d);
    lemma_same_way_up(store, scan, d, i, WALK_LIMIT as nat);
    assert(e.flags == 1u8 <==> scan.records@[i].is_dir);
    assert(e.dir() == scan.records@[i].is_dir) by {
        assert(1u8 & 1u8 == 1u8) by (bit_vector);
        assert(0u8 & 1u8 == 0u8) by (bit_vector);
    }
    assert(store.lower_of(e) == lower_utf8(scan_name(scan, i)));
}

/// The live walk gives what the scan stamped: in an index that was built from
/// one scan, walking up from an entry whose way to the root of the volume is not
/// too long gives the depth and the user bit that the entry has. Record 0 must
/// not be junk nor below it, because every way up ends before it.
pub proof fn law_live_walk_gives_the_stamp(
    before: IndexStore,
    scan: ScanResult,
    letter: char,
    root: Seq<char>,
    mid: IndexStore,
    after: IndexStore,
    p: int,
)
    requires
        before.entries@.len() == 0,
        populated(before, scan, letter, root, mid),
        finished(mid, after),
        is_tree(scan),
        scan_above(all_dirs(scan), 0, WALK_LIMIT as nat) is Some,
        0 <= p < after.entries@.len(),
        ends_within(all_dirs(scan), after.entries@[p].parent_ref, WALK_LIMIT as nat),
    ensures
        ({
            let e = after.entries@[p];
            meta_of(
                after.entries@,
                after.name_lower_arena@,
                e.drive,
                e.parent_ref,
                after.lower_of(e),
                e.dir(),
            ) == (e.depth, e.user_path)
        }),
{
    let d = drive_pos(roots_view(before.drive_roots@), letter) as u8;
    lemma_entries_of(before, scan, letter, root, mid, after);
    lemma_stamp(after, scan, d, p);
}

/// A batch gives each record of its plan an entry that tells the record: its
/// numbers, its kind and its names, on its volume.
pub proof fn law_batch_entry_tells_its_record(
    before: IndexStore,
    plan: Plan,
    after: IndexStore,
    k: (u8, u64),
) -> (i: int)
    requires
        batch_result(before, plan, after),
        plan.newest.contains_key(k),
    ensures
        0 <= i < after.entries@.len(),
        ({
            let e = after.entries@[i];
            let record = plan.newest[k];
            &&& e.drive == k.0
            &&& e.file_ref == record.file_ref
            &&& e.parent_ref == record.parent_ref
            &&& e.dir() == (record.kind == FileKind::Directory)
            &&& after.name_of(e) == encode_utf8(record.name@)
            &&& after.lower_of(e) == encode_utf8(lowercase(record.name@))
        }),
{
    let i = choose|i: int|
        0 <= i < after.entries@.len() && #[trigger] stands_for(after, i, k.0, plan.newest[k]);
    assert(1u8 & 1u8 == 1u8 && 0u8 & 1u8 == 0u8) by (bit_vector);
    i
}

/// A deletion forgets that a record was junk, and says nothing of any other.
pub proof fn law_delete_forgets_junk(
    store: IndexStore,
    events: Seq<IndexEvent>,
    letter: char,
    file_ref: u64,
    d: int,
    r: u64,
)
    requires
        d >= 0,
    ensures
        ({
            let was = store.plan(events);
            let now = store.plan(
                events.push(IndexEvent::Deleted { drive_letter: letter, file_ref }),
            );
            junk_at(now.junk, d).contains(r) <==> junk_at(was.junk, d).contains(r) && !(d
                == drive_pos(was.roots, letter) && r == file_ref)
        }),
{
    let event = IndexEvent::Deleted { drive_letter: letter, file_ref };
    assert(events.push(event).drop_last() =~= events);
    lemma_drive_pos_range(store.plan(events).roots, letter);
}

/// A position in the journal changes nothing in the index.
pub proof fn law_checkpoint_changes_nothing(
    store: IndexStore,
    events: Seq<IndexEvent>,
    event: IndexEvent,
)
    requires
        event is Checkpoint,
    ensures
        store.plan(events.push(event)) == store.plan(events),
{
    assert(events.push(event).drop_last() =~= events);
}

/// A rename takes the old record away: unless it comes back under its number, it
/// has no entry after the batch, and it is forgotten as junk.
pub proof fn law_rename_takes_the_old_record(
    store: IndexStore,
    events: Seq<IndexEvent>,
    letter: char,
    old_ref: u64,
    new_record: FileRecord,
)
    requires
        old_ref != new_record.file_ref,
    ensures
        ({
            let d = drive_pos(store.plan(events).roots, letter);
            let now = store.plan(
                events.push(
                    IndexEvent::Renamed { drive_letter: letter, old_ref, new_record },
                ),
            );
            &&& now.gone.contains((d as u8, old_ref))
            &&& !now.newest.contains_key((d as u8, old_ref))
            &&& !junk_at(now.junk, d).contains(old_ref)
        }),
{
    let event = IndexEvent::Renamed { drive_letter: letter, old_ref, new_record };
    assert(events.push(event).drop_last() =~= events);
    lemma_drive_pos_range(store.plan(events).roots, letter);
}

/// A volume keeps its place once it is known; one that was not known comes last,
/// with the root that its letter suggests.
pub proof fn law_volumes_keep_their_places(roots: Seq<(char, Seq<char>)>, letter: char, k: int)
    ensures
        ({
            let now = register(roots, letter);
            let p = drive_pos(roots, letter);
            &&& 0 <= k < roots.len() ==> now[k] == roots[k]
            &&& 0 <= p < now.len()
            &&& now[p].0 == letter
            &&& (exists|j: int| 0 <= j < roots.len() && (#[trigger] roots[j]).0 == letter)
                ==> now == roots
            &&& (forall|j: int| 0 <= j < roots.len() ==> (#[trigger] roots[j]).0 != letter)
                ==> now.len() == roots.len() + 1 && now[p].1 == seq![letter, ':', '\\']
        }),
{
    lemma_drive_pos_range(roots, letter);
    lemma_known(roots, letter);
    reveal_strlit(":\\");
    assert(seq![letter] + ":\\"@ =~= seq![letter, ':', '\\']);
}

proof fn lemma_known(roots: Seq<(char, Seq<char>)>, letter: char)
    ensures
        drive_pos(roots, letter) < roots.len() <==> exists|j: int|
            0 <= j < roots.len() && (#[trigger] roots[j]).0 == letter,
    decreases roots.len(),
{
    if roots.len() > 0 && roots[0].0 != letter {
        let rest = roots.drop_first();
        lemma_known(rest, letter);
        if exists|j: int| 0 <= j < roots.len() && (#[trigger] roots[j]).0 == letter {
            let j = choose|j: int| 0 <= j < roots.len() && (#[trigger] roots[j]).0 == letter;
            assert(rest[j - 1] == roots[j]);
        }
        if exists|j: int| 0 <= j < rest.len() && (#[trigger] rest[j]).0 == letter {
            let j = choose|j: int| 0 <= j < rest.len() && (#[trigger] rest[j]).0 == letter;
            assert(roots[j + 1] == rest[j]);
        }
    }
}

} // verus!
