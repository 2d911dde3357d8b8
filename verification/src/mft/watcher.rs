//! Watching a volume: the change journal.
use super::numbers::{n16, n32, n64, push_units, u16_at, u32_at, u64_at, units_at};
use super::reader::USN_HEADER;
use super::types::{FileKind, FileRecord, IndexEvent, JournalCheckpoint, NtfsDrive};
use crate::text::utf16_text;
use vstd::prelude::*;

verus! {

/// The reasons for which the journal is read.
pub const REASON_CREATE: u32 = 0x100;

pub const REASON_DELETE: u32 = 0x200;

pub const REASON_OLD_NAME: u32 = 0x1000;

pub const REASON_NEW_NAME: u32 = 0x2000;

/// After how many failed reads in a row a watcher stops.
pub const MAX_FAILS: u32 = 8;

/// What a volume says of its journal.
#[derive(Clone, Copy)]
pub struct JournalState {
    pub journal_id: u64,
    pub first_usn: i64,
    pub next_usn: i64,
}

/// Why a journal cannot be read on from a checkpoint.
#[derive(Debug, Clone, Copy, PartialEq, Eq, Structural)]
pub enum JournalError {
    /// The journal was made anew.
    IdMismatch,
    /// What follows the checkpoint is not in the journal.
    OutsideRange,
}

impl JournalError {
    /// The error in words.
    pub fn message(&self) -> (r: String)
        ensures
            r@ == match *self {
                JournalError::IdMismatch => "Journal ID mismatch — rescan needed"@,
                JournalError::OutsideRange => "Saved USN outside journal range — rescan needed"@,
            },
    {
        match self {
            JournalError::IdMismatch => "Journal ID mismatch — rescan needed".to_owned(),
            JournalError::OutsideRange => {
                "Saved USN outside journal range — rescan needed".to_owned()
            },
        }
    }
}

/// A journal can be read on from a checkpoint.
pub open spec fn resumes(journal: JournalState, cp: JournalCheckpoint) -> bool {
    cp.journal_id == journal.journal_id && journal.first_usn <= cp.next_usn <= journal.next_usn
}

/// A reader of the change journal of one volume.
pub struct UsnWatcher {
    pub drive: NtfsDrive,
    pub next_usn: i64,
    pub journal_id: u64,
}

/// A reason is set.
pub open spec fn has_reason(b: Seq<u8>, at: int, reason: u32) -> bool {
    (n32(b, at + 40) as u32) & reason != 0
}

/// A journal record starts here and lies in the buffer.
pub open spec fn journal_fits(b: Seq<u8>, at: int) -> bool {
    &&& at + USN_HEADER <= b.len()
    &&& n32(b, at) >= USN_HEADER
    &&& at + n32(b, at) <= b.len()
}

/// A journal record has a name inside it, and tells of a change.
pub open spec fn tells_change(b: Seq<u8>, at: int) -> bool {
    &&& n16(b, at + 56) > 0
    &&& n16(b, at + 58) + n16(b, at + 56) <= n32(b, at)
    &&& has_reason(b, at, REASON_DELETE) || has_reason(b, at, REASON_NEW_NAME) || has_reason(
        b,
        at,
        REASON_CREATE,
    )
}

/// The places of the journal records from `at` on that tell of a change; the
/// first record that does not fit ends them.
pub open spec fn changes(b: Seq<u8>, at: int) -> Seq<int>
    decreases b.len() - at,
{
    if !journal_fits(b, at) || n32(b, at) <= 0 {
        Seq::empty()
    } else if tells_change(b, at) {
        seq![at] + changes(b, at + n32(b, at))
    } else {
        changes(b, at + n32(b, at))
    }
}

/// The name in a journal record.
pub open spec fn journal_name(b: Seq<u8>, at: int) -> Seq<char> {
    utf16_text(units_at(b, at + n16(b, at + 58), n16(b, at + 56) / 2))
}

/// The kind of file in a journal record.
pub open spec fn journal_kind(b: Seq<u8>, at: int) -> FileKind {
    if (n32(b, at + 52) as u32) & 0x10 != 0 {
        FileKind::Directory
    } else {
        FileKind::File
    }
}

/// The event for a journal record: a deletion before a new name before a
/// creation.
pub open spec fn is_event(e: IndexEvent, letter: char, b: Seq<u8>, at: int) -> bool {
    let file = n64(b, at + 8) as u64;
    let parent = n64(b, at + 16) as u64;
    if has_reason(b, at, REASON_DELETE) {
        e == (IndexEvent::Deleted { drive_letter: letter, file_ref: file })
    } else if has_reason(b, at, REASON_NEW_NAME) {
        match e {
            IndexEvent::Moved { drive_letter, file_ref, new_parent_ref, name, kind } => {
                &&& drive_letter == letter
                &&& file_ref == file
                &&& new_parent_ref == parent
                &&& name@ == journal_name(b, at)
                &&& kind == journal_kind(b, at)
            },
            _ => false,
        }
    } else {
        match e {
            IndexEvent::Created { drive_letter, record } => {
                &&& drive_letter == letter
                &&& record.file_ref == file
                &&& record.parent_ref == parent
                &&& record.name@ == journal_name(b, at)
                &&& record.kind == journal_kind(b, at)
            },
            _ => false,
        }
    }
}

/// The events are those of the journal records at these places, in their order.
pub open spec fn are_events(
    events: Seq<IndexEvent>,
    letter: char,
    b: Seq<u8>,
    places: Seq<int>,
) -> bool {
    &&& events.len() == places.len()
    &&& forall|i: int|
        0 <= i < events.len() ==> is_event(#[trigger] events[i], letter, b, places[i])
}

/// The event for a journal record, if it tells of a change.
fn process_record(letter: char, b: &[u8], at: usize) -> (r: Option<IndexEvent>)
    requires
        journal_fits(b@, at as int),
    ensures
        r is Some <==> tells_change(b@, at as int),
        r is Some ==> is_event(r->0, letter, b@, at as int),
{
    assert(b.len() == b@.len());
    let len = u32_at(b, at);
    let name_off = u16_at(b, at + 58);
    let name_bytes = u16_at(b, at + 56);
    if name_bytes == 0 || name_off as u32 + name_bytes as u32 > len {
        return None;
    }
    let mut units: Vec<u16> = Vec::new();
    push_units(&mut units, b, at + name_off as usize, (name_bytes / 2) as usize);
    assert(units@ =~= units_at(
        b@,
        at + n16(b@, at + 58),
        n16(b@, at + 56) / 2,
    ));
    let name = String::from_utf16_lossy(units.as_slice());
    let attributes = u32_at(b, at + 52);
    let kind = if attributes & 0x10 != 0 {
        FileKind::Directory
    } else {
        FileKind::File
    };
    let file_ref = u64_at(b, at + 8);
    let parent_ref = u64_at(b, at + 16);
    let reason = u32_at(b, at + 40);
    if reason & REASON_DELETE != 0 {
        return Some(IndexEvent::Deleted { drive_letter: letter, file_ref });
    }
    if reason & REASON_NEW_NAME != 0 {
        return Some(
            IndexEvent::Moved {
                drive_letter: letter,
                file_ref,
                new_parent_ref: parent_ref,
                name,
                kind,
            },
        );
    }
    if reason & REASON_CREATE != 0 {
        return Some(
            IndexEvent::Created {
                drive_letter: letter,
                record: FileRecord { file_ref, parent_ref, name, kind },
            },
        );
    }
    None
}

/// The events of the journal records behind the first eight bytes.
fn read_events(letter: char, b: &[u8]) -> (r: Vec<IndexEvent>)
    requires
        b@.len() > 8,
    ensures
        are_events(r@, letter, b@, changes(b@, 8)),
{
    let mut out: Vec<IndexEvent> = Vec::new();
    let mut at: usize = 8;
    let mut done = false;
    let ghost mut seen: Seq<int> = Seq::empty();
    let ghost goal = changes(b@, 8);
    assert(seen + changes(b@, 8) =~= goal);
    while !done && b.len() >= USN_HEADER && at <= b.len() - USN_HEADER
        invariant
            8 <= at <= b@.len(),
            goal == seen + changes(b@, at as int),
            are_events(out@, letter, b@, seen),
            done ==> !journal_fits(b@, at as int),
        decreases b@.len() - at + (if done {
            0int
        } else {
            1int
        }),
    {
        let len = u32_at(b, at) as usize;
        if len < USN_HEADER || len > b.len() - at {
            done = true;
        } else {
            let ghost rest = changes(b@, at + n32(b@, at as int));
            let ghost before = out@;
            match process_record(letter, b, at) {
                Some(e) => {
                    out.push(e);
                    proof {
                        assert(seen + (seq![at as int] + rest) =~= seen.push(at as int) + rest);
                        seen = seen.push(at as int);
                        assert forall|i: int| 0 <= i < out@.len() implies is_event(
                            #[trigger] out@[i],
                            letter,
                            b@,
                            seen[i],
                        ) by {
                            if i < before.len() {
                                assert(out@[i] == before[i]);
                            }
                        }
                    }
                },
                None => {},
            }
            at = at + len;
        }
    }
    assert(!journal_fits(b@, at as int));
    assert(seen + changes(b@, at as int) =~= seen);
    out
}

/// The eight-byte number at a place, signed.
pub open spec fn signed64(b: Seq<u8>, at: int) -> int {
    if n64(b, at) < 0x8000_0000_0000_0000 {
        n64(b, at)
    } else {
        n64(b, at) - 0x1_0000_0000_0000_0000
    }
}

/// The eight-byte number at a place, signed.
fn i64_at(b: &[u8], at: usize) -> (r: i64)
    requires
        at + 8 <= b@.len(),
    ensures
        r == signed64(b@, at as int),
{
    let n = u64_at(b, at);
    if n < 0x8000_0000_0000_0000 {
        n as i64
    } else {
        (n - 0x8000_0000_0000_0000) as i64 + i64::MIN
    }
}

/// What a read of the journal brought.
pub struct Polled {
    /// Whether the read succeeded; one that brings no record does.
    pub ok: bool,
    pub events: Vec<IndexEvent>,
}

/// What a read of the journal brought, and what it made of the watcher. A read
/// that failed is none.
pub open spec fn polled(
    before: UsnWatcher,
    read: Option<Vec<u8>>,
    after: UsnWatcher,
    r: Polled,
) -> bool {
    match read {
        None => !r.ok && r.events@.len() == 0 && after == before,
        Some(b) => {
            &&& r.ok
            &&& if b@.len() <= 8 {
                r.events@.len() == 0 && after == before
            } else {
                &&& after.next_usn == signed64(b@, 0)
                &&& after.drive == before.drive
                &&& after.journal_id == before.journal_id
                &&& are_events(r.events@, before.drive.letter, b@, changes(b@, 8))
            }
        },
    }
}

impl UsnWatcher {
    /// A watcher of what is yet to come.
    pub fn new(drive: &NtfsDrive, journal: JournalState) -> (r: UsnWatcher)
        ensures
            r.drive == *drive,
            r.next_usn == journal.next_usn,
            r.journal_id == journal.journal_id,
    {
        UsnWatcher {
            drive: drive.clone(),
            next_usn: journal.next_usn,
            journal_id: journal.journal_id,
        }
    }

    /// A watcher that goes on from a checkpoint, or watches what is yet to come
    /// where there is none.
    pub fn new_from(
        drive: &NtfsDrive,
        journal: JournalState,
        checkpoint: Option<JournalCheckpoint>,
    ) -> (r: Result<UsnWatcher, JournalError>)
        ensures
            r is Ok <==> (checkpoint is Some ==> resumes(journal, checkpoint->0)),
            r is Err ==> (r->Err_0 == JournalError::IdMismatch <==> checkpoint->0.journal_id
                != journal.journal_id),
            r is Ok ==> {
                &&& r->Ok_0.drive == *drive
                &&& r->Ok_0.journal_id == journal.journal_id
                &&& r->Ok_0.next_usn == match checkpoint {
                    Some(cp) => cp.next_usn,
                    None => journal.next_usn,
                }
            },
    {
        match checkpoint {
            None => Ok(UsnWatcher::new(drive, journal)),
            Some(cp) => {
                if cp.journal_id != journal.journal_id {
                    return Err(JournalError::IdMismatch);
                }
                if cp.next_usn < journal.first_usn || cp.next_usn > journal.next_usn {
                    return Err(JournalError::OutsideRange);
                }
                Ok(
                    UsnWatcher {
                        drive: drive.clone(),
                        next_usn: cp.next_usn,
                        journal_id: journal.journal_id,
                    },
                )
            },
        }
    }

    /// The position of a watcher.
    pub open spec fn position(&self) -> JournalCheckpoint {
        JournalCheckpoint {
            next_usn: self.next_usn,
            journal_id: self.journal_id,
            drive_letter: self.drive.letter,
        }
    }

    /// The position of the watcher.
    pub fn checkpoint(&self) -> (r: JournalCheckpoint)
        ensures
            r == self.position(),
    {
        JournalCheckpoint {
            next_usn: self.next_usn,
            journal_id: self.journal_id,
            drive_letter: self.drive.letter,
        }
    }

    /// Takes what a read of the journal from `next_usn` on brought.
    pub fn poll(&mut self, read: &Option<Vec<u8>>) -> (r: Polled)
        ensures
            polled(*old(self), *read, *final(self), r),
    {
        match read {
            None => Polled { ok: false, events: Vec::new() },
            Some(b) => {
                if b.len() <= 8 {
                    return Polled { ok: true, events: Vec::new() };
                }
                self.next_usn = i64_at(b.as_slice(), 0);
                Polled { ok: true, events: read_events(self.drive.letter, b.as_slice()) }
            },
        }
    }

    /// Takes a read of the journal while catching up. Says whether another read
    /// is due: it is while the position moves.
    pub fn drain(&mut self, read: &Option<Vec<u8>>) -> (r: (Polled, bool))
        ensures
            polled(*old(self), *read, *final(self), r.0),
            r.1 == (final(self).next_usn != old(self).next_usn),
    {
        let before = self.next_usn;
        let p = self.poll(read);
        let again = self.next_usn != before;
        (p, again)
    }
}

/// Going on from the position of a watcher gives that watcher again, as long as
/// the journal still has what follows.
pub proof fn law_position_resumes(w: UsnWatcher, journal: JournalState)
    requires
        w.journal_id == journal.journal_id,
        journal.first_usn <= w.next_usn <= journal.next_usn,
    ensures
        resumes(journal, w.position()),
        w.position().next_usn == w.next_usn,
        w.position().drive_letter == w.drive.letter,
{
}

/// A watcher at work: its last position that was told, and the failed reads in
/// a row.
pub struct SharedRun {
    pub last: Option<JournalCheckpoint>,
    pub fails: u32,
}

/// What a round of a watcher at work leads to.
pub struct Round {
    /// The events to send, in their order.
    pub events: Vec<IndexEvent>,
    /// Whether the read succeeded: a sign of life.
    pub alive: bool,
    /// The watcher gives up.
    pub stop: bool,
    /// The position to send behind the events, if it moved.
    pub position: Option<JournalCheckpoint>,
}

/// A round of a watcher at work. A read that succeeds is a sign of life; after
/// eight that failed in a row the watcher gives up; a position is told once.
pub open spec fn is_round(
    before: SharedRun,
    watcher: UsnWatcher,
    p: Polled,
    after: SharedRun,
    r: Round,
) -> bool {
    &&& r.events == p.events
    &&& r.alive == p.ok
    &&& r.stop == (!p.ok && before.fails + 1 >= MAX_FAILS)
    &&& after.fails == if p.ok {
        0
    } else {
        before.fails + 1
    }
    &&& if r.stop || before.last == Some(watcher.position()) {
        r.position is None && after.last == before.last
    } else {
        r.position == Some(watcher.position()) && after.last == r.position
    }
}

impl SharedRun {
    /// A watcher that has not read yet.
    pub fn new() -> (r: SharedRun)
        ensures
            r.last is None,
            r.fails == 0,
    {
        SharedRun { last: None, fails: 0 }
    }

    /// One round: takes what a read of the journal brought.
    pub fn run_shared(&mut self, watcher: &mut UsnWatcher, read: &Option<Vec<u8>>) -> (r: Round)
        requires
            old(self).fails < MAX_FAILS,
        ensures
            exists|p: Polled|
                {
                    &&& #[trigger] polled(*old(watcher), *read, *final(watcher), p)
                    &&& is_round(*old(self), *final(watcher), p, *final(self), r)
                },
            !r.stop ==> final(self).fails < MAX_FAILS,
    {
        let p = watcher.poll(read);
        let ghost got = p;
        if p.ok {
            self.fails = 0;
        } else {
            self.fails = self.fails + 1;
            if self.fails >= MAX_FAILS {
                let r = Round { events: p.events, alive: false, stop: true, position: None };
                assert(polled(*old(watcher), *read, *watcher, got));
                assert(is_round(*old(self), *watcher, got, *self, r));
                return r;
            }
        }
        let cp = watcher.checkpoint();
        let known = match self.last {
            Some(l) => l == cp,
            None => false,
        };
        let position = if known {
            None
        } else {
            Some(cp)
        };
        if !known {
            self.last = Some(cp);
        }
        let r = Round { events: p.events, alive: p.ok, stop: false, position };
        assert(polled(*old(watcher), *read, *watcher, got));
        assert(is_round(*old(self), *watcher, got, *self, r));
        r
    }
}

/// A watcher gives up at the eighth failed read in a row, and not before; a read
/// that succeeds begins the count anew. A position that was told is not told
/// again.
pub proof fn law_watcher_gives_up_after_eight_failures(
    before: SharedRun,
    watcher: UsnWatcher,
    p: Polled,
    after: SharedRun,
    r: Round,
)
    requires
        is_round(before, watcher, p, after, r),
    ensures
        r.stop <==> !p.ok && before.fails >= 7,
        p.ok ==> after.fails == 0 && r.alive && !r.stop,
        !p.ok ==> after.fails == before.fails + 1 && !r.alive,
        r.events == p.events,
        r.position is Some <==> !r.stop && before.last != Some(watcher.position()),
        r.position is Some ==> r.position == Some(watcher.position()) && after.last == r.position,
        r.position is None ==> after.last == before.last,
{
}

/// A position of a journal is a signed number of sixty-four bits: it is the number
/// in the bytes, but for whole turns of two to the power of sixty-four.
pub proof fn law_positions_are_signed(b: Seq<u8>, at: int)
    ensures
        -0x8000_0000_0000_0000 <= signed64(b, at) < 0x8000_0000_0000_0000,
        (n64(b, at) - signed64(b, at)) % 0x1_0000_0000_0000_0000 == 0,
{
    assert(0 <= n64(b, at) < 0x1_0000_0000_0000_0000);
}

} // verus!
