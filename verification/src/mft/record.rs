//! One record of a master file table.
use super::numbers::{n16, n32, n64, push_units, u16_at, u32_at, u64_at, units_at};
use super::reader::{lemma_told_push, CompactRecord, NamedRecord, ScanResult};
use vstd::prelude::*;

verus! {

/// The first bytes of a record in use.
pub open spec fn has_magic(r: Seq<u8>) -> bool {
    r[0] == 0x46 && r[1] == 0x49 && r[2] == 0x4c && r[3] == 0x45
}

/// A record that has an update array: two numbers at least, inside the record.
pub open spec fn has_updates(r: Seq<u8>, size: int) -> bool {
    r.len() >= 48 && has_magic(r) && n16(r, 6) >= 2 && n16(r, 4) + n16(r, 6) * 2 <= size
}

/// Restores the ends of the sectors from the `i`-th on: the end of each sector
/// holds the check bytes, and gets the bytes of the update array at `at`. The
/// second value tells whether every sector end held the check bytes.
pub open spec fn restored(
    r: Seq<u8>,
    at: int,
    count: int,
    check: (u8, u8),
    size: int,
    i: int,
) -> (Seq<u8>, bool)
    decreases count - i,
{
    let end = i * 512 - 2;
    if i >= count || end + 1 >= size {
        (r, true)
    } else if r[end] != check.0 || r[end + 1] != check.1 {
        (r, false)
    } else {
        let one = r.update(end, r[at + i * 2]);
        let two = one.update(end + 1, one[at + i * 2 + 1]);
        restored(two, at, count, check, size, i + 1)
    }
}

/// A record with its sector ends restored, and whether it is whole.
pub open spec fn fixed(r: Seq<u8>, size: int) -> (Seq<u8>, bool) {
    if has_updates(r, size) {
        let at = n16(r, 4);
        restored(r, at, n16(r, 6), (r[at], r[at + 1]), size, 1)
    } else {
        (r, false)
    }
}

/// Restores the sector ends of a record: the last two bytes of every sector
/// were swapped for check bytes when the record was written. Says whether the
/// record is whole.
pub fn apply_fixup(record: &mut Vec<u8>, record_size: usize) -> (r: bool)
    requires
        record_size <= old(record).len(),
    ensures
        (final(record)@, r) == fixed(old(record)@, record_size as int),
        final(record).len() == old(record).len(),
{
    if record.len() < 48 {
        return false;
    }
    if record[0] != 0x46 || record[1] != 0x49 || record[2] != 0x4c || record[3] != 0x45 {
        return false;
    }
    let at = u16_at(record.as_slice(), 4) as usize;
    let count = u16_at(record.as_slice(), 6) as usize;
    if count < 2 || at + count * 2 > record_size {
        return false;
    }
    let check = (record[at], record[at + 1]);
    let ghost goal = fixed(record@, record_size as int);
    let mut i: usize = 1;
    while i < count && i * 512 - 1 < record_size
        invariant
            1 <= i <= count <= 0xffff,
            record_size <= record.len(),
            record.len() == old(record).len(),
            at + count * 2 <= record_size,
            goal == restored(record@, at as int, count as int, check, record_size as int, i as int),
            goal == fixed(old(record)@, record_size as int),
        decreases count - i,
    {
        let end: usize = i * 512 - 2;
        if record[end] != check.0 || record[end + 1] != check.1 {
            return false;
        }
        let low = record[at + i * 2];
        record.set(end, low);
        let high = record[at + i * 2 + 1];
        record.set(end + 1, high);
        i = i + 1;
    }
    true
}

/// Where the update array lies before the first sector end, a whole record is
/// the record that was written: every sector end holds the bytes of the update
/// array, and nothing else is changed.
pub proof fn law_fixup_restores_sector_ends(r: Seq<u8>, size: int)
    requires
        size <= r.len(),
        fixed(r, size).1,
        n16(r, 4) + n16(r, 6) * 2 <= 510,
    ensures
        ({
            let out = fixed(r, size).0;
            let at = n16(r, 4);
            let count = n16(r, 6);
            &&& out.len() == r.len()
            &&& forall|i: int|
                #![trigger out[i * 512 - 2]]
                1 <= i < count && i * 512 - 1 < size ==> out[i * 512 - 2] == r[at + i * 2]
                    && out[i * 512 - 1] == r[at + i * 2 + 1]
            &&& forall|p: int|
                0 <= p < r.len() && (p % 512 < 510 || p / 512 + 1 >= count || (p / 512) * 512
                    + 511 >= size) ==> #[trigger] out[p] == r[p]
        }),
{
    let at = n16(r, 4);
    lemma_restored(r, r, at, n16(r, 6), (r[at], r[at + 1]), size, 1);
}

proof fn lemma_restored(
    r: Seq<u8>,
    now: Seq<u8>,
    at: int,
    count: int,
    check: (u8, u8),
    size: int,
    from: int,
)
    requires
        0 <= at,
        1 <= from,
        at + count * 2 <= 510,
        size <= r.len(),
        now.len() == r.len(),
        restored(now, at, count, check, size, from).1,
        forall|p: int| 0 <= p < 510 ==> #[trigger] now[p] == r[p],
        forall|i: int|
            #![trigger now[i * 512 - 2]]
            1 <= i < from && i < count && i * 512 - 1 < size ==> now[i * 512 - 2] == r[at + i * 2]
                && now[i * 512 - 1] == r[at + i * 2 + 1],
        forall|p: int|
            0 <= p < r.len() && (p % 512 < 510 || p / 512 + 1 >= count || (p / 512) * 512 + 511
                >= size || p / 512 + 1 >= from) ==> #[trigger] now[p] == r[p],
    ensures
        ({
            let out = restored(now, at, count, check, size, from).0;
            &&& out.len() == r.len()
            &&& forall|i: int|
                #![trigger out[i * 512 - 2]]
                1 <= i < count && i * 512 - 1 < size ==> out[i * 512 - 2] == r[at + i * 2]
                    && out[i * 512 - 1] == r[at + i * 2 + 1]
            &&& forall|p: int|
                0 <= p < r.len() && (p % 512 < 510 || p / 512 + 1 >= count || (p / 512) * 512
                    + 511 >= size) ==> #[trigger] out[p] == r[p]
        }),
    decreases count - from,
{
    let end = from * 512 - 2;
    if from >= count || end + 1 >= size {
        assert forall|i: int|
            #![trigger now[i * 512 - 2]]
            1 <= i < count && i * 512 - 1 < size implies i < from by {
            if i >= from {
                assert(i * 512 >= from * 512);
            }
        }
    } else {
        let one = now.update(end, now[at + from * 2]);
        let two = one.update(end + 1, one[at + from * 2 + 1]);
        assert(end % 512 == 510 && end / 512 + 1 == from);
        assert((end + 1) % 512 == 511 && (end + 1) / 512 + 1 == from);
        lemma_restored(r, two, at, count, check, size, from + 1);
    }
}

/// A name that a record has: its place, its length, the folder it is in, and
/// how good it is, 0 for the best.
pub ghost struct NameAttr {
    pub at: int,
    pub len: int,
    pub parent: int,
    pub rank: int,
}

/// How good a name is by its namespace: a Windows name first, then one that is
/// a DOS name too, then a POSIX name.
pub open spec fn name_rank(namespace: u8) -> int {
    if namespace == 1 {
        0
    } else if namespace == 3 {
        1
    } else if namespace == 0 {
        2
    } else {
        3
    }
}

/// The name that an attribute holds, if it holds one inside the record; DOS
/// names do not count.
pub open spec fn name_attr(b: Seq<u8>, at: int) -> Option<NameAttr> {
    let len = n32(b, at + 4);
    let value = at + n16(b, at + 20);
    if n32(b, at) == 0x30 && len >= 22 && b[at + 8] == 0 && value + 66 <= b.len() && n32(b, at + 16)
        >= 66 && value + 66 + b[value + 64] * 2 <= b.len() && b[value + 65] != 2 {
        Some(
            NameAttr {
                at: value + 66,
                len: b[value + 64] as int,
                parent: n64(b, value),
                rank: name_rank(b[value + 65]),
            },
        )
    } else {
        None
    }
}

/// The attribute list ends here: no room, the end mark, or a length that is 0
/// or leaves the record.
pub open spec fn attrs_end(b: Seq<u8>, at: int) -> bool {
    ||| at + 8 > b.len()
    ||| n32(b, at) == 0xffff_ffff
    ||| n32(b, at + 4) == 0
    ||| at + n32(b, at + 4) > b.len()
}

/// The names of a record, from the attribute at `at` on.
pub open spec fn name_attrs(b: Seq<u8>, at: int) -> Seq<NameAttr>
    decreases b.len() - at,
{
    if attrs_end(b, at) || n32(b, at + 4) <= 0 {
        Seq::empty()
    } else {
        let rest = name_attrs(b, at + n32(b, at + 4));
        match name_attr(b, at) {
            Some(n) => seq![n] + rest,
            None => rest,
        }
    }
}

/// The name that is kept: the first of the best.
pub open spec fn best_attr(names: Seq<NameAttr>) -> Option<NameAttr>
    decreases names.len(),
{
    if names.len() == 0 {
        None
    } else {
        match best_attr(names.drop_last()) {
            Some(b) => if names.last().rank < b.rank {
                Some(names.last())
            } else {
                Some(b)
            },
            None => Some(names.last()),
        }
    }
}

/// The name that is kept is one of the names: no name is better, and no earlier
/// one is as good.
pub proof fn law_best_name_comes_first(names: Seq<NameAttr>) -> (i: int)
    requires
        names.len() > 0,
    ensures
        0 <= i < names.len(),
        best_attr(names) == Some(names[i]),
        forall|j: int| 0 <= j < names.len() ==> names[i].rank <= (#[trigger] names[j]).rank,
        forall|j: int| 0 <= j < i ==> names[i].rank < (#[trigger] names[j]).rank,
    decreases names.len(),
{
    let n = names.len() - 1;
    if n == 0 {
        assert(names.drop_last().len() == 0);
        0
    } else {
        let k = law_best_name_comes_first(names.drop_last());
        assert(names.drop_last()[k] == names[k]);
        assert forall|j: int| 0 <= j < n implies (#[trigger] names[j]) == names.drop_last()[j] by {
        }
        if names[n].rank < names[k].rank {
            n
        } else {
            k
        }
    }
}

proof fn lemma_best_stays(names: Seq<NameAttr>, more: Seq<NameAttr>)
    requires
        best_attr(names) is Some,
        best_attr(names)->0.rank == 0,
        forall|j: int| 0 <= j < more.len() ==> (#[trigger] more[j]).rank >= 0,
    ensures
        best_attr(names + more) == best_attr(names),
    decreases more.len(),
{
    if more.len() == 0 {
        assert(names + more =~= names);
    } else {
        assert((names + more).drop_last() =~= names + more.drop_last());
        assert((names + more).last() == more.last());
        lemma_best_stays(names, more.drop_last());
    }
}

proof fn lemma_ranks(b: Seq<u8>, at: int)
    ensures
        forall|j: int| 0 <= j < name_attrs(b, at).len() ==> (#[trigger] name_attrs(b, at)[j]).rank >= 0,
    decreases b.len() - at,
{
    if !(attrs_end(b, at) || n32(b, at + 4) <= 0) {
        lemma_ranks(b, at + n32(b, at + 4));
        let rest = name_attrs(b, at + n32(b, at + 4));
        assert forall|j: int| 0 <= j < name_attrs(b, at).len() implies (#[trigger] name_attrs(
            b,
            at,
        )[j]).rank >= 0 by {
            match name_attr(b, at) {
                Some(n) => {
                    if j > 0 {
                        assert(name_attrs(b, at)[j] == rest[j - 1]);
                    }
                },
                None => {
                    assert(name_attrs(b, at)[j] == rest[j]);
                },
            }
        }
    }
}

/// What a record tells: nothing where it is not in use or has no name.
pub open spec fn file_entry(b: Seq<u8>, index: u64) -> Option<NamedRecord> {
    let flags = n16(b, 0x16) as u16;
    let kept = best_attr(name_attrs(b, n16(b, 0x14)));
    if flags & 0x01 == 0 || kept is None {
        None
    } else {
        Some(
            NamedRecord {
                file_ref: index | ((n16(b, 0x10) as u64) << 48),
                parent_ref: kept->0.parent as u64,
                name: units_at(b, kept->0.at, kept->0.len),
                is_dir: flags & 0x02 != 0,
            },
        )
    }
}

/// A name that was found in a record.
struct FoundName {
    at: usize,
    len: usize,
    parent: u64,
    rank: u8,
}

/// A found name is this one, and lies in the record.
spec fn same_name(f: FoundName, n: NameAttr, b: Seq<u8>) -> bool {
    &&& f.at == n.at
    &&& f.len == n.len
    &&& f.parent == n.parent
    &&& f.rank == n.rank
    &&& f.at + 2 * f.len <= b.len()
    &&& f.len <= 255
}

/// The name that an attribute holds.
fn read_name_attr(b: &[u8], at: usize) -> (r: Option<FoundName>)
    requires
        at + 8 <= b@.len(),
        n32(b@, at + 4) > 0,
        at + n32(b@, at + 4) <= b@.len(),
    ensures
        r is Some <==> name_attr(b@, at as int) is Some,
        r is Some ==> same_name(r->0, name_attr(b@, at as int)->0, b@),
{
    assert(b.len() == b@.len());
    let kind = u32_at(b, at);
    let len = u32_at(b, at + 4) as usize;
    if kind != 0x30 || len < 22 || b[at + 8] != 0 {
        return None;
    }
    let value_len = u32_at(b, at + 16);
    let value_off = u16_at(b, at + 20) as usize;
    let room = b.len() - at;
    if value_off > room || room - value_off < 66 || value_len < 66 {
        return None;
    }
    let value: usize = at + value_off;
    let parent = u64_at(b, value);
    let units = b[value + 64] as usize;
    let namespace = b[value + 65];
    if b.len() - value - 66 < units * 2 || namespace == 2 {
        return None;
    }
    let rank: u8 = if namespace == 1 {
        0
    } else if namespace == 3 {
        1
    } else if namespace == 0 {
        2
    } else {
        3
    };
    Some(FoundName { at: value + 66, len: units, parent, rank })
}

/// The name of a record that is kept.
fn find_name(b: &[u8], first: usize) -> (r: Option<FoundName>)
    ensures
        r is Some <==> best_attr(name_attrs(b@, first as int)) is Some,
        r is Some ==> same_name(r->0, best_attr(name_attrs(b@, first as int))->0, b@),
{
    let mut best: Option<FoundName> = None;
    let mut at = first;
    let mut done = false;
    let ghost mut seen: Seq<NameAttr> = Seq::empty();
    let ghost goal = name_attrs(b@, first as int);
    assert(seen + name_attrs(b@, at as int) =~= goal);
    while !done && b.len() >= 8 && at <= b.len() - 8
        invariant
            goal == name_attrs(b@, first as int),
            best is Some <==> best_attr(seen) is Some,
            best is Some ==> same_name(best->0, best_attr(seen)->0, b@),
            !done ==> seen + name_attrs(b@, at as int) == goal,
            done ==> best_attr(seen) == best_attr(goal),
            !done ==> at <= b@.len() || at == first,
        decreases b@.len() - at + (if done {
            0int
        } else {
            1int
        }),
    {
        let kind = u32_at(b, at);
        let len = u32_at(b, at + 4);
        if kind == 0xffff_ffff || len == 0 || len as usize > b.len() - at {
            assert(attrs_end(b@, at as int));
            assert(seen + name_attrs(b@, at as int) =~= seen);
            done = true;
        } else {
            let ghost rest = name_attrs(b@, at + n32(b@, at + 4));
            let found = read_name_attr(b, at);
            match found {
                Some(f) => {
                    let better = match &best {
                        Some(c) => f.rank < c.rank,
                        None => true,
                    };
                    let win = f.rank == 0;
                    proof {
                        let n = name_attr(b@, at as int)->0;
                        assert(seen.push(n).drop_last() =~= seen);
                        assert(seen + (seq![n] + rest) =~= seen.push(n) + rest);
                        seen = seen.push(n);
                    }
                    if better {
                        best = Some(f);
                        if win {
                            proof {
                                lemma_ranks(b@, at + n32(b@, at + 4));
                                lemma_best_stays(seen, rest);
                            }
                            done = true;
                        }
                    }
                },
                None => {},
            }
            if !done {
                at = at + len as usize;
            }
        }
    }
    proof {
        if !done {
            assert(attrs_end(b@, at as int));
            assert(seen + name_attrs(b@, at as int) =~= seen);
        }
    }
    best
}

/// Appends what a record tells to a scan. `mft_index` is the place of the
/// record in the table.
pub fn parse_file_record(
    record: &[u8],
    mft_index: u64,
    scan: &mut ScanResult,
)
    requires
        record@.len() >= 0x18,
        old(scan).packed(),
        old(scan).name_data.len() + record@.len() <= u32::MAX,
    ensures
        final(scan).packed(),
        final(scan).told() == match file_entry(record@, mft_index) {
            Some(e) => old(scan).told().push(e),
            None => old(scan).told(),
        },
        final(scan).name_data.len() <= old(scan).name_data.len() + record@.len(),
{
    let flags = u16_at(record, 0x16);
    if flags & 0x01 == 0 {
        return;
    }
    let is_dir = flags & 0x02 != 0;
    let seq_number = u16_at(record, 0x10) as u64;
    let file_ref = mft_index | (seq_number << 48);
    let first = u16_at(record, 0x14) as usize;
    match find_name(record, first) {
        Some(f) => {
            let off: u32 = scan.name_data.len() as u32;
            push_units(&mut scan.name_data, record, f.at, f.len);
            scan.records.push(
                CompactRecord {
                    file_ref,
                    parent_ref: f.parent,
                    name_off: off,
                    name_len: f.len as u16,
                    is_dir,
                },
            );
            proof {
                assert(scan.records@.drop_last() =~= old(scan).records@);
                lemma_told_push(*old(scan), *scan, file_entry(record@, mft_index)->0);
            }
        },
        None => {},
    }
}

} // verus!
