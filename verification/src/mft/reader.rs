//! Reading a volume: the records of its master file table.
use super::numbers::{n16, n32, n64, push_units, u16_at, u32_at, u64_at, units_at};
use super::record::{apply_fixup, file_entry, fixed, parse_file_record};
use vstd::arithmetic::div_mod::{lemma_fundamental_div_mod, lemma_mod_bound};
use vstd::prelude::*;

verus! {

/// One record of a volume scan; its name is a range of the scan's UTF-16 data.
#[derive(Debug, Clone, Copy)]
pub struct CompactRecord {
    pub file_ref: u64,
    pub parent_ref: u64,
    pub name_off: u32,
    pub name_len: u16,
    pub is_dir: bool,
}

/// A whole volume scan: the records, and the UTF-16 data of their names.
#[derive(Debug)]
pub struct ScanResult {
    pub records: Vec<CompactRecord>,
    pub name_data: Vec<u16>,
}

/// What one record of a volume tells.
#[verifier::ext_equal]
pub ghost struct NamedRecord {
    pub file_ref: u64,
    pub parent_ref: u64,
    pub name: Seq<u16>,
    pub is_dir: bool,
}

impl ScanResult {
    /// Every record's name lies inside the name data.
    pub open spec fn wf(&self) -> bool {
        forall|i: int|
            0 <= i < self.records@.len() ==> (#[trigger] self.records@[i]).name_off
                + self.records@[i].name_len <= self.name_data@.len()
    }

    /// Where the name after the first `n` names starts.
    pub open spec fn name_start(&self, n: int) -> int {
        if n <= 0 {
            0
        } else {
            self.records@[n - 1].name_off + self.records@[n - 1].name_len
        }
    }

    /// The names lie one behind the other, in the order of the records, and
    /// fill the name data.
    pub open spec fn packed(&self) -> bool {
        &&& self.wf()
        &&& self.name_data@.len() <= u32::MAX
        &&& self.name_start(self.records@.len() as int) == self.name_data@.len()
        &&& forall|i: int|
            0 <= i < self.records@.len() ==> self.records@[i].name_off == #[trigger] self.name_start(
                i,
            )
    }

    /// What the `i`-th record tells.
    pub open spec fn told_at(&self, i: int) -> NamedRecord {
        let r = self.records@[i];
        NamedRecord {
            file_ref: r.file_ref,
            parent_ref: r.parent_ref,
            name: self.name_data@.subrange(r.name_off as int, r.name_off + r.name_len),
            is_dir: r.is_dir,
        }
    }

    /// What the records tell.
    pub open spec fn told(&self) -> Seq<NamedRecord> {
        Seq::new(self.records@.len(), |i: int| self.told_at(i))
    }

    /// A scan of nothing.
    pub fn new() -> (r: ScanResult)
        ensures
            r.packed(),
            r.told() == Seq::<NamedRecord>::empty(),
            r.name_data.len() == 0,
    {
        let r = ScanResult { records: Vec::new(), name_data: Vec::new() };
        assert(r.told() =~= Seq::<NamedRecord>::empty());
        r
    }

    /// Appends another scan.
    pub fn join(&mut self, part: ScanResult)
        requires
            old(self).packed(),
            part.packed(),
            old(self).name_data.len() + part.name_data.len() <= u32::MAX,
        ensures
            final(self).packed(),
            final(self).told() == old(self).told() + part.told(),
            final(self).name_data.len() == old(self).name_data.len() + part.name_data.len(),
    {
        let base: u32 = self.name_data.len() as u32;
        let ghost before = *self;
        let mut names = part.name_data;
        self.name_data.append(&mut names);
        let ghost all = self.name_data@;
        assert(all == before.name_data@ + part.name_data@);
        let mut i: usize = 0;
        proof {
            assert forall|k: int| 0 <= k < before.records@.len() implies (#[trigger] self.told()[k])
                == before.told()[k] by {
                let r = before.records@[k];
                assert(all.subrange(r.name_off as int, r.name_off + r.name_len)
                    =~= before.name_data@.subrange(r.name_off as int, r.name_off + r.name_len));
            }
            assert(self.told() =~= before.told() + part.told().take(0));
            assert forall|k: int| 0 <= k < self.records@.len() implies self.records@[k].name_off
                == #[trigger] self.name_start(k) by {
                assert(self.name_start(k) == before.name_start(k));
            }
        }
        while i < part.records.len()
            invariant
                i <= part.records@.len(),
                before.packed(),
                part.packed(),
                base == before.name_data@.len(),
                all == before.name_data@ + part.name_data@,
                all.len() <= u32::MAX,
                self.name_data@ == all,
                self.wf(),
                self.records@.len() == before.records@.len() + i,
                self.name_start(self.records@.len() as int) == base + part.name_start(i as int),
                forall|k: int|
                    0 <= k < self.records@.len() ==> self.records@[k].name_off
                        == #[trigger] self.name_start(k),
                self.told() == before.told() + part.told().take(i as int),
            decreases part.records@.len() - i,
        {
            let r = part.records[i];
            assert(part.records@[i as int] == r);
            let ghost mid = *self;
            self.records.push(CompactRecord { name_off: r.name_off + base, ..r });
            proof {
                assert forall|k: int| 0 <= k < self.records@.len() implies self.records@[k].name_off
                    == #[trigger] self.name_start(k) by {
                    if k < mid.records@.len() {
                        assert(self.records@[k] == mid.records@[k]);
                        assert(self.name_start(k) == mid.name_start(k));
                    } else {
                        assert(r.name_off == part.name_start(i as int));
                        assert(self.name_start(k) == mid.name_start(k));
                    }
                }
                assert(all.subrange(
                    r.name_off + base,
                    r.name_off + base + r.name_len,
                ) =~= part.name_data@.subrange(r.name_off as int, r.name_off + r.name_len));
                assert(part.told()[i as int] == part.told_at(i as int));
                assert forall|k: int| 0 <= k < mid.records@.len() implies (#[trigger] self.told()[k])
                    == mid.told()[k] by {
                    assert(self.records@[k] == mid.records@[k]);
                }
                assert(self.told() =~= before.told() + part.told().take(i + 1));
            }
            i = i + 1;
        }
        assert(part.told().take(i as int) =~= part.told());
    }
}

/// One more record: its name stands behind the others.
pub proof fn lemma_told_push(before: ScanResult, after: ScanResult, e: NamedRecord)
    requires
        before.packed(),
        after.name_data@ == before.name_data@ + e.name,
        after.name_data@.len() <= u32::MAX,
        after.records@.len() == before.records@.len() + 1,
        after.records@.drop_last() == before.records@,
        after.records@.last().file_ref == e.file_ref,
        after.records@.last().parent_ref == e.parent_ref,
        after.records@.last().name_off == before.name_data@.len(),
        after.records@.last().name_len == e.name.len(),
        after.records@.last().is_dir == e.is_dir,
    ensures
        after.packed(),
        after.told() == before.told().push(e),
{
    let n = before.records@.len() as int;
    assert forall|i: int| 0 <= i < n implies (#[trigger] after.records@[i]) == before.records@[i] by {
        assert(after.records@.drop_last()[i] == after.records@[i]);
    }
    assert forall|i: int| 0 <= i < after.records@.len() implies after.records@[i].name_off
        == #[trigger] after.name_start(i) by {
        assert(before.name_start(i) == after.name_start(i));
    }
    assert forall|i: int| 0 <= i < n implies (#[trigger] after.told()[i]) == before.told()[i] by {
        let r = before.records@[i];
        assert(after.records@[i] == r);
        assert(after.name_data@.subrange(r.name_off as int, r.name_off + r.name_len)
            =~= before.name_data@.subrange(r.name_off as int, r.name_off + r.name_len));
    }
    assert(after.name_data@.subrange(
        before.name_data@.len() as int,
        (before.name_data@.len() + e.name.len()) as int,
    ) =~= e.name);
    assert(after.told() =~= before.told().push(e));
}

/// What the `i`-th record of a piece of the table tells. `first` is the place
/// in the table of the piece's first record.
pub open spec fn entry_at(b: Seq<u8>, size: int, first: int, i: int) -> Option<NamedRecord> {
    let whole = fixed(b.subrange(i * size, (i + 1) * size), size);
    if whole.1 {
        file_entry(whole.0, (first + i) as u64)
    } else {
        None
    }
}

/// What the first `n` records of a piece of the table tell.
pub open spec fn entries(b: Seq<u8>, size: int, first: int, n: int) -> Seq<NamedRecord>
    decreases n,
{
    if n <= 0 {
        Seq::empty()
    } else {
        match entry_at(b, size, first, n - 1) {
            Some(e) => entries(b, size, first, n - 1).push(e),
            None => entries(b, size, first, n - 1),
        }
    }
}

proof fn lemma_record_ends(len: int, size: int, n: int, i: int)
    requires
        size > 0,
        0 <= i < n,
        n * size <= len,
    ensures
        0 <= i * size,
        i * size + size == (i + 1) * size,
        (i + 1) * size <= n * size,
{
    assert(0 <= i * size) by (nonlinear_arith)
        requires
            size > 0,
            0 <= i,
    ;
    assert(i * size + size == (i + 1) * size) by (nonlinear_arith);
    assert((i + 1) * size <= n * size) by (nonlinear_arith)
        requires
            i + 1 <= n,
            size > 0,
    ;
}

/// Where a piece of the table is cut does not matter: what the records of two
/// pieces tell is what the records of the first tell, then those of the second.
pub proof fn law_pieces_join(a: Seq<u8>, b: Seq<u8>, size: int, first: int, n: int, m: int)
    requires
        size > 0,
        0 <= n,
        0 <= m,
        a.len() == n * size,
        m * size <= b.len(),
    ensures
        entries(a + b, size, first, n + m) == entries(a, size, first, n) + entries(
            b,
            size,
            first + n,
            m,
        ),
    decreases n + m,
{
    if m > 0 {
        assert((m - 1) * size <= m * size) by (nonlinear_arith)
            requires
                size > 0,
        ;
        law_pieces_join(a, b, size, first, n, m - 1);
        lemma_record_ends(b.len() as int, size, m, m - 1);
        assert((n + m - 1) * size == n * size + (m - 1) * size) by (nonlinear_arith);
        assert((n + m) * size == n * size + m * size) by (nonlinear_arith);
        assert((a + b).subrange((n + m - 1) * size, (n + m) * size) =~= b.subrange(
            (m - 1) * size,
            m * size,
        ));
    } else if n > 0 {
        assert((n - 1) * size + size == n * size) by (nonlinear_arith);
        assert((a + b).take(a.len() as int) =~= a);
        lemma_entries_prefix(a + b, a, size, first, n);
        assert(entries(b, size, first + n, m) =~= Seq::<NamedRecord>::empty());
    }
}

proof fn lemma_entries_prefix(b: Seq<u8>, a: Seq<u8>, size: int, first: int, n: int)
    requires
        size > 0,
        n * size <= a.len() <= b.len(),
        b.take(a.len() as int) == a,
    ensures
        entries(b, size, first, n) == entries(a, size, first, n),
    decreases n,
{
    if n > 0 {
        lemma_record_ends(a.len() as int, size, n, n - 1);
        lemma_entries_prefix(b, a, size, first, n - 1);
        assert forall|k: int| 0 <= k < a.len() implies b[k] == a[k] by {
            assert(b.take(a.len() as int)[k] == b[k]);
        }
        assert(b.subrange((n - 1) * size, n * size) =~= a.subrange((n - 1) * size, n * size));
    }
}

/// Reads the records of a piece of the table. `first_index` is the place in the
/// table of its first record.
pub fn parse_segment(buf: &[u8], record_size: usize, first_index: u64) -> (r: ScanResult)
    requires
        record_size > 0,
        buf@.len() <= u32::MAX,
        first_index + buf@.len() / record_size as nat <= u64::MAX,
    ensures
        r.packed(),
        r.name_data.len() <= buf@.len(),
        r.told() == entries(
            buf@,
            record_size as int,
            first_index as int,
            buf@.len() as int / record_size as int,
        ),
{
    let mut part = ScanResult::new();
    let count: usize = buf.len() / record_size;
    let ghost size = record_size as int;
    proof {
        lemma_fundamental_div_mod(buf@.len() as int, size);
        lemma_mod_bound(buf@.len() as int, size);
        assert(count * size <= buf@.len()) by (nonlinear_arith)
            requires
                buf@.len() == size * (count as int) + buf@.len() as int % size,
                0 <= buf@.len() as int % size,
        ;
    }
    let mut i: usize = 0;
    assert(0 * size == 0) by (nonlinear_arith);
    while i < count
        invariant
            i <= count,
            size == record_size,
            size > 0,
            count == buf@.len() as int / size,
            count * size <= buf@.len() <= u32::MAX,
            first_index + count <= u64::MAX,
            part.packed(),
            part.name_data@.len() <= i * size,
            part.told() == entries(buf@, size, first_index as int, i as int),
        decreases count - i,
    {
        proof {
            lemma_record_ends(buf@.len() as int, size, count as int, i as int);
        }
        let lo: usize = i * record_size;
        let mut scratch = vstd::slice::slice_to_vec(&buf[lo..lo + record_size]);
        assert(scratch@ =~= buf@.subrange(i * size, (i + 1) * size));
        if apply_fixup(&mut scratch, record_size) {
            assert(scratch.len() >= 48);
            parse_file_record(scratch.as_slice(), first_index + i as u64, &mut part);
        }
        i = i + 1;
    }
    part
}

/// A stretch of the table that is read piece by piece.
pub struct RangeScan {
    pub scan: ScanResult,
    /// The place in the table of the next record.
    pub rec_index: u64,
    /// The place in the table of the first record behind the stretch.
    pub end_rec: u64,
    pub record_size: usize,
    /// The bytes that are read and do not make a record yet.
    pub leftover: Vec<u8>,
}

impl RangeScan {
    /// The stretch is not behind its end, and the bytes left over are fewer
    /// than a record.
    pub open spec fn wf(&self) -> bool {
        &&& self.scan.packed()
        &&& self.rec_index <= self.end_rec
        &&& self.record_size > 0
        &&& self.leftover@.len() < self.record_size
    }

    /// The stretch from one record to another.
    pub fn new(start_rec: u64, end_rec: u64, record_size: usize) -> (r: RangeScan)
        requires
            start_rec <= end_rec,
            record_size > 0,
        ensures
            r.wf(),
            r.scan.told() == Seq::<NamedRecord>::empty(),
            r.scan.name_data.len() == 0,
            r.rec_index == start_rec,
            r.end_rec == end_rec,
            r.record_size == record_size,
            r.leftover.len() == 0,
    {
        let scan = ScanResult::new();
        RangeScan { scan, rec_index: start_rec, end_rec, record_size, leftover: Vec::new() }
    }

    /// How many records the bytes at hand make, as far as they lie in the
    /// stretch.
    pub open spec fn at_hand(&self, data: Seq<u8>) -> int {
        let n = data.len() as int / self.record_size as int;
        if n < self.end_rec - self.rec_index {
            n
        } else {
            self.end_rec - self.rec_index
        }
    }

    /// Takes the next bytes. Says whether the stretch goes on behind them: it
    /// does not once bytes behind its end were read.
    pub fn read_record_range(&mut self, chunk: &[u8]) -> (more: bool)
        requires
            old(self).wf(),
            old(self).scan.name_data.len() + old(self).leftover.len() + chunk@.len() <= u32::MAX,
            old(self).leftover.len() + chunk@.len() <= usize::MAX,
        ensures
            final(self).wf(),
            final(self).end_rec == old(self).end_rec,
            final(self).record_size == old(self).record_size,
            ({
                let data = old(self).leftover@ + chunk@;
                let size = old(self).record_size as int;
                let n = old(self).at_hand(data);
                &&& final(self).rec_index == old(self).rec_index + n
                &&& final(self).scan.told() == old(self).scan.told() + entries(
                    data,
                    size,
                    old(self).rec_index as int,
                    n,
                )
                &&& final(self).scan.name_data.len() <= old(self).scan.name_data.len() + n * size
                &&& more == (data.len() <= (old(self).end_rec - old(self).rec_index) * size)
                &&& more ==> final(self).leftover@ == data.skip(n * size)
            }),
    {
        let mut data: Vec<u8> = Vec::new();
        data.append(&mut self.leftover);
        let mut fresh = vstd::slice::slice_to_vec(chunk);
        data.append(&mut fresh);
        let ghost all = old(self).leftover@ + chunk@;
        assert(data@ =~= all);
        let size = self.record_size;
        let have: usize = data.len() / size;
        let left: u64 = self.end_rec - self.rec_index;
        let n: usize = if (have as u64) < left {
            have
        } else {
            left as usize
        };
        proof {
            lemma_fundamental_div_mod(all.len() as int, size as int);
            lemma_mod_bound(all.len() as int, size as int);
            assert(n * size <= have * size) by (nonlinear_arith)
                requires
                    n <= have,
                    size > 0,
            ;
            assert(have * size + all.len() as int % (size as int) == all.len()) by (nonlinear_arith)
                requires
                    all.len() == size * (have as int) + all.len() as int % (size as int),
            ;
            assert(0 <= n * size) by (nonlinear_arith)
                requires
                    n >= 0,
                    size > 0,
            ;
        }
        let aligned: usize = n * size;
        proof {
            assert((n * size) as int / size as int == n) by (nonlinear_arith)
                requires
                    size > 0,
            ;
        }
        let part = parse_segment(&data.as_slice()[0..aligned], size, self.rec_index);
        proof {
            let piece = all.subrange(0, aligned as int);
            assert(all.take(piece.len() as int) =~= piece);
            lemma_entries_prefix(all, piece, size as int, self.rec_index as int, n as int);
        }
        self.scan.join(part);
        self.rec_index = self.rec_index + n as u64;
        let more: bool = if (have as u64) < left {
            proof {
                assert((have + 1) * size <= left * size) by (nonlinear_arith)
                    requires
                        have + 1 <= left,
                        size > 0,
                ;
                assert((have + 1) * size == have * size + size) by (nonlinear_arith);
            }
            true
        } else {
            assert(left * size == n * size);
            data.len() <= aligned
        };
        self.leftover = Vec::new();
        if more {
            let mut rest = vstd::slice::slice_to_vec(&data.as_slice()[aligned..data.len()]);
            self.leftover.append(&mut rest);
            assert(self.leftover@ =~= all.skip(n * size));
        }
        more
    }
}

/// How many stretches a table of this many records is read in.
pub open spec fn stream_count(total: int) -> int {
    if total / 400_000 < 1 {
        1
    } else if total / 400_000 > 8 {
        8
    } else {
        total / 400_000
    }
}

/// How many records a stretch has, but for the last.
pub open spec fn stream_len(total: int) -> int {
    (total + stream_count(total) - 1) / stream_count(total)
}

/// The stretches in which a table is read: where each starts, and where it
/// ends. They follow one another, and every record is in one.
pub fn stream_ranges(total: u64) -> (r: Vec<(u64, u64)>)
    requires
        total + 8 <= u64::MAX,
    ensures
        r.len() == stream_count(total as int),
        r@[0].0 == 0,
        r@.last().1 == total,
        forall|i: int| 0 <= i < r.len() - 1 ==> (#[trigger] r@[i]).1 == r@[i + 1].0,
        forall|i: int|
            0 <= i < r.len() ==> (#[trigger] r@[i]).0 == i * stream_len(total as int) && r@[i].0
                <= r@[i].1,
{
    let wanted: u64 = total / 400_000;
    let streams: u64 = if wanted < 1 {
        1
    } else if wanted > 8 {
        8
    } else {
        wanted
    };
    let chunk: u64 = (total + streams - 1) / streams;
    let mut out: Vec<(u64, u64)> = Vec::new();
    proof {
        lemma_streams(total as int, streams as int, chunk as int);
    }
    let mut i: u64 = 0;
    let mut start: u64 = 0;
    while i < streams
        invariant
            i <= streams <= 8,
            out.len() == i,
            streams == stream_count(total as int),
            chunk == stream_len(total as int),
            (streams - 1) * chunk <= total <= streams * chunk,
            0 <= chunk,
            total + 8 <= u64::MAX,
            start == if i < streams {
                i * chunk
            } else {
                total as int
            },
            i > 0 ==> out@[0].0 == 0 && out@.last().1 == start,
            forall|k: int| 0 <= k < out.len() - 1 ==> (#[trigger] out@[k]).1 == out@[k + 1].0,
            forall|k: int|
                0 <= k < out.len() ==> (#[trigger] out@[k]).0 == k * chunk && out@[k].0
                    <= out@[k].1,
        decreases streams - i,
    {
        proof {
            assert((i + 1) * chunk == i * chunk + chunk) by (nonlinear_arith);
            if i + 1 < streams {
                assert((i + 1) * chunk <= (streams - 1) * chunk) by (nonlinear_arith)
                    requires
                        i + 1 <= streams - 1,
                        0 <= chunk,
                ;
            } else {
                assert(i == streams - 1);
            }
        }
        let end: u64 = if i + 1 < streams {
            start + chunk
        } else {
            total
        };
        out.push((start, end));
        start = end;
        i = i + 1;
    }
    out
}

proof fn lemma_streams(total: int, streams: int, chunk: int)
    requires
        0 <= total,
        streams == stream_count(total),
        chunk == stream_len(total),
    ensures
        (streams - 1) * chunk <= total <= streams * chunk,
        0 <= chunk,
{
    let t = total + streams - 1;
    lemma_fundamental_div_mod(t, streams);
    lemma_mod_bound(t, streams);
    assert(t == streams * chunk + t % streams);
    assert(0 <= chunk) by (nonlinear_arith)
        requires
            t == streams * chunk + t % streams,
            0 <= t,
            t % streams < streams,
            1 <= streams,
    ;
    if streams > 1 {
        assert(total >= 400_000 * streams);
        assert((streams - 1) * chunk <= total) by (nonlinear_arith)
            requires
                streams * chunk <= total + streams - 1,
                1 < streams <= 8,
                total >= 400_000 * streams,
        ;
    } else {
        assert((streams - 1) * chunk == 0) by (nonlinear_arith)
            requires
                streams == 1,
        ;
    }
}

/// A boot sector of an NTFS volume.
pub open spec fn is_boot_sector(boot: Seq<u8>) -> bool {
    boot.len() >= 512 && boot[3] == 0x4e && boot[4] == 0x54 && boot[5] == 0x46 && boot[6] == 0x53
}

/// Two to the power of `n`.
pub open spec fn power_of_two(n: int) -> int
    decreases n,
{
    if n <= 0 {
        1
    } else {
        2 * power_of_two(n - 1)
    }
}

/// The size of a table record, as a boot sector tells it: that many clusters,
/// or, where the number is not positive, two to the power of its opposite.
pub open spec fn record_size_of(boot: Seq<u8>) -> int {
    let raw = boot[0x40];
    if 0 < raw < 128 {
        raw * (n16(boot, 0x0b) * boot[0x0d])
    } else if raw == 0 {
        1
    } else {
        power_of_two(256 - raw)
    }
}

proof fn lemma_power_grows(n: int, m: int)
    requires
        0 <= n <= m,
    ensures
        1 <= power_of_two(n) <= power_of_two(m),
    decreases m,
{
    if n < m {
        lemma_power_grows(n, m - 1);
    } else if n > 0 {
        lemma_power_grows(n - 1, n - 1);
    }
}

proof fn lemma_power_limit()
    ensures
        power_of_two(63) == 0x8000_0000_0000_0000,
{
    reveal_with_fuel(power_of_two, 65);
}

/// The size of a table record, from the boot sector; none if that is no boot
/// sector of an NTFS volume.
pub fn read_mft_record_size(boot: &[u8]) -> (r: Option<u64>)
    requires
        is_boot_sector(boot@) ==> boot@[0x40] < 128 || boot@[0x40] > 192,
    ensures
        r is Some <==> is_boot_sector(boot@),
        r is Some ==> r->0 == record_size_of(boot@),
{
    if boot.len() < 512 || boot[3] != 0x4e || boot[4] != 0x54 || boot[5] != 0x46 || boot[6]
        != 0x53 {
        return None;
    }
    let raw = boot[0x40];
    if raw > 0 && raw < 128 {
        let sector = u16_at(boot, 0x0b) as u64;
        let per_cluster = boot[0x0d] as u64;
        assert(sector * per_cluster <= 0xffff * 0xff) by (nonlinear_arith)
            requires
                sector <= 0xffff,
                per_cluster <= 0xff,
        ;
        let cluster: u64 = sector * per_cluster;
        assert(raw * cluster <= 0x7f * 0xffff * 0xff) by (nonlinear_arith)
            requires
                raw <= 0x7f,
                cluster <= 0xffff * 0xff,
        ;
        return Some(raw as u64 * cluster);
    }
    if raw == 0 {
        return Some(1);
    }
    let n: u64 = 256 - raw as u64;
    let mut size: u64 = 1;
    let mut i: u64 = 0;
    while i < n
        invariant
            i <= n < 64,
            size == power_of_two(i as int),
        decreases n - i,
    {
        proof {
            lemma_power_limit();
            lemma_power_grows(i + 1, 63);
        }
        size = 2 * size;
        i = i + 1;
    }
    Some(size)
}

/// How many records a table of this size has room for; a record is taken for
/// 1024 bytes long where its size is not known.
pub fn estimated_record_count(table_size: u64, record_size: Option<u64>) -> (r: u64)
    requires
        record_size != Some(0u64),
    ensures
        r == match record_size {
            Some(n) => table_size as int / n as int,
            None => table_size as int / 1024,
        },
{
    match record_size {
        Some(n) => table_size / n,
        None => table_size / 1024,
    }
}

/// The length of the fixed part of a journal record.
pub const USN_HEADER: usize = 64;

/// A journal record starts here, and it and its name lie in the buffer.
pub open spec fn usn_fits(b: Seq<u8>, at: int) -> bool {
    &&& at + USN_HEADER <= b.len()
    &&& n32(b, at) > 0
    &&& at + n32(b, at) <= b.len()
    &&& n16(b, at + 58) + (n16(b, at + 56) / 2) * 2 <= n32(b, at)
}

/// What a journal record tells of its file.
pub open spec fn usn_entry(b: Seq<u8>, at: int) -> NamedRecord {
    NamedRecord {
        file_ref: n64(b, at + 8) as u64,
        parent_ref: n64(b, at + 16) as u64,
        name: units_at(b, at + n16(b, at + 58), n16(b, at + 56) / 2),
        is_dir: (n32(b, at + 52) as u32) & 0x10 != 0,
    }
}

/// What the journal records from `at` on tell; the first that does not fit ends
/// them.
pub open spec fn usn_entries(b: Seq<u8>, at: int) -> Seq<NamedRecord>
    decreases b.len() - at,
{
    if !usn_fits(b, at) || n32(b, at) <= 0 {
        Seq::empty()
    } else {
        seq![usn_entry(b, at)] + usn_entries(b, at + n32(b, at))
    }
}

/// Appends what an answer of the volume's enumeration tells to a scan, and
/// gives the reference from which the enumeration goes on. An answer of eight
/// bytes or fewer ends it.
pub fn scan_with_progress(scan: &mut ScanResult, answer: &[u8]) -> (next: Option<u64>)
    requires
        old(scan).packed(),
        old(scan).name_data.len() + answer@.len() <= u32::MAX,
    ensures
        final(scan).packed(),
        final(scan).name_data.len() <= old(scan).name_data.len() + answer@.len(),
        next is None <==> answer@.len() <= 8,
        next is None ==> final(scan).told() == old(scan).told(),
        next is Some ==> next->0 == n64(answer@, 0) && final(scan).told() == old(scan).told()
            + usn_entries(answer@, 8),
{
    if answer.len() <= 8 {
        return None;
    }
    let next = u64_at(answer, 0);
    let ghost goal = scan.told() + usn_entries(answer@, 8);
    let ghost start = scan.name_data@.len();
    let mut at: usize = 8;
    let mut done = false;
    while !done && answer.len() >= USN_HEADER && at <= answer.len() - USN_HEADER
        invariant
            8 <= at <= answer@.len(),
            answer@.len() > 8,
            start + answer@.len() <= u32::MAX,
            scan.packed(),
            scan.name_data@.len() + 8 <= start + at,
            goal == scan.told() + usn_entries(answer@, at as int),
            done ==> !usn_fits(answer@, at as int),
        decreases answer@.len() - at + (if done {
            0int
        } else {
            1int
        }),
    {
        let len = u32_at(answer, at);
        let name_off = u16_at(answer, at + 58);
        let units: u16 = u16_at(answer, at + 56) / 2;
        if len == 0 || len as usize > answer.len() - at || name_off as u32 + units as u32 * 2 > len {
            done = true;
        } else {
            let off: u32 = scan.name_data.len() as u32;
            let ghost before = *scan;
            let attributes = u32_at(answer, at + 52);
            let file_ref = u64_at(answer, at + 8);
            let parent_ref = u64_at(answer, at + 16);
            push_units(&mut scan.name_data, answer, at + name_off as usize, units as usize);
            scan.records.push(
                CompactRecord {
                    file_ref,
                    parent_ref,
                    name_off: off,
                    name_len: units,
                    is_dir: attributes & 0x10 != 0,
                },
            );
            proof {
                let e = usn_entry(answer@, at as int);
                assert(scan.records@.drop_last() =~= before.records@);
                lemma_told_push(before, *scan, e);
                let rest = usn_entries(answer@, at + n32(answer@, at as int));
                assert(before.told() + (seq![e] + rest) =~= before.told().push(e) + rest);
            }
            at = at + len as usize;
        }
    }
    assert(!usn_fits(answer@, at as int));
    assert(scan.told() + usn_entries(answer@, at as int) =~= scan.told());
    Some(next)
}

/// A table is read in one stretch for each 400000 records, but in one at least and
/// in eight at most; no stretch but the last is shorter than another.
pub proof fn law_how_many_stretches(total: int)
    requires
        0 <= total,
    ensures
        1 <= stream_count(total) <= 8,
        total < 800_000 ==> stream_count(total) == 1 && stream_len(total) == total,
        800_000 <= total < 3_200_000 ==> 400_000 * stream_count(total) <= total < 400_000 * (
        stream_count(total) + 1),
        total >= 3_200_000 ==> stream_count(total) == 8,
        (stream_count(total) - 1) * stream_len(total) <= total <= stream_count(total) * stream_len(
            total,
        ),
{
    lemma_streams(total, stream_count(total), stream_len(total));
    if total < 800_000 {
        let n = stream_count(total);
        assert(n == 1);
        assert((total + n - 1) / n == total) by (nonlinear_arith)
            requires
                n == 1,
        ;
    }
}

} // verus!
