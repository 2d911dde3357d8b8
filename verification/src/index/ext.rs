//! The entries of each file extension.
use crate::bytes::{
    bytes_eq, bytes_le, lemma_lex_antisymmetric, lemma_lex_total, lemma_lex_transitive, lex_le,
};
use crate::index::store::{IndexEntry, IndexStore};
use vstd::prelude::*;

verus! {

/// The positions of the entries with one extension, in ascending order.
#[derive(Debug)]
pub struct ExtBucket {
    pub ext: Vec<u8>,
    pub rows: Vec<u32>,
}

/// The position of the last `.`, or -1.
pub open spec fn last_dot(s: Seq<u8>) -> int
    decreases s.len(),
{
    if s.len() == 0 {
        -1
    } else if s.last() == 0x2e {
        s.len() - 1
    } else {
        last_dot(s.drop_last())
    }
}

/// The extension under which a lowercased name is found: what follows the last
/// `.`, unless nothing follows it, or it is the first byte of a file's name. (A
/// directory such as `.config` is found under `config`.)
pub open spec fn ext_key(lower: Seq<u8>, dir: bool) -> Option<Seq<u8>> {
    let p = last_dot(lower);
    if p >= 0 && p + 1 < lower.len() && (p > 0 || dir) {
        Some(lower.subrange(p + 1, lower.len() as int))
    } else {
        None
    }
}

/// The extension of an entry.
pub open spec fn ext_of(lowers: Seq<u8>, e: IndexEntry) -> Option<Seq<u8>> {
    ext_key(
        lowers.subrange(e.name_lower_off as int, e.name_lower_off + e.name_lower_len),
        e.dir(),
    )
}

/// The positions among the first `n` entries with extension `ext`.
pub open spec fn ext_rows(
    entries: Seq<IndexEntry>,
    lowers: Seq<u8>,
    ext: Seq<u8>,
    n: nat,
) -> Seq<u32>
    decreases n,
{
    if n == 0 {
        Seq::empty()
    } else {
        let before = ext_rows(entries, lowers, ext, (n - 1) as nat);
        if ext_of(lowers, entries[n - 1]) == Some(ext) {
            before.push((n - 1) as u32)
        } else {
            before
        }
    }
}

/// `a` comes before `b` in dictionary order.
pub open spec fn lex_lt(a: Seq<u8>, b: Seq<u8>) -> bool {
    lex_le(a, b) && a != b
}

/// The buckets are in the order of their extensions, which all differ.
pub open spec fn exts_sorted(index: Seq<ExtBucket>) -> bool {
    forall|p: int, q: int|
        0 <= p < q < index.len() ==> lex_lt(
            (#[trigger] index[p]).ext@,
            (#[trigger] index[q]).ext@,
        )
}

/// The buckets hold the entries among the first `n`, each under its extension;
/// none is empty.
pub open spec fn exts_hold(
    index: Seq<ExtBucket>,
    entries: Seq<IndexEntry>,
    lowers: Seq<u8>,
    n: nat,
) -> bool {
    &&& forall|b: int|
        0 <= b < index.len() ==> (#[trigger] index[b]).rows@ == ext_rows(
            entries,
            lowers,
            index[b].ext@,
            n,
        ) && index[b].rows@.len() > 0
    &&& forall|i: int|
        0 <= i < n && (#[trigger] ext_of(lowers, entries[i])) is Some ==> has_ext(
            index,
            ext_of(lowers, entries[i])->0,
        )
}

/// There is a bucket for `ext`.
pub open spec fn has_ext(index: Seq<ExtBucket>, ext: Seq<u8>) -> bool {
    exists|b: int| 0 <= b < index.len() && (#[trigger] index[b]).ext@ == ext
}

/// The rows of the bucket for `ext`; none where there is no such bucket.
pub open spec fn rows_of(index: Seq<ExtBucket>, ext: Seq<u8>) -> Seq<u32> {
    if has_ext(index, ext) {
        index[choose|b: int| 0 <= b < index.len() && (#[trigger] index[b]).ext@ == ext].rows@
    } else {
        Seq::empty()
    }
}

/// The bucket at `b` is the one that `rows_of` speaks of.
pub proof fn lemma_rows_of(index: Seq<ExtBucket>, b: int)
    requires
        exts_sorted(index),
        0 <= b < index.len(),
    ensures
        has_ext(index, index[b].ext@),
        rows_of(index, index[b].ext@) == index[b].rows@,
{
    let ext = index[b].ext@;
    let c = choose|c: int| 0 <= c < index.len() && (#[trigger] index[c]).ext@ == ext;
    assert(index[b].ext@ == ext);
    if b < c {
        assert(lex_lt(index[b].ext@, index[c].ext@));
    } else if c < b {
        assert(lex_lt(index[c].ext@, index[b].ext@));
    }
}

/// Every row is below `n`, and the rows ascend.
pub proof fn lemma_ext_rows(
    entries: Seq<IndexEntry>,
    lowers: Seq<u8>,
    ext: Seq<u8>,
    n: nat,
)
    requires
        n <= entries.len(),
        n <= u32::MAX,
    ensures
        forall|k: int|
            0 <= k < ext_rows(entries, lowers, ext, n).len() ==> (#[trigger] ext_rows(
                entries,
                lowers,
                ext,
                n,
            )[k]) < n,
        forall|j: int, k: int|
            0 <= j < k < ext_rows(entries, lowers, ext, n).len() ==> (#[trigger] ext_rows(
                entries,
                lowers,
                ext,
                n,
            )[j]) < (#[trigger] ext_rows(entries, lowers, ext, n)[k]),
        forall|i: int|
            0 <= i < n ==> ((#[trigger] ext_of(lowers, entries[i])) == Some(ext) <==> ext_rows(
                entries,
                lowers,
                ext,
                n,
            ).contains(i as u32)),
    decreases n,
{
    if n > 0 {
        let m = (n - 1) as nat;
        lemma_ext_rows(entries, lowers, ext, m);
        let before = ext_rows(entries, lowers, ext, m);
        let now = ext_rows(entries, lowers, ext, n);
        assert forall|i: int| 0 <= i < n implies ((#[trigger] ext_of(lowers, entries[i])) == Some(
            ext,
        ) <==> now.contains(i as u32)) by {
            if i < m {
                if before.contains(i as u32) {
                    let p = choose|p: int| 0 <= p < before.len() && before[p] == i as u32;
                    assert(now[p] == i as u32);
                }
                if now.contains(i as u32) {
                    let p = choose|p: int| 0 <= p < now.len() && now[p] == i as u32;
                    if p < before.len() {
                        assert(before[p] == i as u32);
                    }
                }
            } else {
                if ext_of(lowers, entries[i]) == Some(ext) {
                    assert(now[before.len() as int] == i as u32);
                } else if now.contains(i as u32) {
                    let p = choose|p: int| 0 <= p < now.len() && now[p] == i as u32;
                    assert(before[p] < m);
                }
            }
        }
    }
}

/// The position of the last `.` in a name, if it has one.
pub(crate) fn find_last_dot(s: &[u8]) -> (r: Option<usize>)
    ensures
        r is None <==> last_dot(s@) == -1,
        r is Some ==> r->0 == last_dot(s@) && r->0 < s.len(),
{
    let mut n: usize = s.len();
    assert(s@.subrange(0, n as int) =~= s@);
    while n > 0
        invariant
            n <= s@.len(),
            last_dot(s@.subrange(0, n as int)) == last_dot(s@),
        decreases n,
    {
        let ghost head = s@.subrange(0, n as int);
        assert(head.last() == s@[n - 1]);
        if s[n - 1] == 0x2e {
            return Some(n - 1);
        }
        assert(head.drop_last() =~= s@.subrange(0, n - 1));
        n = n - 1;
    }
    None
}

/// The extension of a lowercased name, as the position behind the last `.`.
pub(crate) fn ext_start(lower: &[u8], dir: bool) -> (r: Option<usize>)
    ensures
        r is Some <==> ext_key(lower@, dir) is Some,
        r is Some ==> r->0 <= lower@.len() && ext_key(lower@, dir) == Some(
            lower@.subrange(r->0 as int, lower@.len() as int),
        ),
{
    match find_last_dot(lower) {
        Some(p) => {
            if lower.len() - p > 1 && (p > 0 || dir) {
                Some(p + 1)
            } else {
                None
            }
        },
        None => None,
    }
}

/// Where `ext` is, or would go, among the buckets.
pub(crate) fn find_ext(index: &Vec<ExtBucket>, ext: &[u8]) -> (r: (usize, bool))
    requires
        exts_sorted(index@),
    ensures
        r.0 <= index@.len(),
        r.1 <==> has_ext(index@, ext@),
        r.1 ==> r.0 < index@.len() && index@[r.0 as int].ext@ == ext@,
        r.1 ==> rows_of(index@, ext@) == index@[r.0 as int].rows@,
        !r.1 ==> rows_of(index@, ext@) == Seq::<u32>::empty(),
        forall|k: int| 0 <= k < r.0 ==> lex_lt((#[trigger] index@[k]).ext@, ext@),
        !r.1 ==> forall|k: int|
            r.0 <= k < index@.len() ==> lex_lt(ext@, (#[trigger] index@[k]).ext@),
{
    let mut lo: usize = 0;
    let mut hi: usize = index.len();
    while lo < hi
        invariant
            exts_sorted(index@),
            lo <= hi <= index@.len(),
            forall|k: int| 0 <= k < lo ==> lex_lt((#[trigger] index@[k]).ext@, ext@),
            forall|k: int| hi <= k < index@.len() ==> lex_le(ext@, (#[trigger] index@[k]).ext@),
        decreases hi - lo,
    {
        let mid: usize = lo + (hi - lo) / 2;
        let ghost m = index@[mid as int].ext@;
        if bytes_le(ext, index[mid].ext.as_slice()) {
            assert forall|k: int| mid <= k < index@.len() implies lex_le(
                ext@,
                (#[trigger] index@[k]).ext@,
            ) by {
                if k > mid {
                    assert(lex_lt(index@[mid as int].ext@, index@[k].ext@));
                    lemma_lex_transitive(ext@, m, index@[k].ext@);
                }
            }
            hi = mid;
        } else {
            proof {
                lemma_lex_total(ext@, m);
            }
            assert forall|k: int| 0 <= k < mid + 1 implies lex_lt(
                (#[trigger] index@[k]).ext@,
                ext@,
            ) by {
                if k < mid {
                    assert(lex_lt(index@[k].ext@, index@[mid as int].ext@));
                    lemma_lex_transitive(index@[k].ext@, m, ext@);
                    if index@[k].ext@ == ext@ {
                        lemma_lex_antisymmetric(m, ext@);
                    }
                }
            }
            lo = mid + 1;
        }
    }
    if lo < index.len() && bytes_eq(index[lo].ext.as_slice(), ext) {
        proof {
            lemma_rows_of(index@, lo as int);
        }
        (lo, true)
    } else {
        assert forall|k: int| lo <= k < index@.len() implies lex_lt(
            ext@,
            (#[trigger] index@[k]).ext@,
        ) by {
            if k > lo && index@[k].ext@ == ext@ {
                assert(lex_lt(index@[lo as int].ext@, index@[k].ext@));
                lemma_lex_antisymmetric(index@[lo as int].ext@, ext@);
            }
        }
        (lo, false)
    }
}

/// Where nothing has the extension, no row has it.
proof fn lemma_no_rows(
    index: Seq<ExtBucket>,
    entries: Seq<IndexEntry>,
    lowers: Seq<u8>,
    ext: Seq<u8>,
    n: nat,
)
    requires
        exts_hold(index, entries, lowers, n),
        !has_ext(index, ext),
        n <= entries.len(),
    ensures
        ext_rows(entries, lowers, ext, n).len() == 0,
{
    lemma_no_rows_upto(index, entries, lowers, ext, n, n);
}

proof fn lemma_no_rows_upto(
    index: Seq<ExtBucket>,
    entries: Seq<IndexEntry>,
    lowers: Seq<u8>,
    ext: Seq<u8>,
    n: nat,
    m: nat,
)
    requires
        exts_hold(index, entries, lowers, n),
        !has_ext(index, ext),
        m <= n <= entries.len(),
    ensures
        ext_rows(entries, lowers, ext, m).len() == 0,
    decreases m,
{
    if m > 0 {
        lemma_no_rows_upto(index, entries, lowers, ext, n, (m - 1) as nat);
        let i = m - 1;
        if ext_of(lowers, entries[i]) == Some(ext) {
            assert(has_ext(index, ext_of(lowers, entries[i])->0));
        }
    }
}

impl IndexStore {
    /// The extension buckets can be read: they are in order, and their rows are
    /// positions of entries, which ascend.
    pub open spec fn ext_usable(&self) -> bool {
        &&& exts_sorted(self.ext_index@)
        &&& forall|b: int, j: int, k: int|
            0 <= b < self.ext_index@.len() && 0 <= j < k < self.ext_index@[b].rows@.len()
                ==> #[trigger] self.ext_index@[b].rows@[j] < #[trigger] self.ext_index@[b].rows@[k]
        &&& forall|b: int, k: int|
            0 <= b < self.ext_index@.len() && 0 <= k < self.ext_index@[b].rows@.len()
                ==> #[trigger] self.ext_index@[b].rows@[k] < self.entries@.len()
    }

    /// The extension buckets hold every entry that has an extension under it.
    pub open spec fn ext_ok(&self) -> bool {
        &&& exts_sorted(self.ext_index@)
        &&& exts_hold(
            self.ext_index@,
            self.entries@,
            self.name_lower_arena@,
            self.entries@.len(),
        )
    }

    /// Right buckets can be read.
    pub proof fn lemma_ext_usable(&self)
        requires
            self.ext_ok(),
            self.entries@.len() <= u32::MAX,
        ensures
            self.ext_usable(),
    {
        assert forall|b: int, j: int, k: int|
            0 <= b < self.ext_index@.len() && 0 <= j < k
                < self.ext_index@[b].rows@.len() implies #[trigger] self.ext_index@[b].rows@[j]
            < #[trigger] self.ext_index@[b].rows@[k] by {
            let ext = self.ext_index@[b].ext@;
            lemma_ext_rows(self.entries@, self.name_lower_arena@, ext, self.entries@.len());
            assert(self.ext_index@[b].rows@ == ext_rows(
                self.entries@,
                self.name_lower_arena@,
                ext,
                self.entries@.len(),
            ));
        }
        assert forall|b: int, k: int|
            0 <= b < self.ext_index@.len() && 0 <= k
                < self.ext_index@[b].rows@.len() implies #[trigger] self.ext_index@[b].rows@[k]
            < self.entries@.len() by {
            let ext = self.ext_index@[b].ext@;
            lemma_ext_rows(self.entries@, self.name_lower_arena@, ext, self.entries@.len());
            assert(self.ext_index@[b].rows@ == ext_rows(
                self.entries@,
                self.name_lower_arena@,
                ext,
                self.entries@.len(),
            ));
        }
    }

    /// Fills the extension buckets anew.
    pub fn rebuild_ext_index(&mut self)
        requires
            old(self).arenas_ok(),
        ensures
            final(self).ext_ok(),
            !final(self).ext_dirty,
            *final(self) == (IndexStore {
                ext_index: final(self).ext_index,
                ext_dirty: false,
                ..*old(self)
            }),
    {
        let mut index: Vec<ExtBucket> = Vec::new();
        let ghost lowers = self.name_lower_arena@;
        let ghost entries = self.entries@;
        let mut i: usize = 0;
        while i < self.entries.len()
            invariant
                *self == *old(self),
                self.arenas_ok(),
                lowers == self.name_lower_arena@,
                entries == self.entries@,
                i <= entries.len(),
                exts_sorted(index@),
                exts_hold(index@, entries, lowers, i as nat),
            decreases entries.len() - i,
        {
            let e = self.entries[i];
            let lower = self.lower_bytes(&e);
            let ghost key = ext_of(lowers, e);
            assert(entries[i as int] == e);
            let ghost before = index@;
            match ext_start(lower, e.is_dir()) {
                None => {
                    assert forall|b: int| 0 <= b < index@.len() implies (#[trigger] index@[b]).rows@
                        == ext_rows(entries, lowers, index@[b].ext@, (i + 1) as nat) by {}
                },
                Some(at) => {
                    let ext = &lower[at..lower.len()];
                    assert(key == Some(ext@));
                    let (pos, found) = find_ext(&index, ext);
                    if found {
                        index[pos].rows.push(i as u32);
                        assert(index@[pos as int].ext@ == ext@);
                    } else {
                        proof {
                            lemma_no_rows(before, entries, lowers, ext@, i as nat);
                        }
                        let mut rows: Vec<u32> = Vec::new();
                        rows.push(i as u32);
                        let fresh = ExtBucket { ext: vstd::slice::slice_to_vec(ext), rows };
                        index.insert(pos, fresh);
                        assert(index@[pos as int] == fresh);
                        assert(rows@ =~= ext_rows(entries, lowers, ext@, (i + 1) as nat));
                    }
                    proof {
                        lemma_filed(before, index@, entries, lowers, i as nat, pos as int, found);
                    }
                },
            }
            i = i + 1;
        }
        self.ext_index = index;
        self.ext_dirty = false;
    }
}

/// Filing entry `i` under its extension, at `pos`, keeps the buckets right.
proof fn lemma_filed(
    before: Seq<ExtBucket>,
    after: Seq<ExtBucket>,
    entries: Seq<IndexEntry>,
    lowers: Seq<u8>,
    i: nat,
    pos: int,
    found: bool,
)
    requires
        i < entries.len(),
        exts_sorted(before),
        exts_hold(before, entries, lowers, i),
        ext_of(lowers, entries[i as int]) is Some,
        0 <= pos < after.len(),
        after[pos].ext@ == ext_of(lowers, entries[i as int])->0,
        found ==> {
            &&& after.len() == before.len()
            &&& before[pos].ext@ == after[pos].ext@
            &&& after[pos].rows@ == before[pos].rows@.push(i as u32)
            &&& forall|k: int|
                0 <= k < after.len() && k != pos ==> #[trigger] after[k] == before[k]
        },
        !found ==> {
            &&& after == before.insert(pos, after[pos])
            &&& after[pos].rows@ == ext_rows(entries, lowers, after[pos].ext@, (i + 1) as nat)
            &&& after[pos].rows@.len() > 0
            &&& pos <= before.len()
            &&& forall|k: int|
                0 <= k < pos ==> lex_lt((#[trigger] before[k]).ext@, after[pos].ext@)
            &&& forall|k: int|
                pos <= k < before.len() ==> lex_lt(after[pos].ext@, (#[trigger] before[k]).ext@)
        },
    ensures
        exts_sorted(after),
        exts_hold(after, entries, lowers, (i + 1) as nat),
{
    let ext = after[pos].ext@;
    // Where each old bucket stands now.
    let now = |k: int| if found || k < pos { k } else { k + 1 };
    assert forall|p: int, q: int| 0 <= p < q < after.len() implies lex_lt(
        (#[trigger] after[p]).ext@,
        (#[trigger] after[q]).ext@,
    ) by {
        if found {
            assert(after[p].ext@ == before[p].ext@);
            assert(after[q].ext@ == before[q].ext@);
            assert(lex_lt(before[p].ext@, before[q].ext@));
        } else {
            if p < pos {
                assert(after[p] == before[p]);
            } else if p > pos {
                assert(after[p] == before[p - 1]);
            }
            if q < pos {
                assert(after[q] == before[q]);
            } else if q > pos {
                assert(after[q] == before[q - 1]);
            }
        }
    }
    assert forall|b: int| 0 <= b < after.len() implies (#[trigger] after[b]).rows@ == ext_rows(
        entries,
        lowers,
        after[b].ext@,
        (i + 1) as nat,
    ) && after[b].rows@.len() > 0 by {
        if b == pos {
            if found {
                assert(before[pos].rows@ == ext_rows(entries, lowers, ext, i));
            }
        } else {
            let c = if found || b < pos {
                b
            } else {
                b - 1
            };
            assert(after[b] == before[c]);
            assert(before[c].rows@ == ext_rows(entries, lowers, before[c].ext@, i));
            if after[b].ext@ == ext {
                if b < pos {
                    assert(lex_lt(after[b].ext@, after[pos].ext@));
                } else {
                    assert(lex_lt(after[pos].ext@, after[b].ext@));
                }
            }
        }
    }
    assert forall|j: int| 0 <= j < i + 1 && (#[trigger] ext_of(
        lowers,
        entries[j],
    )) is Some implies has_ext(after, ext_of(lowers, entries[j])->0) by {
        if j == i {
            assert(after[pos].ext@ == ext);
        } else {
            let x = ext_of(lowers, entries[j])->0;
            assert(has_ext(before, x));
            let b = choose|b: int| 0 <= b < before.len() && (#[trigger] before[b]).ext@ == x;
            assert(after[now(b)].ext@ == x);
        }
    }
}

} // verus!
