//! Applying a batch of journal events.
//!
//! The records that a batch brings are put into the arenas, ordered by name, and
//! merged into the ordered entries in one pass. The tables are not built anew:
//! the positions in them are moved to where the merge put the entries, and the
//! pairs of the new entries are put in.
use crate::bytes::{bytes_le, lemma_lex_total, lemma_lex_transitive, lex_le};
use crate::index::laws::law_batch_keeps_refs_unique;
use crate::index::live::{
    embeds, lemma_arenas_grow, lemma_filter_embeds, lower_utf8, name_utf8,
};
use crate::index::order::{lower_inside, lower_slice, names_sorted, sort_by_name};
use crate::index::plan::{
    event_bytes, event_name, is_of, lemma_slot_bytes_prefix, names_short, slot_bytes, slots_short,
    Newest, Plan, RefSet,
};
use crate::index::store::{
    bucket_of, bucket_ok, dirs_above, drive_pos, first_row, is_record, junk_view,
    lemma_drive_pos_range, lemma_frame, lemma_row_is, lemma_row_of, lower_in, meta_of, pair_lt,
    pair_ok, pairs_sorted, register, roots_view, row_of, same_record, IndexEntry, IndexStore, WALK_LIMIT,
};
use crate::mft::types::{FileKind, FileRecord, IndexEvent};
use vstd::prelude::*;

verus! {

/// Marks an entry that has no place any more.
const NOWHERE: u32 = u32::MAX;

/// The record of an entry.
pub open spec fn key_of(e: IndexEntry) -> (u8, u64) {
    (e.drive, e.file_ref)
}

/// The positions as integers.
spec fn ints(s: Seq<usize>) -> Seq<int> {
    s.map_values(|x: usize| x as int)
}

/// The entries that do not lose their place, and where they were.
fn retain(entries: &Vec<IndexEntry>, replaced: &RefSet) -> (r: (Vec<IndexEntry>, Vec<usize>))
    ensures
        r.0@ == entries@.filter(|e: IndexEntry| !replaced@.contains(key_of(e))),
        embeds(r.0@, entries@, ints(r.1@)),
        forall|i: int|
            0 <= i < entries@.len() && !replaced@.contains(key_of(#[trigger] entries@[i]))
                ==> ints(r.1@).contains(i),
        r.0@.len() <= entries@.len(),
{
    let ghost keep = |e: IndexEntry| !replaced@.contains(key_of(e));
    let mut kept: Vec<IndexEntry> = Vec::new();
    let mut from: Vec<usize> = Vec::new();
    let mut i: usize = 0;
    while i < entries.len()
        invariant
            i <= entries@.len(),
            keep == (|e: IndexEntry| !replaced@.contains(key_of(e))),
            kept@ == entries@.take(i as int).filter(keep),
            kept@.len() <= i,
            embeds(kept@, entries@, ints(from@)),
            forall|k: int| 0 <= k < from@.len() ==> #[trigger] from@[k] < i,
            forall|k: int|
                0 <= k < i && !replaced@.contains(key_of(#[trigger] entries@[k])) ==> ints(
                    from@,
                ).contains(k),
        decreases entries@.len() - i,
    {
        let e = entries[i];
        let ghost before = from@;
        proof {
            reveal(Seq::filter);
            assert(entries@.take(i + 1).drop_last() =~= entries@.take(i as int));
            assert(entries@.take(i + 1).last() == e);
        }
        if !replaced.contains(e.drive, e.file_ref) {
            kept.push(e);
            from.push(i);
            assert(ints(from@) =~= ints(before).push(i as int));
            assert forall|k: int|
                0 <= k < i + 1 && !replaced@.contains(key_of(#[trigger] entries@[k])) implies ints(
                from@,
            ).contains(k) by {
                if k == i {
                    assert(ints(from@)[before.len() as int] == k);
                } else {
                    let p = choose|p: int| 0 <= p < ints(before).len() && ints(before)[p] == k;
                    assert(ints(from@)[p] == k);
                }
            }
        }
        i = i + 1;
    }
    assert(entries@.take(i as int) =~= entries@);
    (kept, from)
}

/// `e` is the entry of `record` on volume `drive`, but for depth and user bit.
pub open spec fn entry_is(
    e: IndexEntry,
    drive: u8,
    record: FileRecord,
    names: Seq<u8>,
    lowers: Seq<u8>,
) -> bool {
    &&& e.drive == drive
    &&& e.file_ref == record.file_ref
    &&& e.parent_ref == record.parent_ref
    &&& e.flags == (if record.kind == FileKind::Directory {
        1u8
    } else {
        0u8
    })
    &&& e.in_arenas(names, lowers)
    &&& names.subrange(e.name_off as int, e.name_off + e.name_len) == name_utf8(record.name@)
    &&& lower_in(lowers, e) == lower_utf8(record.name@)
}

/// The entries of a merge, with the place that each one went to.
struct Merged {
    entries: Vec<IndexEntry>,
    /// For each old position, the new one.
    moved: Vec<u32>,
    /// For each new entry, its position.
    at: Vec<usize>,
}

/// Where the entries that stay went to.
spec fn went(m: Merged, from: Seq<usize>) -> Seq<int> {
    Seq::new(from.len(), |k: int| m.moved@[from[k] as int] as int)
}

impl Merged {
    /// The merge holds the old and the new entries and no others, in order of
    /// name; of entries with equal names the old ones come first.
    spec fn ok(
        self,
        kept: Seq<IndexEntry>,
        from: Seq<usize>,
        fresh: Seq<IndexEntry>,
        lowers: Seq<u8>,
        old_len: nat,
    ) -> bool {
        let to = went(self, from);
        let at = ints(self.at@);
        &&& names_sorted(self.entries@, lowers)
        &&& self.entries@.len() == kept.len() + fresh.len()
        &&& embeds(kept, self.entries@, to)
        &&& embeds(fresh, self.entries@, at)
        &&& forall|p: int|
            0 <= p < self.entries@.len() ==> #[trigger] to.contains(p) || at.contains(p)
        &&& self.moved@.len() == old_len
        &&& forall|o: int|
            0 <= o < old_len && !ints(from).contains(o) ==> #[trigger] self.moved@[o] == NOWHERE
        &&& forall|a: int, b: int|
            0 <= a < kept.len() && 0 <= b < fresh.len() && #[trigger] to[a] > #[trigger] at[b]
                ==> !lex_le(lower_in(lowers, kept[a]), lower_in(lowers, fresh[b]))
    }
}

/// Pushing onto a list keeps the embeddings into it.
proof fn lemma_embeds_push(part: Seq<IndexEntry>, whole: Seq<IndexEntry>, at: Seq<int>, e: IndexEntry)
    requires
        embeds(part, whole, at),
    ensures
        embeds(part, whole.push(e), at),
        embeds(part.push(e), whole.push(e), at.push(whole.len() as int)),
{
    let to = at.push(whole.len() as int);
    let longer = part.push(e);
    assert forall|k: int| 0 <= k < longer.len() implies 0 <= #[trigger] to[k] < whole.push(e).len()
        && longer[k] == whole.push(e)[to[k]] by {
        if k < part.len() {
            assert(to[k] == at[k]);
        }
    }
    assert forall|j: int, k: int| 0 <= j < k < longer.len() implies #[trigger] to[j]
        < #[trigger] to[k] by {
        assert(to[j] == at[j]);
        if k < part.len() {
            assert(to[k] == at[k]);
        }
    }
}

/// Merges two ordered lists of entries.
#[verifier::rlimit(60)]
fn merge(
    kept: &Vec<IndexEntry>,
    from: &Vec<usize>,
    fresh: &Vec<IndexEntry>,
    lowers: &[u8],
    old_len: usize,
) -> (m: Merged)
    requires
        names_sorted(kept@, lowers@),
        names_sorted(fresh@, lowers@),
        forall|k: int| 0 <= k < kept@.len() ==> lower_inside(#[trigger] kept@[k], lowers@),
        forall|k: int| 0 <= k < fresh@.len() ==> lower_inside(#[trigger] fresh@[k], lowers@),
        from@.len() == kept@.len(),
        forall|k: int| 0 <= k < from@.len() ==> #[trigger] from@[k] < old_len,
        forall|j: int, k: int| 0 <= j < k < from@.len() ==> #[trigger] from@[j] < #[trigger] from@[k],
        kept@.len() + fresh@.len() < u32::MAX,
    ensures
        m.ok(kept@, from@, fresh@, lowers@, old_len as nat),
{
    let mut entries: Vec<IndexEntry> = Vec::new();
    let mut moved: Vec<u32> = Vec::new();
    let mut at: Vec<usize> = Vec::new();
    let mut o: usize = 0;
    while o < old_len
        invariant
            o <= old_len,
            moved@.len() == o,
            forall|k: int| 0 <= k < o ==> #[trigger] moved@[k] == NOWHERE,
        decreases old_len - o,
    {
        moved.push(NOWHERE);
        o = o + 1;
    }
    let ghost mut to: Seq<int> = Seq::empty();
    let mut i: usize = 0;
    let mut j: usize = 0;
    assert(kept@.take(0) =~= Seq::<IndexEntry>::empty());
    assert(fresh@.take(0) =~= Seq::<IndexEntry>::empty());
    while i < kept.len() || j < fresh.len()
        invariant
            names_sorted(kept@, lowers@),
            names_sorted(fresh@, lowers@),
            forall|k: int| 0 <= k < kept@.len() ==> lower_inside(#[trigger] kept@[k], lowers@),
            forall|k: int| 0 <= k < fresh@.len() ==> lower_inside(#[trigger] fresh@[k], lowers@),
            from@.len() == kept@.len(),
            forall|k: int| 0 <= k < from@.len() ==> #[trigger] from@[k] < old_len,
            forall|a: int, b: int|
                0 <= a < b < from@.len() ==> #[trigger] from@[a] < #[trigger] from@[b],
            kept@.len() + fresh@.len() < u32::MAX,
            i <= kept@.len(),
            j <= fresh@.len(),
            entries@.len() == i + j,
            embeds(kept@.take(i as int), entries@, to),
            embeds(fresh@.take(j as int), entries@, ints(at@)),
            forall|p: int|
                0 <= p < entries@.len() ==> #[trigger] to.contains(p) || ints(at@).contains(p),
            names_sorted(entries@, lowers@),
            forall|p: int, k: int|
                0 <= p < entries@.len() && i <= k < kept@.len() ==> lex_le(
                    lower_in(lowers@, #[trigger] entries@[p]),
                    lower_in(lowers@, #[trigger] kept@[k]),
                ),
            forall|p: int, k: int|
                0 <= p < entries@.len() && j <= k < fresh@.len() ==> lex_le(
                    lower_in(lowers@, #[trigger] entries@[p]),
                    lower_in(lowers@, #[trigger] fresh@[k]),
                ),
            forall|b: int, k: int|
                0 <= b < j && i <= k < kept@.len() ==> !lex_le(
                    lower_in(lowers@, #[trigger] kept@[k]),
                    lower_in(lowers@, #[trigger] fresh@[b]),
                ),
            forall|a: int, b: int|
                0 <= a < i && 0 <= b < j && #[trigger] to[a] > ints(at@)[b] ==> !lex_le(
                    lower_in(lowers@, kept@[a]),
                    lower_in(lowers@, #[trigger] fresh@[b]),
                ),
            moved@.len() == old_len,
            forall|k: int| 0 <= k < i ==> moved@[#[trigger] from@[k] as int] == to[k],
            forall|q: int|
                0 <= q < old_len && !ints(from@.take(i as int)).contains(q)
                    ==> #[trigger] moved@[q] == NOWHERE,
        decreases kept@.len() - i + fresh@.len() - j,
    {
        let take_old: bool = if i == kept.len() {
            false
        } else if j == fresh.len() {
            true
        } else {
            bytes_le(lower_slice(lowers, &kept[i]), lower_slice(lowers, &fresh[j]))
        };
        let n: usize = entries.len();
        let ghost was = entries@;
        let ghost to_was = to;
        let ghost at_was = ints(at@);
        let ghost moved_was = moved@;
        if take_old {
            let e = kept[i];
            proof {
                lemma_embeds_push(kept@.take(i as int), was, to_was, e);
                lemma_embeds_push(fresh@.take(j as int), was, at_was, e);
                assert(kept@.take(i + 1) =~= kept@.take(i as int).push(e));
                to = to_was.push(n as int);
            }
            entries.push(e);
            let o: usize = from[i];
            moved.set(o, n as u32);
            proof {
                assert forall|p: int| 0 <= p < entries@.len() implies #[trigger] to.contains(p)
                    || ints(at@).contains(p) by {
                    if p == n {
                        assert(to[i as int] == p);
                    } else if to_was.contains(p) {
                        let q = choose|q: int| 0 <= q < to_was.len() && to_was[q] == p;
                        assert(to[q] == p);
                    }
                }
                assert forall|k: int| j <= k < fresh@.len() implies lex_le(
                    lower_in(lowers@, e),
                    lower_in(lowers@, #[trigger] fresh@[k]),
                ) by {
                    if k > j {
                        lemma_lex_transitive(
                            lower_in(lowers@, e),
                            lower_in(lowers@, fresh@[j as int]),
                            lower_in(lowers@, fresh@[k]),
                        );
                    }
                }
                assert forall|a: int, b: int|
                    0 <= a < i + 1 && 0 <= b < j && #[trigger] to[a] > ints(at@)[b] implies !lex_le(
                    lower_in(lowers@, kept@[a]),
                    lower_in(lowers@, #[trigger] fresh@[b]),
                ) by {
                    if a < i {
                        assert(to[a] == to_was[a]);
                    }
                }
                assert forall|k: int| 0 <= k < i + 1 implies moved@[#[trigger] from@[k] as int]
                    == to[k] by {
                    if k < i {
                        assert(from@[k] < from@[i as int]);
                        assert(to[k] == to_was[k]);
                    }
                }
                assert forall|q: int|
                    0 <= q < old_len && !ints(from@.take(i + 1)).contains(
                        q,
                    ) implies #[trigger] moved@[q] == NOWHERE by {
                    let shorter = ints(from@.take(i as int));
                    let longer = ints(from@.take(i + 1));
                    assert(longer[i as int] == from@[i as int]);
                    if shorter.contains(q) {
                        let k = choose|k: int| 0 <= k < shorter.len() && shorter[k] == q;
                        assert(longer[k] == q);
                    }
                    assert(moved_was[q] == NOWHERE);
                }
            }
            i = i + 1;
        } else {
            let e = fresh[j];
            proof {
                lemma_embeds_push(kept@.take(i as int), was, to_was, e);
                lemma_embeds_push(fresh@.take(j as int), was, at_was, e);
                assert(fresh@.take(j + 1) =~= fresh@.take(j as int).push(e));
            }
            entries.push(e);
            at.push(n);
            proof {
                assert(ints(at@) =~= at_was.push(n as int));
                assert forall|p: int| 0 <= p < entries@.len() implies #[trigger] to.contains(p)
                    || ints(at@).contains(p) by {
                    if p == n {
                        assert(ints(at@)[j as int] == p);
                    } else if at_was.contains(p) {
                        let q = choose|q: int| 0 <= q < at_was.len() && at_was[q] == p;
                        assert(ints(at@)[q] == p);
                    }
                }
                assert forall|k: int| i <= k < kept@.len() implies lex_le(
                    lower_in(lowers@, e),
                    lower_in(lowers@, #[trigger] kept@[k]),
                ) && !lex_le(lower_in(lowers@, kept@[k]), lower_in(lowers@, e)) by {
                    lemma_lex_total(lower_in(lowers@, e), lower_in(lowers@, kept@[i as int]));
                    if k > i {
                        lemma_lex_transitive(
                            lower_in(lowers@, e),
                            lower_in(lowers@, kept@[i as int]),
                            lower_in(lowers@, kept@[k]),
                        );
                        if lex_le(lower_in(lowers@, kept@[k]), lower_in(lowers@, e)) {
                            lemma_lex_transitive(
                                lower_in(lowers@, kept@[i as int]),
                                lower_in(lowers@, kept@[k]),
                                lower_in(lowers@, e),
                            );
                        }
                    }
                }
                assert forall|a: int, b: int|
                    0 <= a < i && 0 <= b < j + 1 && #[trigger] to[a] > ints(
                        at@,
                    )[b] implies !lex_le(
                    lower_in(lowers@, kept@[a]),
                    lower_in(lowers@, #[trigger] fresh@[b]),
                ) by {
                    if b < j {
                        assert(ints(at@)[b] == at_was[b]);
                    } else {
                        assert(to[a] < n);
                    }
                }
            }
            j = j + 1;
        }
        proof {
            assert forall|p: int, q: int| 0 <= p < q < entries@.len() implies lex_le(
                lower_in(lowers@, #[trigger] entries@[p]),
                lower_in(lowers@, #[trigger] entries@[q]),
            ) by {
                assert(entries@[p] == was[p]);
                if q < n {
                    assert(entries@[q] == was[q]);
                }
            }
        }
    }
    let m = Merged { entries, moved, at };
    proof {
        assert(kept@.take(i as int) =~= kept@);
        assert(fresh@.take(j as int) =~= fresh@);
        assert(from@.take(i as int) =~= from@);
        assert(went(m, from@) =~= to);
    }
    m
}

/// `x` is pair `q` of a table with its position moved.
spec fn lands(bucket: Seq<(u64, u32)>, moved: Seq<u32>, q: int, x: (u64, u32)) -> bool {
    moved[bucket[q].1 as int] != NOWHERE && x == (bucket[q].0, moved[bucket[q].1 as int])
}

/// `x` is one of the first `n` pairs of a table with its position moved.
spec fn came_from(bucket: Seq<(u64, u32)>, moved: Seq<u32>, n: int, x: (u64, u32)) -> bool {
    exists|q: int| 0 <= q < n && #[trigger] lands(bucket, moved, q, x)
}

/// The pairs of a table, with the positions moved; those that went nowhere are
/// dropped.
fn move_pairs(bucket: &Vec<(u64, u32)>, moved: &Vec<u32>) -> (r: Vec<(u64, u32)>)
    requires
        pairs_sorted(bucket@),
        forall|p: int| 0 <= p < bucket@.len() ==> (#[trigger] bucket@[p]).1 < moved@.len(),
        forall|a: int, b: int|
            0 <= a < b < moved@.len() && #[trigger] moved@[a] != NOWHERE && #[trigger] moved@[b]
                != NOWHERE ==> moved@[a] < moved@[b],
    ensures
        pairs_sorted(r@),
        forall|p: int|
            0 <= p < r@.len() ==> came_from(
                bucket@,
                moved@,
                bucket@.len() as int,
                #[trigger] r@[p],
            ),
        forall|q: int|
            0 <= q < bucket@.len() && moved@[(#[trigger] bucket@[q]).1 as int] != NOWHERE
                ==> r@.contains((bucket@[q].0, moved@[bucket@[q].1 as int])),
{
    let mut out: Vec<(u64, u32)> = Vec::new();
    let mut i: usize = 0;
    while i < bucket.len()
        invariant
            i <= bucket@.len(),
            pairs_sorted(bucket@),
            forall|p: int| 0 <= p < bucket@.len() ==> (#[trigger] bucket@[p]).1 < moved@.len(),
            forall|a: int, b: int|
                0 <= a < b < moved@.len() && #[trigger] moved@[a] != NOWHERE && #[trigger] moved@[b]
                    != NOWHERE ==> moved@[a] < moved@[b],
            pairs_sorted(out@),
            forall|p: int|
                0 <= p < out@.len() ==> came_from(bucket@, moved@, i as int, #[trigger] out@[p]),
            forall|q: int|
                0 <= q < i && moved@[(#[trigger] bucket@[q]).1 as int] != NOWHERE
                    ==> out@.contains((bucket@[q].0, moved@[bucket@[q].1 as int])),
        decreases bucket@.len() - i,
    {
        let (r, o) = bucket[i];
        let to: u32 = moved[o as usize];
        let ghost was = out@;
        if to != NOWHERE {
            proof {
                assert forall|p: int| 0 <= p < was.len() implies pair_lt(
                    #[trigger] was[p],
                    (r, to),
                ) by {
                    let q = choose|q: int|
                        0 <= q < i && #[trigger] lands(bucket@, moved@, q, was[p]);
                    assert(pair_lt(bucket@[q], bucket@[i as int]));
                }
            }
            out.push((r, to));
            proof {
                assert forall|p: int, q: int| 0 <= p < q < out@.len() implies pair_lt(
                    #[trigger] out@[p],
                    #[trigger] out@[q],
                ) by {
                    assert(out@[p] == was[p]);
                    if q < was.len() {
                        assert(out@[q] == was[q]);
                    }
                }
                assert forall|p: int| 0 <= p < out@.len() implies came_from(
                    bucket@,
                    moved@,
                    i + 1,
                    #[trigger] out@[p],
                ) by {
                    if p == was.len() {
                        assert(lands(bucket@, moved@, i as int, out@[p]));
                    } else {
                        assert(out@[p] == was[p]);
                        let q = choose|q: int|
                            0 <= q < i && #[trigger] lands(bucket@, moved@, q, was[p]);
                        assert(lands(bucket@, moved@, q, out@[p]));
                    }
                }
                assert forall|q: int|
                    0 <= q < i + 1 && moved@[(#[trigger] bucket@[q]).1 as int]
                        != NOWHERE implies out@.contains(
                    (bucket@[q].0, moved@[bucket@[q].1 as int]),
                ) by {
                    if q == i {
                        assert(out@[was.len() as int] == (r, to));
                    } else {
                        let x = (bucket@[q].0, moved@[bucket@[q].1 as int]);
                        assert(was.contains(x));
                        let p = choose|p: int| 0 <= p < was.len() && was[p] == x;
                        assert(out@[p] == x);
                    }
                }
            }
        }
        proof {
            if to == NOWHERE {
                assert forall|p: int| 0 <= p < out@.len() implies came_from(
                    bucket@,
                    moved@,
                    i + 1,
                    #[trigger] out@[p],
                ) by {
                    let q = choose|q: int|
                        0 <= q < i && #[trigger] lands(bucket@, moved@, q, out@[p]);
                    assert(lands(bucket@, moved@, q, out@[p]));
                }
            }
        }
        i = i + 1;
    }
    out
}

/// Puts a pair into a table at its place.
fn insert_pair(bucket: &mut Vec<(u64, u32)>, pair: (u64, u32))
    requires
        pairs_sorted(old(bucket)@),
        !old(bucket)@.contains(pair),
    ensures
        pairs_sorted(final(bucket)@),
        forall|x: (u64, u32)| #[trigger]
            final(bucket)@.contains(x) <==> old(bucket)@.contains(x) || x == pair,
{
    let mut lo: usize = 0;
    let mut hi: usize = bucket.len();
    while lo < hi
        invariant
            *bucket == *old(bucket),
            pairs_sorted(bucket@),
            !bucket@.contains(pair),
            lo <= hi <= bucket@.len(),
            forall|k: int| 0 <= k < lo ==> pair_lt(#[trigger] bucket@[k], pair),
            forall|k: int| hi <= k < bucket@.len() ==> pair_lt(pair, #[trigger] bucket@[k]),
        decreases hi - lo,
    {
        let mid: usize = lo + (hi - lo) / 2;
        let (r, o) = bucket[mid];
        assert(bucket@[mid as int] == (r, o));
        assert((r, o) != pair);
        if r < pair.0 || (r == pair.0 && o < pair.1) {
            assert forall|k: int| 0 <= k < mid + 1 implies pair_lt(#[trigger] bucket@[k], pair) by {
                if k < mid {
                    assert(pair_lt(bucket@[k], bucket@[mid as int]));
                }
            }
            lo = mid + 1;
        } else {
            assert forall|k: int| mid <= k < bucket@.len() implies pair_lt(
                pair,
                #[trigger] bucket@[k],
            ) by {
                if k > mid {
                    assert(pair_lt(bucket@[mid as int], bucket@[k]));
                }
            }
            hi = mid;
        }
    }
    let ghost was = bucket@;
    bucket.insert(lo, pair);
    proof {
        let now = bucket@;
        assert forall|p: int, q: int| 0 <= p < q < now.len() implies pair_lt(
            #[trigger] now[p],
            #[trigger] now[q],
        ) by {
            if p < lo {
                assert(now[p] == was[p]);
            } else if p > lo {
                assert(now[p] == was[p - 1]);
            }
            if q < lo {
                assert(now[q] == was[q]);
            } else if q > lo {
                assert(now[q] == was[q - 1]);
            }
        }
        assert forall|x: (u64, u32)| #[trigger] now.contains(x) <==> was.contains(x) || x
            == pair by {
            if was.contains(x) {
                let k = choose|k: int| 0 <= k < was.len() && was[k] == x;
                assert(now[if k < lo {
                    k
                } else {
                    k + 1
                }] == x);
            }
            if x == pair {
                assert(now[lo as int] == x);
            }
            if now.contains(x) {
                let k = choose|k: int| 0 <= k < now.len() && now[k] == x;
                if k < lo {
                    assert(was[k] == x);
                } else if k > lo {
                    assert(was[k - 1] == x);
                }
            }
        }
    }
}

/// `bucket` is the table of volume `d` as far as the positions in `done` go.
spec fn bucket_part(
    entries: Seq<IndexEntry>,
    bucket: Seq<(u64, u32)>,
    d: int,
    done: Set<int>,
) -> bool {
    &&& pairs_sorted(bucket)
    &&& forall|p: int|
        0 <= p < bucket.len() ==> pair_ok(entries, #[trigger] bucket[p], d) && done.contains(
            bucket[p].1 as int,
        )
    &&& forall|i: int|
        0 <= i < entries.len() && done.contains(i) && (#[trigger] entries[i]).drive == d
            ==> bucket.contains((entries[i].file_ref, i as u32))
}

/// All tables are right as far as the positions in `done` go.
spec fn tables_part(
    entries: Seq<IndexEntry>,
    tables: Seq<Vec<(u64, u32)>>,
    done: Set<int>,
) -> bool {
    &&& tables.len() <= 256
    &&& forall|d: int|
        0 <= d < 256 ==> bucket_part(entries, #[trigger] bucket_of(tables, d), d, done)
}

/// Moving the positions of a right table gives one that is right for the entries
/// that stayed.
proof fn lemma_moved_bucket(
    old_entries: Seq<IndexEntry>,
    bucket: Seq<(u64, u32)>,
    out: Seq<(u64, u32)>,
    d: int,
    kept: Seq<IndexEntry>,
    from: Seq<usize>,
    fresh: Seq<IndexEntry>,
    lowers: Seq<u8>,
    m: Merged,
)
    requires
        bucket_ok(old_entries, bucket, d),
        old_entries.len() <= u32::MAX,
        kept.len() + fresh.len() < u32::MAX,
        embeds(kept, old_entries, ints(from)),
        m.ok(kept, from, fresh, lowers, old_entries.len()),
        pairs_sorted(out),
        forall|p: int|
            0 <= p < out.len() ==> came_from(
                bucket,
                m.moved@,
                bucket.len() as int,
                #[trigger] out[p],
            ),
        forall|q: int|
            0 <= q < bucket.len() && m.moved@[(#[trigger] bucket[q]).1 as int] != NOWHERE
                ==> out.contains((bucket[q].0, m.moved@[bucket[q].1 as int])),
    ensures
        bucket_part(m.entries@, out, d, went(m, from).to_set()),
{
    let to = went(m, from);
    assert forall|p: int| 0 <= p < out.len() implies pair_ok(m.entries@, #[trigger] out[p], d)
        && to.to_set().contains(out[p].1 as int) by {
        let q = choose|q: int|
            0 <= q < bucket.len() && #[trigger] lands(bucket, m.moved@, q, out[p]);
        assert(pair_ok(old_entries, bucket[q], d));
        let o = bucket[q].1 as int;
        assert(m.moved@[o] != NOWHERE);
        assert(ints(from).contains(o));
        let k = choose|k: int| 0 <= k < ints(from).len() && ints(from)[k] == o;
        assert(from[k] == o);
        assert(to[k] == out[p].1);
        assert(m.entries@[to[k]] == kept[k]);
        assert(to.contains(to[k]));
    }
    assert forall|i: int|
        0 <= i < m.entries@.len() && to.to_set().contains(i) && (#[trigger] m.entries@[i]).drive
            == d implies out.contains((m.entries@[i].file_ref, i as u32)) by {
        assert(to.contains(i));
        let k = choose|k: int| 0 <= k < to.len() && to[k] == i;
        assert(m.entries@[to[k]] == kept[k]);
        let o = ints(from)[k];
        assert(old_entries[o] == kept[k]);
        assert(bucket.contains((kept[k].file_ref, o as u32)));
        let q = choose|q: int| 0 <= q < bucket.len() && bucket[q] == (kept[k].file_ref, o as u32);
        assert(m.moved@[bucket[q].1 as int] == i);
        assert(m.moved@[bucket[q].1 as int] != NOWHERE);
    }
}

/// The tables after a merge: the old pairs moved, and the new ones put in.
#[verifier::rlimit(60)]
fn rebase(
    tables: &Vec<Vec<(u64, u32)>>,
    m: &Merged,
    fresh: &Vec<IndexEntry>,
    Ghost(old_entries): Ghost<Seq<IndexEntry>>,
    Ghost(kept): Ghost<Seq<IndexEntry>>,
    Ghost(from): Ghost<Seq<usize>>,
    Ghost(lowers): Ghost<Seq<u8>>,
    Ghost(replaced): Ghost<Set<(u8, u64)>>,
) -> (r: Vec<Vec<(u64, u32)>>)
    requires
        tables@.len() <= 256,
        forall|d: int| 0 <= d < 256 ==> bucket_ok(old_entries, #[trigger] bucket_of(tables@, d), d),
        old_entries.len() <= u32::MAX,
        kept.len() + fresh@.len() < u32::MAX,
        embeds(kept, old_entries, ints(from)),
        m.ok(kept, from, fresh@, lowers, old_entries.len()),
        forall|k: int|
            0 <= k < kept.len() ==> !replaced.contains(key_of(#[trigger] kept[k])),
        forall|k: int|
            0 <= k < fresh@.len() ==> replaced.contains(key_of(#[trigger] fresh@[k])),
    ensures
        r@.len() <= 256,
        forall|d: int| 0 <= d < 256 ==> bucket_ok(m.entries@, #[trigger] bucket_of(r@, d), d),
{
    let ghost to = went(*m, from);
    let ghost at = ints(m.at@);
    proof {
        assert forall|a: int, b: int|
            0 <= a < b < m.moved@.len() && #[trigger] m.moved@[a] != NOWHERE
                && #[trigger] m.moved@[b] != NOWHERE implies m.moved@[a] < m.moved@[b] by {
            assert(ints(from).contains(a));
            assert(ints(from).contains(b));
            let x = choose|x: int| 0 <= x < ints(from).len() && ints(from)[x] == a;
            let y = choose|y: int| 0 <= y < ints(from).len() && ints(from)[y] == b;
            if y < x {
                assert(ints(from)[y] < ints(from)[x]);
            }
            assert(to[x] < to[y]);
        }
    }
    let mut out: Vec<Vec<(u64, u32)>> = Vec::new();
    let mut d: usize = 0;
    while d < tables.len()
        invariant
            d <= tables@.len() <= 256,
            out@.len() == d,
            old_entries.len() <= u32::MAX,
            kept.len() + fresh@.len() < u32::MAX,
            embeds(kept, old_entries, ints(from)),
            m.ok(kept, from, fresh@, lowers, old_entries.len()),
            forall|e: int|
                0 <= e < 256 ==> bucket_ok(old_entries, #[trigger] bucket_of(tables@, e), e),
            forall|a: int, b: int|
                0 <= a < b < m.moved@.len() && #[trigger] m.moved@[a] != NOWHERE
                    && #[trigger] m.moved@[b] != NOWHERE ==> m.moved@[a] < m.moved@[b],
            forall|e: int|
                0 <= e < d ==> bucket_part(
                    m.entries@,
                    #[trigger] bucket_of(out@, e),
                    e,
                    went(*m, from).to_set(),
                ),
        decreases tables@.len() - d,
    {
        let ghost bucket = bucket_of(tables@, d as int);
        assert(bucket_ok(old_entries, bucket, d as int));
        assert forall|p: int| 0 <= p < tables@[d as int]@.len() implies (
        #[trigger] tables@[d as int]@[p]).1 < m.moved@.len() by {
            assert(pair_ok(old_entries, bucket[p], d as int));
        }
        let pairs = move_pairs(&tables[d], &m.moved);
        proof {
            lemma_moved_bucket(
                old_entries,
                bucket,
                pairs@,
                d as int,
                kept,
                from,
                fresh@,
                lowers,
                *m,
            );
        }
        let ghost before = out@;
        out.push(pairs);
        assert forall|e: int| 0 <= e < d + 1 implies bucket_part(
            m.entries@,
            #[trigger] bucket_of(out@, e),
            e,
            went(*m, from).to_set(),
        ) by {
            if e < d {
                assert(bucket_of(out@, e) == bucket_of(before, e));
            }
        }
        d = d + 1;
    }
    let ghost mut done = to.to_set();
    proof {
        assert forall|e: int| 0 <= e < 256 implies bucket_part(
            m.entries@,
            #[trigger] bucket_of(out@, e),
            e,
            done,
        ) by {
            if e >= d {
                let none = Seq::<(u64, u32)>::empty();
                assert(bucket_ok(old_entries, bucket_of(tables@, e), e));
                assert(bucket_of(tables@, e) == none);
                lemma_moved_bucket(
                    old_entries,
                    none,
                    none,
                    e,
                    kept,
                    from,
                    fresh@,
                    lowers,
                    *m,
                );
            }
        }
    }
    let mut j: usize = 0;
    while j < fresh.len()
        invariant
            j <= fresh@.len(),
            to == went(*m, from),
            at == ints(m.at@),
            kept.len() + fresh@.len() < u32::MAX,
            m.ok(kept, from, fresh@, lowers, old_entries.len()),
            forall|k: int|
                0 <= k < kept.len() ==> !replaced.contains(key_of(#[trigger] kept[k])),
            forall|k: int|
                0 <= k < fresh@.len() ==> replaced.contains(key_of(#[trigger] fresh@[k])),
            tables_part(m.entries@, out@, done),
            forall|p: int| #[trigger] done.contains(p) ==> to.contains(p) || (exists|k: int|
                0 <= k < j && #[trigger] at[k] == p),
            forall|p: int| #[trigger] to.contains(p) ==> done.contains(p),
            forall|k: int| 0 <= k < j ==> done.contains(#[trigger] at[k]),
        decreases fresh@.len() - j,
    {
        let e = fresh[j];
        let n: usize = m.at[j];
        let slot: usize = e.drive as usize;
        assert(at[j as int] == n);
        assert(m.entries@[n as int] == e);
        while out.len() <= slot
            invariant
                slot < 256,
                tables_part(m.entries@, out@, done),
            ensures
                slot < out@.len() <= 256,
            decreases slot + 1 - out@.len(),
        {
            let ghost before = out@;
            out.push(Vec::new());
            assert forall|d: int| 0 <= d < 256 implies bucket_part(
                m.entries@,
                #[trigger] bucket_of(out@, d),
                d,
                done,
            ) by {
                assert(bucket_of(out@, d) =~= bucket_of(before, d));
            }
        }
        let ghost before = out@;
        let ghost was = bucket_of(out@, slot as int);
        let pair: (u64, u32) = (e.file_ref, n as u32);
        proof {
            assert(bucket_part(m.entries@, was, slot as int, done));
            if was.contains(pair) {
                let p = choose|p: int| 0 <= p < was.len() && was[p] == pair;
                assert(done.contains(n as int));
                if to.contains(n as int) {
                    let k = choose|k: int| 0 <= k < to.len() && to[k] == n as int;
                    assert(m.entries@[to[k]] == kept[k]);
                } else {
                    let k = choose|k: int| 0 <= k < j && #[trigger] at[k] == n as int;
                    assert(at[k] < at[j as int]);
                }
                assert(false);
            }
        }
        insert_pair(&mut out[slot], pair);
        proof {
            let now = bucket_of(out@, slot as int);
            let more = done.insert(n as int);
            assert forall|d: int| 0 <= d < 256 implies bucket_part(
                m.entries@,
                #[trigger] bucket_of(out@, d),
                d,
                more,
            ) by {
                if d == slot {
                    assert forall|p: int| 0 <= p < now.len() implies pair_ok(
                        m.entries@,
                        #[trigger] now[p],
                        d,
                    ) && more.contains(now[p].1 as int) by {
                        assert(now.contains(now[p]));
                        if now[p] != pair {
                            assert(was.contains(now[p]));
                            let q = choose|q: int| 0 <= q < was.len() && was[q] == now[p];
                            assert(pair_ok(m.entries@, was[q], d));
                        }
                    }
                    assert forall|i: int|
                        0 <= i < m.entries@.len() && more.contains(i) && (
                        #[trigger] m.entries@[i]).drive == d implies now.contains(
                        (m.entries@[i].file_ref, i as u32),
                    ) by {
                        if i == n {
                            assert(now.contains(pair));
                        } else {
                            assert(was.contains((m.entries@[i].file_ref, i as u32)));
                        }
                    }
                } else {
                    assert(bucket_of(out@, d) == bucket_of(before, d));
                    assert(bucket_part(m.entries@, bucket_of(before, d), d, done));
                }
            }
            done = more;
        }
        j = j + 1;
    }
    proof {
        assert forall|d: int| 0 <= d < 256 implies bucket_ok(
            m.entries@,
            #[trigger] bucket_of(out@, d),
            d,
        ) by {
            let b = bucket_of(out@, d);
            assert(bucket_part(m.entries@, b, d, done));
            assert forall|i: int|
                0 <= i < m.entries@.len() && (#[trigger] m.entries@[i]).drive
                    == d implies b.contains((m.entries@[i].file_ref, i as u32)) by {
                if !to.contains(i) {
                    assert(at.contains(i));
                    let k = choose|k: int| 0 <= k < at.len() && at[k] == i;
                    assert(done.contains(at[k]));
                }
            }
        }
    }
    out
}

/// Two entries that differ in depth and user bit at most.
pub open spec fn restamped(a: IndexEntry, b: IndexEntry) -> bool {
    b == (IndexEntry { depth: b.depth, user_path: b.user_path, ..a })
}

/// Depths and user bits do not matter to where records are.
proof fn lemma_restamped_row(a: Seq<IndexEntry>, b: Seq<IndexEntry>, drive: u8, r: u64)
    requires
        a.len() == b.len(),
        forall|i: int| 0 <= i < a.len() ==> restamped(#[trigger] a[i], b[i]),
    ensures
        row_of(a, drive, r) == row_of(b, drive, r),
{
    lemma_row_of(a, drive, r);
    lemma_row_of(b, drive, r);
    assert forall|i: int| first_row(a, drive, r, i) == first_row(b, drive, r, i) by {
        if 0 <= i < a.len() {
            assert(restamped(a[i], b[i]));
            assert forall|k: int| 0 <= k < i implies is_record(#[trigger] a[k], drive, r)
                == is_record(b[k], drive, r) by {
                assert(restamped(a[k], b[k]));
            }
            assert forall|k: int| 0 <= k < i implies is_record(a[k], drive, r) == is_record(
                #[trigger] b[k],
                drive,
                r,
            ) by {
                assert(restamped(a[k], b[k]));
            }
        }
    }
    if row_of(a, drive, r) is Some {
        lemma_row_is(b, drive, r, row_of(a, drive, r)->0);
    } else if row_of(b, drive, r) is Some {
        lemma_row_is(a, drive, r, row_of(b, drive, r)->0);
    }
}

/// Depths and user bits do not matter to what is above a record.
proof fn lemma_restamped_above(
    a: Seq<IndexEntry>,
    b: Seq<IndexEntry>,
    lowers: Seq<u8>,
    drive: u8,
    current: u64,
    fuel: nat,
)
    requires
        a.len() == b.len(),
        forall|i: int| 0 <= i < a.len() ==> restamped(#[trigger] a[i], b[i]),
    ensures
        dirs_above(a, lowers, drive, current, fuel) == dirs_above(b, lowers, drive, current, fuel),
    decreases fuel,
{
    if fuel > 0 {
        lemma_restamped_row(a, b, drive, current);
        lemma_row_of(a, drive, current);
        if row_of(a, drive, current) is Some {
            let i = row_of(a, drive, current)->0;
            assert(restamped(a[i], b[i]));
            lemma_restamped_above(a, b, lowers, drive, a[i].parent_ref, (fuel - 1) as nat);
        }
    }
}

/// Entries that are known by where they are in a longer list are what a filter
/// keeps of it.
proof fn lemma_filter_is(
    whole: Seq<IndexEntry>,
    part: Seq<IndexEntry>,
    at: Seq<int>,
    keep: spec_fn(IndexEntry) -> bool,
)
    requires
        embeds(part, whole, at),
        forall|k: int| 0 <= k < part.len() ==> keep(#[trigger] part[k]),
        forall|i: int| 0 <= i < whole.len() && keep(#[trigger] whole[i]) ==> at.contains(i),
    ensures
        whole.filter(keep) == part,
    decreases whole.len(),
{
    reveal(Seq::filter);
    if whole.len() == 0 {
        if part.len() > 0 {
            assert(at[0] < whole.len());
        }
        assert(part =~= whole);
    } else {
        let n = whole.len() - 1;
        let head = whole.drop_last();
        if keep(whole[n]) {
            let k = choose|k: int| 0 <= k < at.len() && at[k] == n;
            if k < at.len() - 1 {
                assert(at[k] < at[k + 1]);
            }
            let p = part.drop_last();
            let a = at.drop_last();
            assert forall|j: int| 0 <= j < p.len() implies 0 <= #[trigger] a[j] < head.len() && p[j]
                == head[a[j]] by {
                assert(at[j] < at[k]);
            }
            assert forall|i: int, j: int| 0 <= i < j < p.len() implies #[trigger] a[i]
                < #[trigger] a[j] by {
                assert(at[i] < at[j]);
            }
            assert forall|i: int| 0 <= i < head.len() && keep(#[trigger] head[i]) implies a.contains(
                i,
            ) by {
                assert(whole[i] == head[i]);
                let j = choose|j: int| 0 <= j < at.len() && at[j] == i;
                assert(a[j] == i);
            }
            assert forall|j: int| 0 <= j < p.len() implies keep(#[trigger] p[j]) by {
                assert(keep(part[j]));
            }
            lemma_filter_is(head, p, a, keep);
            assert(part =~= p.push(whole[n]));
        } else {
            assert forall|j: int| 0 <= j < part.len() implies 0 <= #[trigger] at[j] < head.len()
                && part[j] == head[at[j]] by {
                if at[j] == n {
                    assert(keep(part[j]));
                }
            }
            assert forall|i: int| 0 <= i < head.len() && keep(#[trigger] head[i]) implies at.contains(
                i,
            ) by {
                assert(whole[i] == head[i]);
            }
            lemma_filter_is(head, part, at, keep);
        }
    }
}

/// The entry at `i` is that of `record`, with the depth and user bit that its
/// place in the directories gives it.
pub open spec fn stands_for(store: IndexStore, i: int, drive: u8, record: FileRecord) -> bool {
    let e = store.entries@[i];
    &&& entry_is(e, drive, record, store.name_arena@, store.name_lower_arena@)
    &&& (e.depth, e.user_path) == meta_of(
        store.entries@,
        store.name_lower_arena@,
        drive,
        record.parent_ref,
        lower_utf8(record.name@),
        record.kind == FileKind::Directory,
    )
}

/// What applying a plan makes of an index.
pub open spec fn batch_result(before: IndexStore, plan: Plan, after: IndexStore) -> bool {
    let new = |e: IndexEntry| plan.newest.contains_key(key_of(e));
    let kept = before.entries@.filter(|e: IndexEntry| !plan.replaced().contains(key_of(e)));
    // The volumes and the junk are those of the plan.
    &&& roots_view(after.drive_roots@) == plan.roots
    &&& junk_view(after.junk_refs@) == plan.junk
    &&& after.checkpoints == before.checkpoints
    // What is not replaced stays as it is, in the same order.
    &&& after.entries@.filter(|e: IndexEntry| !plan.newest.contains_key(key_of(e))) == kept
    // Each record of the plan has one entry, which is its newest state.
    &&& forall|k: (u8, u64)| #[trigger]
        plan.newest.contains_key(k) ==> exists|i: int|
            0 <= i < after.entries@.len() && #[trigger] stands_for(
                after,
                i,
                k.0,
                plan.newest[k],
            )
    &&& forall|i: int, j: int|
        0 <= i < j < after.entries@.len() && new(after.entries@[i]) ==> !same_record(
            #[trigger] after.entries@[i],
            #[trigger] after.entries@[j],
        )
    // Of entries with equal names the old ones come first.
    &&& forall|i: int, j: int|
        0 <= i < j < after.entries@.len() && new(after.entries@[i]) && !new(after.entries@[j])
            ==> !lex_le(
            after.lower_of(#[trigger] after.entries@[j]),
            after.lower_of(#[trigger] after.entries@[i]),
        )
    // Names are only ever added to the arenas.
    &&& before.name_arena@.is_prefix_of(after.name_arena@)
    &&& before.name_lower_arena@.is_prefix_of(after.name_lower_arena@)
    // The extension buckets are out of date if anything changed.
    &&& after.ext_index == before.ext_index
    &&& after.ext_dirty == (before.ext_dirty || !plan.newest.dom().is_empty() || kept.len()
        != before.entries@.len())
}

impl IndexStore {
    /// Puts the names of records into the arenas and builds their entries.
    fn materialize(&mut self, slots: &Vec<(u8, FileRecord)>) -> (made: Vec<IndexEntry>)
        requires
            slots_short(slots@),
            old(self).name_arena@.len() + slot_bytes(slots@).0 <= u32::MAX,
            old(self).name_lower_arena@.len() + slot_bytes(slots@).1 <= u32::MAX,
        ensures
            made@.len() == slots@.len(),
            forall|s: int|
                0 <= s < made@.len() ==> entry_is(
                    #[trigger] made@[s],
                    slots@[s].0,
                    slots@[s].1,
                    final(self).name_arena@,
                    final(self).name_lower_arena@,
                ),
            old(self).name_arena@.is_prefix_of(final(self).name_arena@),
            old(self).name_lower_arena@.is_prefix_of(final(self).name_lower_arena@),
            final(self).name_arena@.len() <= u32::MAX,
            final(self).name_lower_arena@.len() <= u32::MAX,
            *final(self) == (IndexStore {
                name_arena: final(self).name_arena,
                name_lower_arena: final(self).name_lower_arena,
                ..*old(self)
            }),
    {
        let ghost names = self.name_arena@;
        let ghost lowers = self.name_lower_arena@;
        let mut made: Vec<IndexEntry> = Vec::new();
        let mut s: usize = 0;
        assert(slots@.take(0).len() == 0);
        while s < slots.len()
            invariant
                s <= slots@.len(),
                slots_short(slots@),
                names == old(self).name_arena@,
                lowers == old(self).name_lower_arena@,
                names.len() + slot_bytes(slots@).0 <= u32::MAX,
                lowers.len() + slot_bytes(slots@).1 <= u32::MAX,
                self.name_arena@.len() == names.len() + slot_bytes(slots@.take(s as int)).0,
                self.name_lower_arena@.len() == lowers.len() + slot_bytes(slots@.take(s as int)).1,
                made@.len() == s,
                forall|t: int|
                    0 <= t < s ==> entry_is(
                        #[trigger] made@[t],
                        slots@[t].0,
                        slots@[t].1,
                        self.name_arena@,
                        self.name_lower_arena@,
                    ),
                names.is_prefix_of(self.name_arena@),
                lowers.is_prefix_of(self.name_lower_arena@),
                *self == (IndexStore {
                    name_arena: self.name_arena,
                    name_lower_arena: self.name_lower_arena,
                    ..*old(self)
                }),
            decreases slots@.len() - s,
        {
            let ghost n_was = self.name_arena@;
            let ghost l_was = self.name_lower_arena@;
            proof {
                lemma_slot_bytes_prefix(slots@, s + 1);
                assert(slots@.take(s + 1).drop_last() =~= slots@.take(s as int));
                assert(slots@.take(s + 1).last() == slots@[s as int]);
            }
            let e = self.arena_entry(&slots[s].1, slots[s].0, 0, 0);
            let ghost made_was = made@;
            made.push(e);
            proof {
                let name = slots@[s as int].1.name@;
                assert forall|t: int| 0 <= t < s + 1 implies entry_is(
                    #[trigger] made@[t],
                    slots@[t].0,
                    slots@[t].1,
                    self.name_arena@,
                    self.name_lower_arena@,
                ) by {
                    if t < s {
                        assert(made@[t] == made_was[t]);
                        lemma_arenas_grow(
                            made@[t],
                            n_was,
                            l_was,
                            name_utf8(name),
                            lower_utf8(name),
                        );
                    }
                }
                assert(names =~= self.name_arena@.subrange(0, names.len() as int));
                assert(lowers =~= self.name_lower_arena@.subrange(0, lowers.len() as int));
            }
            s = s + 1;
        }
        assert(slots@.take(s as int) =~= slots@);
        made
    }
}

/// The entries of the records of a batch, once they are in order: one for each
/// record, and no others.
spec fn fresh_ok(
    fresh: Seq<IndexEntry>,
    newest: Map<(u8, u64), FileRecord>,
    names: Seq<u8>,
    lowers: Seq<u8>,
) -> bool {
    &&& forall|j: int|
        0 <= j < fresh.len() ==> newest.contains_key(key_of(#[trigger] fresh[j])) && entry_is(
            fresh[j],
            key_of(fresh[j]).0,
            newest[key_of(fresh[j])],
            names,
            lowers,
        )
    &&& forall|k: (u8, u64)| #[trigger]
        newest.contains_key(k) ==> exists|j: int|
            0 <= j < fresh.len() && key_of(#[trigger] fresh[j]) == k
    &&& forall|i: int, j: int|
        0 <= i < j < fresh.len() ==> !same_record(#[trigger] fresh[i], #[trigger] fresh[j])
}

proof fn lemma_fresh(
    newest: Newest,
    map: Map<(u8, u64), FileRecord>,
    made: Seq<IndexEntry>,
    fresh: Seq<IndexEntry>,
    names: Seq<u8>,
    lowers: Seq<u8>,
)
    requires
        newest.wf(),
        newest.holds(map),
        made.len() == newest.slots@.len(),
        forall|s: int|
            0 <= s < made.len() ==> entry_is(
                #[trigger] made[s],
                newest.slots@[s].0,
                newest.slots@[s].1,
                names,
                lowers,
            ),
        fresh.to_multiset() == made.to_multiset(),
    ensures
        fresh_ok(fresh, map, names, lowers),
        fresh.len() == made.len(),
{
    made.to_multiset_ensures();
    fresh.to_multiset_ensures();
    assert forall|s: int| 0 <= s < made.len() implies key_of(#[trigger] made[s]) == newest.key(
        s,
    ) by {}
    assert forall|s: int, t: int| 0 <= s < made.len() && 0 <= t < made.len() && key_of(
        #[trigger] made[s],
    ) == key_of(#[trigger] made[t]) implies s == t by {
        let k = newest.key(s);
        assert(newest.seen@[k.0 as int]@[k.1] == s);
        let l = newest.key(t);
        assert(newest.seen@[l.0 as int]@[l.1] == t);
    }
    assert(made.no_duplicates());
    made.lemma_multiset_has_no_duplicates();
    fresh.lemma_multiset_has_no_duplicates_conv();
    assert forall|j: int| 0 <= j < fresh.len() implies made.contains(#[trigger] fresh[j]) by {
        assert(fresh.contains(fresh[j]));
        assert(fresh.to_multiset().count(fresh[j]) > 0);
    }
    assert forall|j: int| 0 <= j < fresh.len() implies map.contains_key(
        key_of(#[trigger] fresh[j]),
    ) && entry_is(fresh[j], key_of(fresh[j]).0, map[key_of(fresh[j])], names, lowers) by {
        assert(made.contains(fresh[j]));
        let s = choose|s: int| 0 <= s < made.len() && #[trigger] made[s] == fresh[j];
        assert(key_of(made[s]) == newest.key(s));
    }
    assert forall|k: (u8, u64)| #[trigger] map.contains_key(k) implies exists|j: int|
        0 <= j < fresh.len() && key_of(#[trigger] fresh[j]) == k by {
        let s = choose|s: int| 0 <= s < newest.slots@.len() && #[trigger] newest.key(s) == k;
        assert(key_of(made[s]) == k);
        assert(made.contains(made[s]));
        assert(made.to_multiset().count(made[s]) > 0);
        assert(fresh.contains(made[s]));
        let j = choose|j: int| 0 <= j < fresh.len() && fresh[j] == made[s];
        assert(key_of(fresh[j]) == k);
    }
    assert forall|i: int, j: int| 0 <= i < j < fresh.len() implies !same_record(
        #[trigger] fresh[i],
        #[trigger] fresh[j],
    ) by {
        if same_record(fresh[i], fresh[j]) {
            assert(made.contains(fresh[i]) && made.contains(fresh[j]));
            let s = choose|s: int| 0 <= s < made.len() && #[trigger] made[s] == fresh[i];
            let t = choose|t: int| 0 <= t < made.len() && #[trigger] made[t] == fresh[j];
            assert(key_of(made[s]) == key_of(made[t]));
        }
    }
}

/// The depth and user bit that an entry's place in the directories gives it.
pub open spec fn entry_meta(entries: Seq<IndexEntry>, lowers: Seq<u8>, e: IndexEntry) -> (u8, u8) {
    meta_of(entries, lowers, e.drive, e.parent_ref, lower_in(lowers, e), e.dir())
}

impl IndexStore {
    /// Depth and user bit of the entries at the given positions.
    fn metas(&self, at: &Vec<usize>) -> (r: Vec<(u8, u8)>)
        requires
            self.arenas_ok(),
            self.lookup_ok(),
            forall|j: int| 0 <= j < at@.len() ==> #[trigger] at@[j] < self.entries@.len(),
        ensures
            r@.len() == at@.len(),
            forall|j: int|
                0 <= j < r@.len() ==> #[trigger] r@[j] == entry_meta(
                    self.entries@,
                    self.name_lower_arena@,
                    self.entries@[at@[j] as int],
                ) && 1 <= r@[j].0 <= 15 && r@[j].1 <= 1,
    {
        let mut out: Vec<(u8, u8)> = Vec::new();
        let mut j: usize = 0;
        while j < at.len()
            invariant
                j <= at@.len(),
                out@.len() == j,
                self.arenas_ok(),
                self.lookup_ok(),
                forall|k: int| 0 <= k < at@.len() ==> #[trigger] at@[k] < self.entries@.len(),
                forall|k: int|
                    0 <= k < j ==> #[trigger] out@[k] == entry_meta(
                        self.entries@,
                        self.name_lower_arena@,
                        self.entries@[at@[k] as int],
                    ) && 1 <= out@[k].0 <= 15 && out@[k].1 <= 1,
            decreases at@.len() - j,
        {
            let e = self.entries[at[j]];
            assert(self.entries@[at@[j as int] as int] == e);
            let lower = self.name_lower(&e);
            let meta = self.path_meta(e.drive, e.parent_ref, lower, e.is_dir());
            assert(meta == entry_meta(self.entries@, self.name_lower_arena@, e));
            out.push(meta);
            j = j + 1;
        }
        out
    }

    /// Sets depth and user bit of the entries at the given positions.
    fn stamp(&mut self, at: &Vec<usize>, metas: &Vec<(u8, u8)>)
        requires
            at@.len() == metas@.len(),
            forall|j: int| 0 <= j < at@.len() ==> #[trigger] at@[j] < old(self).entries@.len(),
            forall|i: int, j: int| 0 <= i < j < at@.len() ==> #[trigger] at@[i] < #[trigger] at@[j],
        ensures
            final(self).entries@.len() == old(self).entries@.len(),
            forall|i: int|
                0 <= i < old(self).entries@.len() ==> restamped(
                    #[trigger] old(self).entries@[i],
                    final(self).entries@[i],
                ),
            forall|i: int|
                0 <= i < old(self).entries@.len() && !ints(at@).contains(i)
                    ==> #[trigger] final(self).entries@[i] == old(self).entries@[i],
            forall|j: int|
                0 <= j < at@.len() ==> final(self).entries@[#[trigger] at@[j] as int].depth
                    == metas@[j].0 && final(self).entries@[at@[j] as int].user_path == metas@[j].1,
            *final(self) == (IndexStore { entries: final(self).entries, ..*old(self) }),
    {
        let mut j: usize = 0;
        while j < at.len()
            invariant
                j <= at@.len(),
                at@.len() == metas@.len(),
                self.entries@.len() == old(self).entries@.len(),
                forall|k: int| 0 <= k < at@.len() ==> #[trigger] at@[k] < old(self).entries@.len(),
                forall|a: int, b: int|
                    0 <= a < b < at@.len() ==> #[trigger] at@[a] < #[trigger] at@[b],
                forall|i: int|
                    0 <= i < old(self).entries@.len() ==> restamped(
                        #[trigger] old(self).entries@[i],
                        self.entries@[i],
                    ),
                forall|i: int|
                    0 <= i < old(self).entries@.len() && !ints(at@).contains(i)
                        ==> #[trigger] self.entries@[i] == old(self).entries@[i],
                forall|k: int|
                    0 <= k < j ==> self.entries@[#[trigger] at@[k] as int].depth == metas@[k].0
                        && self.entries@[at@[k] as int].user_path == metas@[k].1,
                *self == (IndexStore { entries: self.entries, ..*old(self) }),
            decreases at@.len() - j,
        {
            let n: usize = at[j];
            let e = self.entries[n];
            let (depth, user_path) = metas[j];
            let ghost was = self.entries@;
            assert(restamped(old(self).entries@[n as int], was[n as int]));
            self.entries.set(n, IndexEntry { depth, user_path, ..e });
            proof {
                assert(ints(at@)[j as int] == n);
                assert forall|i: int|
                    0 <= i < old(self).entries@.len() && !ints(at@).contains(
                        i,
                    ) implies #[trigger] self.entries@[i] == old(self).entries@[i] by {
                    assert(i != n);
                    assert(was[i] == old(self).entries@[i]);
                }
                assert forall|i: int| 0 <= i < old(self).entries@.len() implies restamped(
                    #[trigger] old(self).entries@[i],
                    self.entries@[i],
                ) by {
                    assert(restamped(old(self).entries@[i], was[i]));
                }
            }
            j = j + 1;
        }
    }

    /// Every stamp is in its range.
    pub open spec fn stamps_ok(&self) -> bool {
        forall|i: int|
            0 <= i < self.entries@.len() ==> 1 <= (#[trigger] self.entries@[i]).depth <= 15
                && self.entries@[i].user_path <= 1
    }
}

/// The parts of what a splice does: `merged` is the list before depths and user
/// bits were set, `after` the store behind it.
spec fn spliced(
    before: IndexStore,
    newest: Map<(u8, u64), FileRecord>,
    replaced: Set<(u8, u64)>,
    after: IndexStore,
) -> bool {
    let kept = before.entries@.filter(|e: IndexEntry| !replaced.contains(key_of(e)));
    &&& after.entries@.filter(|e: IndexEntry| !newest.contains_key(key_of(e))) == kept
    &&& forall|k: (u8, u64)| #[trigger]
        newest.contains_key(k) ==> exists|i: int|
            0 <= i < after.entries@.len() && #[trigger] stands_for(after, i, k.0, newest[k])
    &&& forall|i: int, j: int|
        0 <= i < j < after.entries@.len() && newest.contains_key(key_of(after.entries@[i]))
            ==> !same_record(#[trigger] after.entries@[i], #[trigger] after.entries@[j])
    &&& forall|i: int, j: int|
        0 <= i < j < after.entries@.len() && newest.contains_key(key_of(after.entries@[i]))
            && !newest.contains_key(key_of(after.entries@[j])) ==> !lex_le(
            after.lower_of(#[trigger] after.entries@[j]),
            after.lower_of(#[trigger] after.entries@[i]),
        )
    &&& before.name_arena@.is_prefix_of(after.name_arena@)
    &&& before.name_lower_arena@.is_prefix_of(after.name_lower_arena@)
}

/// What is known of the result of a splice adds up to what is said of it.
#[verifier::rlimit(60)]
proof fn lemma_spliced(
    before: IndexStore,
    newest: Map<(u8, u64), FileRecord>,
    replaced: Set<(u8, u64)>,
    kept: Seq<IndexEntry>,
    from: Seq<usize>,
    fresh: Seq<IndexEntry>,
    m: Merged,
    metas: Seq<(u8, u8)>,
    after: IndexStore,
)
    requires
        kept == before.entries@.filter(|e: IndexEntry| !replaced.contains(key_of(e))),
        forall|k: (u8, u64)| #[trigger] newest.contains_key(k) ==> replaced.contains(k),
        forall|k: int| 0 <= k < kept.len() ==> !replaced.contains(key_of(#[trigger] kept[k])),
        fresh_ok(fresh, newest, after.name_arena@, after.name_lower_arena@),
        m.ok(kept, from, fresh, after.name_lower_arena@, before.entries@.len()),
        metas.len() == fresh.len(),
        forall|j: int|
            0 <= j < fresh.len() ==> {
                let e = #[trigger] fresh[j];
                metas[j] == entry_meta(m.entries@, after.name_lower_arena@, e)
            },
        after.entries@.len() == m.entries@.len(),
        forall|i: int|
            0 <= i < m.entries@.len() ==> restamped(#[trigger] m.entries@[i], after.entries@[i]),
        forall|i: int|
            0 <= i < m.entries@.len() && !ints(m.at@).contains(i)
                ==> #[trigger] after.entries@[i] == m.entries@[i],
        forall|j: int|
            0 <= j < m.at@.len() ==> after.entries@[#[trigger] m.at@[j] as int].depth
                == metas[j].0 && after.entries@[m.at@[j] as int].user_path == metas[j].1,
        before.name_arena@.is_prefix_of(after.name_arena@),
        before.name_lower_arena@.is_prefix_of(after.name_lower_arena@),
    ensures
        spliced(before, newest, replaced, after),
{
    let to = went(m, from);
    let at = ints(m.at@);
    let lowers = after.name_lower_arena@;
    // A position holds an old entry or a new one.
    assert forall|i: int| 0 <= i < m.entries@.len() implies (newest.contains_key(
        key_of(#[trigger] after.entries@[i]),
    ) <==> at.contains(i)) && (to.contains(i) <==> !at.contains(i)) by {
        assert(restamped(m.entries@[i], after.entries@[i]));
        if at.contains(i) {
            let j = choose|j: int| 0 <= j < at.len() && at[j] == i;
            assert(m.entries@[at[j]] == fresh[j]);
            assert(newest.contains_key(key_of(fresh[j])));
        }
        if to.contains(i) {
            let k = choose|k: int| 0 <= k < to.len() && to[k] == i;
            assert(m.entries@[to[k]] == kept[k]);
        }
    }
    assert forall|k: int| 0 <= k < kept.len() implies 0 <= #[trigger] to[k] < after.entries@.len()
        && kept[k] == after.entries@[to[k]] by {
        assert(to.contains(to[k]));
        assert(!at.contains(to[k]));
        assert(m.entries@[to[k]] == kept[k]);
        assert(after.entries@[to[k]] == m.entries@[to[k]]);
    }
    let keep = |e: IndexEntry| !newest.contains_key(key_of(e));
    assert forall|i: int| 0 <= i < after.entries@.len() && keep(
        #[trigger] after.entries@[i],
    ) implies to.contains(i) by {}
    assert forall|k: int| 0 <= k < kept.len() implies keep(#[trigger] kept[k]) by {}
    lemma_filter_is(after.entries@, kept, to, keep);
    assert forall|k: (u8, u64)| #[trigger] newest.contains_key(k) implies exists|i: int|
        0 <= i < after.entries@.len() && #[trigger] stands_for(after, i, k.0, newest[k]) by {
        let j = choose|j: int| 0 <= j < fresh.len() && key_of(#[trigger] fresh[j]) == k;
        let i = at[j];
        let e = fresh[j];
        assert(m.entries@[i] == e);
        assert(restamped(m.entries@[i], after.entries@[i]));
        assert(m.at@[j] == i);
        assert(1u8 & 1 != 0 && 0u8 & 1 == 0) by (bit_vector);
        lemma_restamped_above(
            m.entries@,
            after.entries@,
            lowers,
            e.drive,
            e.parent_ref,
            WALK_LIMIT as nat,
        );
        assert(stands_for(after, i, k.0, newest[k]));
    }
    assert forall|i: int, j: int|
        0 <= i < j < after.entries@.len() && newest.contains_key(
            key_of(after.entries@[i]),
        ) implies !same_record(#[trigger] after.entries@[i], #[trigger] after.entries@[j]) by {
        if same_record(after.entries@[i], after.entries@[j]) {
            assert(key_of(after.entries@[i]) == key_of(after.entries@[j]));
            assert(at.contains(i) && at.contains(j));
            let a = choose|a: int| 0 <= a < at.len() && at[a] == i;
            let b = choose|b: int| 0 <= b < at.len() && at[b] == j;
            assert(m.entries@[at[a]] == fresh[a]);
            assert(m.entries@[at[b]] == fresh[b]);
            assert(restamped(m.entries@[i], after.entries@[i]));
            assert(restamped(m.entries@[j], after.entries@[j]));
            assert(same_record(fresh[a], fresh[b]));
            if a < b {
                assert(!same_record(fresh[a], fresh[b]));
            } else if b < a {
                assert(!same_record(fresh[b], fresh[a]));
            }
        }
    }
    assert forall|i: int, j: int|
        0 <= i < j < after.entries@.len() && newest.contains_key(key_of(after.entries@[i]))
            && !newest.contains_key(key_of(after.entries@[j])) implies !lex_le(
        after.lower_of(#[trigger] after.entries@[j]),
        after.lower_of(#[trigger] after.entries@[i]),
    ) by {
        assert(at.contains(i) && to.contains(j));
        let a = choose|a: int| 0 <= a < to.len() && to[a] == j;
        let b = choose|b: int| 0 <= b < at.len() && at[b] == i;
        assert(to[a] > at[b]);
        assert(m.entries@[at[b]] == fresh[b]);
        assert(m.entries@[to[a]] == kept[a]);
        assert(restamped(m.entries@[i], after.entries@[i]));
        assert(restamped(m.entries@[j], after.entries@[j]));
    }
}

/// Setting depths and user bits keeps what is said of entries and tables.
proof fn lemma_restamped_wf(a: IndexStore, b: IndexStore)
    requires
        a.arenas_ok(),
        a.lookup_ok(),
        a.sorted(),
        a.entries@.len() == b.entries@.len(),
        forall|i: int|
            0 <= i < a.entries@.len() ==> restamped(#[trigger] a.entries@[i], b.entries@[i]),
        a.name_arena == b.name_arena,
        a.name_lower_arena == b.name_lower_arena,
        a.ref_lookup == b.ref_lookup,
    ensures
        b.arenas_ok(),
        b.lookup_ok(),
        b.sorted(),
{
    assert forall|i: int| 0 <= i < b.entries@.len() implies (#[trigger] b.entries@[i]).in_arenas(
        b.name_arena@,
        b.name_lower_arena@,
    ) by {
        assert(restamped(a.entries@[i], b.entries@[i]));
    }
    assert forall|i: int, j: int| 0 <= i < j < b.entries@.len() implies lex_le(
        b.lower_of(#[trigger] b.entries@[i]),
        b.lower_of(#[trigger] b.entries@[j]),
    ) by {
        assert(restamped(a.entries@[i], b.entries@[i]));
        assert(restamped(a.entries@[j], b.entries@[j]));
    }
    assert forall|d: int| 0 <= d < 256 implies bucket_ok(
        b.entries@,
        #[trigger] b.bucket(d),
        d,
    ) by {
        let bucket = a.bucket(d);
        assert(bucket_ok(a.entries@, bucket, d));
        assert(bucket == b.bucket(d));
        assert forall|p: int| 0 <= p < bucket.len() implies pair_ok(
            b.entries@,
            #[trigger] bucket[p],
            d,
        ) by {
            assert(pair_ok(a.entries@, bucket[p], d));
            assert(restamped(
                a.entries@[bucket[p].1 as int],
                b.entries@[bucket[p].1 as int],
            ));
        }
        assert forall|i: int| 0 <= i < b.entries@.len() && (#[trigger] b.entries@[i]).drive
            == d implies bucket.contains((b.entries@[i].file_ref, i as u32)) by {
            assert(restamped(a.entries@[i], b.entries@[i]));
        }
    }
}

impl IndexStore {
    /// Puts the records of a batch in, in place of the entries that lose theirs.
    #[verifier::rlimit(60)]
    fn splice(
        &mut self,
        newest: &Newest,
        replaced: &RefSet,
        Ghost(map): Ghost<Map<(u8, u64), FileRecord>>,
    )
        requires
            old(self).wf(),
            newest.wf(),
            newest.holds(map),
            forall|k: (u8, u64)| #[trigger] map.contains_key(k) ==> replaced@.contains(k),
            slots_short(newest.slots@),
            old(self).name_arena@.len() + slot_bytes(newest.slots@).0 <= u32::MAX,
            old(self).name_lower_arena@.len() + slot_bytes(newest.slots@).1 <= u32::MAX,
            old(self).entries@.len() + newest.slots@.len() < u32::MAX,
        ensures
            final(self).wf(),
            spliced(*old(self), map, replaced@, *final(self)),
            old(self).stamps_ok() ==> final(self).stamps_ok(),
            *final(self) == (IndexStore {
                entries: final(self).entries,
                name_arena: final(self).name_arena,
                name_lower_arena: final(self).name_lower_arena,
                ref_lookup: final(self).ref_lookup,
                ext_dirty: true,
                ..*old(self)
            }),
    {
        let ghost before = *self;
        let old_len: usize = self.entries.len();
        let (kept, from) = retain(&self.entries, replaced);
        let made = self.materialize(&newest.slots);
        let ghost names = self.name_arena@;
        let ghost lowers = self.name_lower_arena@;
        proof {
            let more = names.skip(before.name_arena@.len() as int);
            let more_lower = lowers.skip(before.name_lower_arena@.len() as int);
            assert(before.name_arena@ + more =~= names);
            assert(before.name_lower_arena@ + more_lower =~= lowers);
            assert forall|i: int| 0 <= i < before.entries@.len() implies (
            #[trigger] before.entries@[i]).in_arenas(names, lowers) && lower_in(
                lowers,
                before.entries@[i],
            ) == before.lower_of(before.entries@[i]) by {
                lemma_arenas_grow(
                    before.entries@[i],
                    before.name_arena@,
                    before.name_lower_arena@,
                    more,
                    more_lower,
                );
            }
            assert forall|k: int| 0 <= k < kept@.len() implies (#[trigger] kept@[k]).in_arenas(
                names,
                lowers,
            ) && !replaced@.contains(key_of(kept@[k])) by {
                assert(kept@[k] == before.entries@[ints(from@)[k]]);
                lemma_filter_embeds(
                    before.entries@,
                    |e: IndexEntry| !replaced@.contains(key_of(e)),
                );
            }
            assert forall|i: int, j: int| 0 <= i < j < kept@.len() implies lex_le(
                lower_in(lowers, #[trigger] kept@[i]),
                lower_in(lowers, #[trigger] kept@[j]),
            ) by {
                assert(ints(from@)[i] < ints(from@)[j]);
                assert(kept@[i] == before.entries@[ints(from@)[i]]);
                assert(kept@[j] == before.entries@[ints(from@)[j]]);
            }
            assert forall|k: int| 0 <= k < from@.len() implies #[trigger] from@[k] < old_len by {
                assert(ints(from@)[k] < before.entries@.len());
            }
            assert forall|j: int, k: int| 0 <= j < k < from@.len() implies #[trigger] from@[j]
                < #[trigger] from@[k] by {
                assert(ints(from@)[j] < ints(from@)[k]);
            }
        }
        let mut fresh = made;
        sort_by_name(&mut fresh, self.name_lower_arena.as_slice());
        proof {
            lemma_fresh(*newest, map, made@, fresh@, names, lowers);
        }
        let m = merge(&kept, &from, &fresh, self.name_lower_arena.as_slice(), old_len);
        assert forall|d: int| 0 <= d < 256 implies bucket_ok(
            before.entries@,
            #[trigger] bucket_of(self.ref_lookup@, d),
            d,
        ) by {
            assert(before.bucket(d) == bucket_of(self.ref_lookup@, d));
        }
        let tables = rebase(
            &self.ref_lookup,
            &m,
            &fresh,
            Ghost(before.entries@),
            Ghost(kept@),
            Ghost(from@),
            Ghost(lowers),
            Ghost(replaced@),
        );
        let Merged { entries, moved, at } = m;
        self.entries = entries;
        self.ref_lookup = tables;
        self.ext_dirty = true;
        let ghost merged = *self;
        proof {
            let to = went(m, from@);
            assert forall|i: int| 0 <= i < self.entries@.len() implies (
            #[trigger] self.entries@[i]).in_arenas(names, lowers) by {
                if to.contains(i) {
                    let k = choose|k: int| 0 <= k < to.len() && to[k] == i;
                    assert(m.entries@[to[k]] == kept@[k]);
                } else {
                    assert(ints(m.at@).contains(i));
                    let j = choose|j: int| 0 <= j < ints(m.at@).len() && ints(m.at@)[j] == i;
                    assert(m.entries@[ints(m.at@)[j]] == fresh@[j]);
                }
            }
            assert(self.sorted()) by {
                assert(names_sorted(self.entries@, lowers));
                assert forall|i: int, j: int| 0 <= i < j < self.entries@.len() implies lex_le(
                    self.lower_of(#[trigger] self.entries@[i]),
                    self.lower_of(#[trigger] self.entries@[j]),
                ) by {
                    assert(lex_le(
                        lower_in(lowers, self.entries@[i]),
                        lower_in(lowers, self.entries@[j]),
                    ));
                }
            }
            assert forall|d: int| 0 <= d < 256 implies bucket_ok(
                self.entries@,
                #[trigger] self.bucket(d),
                d,
            ) by {
                assert(bucket_ok(m.entries@, bucket_of(tables@, d), d));
            }
            assert forall|j: int| 0 <= j < at@.len() implies #[trigger] at@[j]
                < self.entries@.len() by {
                assert(ints(at@)[j] < m.entries@.len());
            }
            assert forall|i: int, j: int| 0 <= i < j < at@.len() implies #[trigger] at@[i]
                < #[trigger] at@[j] by {
                assert(ints(at@)[i] < ints(at@)[j]);
            }
        }
        let metas = self.metas(&at);
        self.stamp(&at, &metas);
        proof {
            lemma_restamped_wf(merged, *self);
            assert forall|j: int| 0 <= j < fresh@.len() implies {
                let e = #[trigger] fresh@[j];
                metas@[j] == entry_meta(m.entries@, lowers, e)
            } by {
                assert(m.entries@[ints(m.at@)[j]] == fresh@[j]);
                assert(merged.entries@[at@[j] as int] == fresh@[j]);
            }
            lemma_spliced(
                before,
                map,
                replaced@,
                kept@,
                from@,
                fresh@,
                m,
                metas@,
                *self,
            );
            if before.stamps_ok() {
                let to = went(m, from@);
                assert forall|i: int| 0 <= i < self.entries@.len() implies 1 <= (
                #[trigger] self.entries@[i]).depth <= 15 && self.entries@[i].user_path <= 1 by {
                    if ints(at@).contains(i) {
                        let j = choose|j: int| 0 <= j < ints(at@).len() && ints(at@)[j] == i;
                        assert(at@[j] == i);
                    } else {
                        assert(to.contains(i));
                        let k = choose|k: int| 0 <= k < to.len() && to[k] == i;
                        assert(m.entries@[to[k]] == kept@[k]);
                        assert(kept@[k] == before.entries@[ints(from@)[k]]);
                        assert(self.entries@[i] == merged.entries@[i]);
                    }
                }
            }
        }
    }
}

/// A filter that keeps everything changes nothing.
proof fn lemma_filter_all(s: Seq<IndexEntry>, keep: spec_fn(IndexEntry) -> bool)
    requires
        forall|i: int| 0 <= i < s.len() ==> keep(#[trigger] s[i]),
    ensures
        s.filter(keep) == s,
{
    let at = Seq::new(s.len(), |i: int| i);
    assert forall|i: int| 0 <= i < s.len() && keep(#[trigger] s[i]) implies at.contains(i) by {
        assert(at[i] == i);
    }
    lemma_filter_is(s, s, at, keep);
}

impl IndexStore {
    /// A batch fits: no more volumes than an entry can name, no name too long
    /// for an entry, and arenas and positions stay within 32 bits.
    pub open spec fn batch_room(&self, events: Seq<IndexEvent>) -> bool {
        &&& self.plan(events).roots.len() <= 256
        &&& names_short(events)
        &&& self.name_arena@.len() + event_bytes(events).0 <= u32::MAX
        &&& self.name_lower_arena@.len() + event_bytes(events).1 <= u32::MAX
        &&& self.entries@.len() + events.len() < u32::MAX
    }

    /// Drops the entries of records that must vanish. The extension buckets are
    /// out of date only if there were any.
    fn drop_gone(&mut self, gone: &RefSet)
        requires
            old(self).wf(),
        ensures
            final(self).wf(),
            final(self).entries@ == old(self).entries@.filter(
                |e: IndexEntry| !gone@.contains(key_of(e)),
            ),
            final(self).ext_dirty == (old(self).ext_dirty || final(self).entries@.len() != old(
                self,
            ).entries@.len()),
            old(self).stamps_ok() ==> final(self).stamps_ok(),
            *final(self) == (IndexStore {
                entries: final(self).entries,
                ref_lookup: final(self).ref_lookup,
                ext_dirty: final(self).ext_dirty,
                ..*old(self)
            }),
    {
        let ghost start = *self;
        let ghost at = lemma_filter_embeds(
            start.entries@,
            |e: IndexEntry| !gone@.contains(key_of(e)),
        );
        let (left, _) = retain(&self.entries, gone);
        if left.len() != self.entries.len() {
            self.entries = left;
            self.ext_dirty = true;
            let ghost cut = *self;
            self.rebuild_ref_lookup();
            proof {
                assert forall|k: int| 0 <= k < left@.len() implies (
                #[trigger] cut.entries@[k]).in_arenas(cut.name_arena@, cut.name_lower_arena@) by {
                    assert(left@[k] == start.entries@[at[k]]);
                }
                assert forall|i: int, j: int| 0 <= i < j < left@.len() implies lex_le(
                    cut.lower_of(#[trigger] cut.entries@[i]),
                    cut.lower_of(#[trigger] cut.entries@[j]),
                ) by {
                    assert(at[i] < at[j]);
                    assert(left@[i] == start.entries@[at[i]]);
                    assert(left@[j] == start.entries@[at[j]]);
                    assert(lex_le(
                        start.lower_of(start.entries@[at[i]]),
                        start.lower_of(start.entries@[at[j]]),
                    ));
                }
                lemma_frame(cut, *self);
                if start.stamps_ok() {
                    assert forall|i: int| 0 <= i < self.entries@.len() implies 1 <= (
                    #[trigger] self.entries@[i]).depth <= 15 && self.entries@[i].user_path
                        <= 1 by {
                        assert(left@[i] == start.entries@[at[i]]);
                    }
                }
            }
        }
    }

    /// Applies a batch of journal events.
    pub fn apply_events(&mut self, events: Vec<IndexEvent>)
        requires
            old(self).wf(),
            old(self).batch_room(events@),
        ensures
            final(self).wf(),
            batch_result(*old(self), old(self).plan(events@), *final(self)),
            old(self).stamps_ok() ==> final(self).stamps_ok(),
            old(self).unique_refs() ==> final(self).unique_refs(),
    {
        let ghost start = *self;
        let ghost plan = self.plan(events@);
        let (gone, newest) = self.classify(&events);
        let replaced = replaced_refs(gone, &newest, Ghost(plan));
        let ghost mid = *self;
        proof {
            lemma_frame(start, mid);
        }
        if newest.slots.len() == 0 {
            self.drop_gone(&replaced);
            proof {
                assert forall|k: (u8, u64)| !plan.newest.contains_key(k) by {}
                assert(plan.newest.dom() =~= Set::empty());
                lemma_filter_all(
                    self.entries@,
                    |e: IndexEntry| !plan.newest.contains_key(key_of(e)),
                );
            }
        } else {
            proof {
                assert(plan.newest.contains_key(newest.key(0)));
                assert(plan.newest.dom().contains(newest.key(0)));
            }
            self.splice(&newest, &replaced, Ghost(plan.newest));
        }
        proof {
            if start.unique_refs() {
                law_batch_keeps_refs_unique(start, plan, *self);
            }
        }
    }
}

/// A part of a batch has no more bytes than the whole.
proof fn lemma_event_bytes_prefix(events: Seq<IndexEvent>, n: int)
    requires
        0 <= n <= events.len(),
    ensures
        event_bytes(events.take(n)).0 <= event_bytes(events).0,
        event_bytes(events.take(n)).1 <= event_bytes(events).1,
    decreases events.len(),
{
    if n == events.len() {
        assert(events.take(n) =~= events);
    } else {
        lemma_event_bytes_prefix(events.drop_last(), n);
        assert(events.drop_last().take(n) =~= events.take(n));
    }
}

/// The name that an event brings into the index.
fn name_of_event(event: &IndexEvent) -> (r: Option<&str>)
    ensures
        r is Some <==> event_name(*event) is Some,
        r is Some ==> r->0@ == event_name(*event)->0,
{
    match event {
        IndexEvent::Created { record, .. } => Some(record.name.as_str()),
        IndexEvent::Renamed { new_record, .. } => Some(new_record.name.as_str()),
        IndexEvent::Moved { name, .. } => Some(name.as_str()),
        IndexEvent::Deleted { .. } => None,
        IndexEvent::Checkpoint(_) => None,
    }
}

/// The letter of an event's volume.
fn letter_of_event(event: &IndexEvent) -> (r: Option<char>)
    ensures
        r is Some ==> is_of(*event, r->0),
        r is None <==> *event is Checkpoint,
{
    match event {
        IndexEvent::Created { drive_letter, .. } => Some(*drive_letter),
        IndexEvent::Renamed { drive_letter, .. } => Some(*drive_letter),
        IndexEvent::Moved { drive_letter, .. } => Some(*drive_letter),
        IndexEvent::Deleted { drive_letter, .. } => Some(*drive_letter),
        IndexEvent::Checkpoint(_) => None,
    }
}

impl IndexStore {
    /// Whether the volumes of a batch can all be named.
    fn drives_fit(&self, events: &Vec<IndexEvent>) -> (r: bool)
        ensures
            r == (self.plan(events@).roots.len() <= 256),
    {
        let mut letters: Vec<char> = Vec::new();
        let mut i: usize = 0;
        while i < self.drive_roots.len()
            invariant
                i <= self.drive_roots@.len(),
                letters@.len() == i,
                forall|k: int| 0 <= k < i ==> letters@[k] == roots_view(self.drive_roots@)[k].0,
            decreases self.drive_roots@.len() - i,
        {
            letters.push(self.drive_roots[i].letter);
            i = i + 1;
        }
        let mut n: usize = 0;
        assert(events@.take(0).len() == 0);
        while n < events.len()
            invariant
                n <= events@.len(),
                letters@.len() == self.plan(events@.take(n as int)).roots.len(),
                forall|k: int|
                    0 <= k < letters@.len() ==> #[trigger] letters@[k] == self.plan(
                        events@.take(n as int),
                    ).roots[k].0,
            decreases events@.len() - n,
        {
            let ghost roots = self.plan(events@.take(n as int)).roots;
            proof {
                assert(events@.take(n + 1).drop_last() =~= events@.take(n as int));
                assert(events@.take(n + 1).last() == events@[n as int]);
                assert(self.plan(events@.take(n + 1)) == self.plan(events@.take(n as int)).step(
                    self.entries@,
                    self.name_lower_arena@,
                    events@[n as int],
                ));
            }
            if let Some(letter) = letter_of_event(&events[n]) {
                let mut known: bool = false;
                let mut p: usize = 0;
                while p < letters.len() && !known
                    invariant
                        p <= letters@.len(),
                        letters@.len() == roots.len(),
                        forall|k: int|
                            0 <= k < letters@.len() ==> #[trigger] letters@[k] == roots[k].0,
                        known <==> exists|k: int| 0 <= k < p && #[trigger] letters@[k] == letter,
                    decreases letters@.len() - p,
                {
                    if letters[p] == letter {
                        known = true;
                    }
                    p = p + 1;
                }
                proof {
                    lemma_drive_pos_range(roots, letter);
                    lemma_known(roots, letter);
                    if known {
                        let k = choose|k: int| 0 <= k < p && #[trigger] letters@[k] == letter;
                        assert(roots[k].0 == letter);
                    } else if drive_pos(roots, letter) < roots.len() {
                        assert(letters@[drive_pos(roots, letter)] == letter);
                    }
                }
                if !known {
                    letters.push(letter);
                }
                proof {
                    lemma_step_roots(
                        self.plan(events@.take(n as int)),
                        self.entries@,
                        self.name_lower_arena@,
                        events@[n as int],
                        letter,
                    );
                }
            }
            n = n + 1;
        }
        assert(events@.take(n as int) =~= events@);
        letters.len() <= 256
    }

    /// Whether the names of a batch fit into the arenas.
    fn names_fit(&self, events: &Vec<IndexEvent>) -> (r: bool)
        ensures
            r == (names_short(events@) && self.name_arena@.len() + event_bytes(events@).0
                <= u32::MAX && self.name_lower_arena@.len() + event_bytes(events@).1 <= u32::MAX),
    {
        let max: u64 = u32::MAX as u64;
        if self.name_arena.len() as u64 > max || self.name_lower_arena.len() as u64 > max {
            return false;
        }
        let mut names: u64 = self.name_arena.len() as u64;
        let mut lowers: u64 = self.name_lower_arena.len() as u64;
        let mut n: usize = 0;
        assert(events@.take(0).len() == 0);
        while n < events.len()
            invariant
                n <= events@.len(),
                max == u32::MAX,
                names <= max,
                lowers <= max,
                names == self.name_arena@.len() + event_bytes(events@.take(n as int)).0,
                lowers == self.name_lower_arena@.len() + event_bytes(events@.take(n as int)).1,
                names_short(events@.take(n as int)),
            decreases events@.len() - n,
        {
            proof {
                assert(events@.take(n + 1).drop_last() =~= events@.take(n as int));
                assert(events@.take(n + 1).last() == events@[n as int]);
                lemma_event_bytes_prefix(events@, n + 1);
                assert forall|k: int|
                    0 <= k < n + 1 implies #[trigger] events@.take(n + 1)[k] == events@[k] by {}
            }
            if let Some(name) = name_of_event(&events[n]) {
                let lower = name.to_lowercase();
                let a: usize = name.as_bytes().len();
                let b: usize = lower.as_str().as_bytes().len();
                if a > u16::MAX as usize || b > u16::MAX as usize {
                    assert(event_name(events@[n as int]) is Some);
                    return false;
                }
                names = names + a as u64;
                lowers = lowers + b as u64;
                if names > max || lowers > max {
                    return false;
                }
            }
            assert(names_short(events@.take(n + 1))) by {
                assert forall|k: int|
                    0 <= k < n + 1 && (#[trigger] event_name(
                        events@.take(n + 1)[k],
                    )) is Some implies name_utf8(event_name(events@.take(n + 1)[k])->0).len()
                    <= u16::MAX && lower_utf8(event_name(events@.take(n + 1)[k])->0).len()
                    <= u16::MAX by {
                    if k < n {
                        assert(events@.take(n + 1)[k] == events@.take(n as int)[k]);
                        assert(event_name(events@.take(n as int)[k]) is Some);
                    }
                }
            }
            n = n + 1;
        }
        assert(events@.take(n as int) =~= events@);
        true
    }

    /// Whether a batch fits.
    pub fn batch_fits(&self, events: &Vec<IndexEvent>) -> (r: bool)
        ensures
            r == self.batch_room(events@),
    {
        self.drives_fit(events) && self.names_fit(events) && (self.entries.len() as u128
            + events.len() as u128) < u32::MAX as u128
    }

    /// `apply_events`, where the batch fits; otherwise nothing changes.
    pub fn try_apply_events(&mut self, events: Vec<IndexEvent>) -> (r: bool)
        requires
            old(self).wf(),
        ensures
            r == old(self).batch_room(events@),
            r ==> final(self).wf() && batch_result(
                *old(self),
                old(self).plan(events@),
                *final(self),
            ),
            r && old(self).stamps_ok() ==> final(self).stamps_ok(),
            r && old(self).unique_refs() ==> final(self).unique_refs(),
            !r ==> *final(self) == *old(self),
    {
        if self.batch_fits(&events) {
            self.apply_events(events);
            true
        } else {
            false
        }
    }
}

/// An event registers its volume.
proof fn lemma_step_roots(
    plan: Plan,
    entries: Seq<IndexEntry>,
    lowers: Seq<u8>,
    event: IndexEvent,
    letter: char,
)
    requires
        is_of(event, letter),
    ensures
        plan.step(entries, lowers, event).roots == register(plan.roots, letter),
{
}

/// A letter that is in the list is found there.
pub proof fn lemma_known(roots: Seq<(char, Seq<char>)>, letter: char)
    ensures
        (exists|k: int| 0 <= k < roots.len() && (#[trigger] roots[k]).0 == letter) ==> drive_pos(
            roots,
            letter,
        ) < roots.len(),
    decreases roots.len(),
{
    if roots.len() > 0 && roots[0].0 != letter {
        lemma_known(roots.drop_first(), letter);
        if exists|k: int| 0 <= k < roots.len() && (#[trigger] roots[k]).0 == letter {
            let k = choose|k: int| 0 <= k < roots.len() && (#[trigger] roots[k]).0 == letter;
            assert(roots.drop_first()[k - 1].0 == letter);
        }
    }
}

/// The records that lose the entry they have.
fn replaced_refs(gone: RefSet, newest: &Newest, Ghost(plan): Ghost<Plan>) -> (r: RefSet)
    requires
        gone@ == plan.gone,
        newest.holds(plan.newest),
    ensures
        r@ == plan.replaced(),
{
    let mut replaced = gone;
    let mut s: usize = 0;
    while s < newest.slots.len()
        invariant
            s <= newest.slots@.len(),
            newest.holds(plan.newest),
            forall|k: (u8, u64)| #[trigger]
                replaced@.contains(k) ==> plan.gone.contains(k) || plan.newest.contains_key(k),
            forall|k: (u8, u64)| #[trigger] plan.gone.contains(k) ==> replaced@.contains(k),
            forall|t: int| 0 <= t < s ==> replaced@.contains(#[trigger] newest.key(t)),
        decreases newest.slots@.len() - s,
    {
        assert(plan.newest.contains_key(newest.key(s as int)));
        replaced.insert(newest.slots[s].0, newest.slots[s].1.file_ref);
        s = s + 1;
    }
    proof {
        assert forall|k: (u8, u64)| plan.newest.contains_key(k) implies #[trigger] replaced@.contains(
            k,
        ) by {
            let t = choose|t: int| 0 <= t < newest.slots@.len() && #[trigger] newest.key(t) == k;
            assert(replaced@.contains(newest.key(t)));
        }
        assert(replaced@ =~= plan.replaced());
    }
    replaced
}

} // verus!
