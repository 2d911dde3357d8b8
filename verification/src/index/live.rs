//! Single changes to a built index: insert, remove, rename, move.
use crate::bytes::{bytes_le, lemma_lex_reflexive, lemma_lex_total, lemma_lex_transitive, lex_le};
use crate::index::store::{
    is_record, junk_above, junk_at, junk_view, junk_with, junk_without, lemma_frame, lower_in,
    meta_of, same_record, IndexEntry, IndexStore, WALK_LIMIT,
};
use crate::mft::types::{FileKind, FileRecord};
use crate::text::lowercase;
use vstd::prelude::*;
use vstd::utf8::*;

verus! {

/// The bytes of a name.
pub open spec fn name_utf8(name: Seq<char>) -> Seq<u8> {
    encode_utf8(name)
}

/// The bytes of a name's lowercase form.
pub open spec fn lower_utf8(name: Seq<char>) -> Seq<u8> {
    encode_utf8(lowercase(name))
}

/// A name and its lowercase form are short enough for an entry, and fit into
/// arenas that hold `names` and `lowers` bytes.
pub open spec fn has_room(names: nat, lowers: nat, name: Seq<char>) -> bool {
    &&& name_utf8(name).len() <= u16::MAX
    &&& lower_utf8(name).len() <= u16::MAX
    &&& names + name_utf8(name).len() <= u32::MAX
    &&& lowers + lower_utf8(name).len() <= u32::MAX
}

/// The entry of a record whose names were put at the given places.
pub open spec fn entry_for(
    record: FileRecord,
    drive: u8,
    meta: (u8, u8),
    name_off: nat,
    lower_off: nat,
) -> IndexEntry {
    IndexEntry {
        file_ref: record.file_ref,
        parent_ref: record.parent_ref,
        name_off: name_off as u32,
        name_lower_off: lower_off as u32,
        name_len: name_utf8(record.name@).len() as u16,
        name_lower_len: lower_utf8(record.name@).len() as u16,
        flags: if record.kind == FileKind::Directory {
            1
        } else {
            0
        },
        depth: meta.0,
        user_path: meta.1,
        drive,
    }
}

/// The entries without those of one record.
pub open spec fn entries_without(
    entries: Seq<IndexEntry>,
    drive: u8,
    r: u64,
) -> Seq<IndexEntry> {
    entries.filter(|e: IndexEntry| !is_record(e, drive, r))
}

/// `part` is `whole` at the ascending positions `at`.
pub open spec fn embeds(part: Seq<IndexEntry>, whole: Seq<IndexEntry>, at: Seq<int>) -> bool {
    &&& at.len() == part.len()
    &&& forall|k: int|
        0 <= k < part.len() ==> 0 <= #[trigger] at[k] < whole.len() && part[k] == whole[at[k]]
    &&& forall|j: int, k: int| 0 <= j < k < part.len() ==> #[trigger] at[j] < #[trigger] at[k]
}

/// Where the entries that `keep` keeps come from.
pub proof fn lemma_filter_embeds(s: Seq<IndexEntry>, keep: spec_fn(IndexEntry) -> bool) -> (at: Seq<
    int,
>)
    ensures
        embeds(s.filter(keep), s, at),
        forall|k: int| 0 <= k < s.filter(keep).len() ==> keep(#[trigger] s.filter(keep)[k]),
        forall|i: int| 0 <= i < s.len() && keep(#[trigger] s[i]) ==> at.contains(i),
        s.filter(keep).len() <= s.len(),
        s.filter(keep).len() == s.len() <==> s.filter(keep) == s,
    decreases s.len(),
{
    reveal(Seq::filter);
    if s.len() == 0 {
        assert(s.filter(keep) =~= s);
        Seq::empty()
    } else {
        let head = s.drop_last();
        let before = lemma_filter_embeds(head, keep);
        let part = s.filter(keep);
        if keep(s.last()) {
            let at = before.push(s.len() - 1);
            assert(part == head.filter(keep).push(s.last()));
            assert forall|i: int| 0 <= i < s.len() && keep(#[trigger] s[i]) implies at.contains(
                i,
            ) by {
                if i == s.len() - 1 {
                    assert(at[before.len() as int] == i);
                } else {
                    assert(head[i] == s[i]);
                    let k = choose|k: int| 0 <= k < before.len() && before[k] == i;
                    assert(at[k] == i);
                }
            }
            if part.len() == s.len() {
                assert(part =~= s);
            }
            at
        } else {
            assert(part == head.filter(keep));
            assert forall|i: int| 0 <= i < s.len() && keep(#[trigger] s[i]) implies before.contains(
                i,
            ) by {
                assert(head[i] == s[i]);
            }
            before
        }
    }
}

/// Names stay where they are when the arenas grow at the end.
pub proof fn lemma_arenas_grow(
    e: IndexEntry,
    names: Seq<u8>,
    lowers: Seq<u8>,
    more: Seq<u8>,
    more_lower: Seq<u8>,
)
    requires
        e.in_arenas(names, lowers),
    ensures
        e.in_arenas(names + more, lowers + more_lower),
        lower_in(lowers + more_lower, e) == lower_in(lowers, e),
        (names + more).subrange(e.name_off as int, e.name_off + e.name_len) == names.subrange(
            e.name_off as int,
            e.name_off + e.name_len,
        ),
{
    assert((names + more).subrange(e.name_off as int, e.name_off + e.name_len) =~= names.subrange(
        e.name_off as int,
        e.name_off + e.name_len,
    ));
    assert(lower_in(lowers + more_lower, e) =~= lower_in(lowers, e));
}

/// `pos` is where a name goes: what comes before it is smaller, the rest is not.
pub open spec fn splice_point(
    entries: Seq<IndexEntry>,
    lowers: Seq<u8>,
    lower: Seq<u8>,
    pos: int,
) -> bool {
    &&& 0 <= pos <= entries.len()
    &&& forall|k: int|
        0 <= k < pos ==> !lex_le(lower, lower_in(lowers, #[trigger] entries[k]))
    &&& forall|k: int|
        pos <= k < entries.len() ==> lex_le(lower, lower_in(lowers, #[trigger] entries[k]))
}

/// What inserting `record` makes of the parts of an index: the record replaces
/// any entry of the same number; below a junk directory it is only remembered
/// as junk, elsewhere it gets an entry at its place in the order of names.
pub open spec fn insert_result(
    entries: Seq<IndexEntry>,
    names: Seq<u8>,
    lowers: Seq<u8>,
    junk: Seq<Set<u64>>,
    dirty: bool,
    drive: u8,
    record: FileRecord,
    after: IndexStore,
) -> bool {
    let kept = entries_without(entries, drive, record.file_ref);
    if junk_above(
        kept,
        lowers,
        junk_at(junk, drive as int),
        drive,
        record.parent_ref,
        WALK_LIMIT as nat,
    ) {
        &&& after.entries@ == kept
        &&& after.name_arena@ == names
        &&& after.name_lower_arena@ == lowers
        &&& junk_view(after.junk_refs@) == junk_with(junk, drive as int, record.file_ref)
        &&& after.ext_dirty == (dirty || kept.len() != entries.len())
    } else {
        let lower = lower_utf8(record.name@);
        let meta = meta_of(
            kept,
            lowers,
            drive,
            record.parent_ref,
            lower,
            record.kind == FileKind::Directory,
        );
        &&& exists|pos: int| #[trigger]
            splice_point(kept, lowers, lower, pos) && after.entries@ == kept.insert(
                pos,
                entry_for(record, drive, meta, names.len(), lowers.len()),
            )
        &&& after.name_arena@ == names + name_utf8(record.name@)
        &&& after.name_lower_arena@ == lowers + lower
        &&& junk_view(after.junk_refs@) == junk
        &&& after.ext_dirty
    }
}

impl IndexStore {
    /// What the other fields of two stores are the same in.
    pub open spec fn same_roots(&self, other: &IndexStore) -> bool {
        &&& self.drive_roots == other.drive_roots
        &&& self.checkpoints == other.checkpoints
    }

    /// Appends a record's names to the arenas and builds its entry.
    pub(crate) fn arena_entry(
        &mut self,
        record: &FileRecord,
        drive: u8,
        depth: u8,
        user_path: u8,
    ) -> (e: IndexEntry)
        requires
            has_room(
                old(self).name_arena@.len(),
                old(self).name_lower_arena@.len(),
                record.name@,
            ),
        ensures
            e == entry_for(
                *record,
                drive,
                (depth, user_path),
                old(self).name_arena@.len(),
                old(self).name_lower_arena@.len(),
            ),
            final(self).name_arena@ == old(self).name_arena@ + name_utf8(record.name@),
            final(self).name_lower_arena@ == old(self).name_lower_arena@ + lower_utf8(
                record.name@,
            ),
            e.in_arenas(final(self).name_arena@, final(self).name_lower_arena@),
            final(self).name_of(e) == name_utf8(record.name@),
            final(self).lower_of(e) == lower_utf8(record.name@),
            *final(self) == (IndexStore {
                name_arena: final(self).name_arena,
                name_lower_arena: final(self).name_lower_arena,
                ..*old(self)
            }),
    {
        let name_lower = record.name.to_lowercase();
        let name_bytes = record.name.as_str().as_bytes();
        let lower_bytes = name_lower.as_str().as_bytes();
        let n_off: u32 = self.name_arena.len() as u32;
        let n_len: u16 = name_bytes.len() as u16;
        let nl_off: u32 = self.name_lower_arena.len() as u32;
        let nl_len: u16 = lower_bytes.len() as u16;
        self.name_arena.extend_from_slice(name_bytes);
        self.name_lower_arena.extend_from_slice(lower_bytes);
        let flags: u8 = match record.kind {
            FileKind::Directory => 1,
            FileKind::File => 0,
        };
        let e = IndexEntry {
            file_ref: record.file_ref,
            parent_ref: record.parent_ref,
            name_off: n_off,
            name_lower_off: nl_off,
            name_len: n_len,
            name_lower_len: nl_len,
            flags,
            depth,
            user_path,
            drive,
        };
        proof {
            let names = old(self).name_arena@;
            let lowers = old(self).name_lower_arena@;
            assert(self.name_arena@ =~= names + name_bytes@);
            assert(self.name_lower_arena@ =~= lowers + lower_bytes@);
            assert(self.name_of(e) =~= name_bytes@);
            assert(self.lower_of(e) =~= lower_bytes@);
            encode_utf8_valid_utf8(record.name@);
            encode_utf8_valid_utf8(name_lower@);
        }
        e
    }

    /// Drops the entries of one record.
    fn drop_entries(&mut self, drive: u8, file_ref: u64)
        requires
            old(self).arenas_ok(),
            old(self).sorted(),
        ensures
            final(self).entries@ == entries_without(old(self).entries@, drive, file_ref),
            final(self).entries@.len() <= old(self).entries@.len(),
            final(self).arenas_ok(),
            final(self).sorted(),
            *final(self) == (IndexStore { entries: final(self).entries, ..*old(self) }),
    {
        let ghost keep = |e: IndexEntry| !is_record(e, drive, file_ref);
        let mut kept: Vec<IndexEntry> = Vec::new();
        let mut i: usize = 0;
        while i < self.entries.len()
            invariant
                *self == *old(self),
                i <= self.entries@.len(),
                keep == (|e: IndexEntry| !is_record(e, drive, file_ref)),
                kept@ == self.entries@.take(i as int).filter(keep),
            decreases self.entries@.len() - i,
        {
            let e = self.entries[i];
            proof {
                reveal(Seq::filter);
                assert(self.entries@.take(i + 1).drop_last() =~= self.entries@.take(i as int));
                assert(self.entries@.take(i + 1).last() == e);
            }
            if !(e.drive == drive && e.file_ref == file_ref) {
                kept.push(e);
            }
            i = i + 1;
        }
        proof {
            assert(self.entries@.take(i as int) =~= self.entries@);
            let at = lemma_filter_embeds(self.entries@, keep);
            assert forall|k: int| 0 <= k < kept@.len() implies (#[trigger] kept@[k]).in_arenas(
                self.name_arena@,
                self.name_lower_arena@,
            ) by {
                assert(kept@[k] == self.entries@[at[k]]);
            }
            assert forall|j: int, k: int| 0 <= j < k < kept@.len() implies lex_le(
                self.lower_of(#[trigger] kept@[j]),
                self.lower_of(#[trigger] kept@[k]),
            ) by {
                assert(at[j] < at[k]);
                assert(kept@[j] == self.entries@[at[j]]);
                assert(kept@[k] == self.entries@[at[k]]);
            }
        }
        self.entries = kept;
    }

    /// Where a lowercased name goes in the order of names.
    fn splice_at(&self, lower: &[u8]) -> (r: usize)
        requires
            self.arenas_ok(),
            self.sorted(),
        ensures
            splice_point(self.entries@, self.name_lower_arena@, lower@, r as int),
    {
        let mut lo: usize = 0;
        let mut hi: usize = self.entries.len();
        while lo < hi
            invariant
                self.arenas_ok(),
                self.sorted(),
                lo <= hi <= self.entries@.len(),
                forall|k: int|
                    0 <= k < lo ==> !lex_le(lower@, self.lower_of(#[trigger] self.entries@[k])),
                forall|k: int|
                    hi <= k < self.entries@.len() ==> lex_le(
                        lower@,
                        self.lower_of(#[trigger] self.entries@[k]),
                    ),
            decreases hi - lo,
        {
            let mid: usize = lo + (hi - lo) / 2;
            let e = self.entries[mid];
            assert(self.entries@[mid as int] == e);
            if bytes_le(lower, self.lower_bytes(&e)) {
                assert forall|k: int| mid <= k < self.entries@.len() implies lex_le(
                    lower@,
                    self.lower_of(#[trigger] self.entries@[k]),
                ) by {
                    if k > mid {
                        lemma_lex_transitive(
                            lower@,
                            self.lower_of(e),
                            self.lower_of(self.entries@[k]),
                        );
                    }
                }
                hi = mid;
            } else {
                assert forall|k: int| 0 <= k < mid + 1 implies !lex_le(
                    lower@,
                    self.lower_of(#[trigger] self.entries@[k]),
                ) by {
                    if k < mid && lex_le(lower@, self.lower_of(self.entries@[k])) {
                        lemma_lex_transitive(
                            lower@,
                            self.lower_of(self.entries@[k]),
                            self.lower_of(e),
                        );
                    }
                }
                lo = mid + 1;
            }
        }
        lo
    }

    /// Drops the entries of one record and refreshes the tables.
    fn drop_record(&mut self, drive: u8, file_ref: u64)
        requires
            old(self).wf(),
        ensures
            final(self).wf(),
            final(self).entries@ == entries_without(old(self).entries@, drive, file_ref),
            final(self).entries@.len() <= old(self).entries@.len(),
            final(self).ext_dirty == (old(self).ext_dirty || final(self).entries@.len()
                != old(self).entries@.len()),
            *final(self) == (IndexStore {
                entries: final(self).entries,
                ref_lookup: final(self).ref_lookup,
                ext_dirty: final(self).ext_dirty,
                ..*old(self)
            }),
    {
        let before: usize = self.entries.len();
        proof {
            lemma_filter_embeds(self.entries@, |e: IndexEntry| !is_record(e, drive, file_ref));
        }
        self.drop_entries(drive, file_ref);
        if self.entries.len() != before {
            self.ext_dirty = true;
        }
        let ghost mid = *self;
        self.rebuild_ref_lookup();
        proof {
            lemma_frame(mid, *self);
            if !self.ext_dirty {
                assert(self.entries@ == old(self).entries@);
                lemma_frame(*old(self), *self);
            }
        }
    }

    /// Puts a record in at its place in the order of names.
    fn splice_record(&mut self, drive: u8, record: &FileRecord, meta: (u8, u8))
        requires
            old(self).wf(),
            old(self).entries@.len() < u32::MAX,
            has_room(
                old(self).name_arena@.len(),
                old(self).name_lower_arena@.len(),
                record.name@,
            ),
        ensures
            final(self).wf(),
            exists|pos: int| #[trigger]
                splice_point(
                    old(self).entries@,
                    old(self).name_lower_arena@,
                    lower_utf8(record.name@),
                    pos,
                ) && final(self).entries@ == old(self).entries@.insert(
                    pos,
                    entry_for(
                        *record,
                        drive,
                        meta,
                        old(self).name_arena@.len(),
                        old(self).name_lower_arena@.len(),
                    ),
                ),
            final(self).name_arena@ == old(self).name_arena@ + name_utf8(record.name@),
            final(self).name_lower_arena@ == old(self).name_lower_arena@ + lower_utf8(
                record.name@,
            ),
            final(self).ext_dirty,
            *final(self) == (IndexStore {
                entries: final(self).entries,
                name_arena: final(self).name_arena,
                name_lower_arena: final(self).name_lower_arena,
                ref_lookup: final(self).ref_lookup,
                ext_dirty: true,
                ..*old(self)
            }),
    {
        let ghost names = self.name_arena@;
        let ghost lowers = self.name_lower_arena@;
        let ghost kept = self.entries@;
        let ghost before = *self;
        let name_lower = record.name.to_lowercase();
        let pos: usize = self.splice_at(name_lower.as_str().as_bytes());
        let e = self.arena_entry(record, drive, meta.0, meta.1);
        self.entries.insert(pos, e);
        self.ext_dirty = true;
        let ghost mid = *self;
        self.rebuild_ref_lookup();
        proof {
            let lower = lower_utf8(record.name@);
            let entries = self.entries@;
            assert(entries == kept.insert(pos as int, e));
            assert forall|i: int| 0 <= i < entries.len() implies (#[trigger] entries[i]).in_arenas(
                mid.name_arena@,
                mid.name_lower_arena@,
            ) && (i != pos ==> mid.lower_of(entries[i]) == lower_in(lowers, entries[i])) by {
                if i != pos {
                    let k = if i < pos {
                        i
                    } else {
                        i - 1
                    };
                    assert(entries[i] == kept[k]);
                    lemma_arenas_grow(kept[k], names, lowers, name_utf8(record.name@), lower);
                }
            }
            assert(entries[pos as int] == e);
            assert(mid.lower_of(e) == lower);
            assert forall|i: int, j: int| 0 <= i < j < entries.len() implies lex_le(
                mid.lower_of(#[trigger] entries[i]),
                mid.lower_of(#[trigger] entries[j]),
            ) by {
                if i == pos {
                    assert(entries[j] == kept[j - 1]);
                } else if j == pos {
                    assert(entries[i] == kept[i]);
                    lemma_lex_total(lower, lower_in(lowers, kept[i]));
                } else {
                    let a = if i < pos {
                        i
                    } else {
                        i - 1
                    };
                    let b = if j < pos {
                        j
                    } else {
                        j - 1
                    };
                    assert(entries[i] == kept[a]);
                    assert(entries[j] == kept[b]);
                    assert(lex_le(before.lower_of(kept[a]), before.lower_of(kept[b])));
                }
            }
            assert(mid.sorted());
            assert(mid.arenas_ok());
            lemma_frame(mid, *self);
        }
    }

    /// Inserts a record. It supersedes any entry of the same number on the same
    /// volume: the journal may deliver a record more than once.
    pub fn insert(&mut self, drive: u8, record: FileRecord)
        requires
            old(self).wf(),
            old(self).entries@.len() < u32::MAX,
            has_room(
                old(self).name_arena@.len(),
                old(self).name_lower_arena@.len(),
                record.name@,
            ),
        ensures
            final(self).wf(),
            final(self).same_roots(old(self)),
            insert_result(
                old(self).entries@,
                old(self).name_arena@,
                old(self).name_lower_arena@,
                junk_view(old(self).junk_refs@),
                old(self).ext_dirty,
                drive,
                record,
                *final(self),
            ),
    {
        self.drop_record(drive, record.file_ref);
        let ghost mid = *self;
        if self.is_live_junk(record.parent_ref, drive) {
            self.add_junk(drive, record.file_ref);
            proof {
                lemma_frame(mid, *self);
            }
        } else {
            let name_lower = record.name.to_lowercase();
            let dir: bool = match record.kind {
                FileKind::Directory => true,
                FileKind::File => false,
            };
            let meta = self.path_meta(drive, record.parent_ref, name_lower.as_str(), dir);
            self.splice_record(drive, &record, meta);
        }
    }

    /// Removes a record.
    pub fn remove(&mut self, drive: u8, file_ref: u64)
        requires
            old(self).wf(),
        ensures
            final(self).wf(),
            final(self).entries@ == entries_without(old(self).entries@, drive, file_ref),
            final(self).entries@.len() <= old(self).entries@.len(),
            final(self).name_arena@ == old(self).name_arena@,
            final(self).name_lower_arena@ == old(self).name_lower_arena@,
            junk_view(final(self).junk_refs@) == junk_without(
                junk_view(old(self).junk_refs@),
                drive as int,
                file_ref,
            ),
            final(self).ext_dirty,
            final(self).same_roots(old(self)),
    {
        self.drop_record(drive, file_ref);
        let ghost mid = *self;
        self.drop_junk(drive, file_ref);
        self.ext_dirty = true;
        proof {
            lemma_frame(mid, *self);
        }
    }

    /// Replaces a record by another.
    pub fn rename(&mut self, drive: u8, old_ref: u64, new_record: FileRecord)
        requires
            old(self).wf(),
            old(self).entries@.len() < u32::MAX,
            has_room(
                old(self).name_arena@.len(),
                old(self).name_lower_arena@.len(),
                new_record.name@,
            ),
        ensures
            final(self).wf(),
            final(self).same_roots(old(self)),
            insert_result(
                entries_without(old(self).entries@, drive, old_ref),
                old(self).name_arena@,
                old(self).name_lower_arena@,
                junk_without(junk_view(old(self).junk_refs@), drive as int, old_ref),
                true,
                drive,
                new_record,
                *final(self),
            ),
    {
        self.remove(drive, old_ref);
        self.insert(drive, new_record);
    }

    /// Moves a record below another directory, under a name.
    pub fn apply_move(
        &mut self,
        drive: u8,
        file_ref: u64,
        new_parent_ref: u64,
        name: String,
        kind: FileKind,
    )
        requires
            old(self).wf(),
            old(self).entries@.len() < u32::MAX,
            has_room(old(self).name_arena@.len(), old(self).name_lower_arena@.len(), name@),
        ensures
            final(self).wf(),
            final(self).same_roots(old(self)),
            insert_result(
                entries_without(old(self).entries@, drive, file_ref),
                old(self).name_arena@,
                old(self).name_lower_arena@,
                junk_without(junk_view(old(self).junk_refs@), drive as int, file_ref),
                true,
                drive,
                FileRecord { file_ref, parent_ref: new_parent_ref, name, kind },
                *final(self),
            ),
    {
        self.remove(drive, file_ref);
        self.insert(drive, FileRecord { file_ref, parent_ref: new_parent_ref, name, kind });
    }

    /// Whether one more record with this name fits into the index.
    pub fn fits(&self, name: &str) -> (r: bool)
        ensures
            r == (self.entries@.len() < u32::MAX && has_room(
                self.name_arena@.len(),
                self.name_lower_arena@.len(),
                name@,
            )),
    {
        let lower = name.to_lowercase();
        let n: usize = name.as_bytes().len();
        let nl: usize = lower.as_str().as_bytes().len();
        let max: u64 = u32::MAX as u64;
        (self.entries.len() as u64) < max && n <= u16::MAX as usize && nl <= u16::MAX as usize && (
        self.name_arena.len() as u64) <= max && self.name_arena.len() as u64 + n as u64 <= max && (
        self.name_lower_arena.len() as u64) <= max && self.name_lower_arena.len() as u64 + nl as u64
            <= max
    }

    /// `insert`, where the record fits; otherwise nothing changes.
    pub fn try_insert(&mut self, drive: u8, record: FileRecord) -> (r: bool)
        requires
            old(self).wf(),
        ensures
            r == (old(self).entries@.len() < u32::MAX && has_room(
                old(self).name_arena@.len(),
                old(self).name_lower_arena@.len(),
                record.name@,
            )),
            r ==> final(self).wf() && final(self).same_roots(old(self)) && insert_result(
                old(self).entries@,
                old(self).name_arena@,
                old(self).name_lower_arena@,
                junk_view(old(self).junk_refs@),
                old(self).ext_dirty,
                drive,
                record,
                *final(self),
            ),
            !r ==> *final(self) == *old(self),
    {
        if self.fits(record.name.as_str()) {
            self.insert(drive, record);
            true
        } else {
            false
        }
    }

    /// `rename`, where the record fits; otherwise nothing changes.
    pub fn try_rename(&mut self, drive: u8, old_ref: u64, new_record: FileRecord) -> (r: bool)
        requires
            old(self).wf(),
        ensures
            r == (old(self).entries@.len() < u32::MAX && has_room(
                old(self).name_arena@.len(),
                old(self).name_lower_arena@.len(),
                new_record.name@,
            )),
            r ==> final(self).wf() && final(self).same_roots(old(self)) && insert_result(
                entries_without(old(self).entries@, drive, old_ref),
                old(self).name_arena@,
                old(self).name_lower_arena@,
                junk_without(junk_view(old(self).junk_refs@), drive as int, old_ref),
                true,
                drive,
                new_record,
                *final(self),
            ),
            !r ==> *final(self) == *old(self),
    {
        if self.fits(new_record.name.as_str()) {
            self.rename(drive, old_ref, new_record);
            true
        } else {
            false
        }
    }

    /// `apply_move`, where the record fits; otherwise nothing changes.
    pub fn try_apply_move(
        &mut self,
        drive: u8,
        file_ref: u64,
        new_parent_ref: u64,
        name: String,
        kind: FileKind,
    ) -> (r: bool)
        requires
            old(self).wf(),
        ensures
            r == (old(self).entries@.len() < u32::MAX && has_room(
                old(self).name_arena@.len(),
                old(self).name_lower_arena@.len(),
                name@,
            )),
            r ==> final(self).wf() && final(self).same_roots(old(self)) && insert_result(
                entries_without(old(self).entries@, drive, file_ref),
                old(self).name_arena@,
                old(self).name_lower_arena@,
                junk_without(junk_view(old(self).junk_refs@), drive as int, file_ref),
                true,
                drive,
                FileRecord { file_ref, parent_ref: new_parent_ref, name, kind },
                *final(self),
            ),
            !r ==> *final(self) == *old(self),
    {
        if self.fits(name.as_str()) {
            self.apply_move(drive, file_ref, new_parent_ref, name, kind);
            true
        } else {
            false
        }
    }
}

/// Where the entry of a freshly inserted record is.
proof fn lemma_inserted_row(
    kept: Seq<IndexEntry>,
    e: IndexEntry,
    pos: int,
    drive: u8,
    r: u64,
)
    requires
        0 <= pos <= kept.len(),
        is_record(e, drive, r),
        forall|i: int| 0 <= i < kept.len() ==> !is_record(#[trigger] kept[i], drive, r),
    ensures
        forall|i: int|
            0 <= i < kept.insert(pos, e).len() ==> (is_record(
                #[trigger] kept.insert(pos, e)[i],
                drive,
                r,
            ) <==> i == pos),
{
    let all = kept.insert(pos, e);
    assert forall|i: int| 0 <= i < all.len() implies (is_record(#[trigger] all[i], drive, r)
        <==> i == pos) by {
        if i < pos {
            assert(all[i] == kept[i]);
        } else if i > pos {
            assert(all[i] == kept[i - 1]);
        }
    }
}

/// A record supersedes: after an insert the index holds at most one entry of
/// its number, which has the record's parent, kind and name. It holds none
/// exactly where the record is below junk. Entries of other records stay.
pub proof fn law_insert_supersedes(
    before: IndexStore,
    after: IndexStore,
    drive: u8,
    record: FileRecord,
)
    requires
        before.wf(),
        has_room(before.name_arena@.len(), before.name_lower_arena@.len(), record.name@),
        insert_result(
            before.entries@,
            before.name_arena@,
            before.name_lower_arena@,
            junk_view(before.junk_refs@),
            before.ext_dirty,
            drive,
            record,
            after,
        ),
    ensures
        forall|i: int, j: int|
            0 <= i < j < after.entries@.len() && is_record(
                #[trigger] after.entries@[i],
                drive,
                record.file_ref,
            ) ==> !is_record(#[trigger] after.entries@[j], drive, record.file_ref),
        forall|i: int|
            0 <= i < after.entries@.len() && is_record(
                #[trigger] after.entries@[i],
                drive,
                record.file_ref,
            ) ==> {
                &&& after.entries@[i].parent_ref == record.parent_ref
                &&& after.entries@[i].dir() == (record.kind == FileKind::Directory)
                &&& after.name_of(after.entries@[i]) == name_utf8(record.name@)
                &&& after.lower_of(after.entries@[i]) == lower_utf8(record.name@)
            },
        (exists|i: int|
            0 <= i < after.entries@.len() && is_record(
                #[trigger] after.entries@[i],
                drive,
                record.file_ref,
            )) <==> !junk_above(
            entries_without(before.entries@, drive, record.file_ref),
            before.name_lower_arena@,
            junk_at(junk_view(before.junk_refs@), drive as int),
            drive,
            record.parent_ref,
            WALK_LIMIT as nat,
        ),
        forall|e: IndexEntry|
            !is_record(e, drive, record.file_ref) ==> (before.entries@.contains(e)
                <==> #[trigger] after.entries@.contains(e)),
        before.unique_refs() ==> after.unique_refs(),
{
    let r = record.file_ref;
    let keep = |e: IndexEntry| !is_record(e, drive, r);
    let kept = entries_without(before.entries@, drive, r);
    let at = lemma_filter_embeds(before.entries@, keep);
    assert forall|i: int| 0 <= i < kept.len() implies !is_record(#[trigger] kept[i], drive, r) by {
        assert(keep(kept[i]));
    }
    assert forall|e: IndexEntry| !is_record(e, drive, r) implies (before.entries@.contains(e)
        <==> #[trigger] kept.contains(e)) by {
        if before.entries@.contains(e) {
            let i = choose|i: int| 0 <= i < before.entries@.len() && before.entries@[i] == e;
            assert(keep(before.entries@[i]));
            let k = choose|k: int| 0 <= k < at.len() && at[k] == i;
            assert(kept[k] == e);
        }
        if kept.contains(e) {
            let k = choose|k: int| 0 <= k < kept.len() && kept[k] == e;
            assert(before.entries@[at[k]] == e);
        }
    }
    if before.unique_refs() {
        assert forall|i: int, j: int| 0 <= i < j < kept.len() implies !same_record(
            #[trigger] kept[i],
            #[trigger] kept[j],
        ) by {
            assert(at[i] < at[j]);
            assert(kept[i] == before.entries@[at[i]]);
            assert(kept[j] == before.entries@[at[j]]);
        }
    }
    if !junk_above(
        kept,
        before.name_lower_arena@,
        junk_at(junk_view(before.junk_refs@), drive as int),
        drive,
        record.parent_ref,
        WALK_LIMIT as nat,
    ) {
        let lower = lower_utf8(record.name@);
        let meta = meta_of(
            kept,
            before.name_lower_arena@,
            drive,
            record.parent_ref,
            lower,
            record.kind == FileKind::Directory,
        );
        let e = entry_for(
            record,
            drive,
            meta,
            before.name_arena@.len(),
            before.name_lower_arena@.len(),
        );
        let pos = choose|pos: int| #[trigger]
            splice_point(kept, before.name_lower_arena@, lower, pos) && after.entries@
                == kept.insert(pos, e);
        lemma_inserted_row(kept, e, pos, drive, r);
        assert(after.entries@[pos] == e);
        assert(after.name_of(e) =~= name_utf8(record.name@));
        assert(after.lower_of(e) =~= lower);
        assert(1u8 & 1 != 0 && 0u8 & 1 == 0) by (bit_vector);
        assert forall|x: IndexEntry| !is_record(x, drive, r) implies (kept.contains(x)
            <==> #[trigger] after.entries@.contains(x)) by {
            if kept.contains(x) {
                let k = choose|k: int| 0 <= k < kept.len() && kept[k] == x;
                assert(after.entries@[if k < pos {
                    k
                } else {
                    k + 1
                }] == x);
            }
            if after.entries@.contains(x) {
                let k = choose|k: int| 0 <= k < after.entries@.len() && after.entries@[k] == x;
                assert(kept[if k < pos {
                    k
                } else {
                    k - 1
                }] == x);
            }
        }
        if before.unique_refs() {
            assert forall|i: int, j: int| 0 <= i < j < after.entries@.len() implies !same_record(
                #[trigger] after.entries@[i],
                #[trigger] after.entries@[j],
            ) by {
                let a = if i < pos {
                    i
                } else {
                    i - 1
                };
                let b = if j < pos {
                    j
                } else {
                    j - 1
                };
                if i == pos {
                    assert(after.entries@[j] == kept[b]);
                } else if j == pos {
                    assert(after.entries@[i] == kept[a]);
                } else {
                    assert(after.entries@[i] == kept[a]);
                    assert(after.entries@[j] == kept[b]);
                }
            }
        }
    }
}

/// What is left without a record: every entry but those of the record, in their
/// order.
pub proof fn law_removal_takes_one_record(
    entries: Seq<IndexEntry>,
    drive: u8,
    file_ref: u64,
    e: IndexEntry,
)
    ensures
        entries_without(entries, drive, file_ref).contains(e) <==> entries.contains(e) && !(e.drive
            == drive && e.file_ref == file_ref),
        (forall|i: int|
            0 <= i < entries.len() ==> !((#[trigger] entries[i]).drive == drive
                && entries[i].file_ref == file_ref)) ==> entries_without(entries, drive, file_ref)
            == entries,
{
    let keep = |x: IndexEntry| !is_record(x, drive, file_ref);
    let part = entries_without(entries, drive, file_ref);
    let at = lemma_filter_embeds(entries, keep);
    if part.contains(e) {
        let k = choose|k: int| 0 <= k < part.len() && part[k] == e;
        assert(entries[at[k]] == e);
        assert(keep(part[k]));
    }
    if entries.contains(e) && keep(e) {
        let i = choose|i: int| 0 <= i < entries.len() && entries[i] == e;
        assert(at.contains(i));
        let k = choose|k: int| 0 <= k < at.len() && at[k] == i;
        assert(part[k] == e);
    }
    if forall|i: int|
        0 <= i < entries.len() ==> !((#[trigger] entries[i]).drive == drive && entries[i].file_ref
            == file_ref) {
        assert forall|i: int| 0 <= i < entries.len() implies keep(#[trigger] entries[i]) by {}
        lemma_keeps_all(entries, keep);
    }
}

proof fn lemma_keeps_all(s: Seq<IndexEntry>, keep: spec_fn(IndexEntry) -> bool)
    requires
        forall|i: int| 0 <= i < s.len() ==> keep(#[trigger] s[i]),
    ensures
        s.filter(keep) == s,
    decreases s.len(),
{
    reveal(Seq::filter);
    if s.len() > 0 {
        let head = s.drop_last();
        assert forall|i: int| 0 <= i < head.len() implies keep(#[trigger] head[i]) by {
            assert(head[i] == s[i]);
        }
        lemma_keeps_all(head, keep);
        assert(keep(s[s.len() - 1]));
        assert(s =~= head.push(s.last()));
    }
}

/// A record that is inserted is stamped with the depth and the user bit that the
/// directories above it give, and remembered as junk where one of them is.
pub proof fn law_insert_stamps(
    before: IndexStore,
    after: IndexStore,
    drive: u8,
    record: FileRecord,
    i: int,
)
    requires
        before.wf(),
        has_room(before.name_arena@.len(), before.name_lower_arena@.len(), record.name@),
        insert_result(
            before.entries@,
            before.name_arena@,
            before.name_lower_arena@,
            junk_view(before.junk_refs@),
            before.ext_dirty,
            drive,
            record,
            after,
        ),
    ensures
        ({
            let kept = entries_without(before.entries@, drive, record.file_ref);
            let lowers = before.name_lower_arena@;
            let junk = junk_view(before.junk_refs@);
            let below = junk_above(
                kept,
                lowers,
                junk_at(junk, drive as int),
                drive,
                record.parent_ref,
                32,
            );
            let meta = meta_of(
                kept,
                lowers,
                drive,
                record.parent_ref,
                encode_utf8(lowercase(record.name@)),
                record.kind == FileKind::Directory,
            );
            &&& 0 <= i < after.entries@.len() && is_record(
                after.entries@[i],
                drive,
                record.file_ref,
            ) ==> after.entries@[i].depth == meta.0 && after.entries@[i].user_path == meta.1
            &&& below ==> junk_at(junk_view(after.junk_refs@), drive as int).contains(
                record.file_ref,
            )
            &&& !below ==> junk_view(after.junk_refs@) == junk
        }),
{
    law_insert_supersedes(before, after, drive, record);
    let r = record.file_ref;
    let kept = entries_without(before.entries@, drive, r);
    let lower = lower_utf8(record.name@);
    if 0 <= i < after.entries@.len() && is_record(after.entries@[i], drive, r) {
        law_removal_takes_one_record(before.entries@, drive, r, after.entries@[i]);
        if junk_above(
            kept,
            before.name_lower_arena@,
            junk_at(junk_view(before.junk_refs@), drive as int),
            drive,
            record.parent_ref,
            WALK_LIMIT as nat,
        ) {
            assert(kept.contains(after.entries@[i]));
        } else {
            let meta = meta_of(
                kept,
                before.name_lower_arena@,
                drive,
                record.parent_ref,
                lower,
                record.kind == FileKind::Directory,
            );
            let e = entry_for(
                record,
                drive,
                meta,
                before.name_arena@.len(),
                before.name_lower_arena@.len(),
            );
            let pos = choose|pos: int| #[trigger]
                splice_point(kept, before.name_lower_arena@, lower, pos) && after.entries@
                    == kept.insert(pos, e);
            if i < pos {
                assert(kept[i] == after.entries@[i]);
                assert(kept.contains(after.entries@[i]));
            } else if i > pos {
                assert(kept[i - 1] == after.entries@[i]);
                assert(kept.contains(after.entries@[i]));
            }
        }
    }
    let junk = junk_view(before.junk_refs@);
    let _ = junk_with(junk, drive as int, r)[drive as int];
}

/// A new entry goes behind all names that are smaller and before all others, those
/// that are equal among them; there is one such place.
pub proof fn law_where_a_new_name_goes(
    entries: Seq<IndexEntry>,
    lowers: Seq<u8>,
    lower: Seq<u8>,
    pos: int,
    k: int,
)
    requires
        splice_point(entries, lowers, lower, pos),
        0 <= k < entries.len(),
    ensures
        lower_in(lowers, entries[k]) == lower ==> pos <= k,
        !lex_le(lower, lower_in(lowers, entries[k])) ==> k < pos,
        splice_point(entries, lowers, lower, k) ==> k == pos,
{
    lemma_lex_reflexive(lower);
    if k < pos {
        assert(!lex_le(lower, lower_in(lowers, entries[k])));
    }
    if pos < k {
        assert(lex_le(lower, lower_in(lowers, entries[pos])));
    }
}

} // verus!
