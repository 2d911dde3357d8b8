//! The index on disk: what is saved, what is accepted back, and the compressed
//! frames around it.
use crate::index::store::{
    junk_view, lemma_frame, DriveRoot, IndexEntry, IndexStore,
};
use crate::mft::types::JournalCheckpoint;
use crate::text::utf8_str;
use std::collections::HashSet;
use std::io::{Read, Write};
use vstd::prelude::*;
use vstd::std_specs::hash::spec_hash_keys_iter;
use vstd::std_specs::iter::IteratorSpec;
use vstd::utf8::*;

verus! {

/// The first bytes of a saved index.
pub const CACHE_MAGIC: [u8; 4] = [0x46, 0x53, 0x4b, 0x43];

/// The version of the format. A cache of another version is not accepted.
pub const CACHE_FORMAT_VERSION: u32 = 3;

/// How many bytes a cache may decode to.
pub const MAX_CACHE_DECODED: u64 = 1610612736;

/// A saved index: entries and arenas as they are in memory. What can be built
/// from them is not saved.
pub struct CacheData {
    pub magic: [u8; 4],
    pub version: u32,
    pub entries: Vec<IndexEntry>,
    pub name_arena: Vec<u8>,
    pub name_lower_arena: Vec<u8>,
    pub drive_roots: Vec<DriveRoot>,
    pub checkpoints: Vec<JournalCheckpoint>,
    /// Per volume, the record numbers of what was left out as junk.
    pub junk_refs: Vec<Vec<u64>>,
}

impl CacheData {
    /// An entry names a volume of the cache, and its names are UTF-8 inside the
    /// arenas.
    pub open spec fn entry_ok(&self, e: IndexEntry) -> bool {
        &&& e.drive < self.drive_roots@.len()
        &&& e.in_arenas(self.name_arena@, self.name_lower_arena@)
    }

    /// The cache is of this format, knows a volume, and can be read safely.
    pub open spec fn valid(&self) -> bool {
        &&& self.magic@ == CACHE_MAGIC@
        &&& self.version == CACHE_FORMAT_VERSION
        &&& self.drive_roots@.len() > 0
        &&& forall|i: int|
            0 <= i < self.entries@.len() ==> self.entry_ok(#[trigger] self.entries@[i])
        &&& valid_utf8(self.name_arena@)
        &&& valid_utf8(self.name_lower_arena@)
    }

    /// The cache is small enough for the index: what the decoding limit lets
    /// through is.
    pub open spec fn small(&self) -> bool {
        &&& self.entries@.len() <= u32::MAX
        &&& self.name_arena@.len() <= u32::MAX
        &&& self.name_lower_arena@.len() <= u32::MAX
    }

    /// Whether every entry is in order.
    fn entries_ok(&self) -> (r: bool)
        ensures
            r == forall|i: int|
                0 <= i < self.entries@.len() ==> self.entry_ok(#[trigger] self.entries@[i]),
    {
        let mut i: usize = 0;
        while i < self.entries.len()
            invariant
                i <= self.entries@.len(),
                forall|k: int| 0 <= k < i ==> self.entry_ok(#[trigger] self.entries@[k]),
            decreases self.entries@.len() - i,
        {
            let e = self.entries[i];
            assert(self.entries@[i as int] == e);
            if e.drive as usize >= self.drive_roots.len() || !range_ok(
                self.name_arena.as_slice(),
                e.name_off,
                e.name_len,
            ) || !range_ok(
                self.name_lower_arena.as_slice(),
                e.name_lower_off,
                e.name_lower_len,
            ) {
                assert(!self.entry_ok(self.entries@[i as int]));
                return false;
            }
            i = i + 1;
        }
        true
    }
}

/// Whether a range lies inside an arena and is UTF-8.
fn range_ok(arena: &[u8], off: u32, len: u16) -> (r: bool)
    ensures
        r == (off + len <= arena@.len() && valid_utf8(arena@.subrange(off as int, off + len))),
{
    let end: u64 = off as u64 + len as u64;
    if end > arena.len() as u64 {
        return false;
    }
    utf8_str(&arena[off as usize..end as usize]).is_some()
}

/// The members of a set, in some order and each once.
fn members(set: &HashSet<u64>) -> (r: Vec<u64>)
    ensures
        r@.to_set() == set@,
        r@.no_duplicates(),
{
    broadcast use vstd::std_specs::hash::group_hash_axioms;

    let mut out: Vec<u64> = Vec::new();
    let ghost keys = spec_hash_keys_iter(set).remaining();
    for x in it: set.iter()
        invariant
            it.seq() == keys,
            out@ == keys.take(it.index() as int).unref(),
    {
        out.push(*x);
    }
    assert(keys.take(keys.len() as int) =~= keys);
    out
}

/// The set of some numbers.
fn set_of(list: &Vec<u64>) -> (r: HashSet<u64>)
    ensures
        r@ == list@.to_set(),
{
    broadcast use vstd::std_specs::hash::group_hash_axioms;

    let mut set: HashSet<u64> = HashSet::new();
    let mut i: usize = 0;
    assert(list@.take(0).to_set() =~= Set::<u64>::empty());
    while i < list.len()
        invariant
            i <= list@.len(),
            set@ == list@.take(i as int).to_set(),
        decreases list@.len() - i,
    {
        let ghost was = set@;
        set.insert(list[i]);
        proof {
            let now = list@.take(i + 1);
            assert forall|x: u64| #[trigger] set@.contains(x) == now.to_set().contains(x) by {
                if was.contains(x) {
                    assert(list@.take(i as int).contains(x));
                    let k = choose|k: int|
                        0 <= k < list@.take(i as int).len() && list@.take(i as int)[k] == x;
                    assert(now[k] == x);
                }
                if x == list@[i as int] {
                    assert(now[i as int] == x);
                }
                if now.contains(x) {
                    let k = choose|k: int| 0 <= k < now.len() && now[k] == x;
                    if k < i {
                        assert(list@.take(i as int)[k] == x);
                    }
                }
            }
            assert(set@ =~= now.to_set());
        }
        i = i + 1;
    }
    assert(list@.take(i as int) =~= list@);
    set
}

/// Lists of numbers, each as a set.
pub open spec fn junk_lists(lists: Seq<Vec<u64>>) -> Seq<Set<u64>> {
    lists.map_values(|v: Vec<u64>| v@.to_set())
}

/// What is saved of an index.
pub open spec fn saved(store: IndexStore, cache: CacheData) -> bool {
    &&& cache.magic@ == CACHE_MAGIC@
    &&& cache.version == CACHE_FORMAT_VERSION
    &&& cache.entries@ == store.entries@
    &&& cache.name_arena@ == store.name_arena@
    &&& cache.name_lower_arena@ == store.name_lower_arena@
    &&& cache.drive_roots@ == store.drive_roots@
    &&& cache.checkpoints@ == store.checkpoints@
    &&& junk_lists(cache.junk_refs@) == junk_view(store.junk_refs@)
}

/// What is loaded from a cache.
pub open spec fn loaded(cache: CacheData, store: IndexStore) -> bool {
    &&& store.arenas_ok()
    &&& store.lookup_ok()
    &&& store.entries@ == cache.entries@
    &&& store.name_arena@ == cache.name_arena@
    &&& store.name_lower_arena@ == cache.name_lower_arena@
    &&& store.drive_roots@ == cache.drive_roots@
    &&& store.checkpoints@ == cache.checkpoints@
    &&& junk_view(store.junk_refs@) == junk_lists(cache.junk_refs@)
    &&& store.ext_index@.len() == 0
    &&& store.ext_dirty
}

impl IndexStore {
    /// What to save of the index. The order of the junk numbers is left open.
    pub fn to_cache(&self) -> (r: CacheData)
        ensures
            saved(*self, r),
            forall|d: int|
                0 <= d < r.junk_refs@.len() ==> (#[trigger] r.junk_refs@[d])@.no_duplicates(),
    {
        let mut junk_refs: Vec<Vec<u64>> = Vec::new();
        let mut d: usize = 0;
        while d < self.junk_refs.len()
            invariant
                d <= self.junk_refs@.len(),
                junk_refs@.len() == d,
                forall|k: int|
                    0 <= k < d ==> (#[trigger] junk_refs@[k])@.to_set() == self.junk_refs@[k]@
                        && junk_refs@[k]@.no_duplicates(),
            decreases self.junk_refs@.len() - d,
        {
            let list = members(&self.junk_refs[d]);
            junk_refs.push(list);
            d = d + 1;
        }
        assert(junk_lists(junk_refs@) =~= junk_view(self.junk_refs@));
        let r = CacheData {
            magic: CACHE_MAGIC,
            version: CACHE_FORMAT_VERSION,
            entries: self.entries.clone(),
            name_arena: self.name_arena.clone(),
            name_lower_arena: self.name_lower_arena.clone(),
            drive_roots: self.drive_roots.clone(),
            checkpoints: self.checkpoints.clone(),
            junk_refs,
        };
        assert(r.entries@ =~= self.entries@);
        assert(r.name_arena@ =~= self.name_arena@);
        assert(r.name_lower_arena@ =~= self.name_lower_arena@);
        assert(r.drive_roots@ =~= self.drive_roots@);
        assert(r.checkpoints@ =~= self.checkpoints@);
        r
    }

    /// The index of a cache. `None` for anything that is not a valid cache: a
    /// wrong magic or version, no volume, an entry that points outside or whose
    /// names are no UTF-8.
    pub fn from_cache(cache: CacheData) -> (r: Option<Self>)
        requires
            cache.small(),
        ensures
            r is Some <==> cache.valid(),
            r is Some ==> loaded(cache, r->0),
    {
        if cache.magic[0] != CACHE_MAGIC[0] || cache.magic[1] != CACHE_MAGIC[1] || cache.magic[2]
            != CACHE_MAGIC[2] || cache.magic[3] != CACHE_MAGIC[3] || cache.version
            != CACHE_FORMAT_VERSION {
            return None;
        }
        assert(cache.magic@ =~= CACHE_MAGIC@);
        if cache.drive_roots.len() == 0 || !cache.entries_ok() {
            return None;
        }
        if utf8_str(cache.name_arena.as_slice()).is_none() || utf8_str(
            cache.name_lower_arena.as_slice(),
        ).is_none() {
            return None;
        }
        let mut junk_refs: Vec<HashSet<u64>> = Vec::new();
        let mut d: usize = 0;
        while d < cache.junk_refs.len()
            invariant
                d <= cache.junk_refs@.len(),
                junk_refs@.len() == d,
                forall|k: int|
                    0 <= k < d ==> (#[trigger] junk_refs@[k])@ == cache.junk_refs@[k]@.to_set(),
            decreases cache.junk_refs@.len() - d,
        {
            let set = set_of(&cache.junk_refs[d]);
            junk_refs.push(set);
            d = d + 1;
        }
        assert(junk_view(junk_refs@) =~= junk_lists(cache.junk_refs@));
        let mut store = IndexStore {
            entries: cache.entries,
            name_arena: cache.name_arena,
            name_lower_arena: cache.name_lower_arena,
            ref_lookup: Vec::new(),
            drive_roots: cache.drive_roots,
            checkpoints: cache.checkpoints,
            junk_refs,
            ext_index: Vec::new(),
            ext_dirty: true,
        };
        assert forall|i: int| 0 <= i < store.entries@.len() implies (
        #[trigger] store.entries@[i]).in_arenas(store.name_arena@, store.name_lower_arena@) by {
            assert(cache.entry_ok(cache.entries@[i]));
        }
        let ghost before = store;
        store.rebuild_ref_lookup();
        proof {
            lemma_frame(before, store);
        }
        Some(store)
    }
}

/// A cache gives back what was saved: an index whose entries name known volumes
/// and whose arenas are UTF-8 is accepted, and entries, names, volumes, journal
/// positions and junk come back as they were. Entries that were in order are in
/// order.
pub proof fn law_cache_round_trip(store: IndexStore, cache: CacheData, back: IndexStore)
    requires
        store.arenas_ok(),
        store.drive_roots@.len() > 0,
        forall|i: int|
            0 <= i < store.entries@.len() ==> (#[trigger] store.entries@[i]).drive
                < store.drive_roots@.len(),
        valid_utf8(store.name_arena@),
        valid_utf8(store.name_lower_arena@),
        saved(store, cache),
    ensures
        cache.small(),
        cache.valid(),
        loaded(cache, back) ==> {
            &&& store.sorted() ==> back.wf()
            &&& back.entries@ == store.entries@
            &&& back.name_arena@ == store.name_arena@
            &&& back.name_lower_arena@ == store.name_lower_arena@
            &&& back.drive_roots@ == store.drive_roots@
            &&& back.checkpoints@ == store.checkpoints@
            &&& junk_view(back.junk_refs@) == junk_view(store.junk_refs@)
            &&& store.unique_refs() ==> back.unique_refs()
        },
{
    assert forall|i: int| 0 <= i < cache.entries@.len() implies cache.entry_ok(
        #[trigger] cache.entries@[i],
    ) by {
        assert(store.entries@[i].drive < store.drive_roots@.len());
    }
    if loaded(cache, back) {
        lemma_frame(store, back);
    }
}

/// A foreign format is rejected: a cache of another magic or version is not
/// valid, whatever else it holds.
pub proof fn law_foreign_format_is_rejected(cache: CacheData)
    requires
        cache.magic@ != CACHE_MAGIC@ || cache.version != CACHE_FORMAT_VERSION,
    ensures
        !cache.valid(),
{
}

/// What `zstd`'s streaming decoder gives of `raw`, up to `cap` bytes: all that it
/// decodes before the end, the limit, or the first byte that is no valid frame.
/// How much of a damaged frame is decoded before the error follows from the sizes
/// of the reads that `Read::read_to_end` of `std` makes. `None` where no decoder
/// could be made.
pub uninterp spec fn zstd_decoded(raw: Seq<u8>, cap: u64) -> Option<Seq<u8>>;

/// What `lz4_flex`'s frame decoder gives of `raw`, up to `cap` bytes: all that it
/// decodes before the end, the limit, or the first error.
pub uninterp spec fn lz4_frame_decoded(raw: Seq<u8>, cap: u64) -> Seq<u8>;

/// What `lz4_flex`'s block decoder gives of `raw`, which begins with the size of
/// the data as four little-endian bytes. `None` where it reports an error.
pub uninterp spec fn lz4_block_decoded(raw: Seq<u8>) -> Option<Seq<u8>>;

/// The frame that `zstd`'s encoder makes of `data` at level 3. `None` where it
/// reports an error.
pub uninterp spec fn zstd_encoded(data: Seq<u8>) -> Option<Seq<u8>>;

/// The longest run of bytes `0xff` in a block that is decoded. In a length each of
/// them stands for 255 bytes, so that no length in a block of at most
/// `MAX_CACHE_DECODED` bytes has so many. Data with so long a run, kept as it is,
/// could have it too; an encoder writes such a run as a repetition.
pub const MAX_FF_RUN: usize = 8_000_000;

/// More than `MAX_FF_RUN` bytes `0xff` stand at `at`.
pub open spec fn ff_run_at(raw: Seq<u8>, at: int) -> bool {
    0 <= at && at + MAX_FF_RUN < raw.len() && forall|k: int|
        at <= k <= at + MAX_FF_RUN ==> #[trigger] raw[k] == 0xff
}

/// Somewhere more than `MAX_FF_RUN` bytes `0xff` stand behind one another.
pub open spec fn has_ff_run(raw: Seq<u8>) -> bool {
    exists|at: int| #[trigger] ff_run_at(raw, at)
}

/// Whether more than `MAX_FF_RUN` bytes `0xff` stand behind one another.
fn find_ff_run(raw: &[u8]) -> (r: bool)
    ensures
        r == has_ff_run(raw@),
{
    let mut run: usize = 0;
    let mut i: usize = 0;
    while i < raw.len()
        invariant
            run <= i <= raw@.len(),
            run <= MAX_FF_RUN,
            forall|k: int| i - run <= k < i ==> #[trigger] raw@[k] == 0xff,
            run < i ==> raw@[i - run - 1] != 0xff,
            forall|at: int| at + MAX_FF_RUN < i ==> !#[trigger] ff_run_at(raw@, at),
        decreases raw@.len() - i,
    {
        let ghost before = run;
        if raw[i] == 0xff {
            if run == MAX_FF_RUN {
                assert(ff_run_at(raw@, i - run));
                return true;
            }
            run = run + 1;
        } else {
            run = 0;
        }
        assert forall|at: int| at + MAX_FF_RUN < i + 1 implies !#[trigger] ff_run_at(raw@, at) by {
            if ff_run_at(raw@, at) && at + MAX_FF_RUN == i {
                assert(raw@[i as int] == 0xff);
                assert(raw@[i - before - 1] == 0xff);
            }
        }
        i = i + 1;
    }
    assert forall|at: int| !#[trigger] ff_run_at(raw@, at) by {}
    false
}

/// `zstd::stream::read::Decoder`, read to the end through `Read::take`. A read
/// error ends the data; what was decoded before it is kept.
#[verifier::external_body]
fn zstd_decode(raw: &[u8], cap: u64) -> (r: Option<Vec<u8>>)
    ensures
        r is Some <==> zstd_decoded(raw@, cap) is Some,
        r is Some ==> r->0@ == zstd_decoded(raw@, cap)->0 && r->0@.len() <= cap,
{
    let dec = zstd::stream::read::Decoder::new(raw).ok()?;
    let mut out: Vec<u8> = Vec::new();
    let _ = dec.take(cap).read_to_end(&mut out);
    Some(out)
}

/// `lz4_flex::frame::FrameDecoder`, read to the end through `Read::take`. A read
/// error ends the data; what was decoded before it is kept.
#[verifier::external_body]
fn lz4_frame_decode(raw: &[u8], cap: u64) -> (r: Vec<u8>)
    ensures
        r@ == lz4_frame_decoded(raw@, cap),
        r@.len() <= cap,
{
    let dec = lz4_flex::frame::FrameDecoder::new(raw);
    let mut out: Vec<u8> = Vec::new();
    let _ = dec.take(cap).read_to_end(&mut out);
    out
}

/// `lz4_flex::decompress_size_prepended`: the data of a block that begins with
/// its size. The decoder makes room for as many bytes as the size says, and
/// returns no more. It adds up the bytes of a length without a check, so that
/// blocks with a long run of `0xff` are left out.
#[verifier::external_body]
fn lz4_block_decode(raw: &[u8]) -> (r: Option<Vec<u8>>)
    requires
        raw@.len() >= 4,
        le_u32(raw@, 0) <= MAX_CACHE_DECODED,
        !has_ff_run(raw@),
    ensures
        r is Some <==> lz4_block_decoded(raw@) is Some,
        r is Some ==> r->0@ == lz4_block_decoded(raw@)->0 && r->0@.len() <= le_u32(raw@, 0),
{
    lz4_flex::decompress_size_prepended(raw).ok()
}

/// `zstd::stream::write::Encoder` at level 3: a frame that `zstd`'s decoder turns
/// back into the data, and that begins with the magic number of `zstd` frames.
/// `None` where the encoder reports an error.
#[verifier::external_body]
fn zstd_encode(data: &[u8]) -> (r: Option<Vec<u8>>)
    ensures
        r is Some <==> zstd_encoded(data@) is Some,
        r is Some ==> r->0@ == zstd_encoded(data@)->0,
        r is Some ==> forall|cap: u64|
            data@.len() <= cap ==> #[trigger] zstd_decoded(r->0@, cap) == Some(data@),
        r is Some ==> has_magic(r->0@, ZSTD_MAGIC@),
{
    let mut enc = zstd::stream::write::Encoder::new(Vec::new(), 3).ok()?;
    enc.write_all(data).ok()?;
    enc.finish().ok()
}

/// The first bytes of a `zstd` frame.
pub const ZSTD_MAGIC: [u8; 4] = [0x28, 0xb5, 0x2f, 0xfd];

/// The first bytes of an `lz4` frame.
pub const LZ4_MAGIC: [u8; 4] = [0x04, 0x22, 0x4d, 0x18];

/// The little-endian 32-bit number at `at`.
pub open spec fn le_u32(s: Seq<u8>, at: int) -> int {
    s[at] + 0x100 * s[at + 1] + 0x10000 * s[at + 2] + 0x1000000 * s[at + 3]
}

/// `raw` begins with the four bytes `magic`.
pub open spec fn has_magic(raw: Seq<u8>, magic: Seq<u8>) -> bool {
    raw.len() >= 4 && raw[0] == magic[0] && raw[1] == magic[1] && raw[2] == magic[2] && raw[3]
        == magic[3]
}

/// Whether `raw` begins with the four bytes `magic`.
fn begins(raw: &[u8], magic: &[u8; 4]) -> (r: bool)
    ensures
        r == has_magic(raw@, magic@),
{
    raw.len() >= 4 && raw[0] == magic[0] && raw[1] == magic[1] && raw[2] == magic[2] && raw[3]
        == magic[3]
}

/// The serialized cache in a file with these bytes.
pub open spec fn framed(raw: Seq<u8>) -> Option<Seq<u8>> {
    if has_magic(raw, ZSTD_MAGIC@) {
        zstd_decoded(raw, MAX_CACHE_DECODED)
    } else if has_magic(raw, LZ4_MAGIC@) {
        Some(lz4_frame_decoded(raw, MAX_CACHE_DECODED))
    } else {
        None
    }
}

/// The serialized cache in a file with these bytes: a `zstd` frame, or an `lz4`
/// frame of a former format. `None` for anything else. No more than
/// `MAX_CACHE_DECODED` bytes are decoded.
pub fn load_cache_file(raw: &[u8]) -> (r: Option<Vec<u8>>)
    ensures
        r is Some <==> framed(raw@) is Some,
        r is Some ==> r->0@ == framed(raw@)->0 && r->0@.len() <= MAX_CACHE_DECODED,
{
    if begins(raw, &ZSTD_MAGIC) {
        zstd_decode(raw, MAX_CACHE_DECODED)
    } else if begins(raw, &LZ4_MAGIC) {
        Some(lz4_frame_decode(raw, MAX_CACHE_DECODED))
    } else {
        None
    }
}

/// The serialized cache in a file with these bytes, in any format that was ever
/// written: a frame, or an `lz4` block that begins with its size.
pub open spec fn framed_or_block(raw: Seq<u8>) -> Option<Seq<u8>> {
    if has_magic(raw, ZSTD_MAGIC@) || has_magic(raw, LZ4_MAGIC@) {
        framed(raw)
    } else if raw.len() < 4 || le_u32(raw, 0) == 0 || le_u32(raw, 0) > MAX_CACHE_DECODED
        || has_ff_run(raw) {
        None
    } else {
        lz4_block_decoded(raw)
    }
}

/// The serialized cache in a file with these bytes, in any format that was ever
/// written. A block that claims to hold nothing, or more than
/// `MAX_CACHE_DECODED` bytes, is not decoded, nor is one in which more than
/// `MAX_FF_RUN` bytes `0xff` stand behind one another.
pub fn decode_cache_file(raw: &[u8]) -> (r: Option<Vec<u8>>)
    ensures
        r is Some <==> framed_or_block(raw@) is Some,
        r is Some ==> r->0@ == framed_or_block(raw@)->0 && r->0@.len() <= MAX_CACHE_DECODED,
{
    if begins(raw, &ZSTD_MAGIC) || begins(raw, &LZ4_MAGIC) {
        return load_cache_file(raw);
    }
    if raw.len() < 4 {
        return None;
    }
    let declared: u64 = raw[0] as u64 + 0x100 * raw[1] as u64 + 0x10000 * raw[2] as u64 + 0x1000000
        * raw[3] as u64;
    if declared == 0 || declared > MAX_CACHE_DECODED || find_ff_run(raw) {
        return None;
    }
    lz4_block_decode(raw)
}

/// The bytes of a cache file for a serialized cache, as a `zstd` frame. They are
/// read back as what was put in, unless it is more than may be decoded.
pub fn save_cache(data: &[u8]) -> (r: Option<Vec<u8>>)
    ensures
        r is Some <==> zstd_encoded(data@) is Some,
        r is Some ==> r->0@ == zstd_encoded(data@)->0,
        r is Some && data@.len() <= MAX_CACHE_DECODED ==> framed(r->0@) == Some(data@),
        r is Some && data@.len() <= MAX_CACHE_DECODED ==> framed_or_block(r->0@) == Some(data@),
{
    zstd_encode(data)
}

/// A cache is accepted exactly where its first bytes, its version and its volumes
/// are right, its arenas are UTF-8, and every entry names a volume of the cache
/// and has both its names, as UTF-8, inside the arenas.
pub proof fn law_only_sound_caches_are_accepted(cache: CacheData)
    ensures
        cache.valid() <==> {
            &&& cache.magic@ == seq![0x46u8, 0x53u8, 0x4bu8, 0x43u8]
            &&& cache.version == 3
            &&& cache.drive_roots@.len() > 0
            &&& valid_utf8(cache.name_arena@)
            &&& valid_utf8(cache.name_lower_arena@)
            &&& forall|i: int|
                0 <= i < cache.entries@.len() ==> {
                    let e = #[trigger] cache.entries@[i];
                    &&& e.drive < cache.drive_roots@.len()
                    &&& e.name_off + e.name_len <= cache.name_arena@.len()
                    &&& e.name_lower_off + e.name_lower_len <= cache.name_lower_arena@.len()
                    &&& valid_utf8(
                        cache.name_arena@.subrange(e.name_off as int, e.name_off + e.name_len),
                    )
                    &&& valid_utf8(
                        cache.name_lower_arena@.subrange(
                            e.name_lower_off as int,
                            e.name_lower_off + e.name_lower_len,
                        ),
                    )
                }
        },
{
    assert(CACHE_MAGIC@ =~= seq![0x46u8, 0x53u8, 0x4bu8, 0x43u8]);
    if cache.valid() {
        assert forall|i: int| 0 <= i < cache.entries@.len() implies cache.entry_ok(
            #[trigger] cache.entries@[i],
        ) by {}
    }
}

/// The first four bytes of a file decide how it is read. Without those of a frame
/// it is a block, which begins with the number of bytes that it holds: some, but
/// no more than 1.5 GiB.
pub proof fn law_first_bytes_decide(raw: Seq<u8>)
    ensures
        raw.len() >= 4 && raw.take(4) == seq![0x28u8, 0xb5u8, 0x2fu8, 0xfdu8] ==> framed(raw)
            == zstd_decoded(raw, 0x6000_0000) && framed_or_block(raw) == zstd_decoded(
            raw,
            0x6000_0000,
        ),
        raw.len() >= 4 && raw.take(4) == seq![0x04u8, 0x22u8, 0x4du8, 0x18u8] ==> framed(raw)
            == Some(lz4_frame_decoded(raw, 0x6000_0000)) && framed_or_block(raw) == Some(
            lz4_frame_decoded(raw, 0x6000_0000),
        ),
        raw.len() < 4 ==> framed(raw) is None && framed_or_block(raw) is None,
        raw.len() >= 4 && raw.take(4) != seq![0x28u8, 0xb5u8, 0x2fu8, 0xfdu8] && raw.take(4)
            != seq![0x04u8, 0x22u8, 0x4du8, 0x18u8] ==> {
            let size = raw[0] + 0x100 * raw[1] + 0x10000 * raw[2] + 0x1000000 * raw[3];
            &&& framed(raw) is None
            &&& framed_or_block(raw) == if 0 < size <= 0x6000_0000 && !has_ff_run(raw) {
                lz4_block_decoded(raw)
            } else {
                None
            }
        },
{
    if raw.len() >= 4 {
        let head = raw.take(4);
        assert(head[0] == raw[0] && head[1] == raw[1] && head[2] == raw[2] && head[3] == raw[3]);
        if has_magic(raw, ZSTD_MAGIC@) {
            assert(head =~= seq![0x28u8, 0xb5u8, 0x2fu8, 0xfdu8]);
        }
        if has_magic(raw, LZ4_MAGIC@) {
            assert(head =~= seq![0x04u8, 0x22u8, 0x4du8, 0x18u8]);
        }
    }
}

/// A file of up to eight million bytes has no run that is too long, and a file of
/// more bytes `0xff` than that is one.
pub proof fn law_short_files_have_no_long_run(raw: Seq<u8>)
    ensures
        raw.len() <= 8_000_000 ==> !has_ff_run(raw),
        raw.len() > 8_000_000 && (forall|k: int| 0 <= k < raw.len() ==> #[trigger] raw[k] == 0xff)
            ==> has_ff_run(raw),
{
    if raw.len() > 8_000_000 && (forall|k: int| 0 <= k < raw.len() ==> #[trigger] raw[k] == 0xff) {
        assert(ff_run_at(raw, 0));
    }
}

} // verus!
