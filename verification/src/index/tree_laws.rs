//! What the directories above a record say of it: whether it is junk, how deep
//! it is, and whether it is a user's own.
use crate::backend::{finished, law_ordering_keeps_the_entries};
use crate::bytes::{has_prefix, has_substring};
use crate::index::path::{
    is_climb, is_excluded, is_step, is_top, junk_chain, lemma_climb_rest, lemma_row_found,
};
use crate::index::scan::{
    all_dirs, clean, clean_rows, lemma_clean_rows, populated, pruned, scan_above, scan_dirs,
    scan_name, scan_stamp, scanned,
};
use crate::index::search::{has_user_marker, USER_PATH_MARKERS};
use crate::index::store::{
    dirs_above, drive_pos, is_junk_name, is_record, is_user_name, junk_above, junk_at, junk_view,
    lemma_drive_pos_range, lemma_row_of, lower_in, meta_of, register, roots_view, row_of,
    IndexEntry, IndexStore, JUNK_DIR_NAMES, USER_DIR_NAMES,
};
use crate::mft::reader::ScanResult;
use crate::text::{lowercase, utf16_text};
use vstd::prelude::*;
use vstd::utf8::*;

verus! {

/// The directories on a way have a junk name, or a record number that is junk;
/// or the way ends below a record that is junk.
pub open spec fn junk_on_way(store: IndexStore, junk: Set<u64>, way: Seq<int>) -> bool {
    let top = store.entries@[way.last()];
    ||| exists|k: int| 0 <= k < way.len() && is_junk_row(store, junk, #[trigger] way[k])
    ||| (top.parent_ref != top.file_ref && top.parent_ref != 0 && junk.contains(top.parent_ref))
}

/// The entry at this row has a junk name or a number that is junk.
pub open spec fn is_junk_row(store: IndexStore, junk: Set<u64>, i: int) -> bool {
    junk.contains(store.entries@[i].file_ref) || is_junk_name(store.lower_of(store.entries@[i]))
}

/// A way up the directories to its end, of at most 31 of them. Only the last one
/// may name record 0 as its parent.
pub open spec fn is_way(store: IndexStore, way: Seq<int>) -> bool {
    &&& is_climb(store, way)
    &&& is_top(store, store.entries@[way.last()])
    &&& forall|k: int|
        0 <= k < way.len() - 1 ==> store.entries@[#[trigger] way[k]].parent_ref != 0
    &&& way.len() <= 31
}

proof fn lemma_way_rest(store: IndexStore, way: Seq<int>)
    requires
        is_way(store, way),
        way.len() > 1,
    ensures
        is_way(store, way.drop_first()),
        way.drop_first()[0] == way[1],
        store.entries@[way[0]].parent_ref == store.entries@[way[1]].file_ref,
        store.entries@[way[0]].drive == store.entries@[way[1]].drive,
        store.entries@[way[0]].parent_ref != store.entries@[way[0]].file_ref,
        store.entries@[way[0]].parent_ref != 0,
{
    let rest = way.drop_first();
    lemma_climb_rest(store, way);
    assert(is_step(store, way, 1));
    assert forall|k: int| 0 <= k < rest.len() - 1 implies store.entries@[#[trigger] rest[k]].parent_ref
        != 0 by {
        assert(rest[k] == way[k + 1]);
    }
    assert(store.entries@[way[0]].parent_ref != 0);
}

proof fn lemma_no_row(store: IndexStore, e: IndexEntry)
    requires
        is_top(store, e),
        e.parent_ref != e.file_ref,
    ensures
        row_of(store.entries@, e.drive, e.parent_ref) is None,
{
    lemma_row_of(store.entries@, e.drive, e.parent_ref);
    assert forall|i: int| 0 <= i < store.entries@.len() implies !is_record(
        #[trigger] store.entries@[i],
        e.drive,
        e.parent_ref,
    ) by {}
}

/// A record is below junk exactly where junk is on the way up from its parent:
/// a directory with a junk name, or a record that was left out as junk.
pub proof fn law_junk_is_on_the_way(store: IndexStore, junk: Set<u64>, way: Seq<int>, fuel: nat)
    requires
        store.unique_refs(),
        is_way(store, way),
        way.len() < fuel,
    ensures
        ({
            let e = store.entries@[way[0]];
            junk_above(store.entries@, store.name_lower_arena@, junk, e.drive, e.file_ref, fuel)
                <==> junk_on_way(store, junk, way)
        }),
    decreases way.len(),
{
    let e = store.entries@[way[0]];
    assert(0 <= way[0] < store.entries@.len());
    lemma_row_found(store, way[0]);
    assert(lower_in(store.name_lower_arena@, e) == store.lower_of(e));
    if way.len() == 1 {
        if e.parent_ref != e.file_ref {
            lemma_no_row(store, e);
            assert(fuel - 1 > 0);
            assert(junk_above(
                store.entries@,
                store.name_lower_arena@,
                junk,
                e.drive,
                e.parent_ref,
                (fuel - 1) as nat,
            ) == junk.contains(e.parent_ref));
        }
        assert(is_junk_row(store, junk, way[0]) ==> junk_on_way(store, junk, way));
    } else {
        let rest = way.drop_first();
        lemma_way_rest(store, way);
        law_junk_is_on_the_way(store, junk, rest, (fuel - 1) as nat);
        lemma_junk_rest(store, junk, way);
    }
}

proof fn lemma_junk_rest(store: IndexStore, junk: Set<u64>, way: Seq<int>)
    requires
        way.len() > 1,
    ensures
        junk_on_way(store, junk, way) <==> is_junk_row(store, junk, way[0]) || junk_on_way(
            store,
            junk,
            way.drop_first(),
        ),
{
    let rest = way.drop_first();
    assert(rest.last() == way.last());
    if exists|k: int| 0 <= k < way.len() && is_junk_row(store, junk, #[trigger] way[k]) {
        let k = choose|k: int| 0 <= k < way.len() && is_junk_row(store, junk, #[trigger] way[k]);
        if k > 0 {
            assert(rest[k - 1] == way[k]);
        }
    }
    if exists|k: int| 0 <= k < rest.len() && is_junk_row(store, junk, #[trigger] rest[k]) {
        let k = choose|k: int| 0 <= k < rest.len() && is_junk_row(store, junk, #[trigger] rest[k]);
        assert(way[k + 1] == rest[k]);
    }
}

proof fn lemma_junk_chain(store: IndexStore, junk: Set<u64>, way: Seq<int>, fuel: nat)
    requires
        store.unique_refs(),
        is_way(store, way),
        forall|k: int| 0 <= k < way.len() ==> store.entries@[#[trigger] way[k]].dir(),
        way.len() < fuel,
    ensures
        ({
            let e = store.entries@[way[0]];
            junk_chain(store.entries@, store.name_lower_arena@, junk, e.drive, e.file_ref, fuel)
                <==> junk_on_way(store, junk, way)
        }),
    decreases way.len(),
{
    let e = store.entries@[way[0]];
    assert(0 <= way[0] < store.entries@.len());
    assert(e.dir());
    lemma_row_found(store, way[0]);
    assert(lower_in(store.name_lower_arena@, e) == store.lower_of(e));
    if way.len() == 1 {
        if e.parent_ref != e.file_ref {
            lemma_no_row(store, e);
            assert(fuel - 1 > 0);
            assert(junk_chain(
                store.entries@,
                store.name_lower_arena@,
                junk,
                e.drive,
                e.parent_ref,
                (fuel - 1) as nat,
            ) == junk.contains(e.parent_ref));
        }
        assert(is_junk_row(store, junk, way[0]) ==> junk_on_way(store, junk, way));
    } else {
        let rest = way.drop_first();
        lemma_way_rest(store, way);
        assert forall|k: int| 0 <= k < rest.len() implies store.entries@[#[trigger] rest[k]].dir()
            by {
            assert(rest[k] == way[k + 1]);
        }
        lemma_junk_chain(store, junk, rest, (fuel - 1) as nat);
        lemma_junk_rest(store, junk, way);
    }
}

/// A search may show an entry exactly where no junk is on the way up from its
/// parent, and its lowercased path begins with no excluded directory. `way` leads
/// up from the entry, and has at least its parent on it.
pub proof fn law_only_junk_and_exclusions_hide(
    store: IndexStore,
    way: Seq<int>,
    excluded: Seq<String>,
)
    requires
        store.unique_refs(),
        is_way(store, way),
        way.len() > 1,
        forall|k: int| 0 < k < way.len() ==> store.entries@[#[trigger] way[k]].dir(),
    ensures
        ({
            let e = store.entries@[way[0]];
            let path = encode_utf8(lowercase(store.path_text(e)));
            store.visible(e, excluded) <==> !junk_on_way(
                store,
                junk_at(junk_view(store.junk_refs@), e.drive as int),
                way.drop_first(),
            ) && forall|k: int|
                0 <= k < excluded.len() ==> !has_prefix(
                    path,
                    encode_utf8((#[trigger] excluded[k])@),
                )
        }),
{
    let rest = way.drop_first();
    let e = store.entries@[way[0]];
    lemma_way_rest(store, way);
    assert forall|k: int| 0 <= k < rest.len() implies store.entries@[#[trigger] rest[k]].dir() by {
        assert(rest[k] == way[k + 1]);
    }
    lemma_junk_chain(store, junk_at(junk_view(store.junk_refs@), e.drive as int), rest, 32);
    let path = store.path_lower(e);
    if is_excluded(path, excluded) {
        let k = choose|k: int|
            0 <= k < excluded.len() && has_prefix(path, encode_utf8((#[trigger] excluded[k])@));
        assert(has_prefix(path, encode_utf8(excluded[k]@)));
    }
}

/// The way up ends at what is no directory: an entry below such a record is
/// hidden only where that record was left out as junk, or by an exclusion.
pub proof fn law_way_up_ends_at_a_file(
    store: IndexStore,
    e: IndexEntry,
    above: int,
    excluded: Seq<String>,
)
    requires
        store.unique_refs(),
        0 <= above < store.entries@.len(),
        is_record(store.entries@[above], e.drive, e.parent_ref),
        !store.entries@[above].dir(),
    ensures
        ({
            let path = encode_utf8(lowercase(store.path_text(e)));
            store.visible(e, excluded) <==> !junk_at(
                junk_view(store.junk_refs@),
                e.drive as int,
            ).contains(e.parent_ref) && forall|k: int|
                0 <= k < excluded.len() ==> !has_prefix(
                    path,
                    encode_utf8((#[trigger] excluded[k])@),
                )
        }),
{
    lemma_row_found(store, above);
    let path = store.path_lower(e);
    if is_excluded(path, excluded) {
        let k = choose|k: int|
            0 <= k < excluded.len() && has_prefix(path, encode_utf8((#[trigger] excluded[k])@));
        assert(has_prefix(path, encode_utf8(excluded[k]@)));
    }
}

/// A user's own directory is on the way.
pub open spec fn own_on_way(store: IndexStore, way: Seq<int>) -> bool {
    exists|k: int|
        0 <= k < way.len() && is_user_name(store.lower_of(store.entries@[#[trigger] way[k]]))
}

/// How many steps a way takes: one for each directory, but none for the root of
/// the volume, which is its own parent or names record 0.
pub open spec fn steps_of(store: IndexStore, way: Seq<int>) -> nat {
    let top = store.entries@[way.last()];
    if top.parent_ref == top.file_ref || top.parent_ref == 0 {
        (way.len() - 1) as nat
    } else {
        way.len()
    }
}

proof fn lemma_dirs_above(store: IndexStore, way: Seq<int>, fuel: nat)
    requires
        store.unique_refs(),
        is_way(store, way),
        way.len() < fuel,
    ensures
        ({
            let e = store.entries@[way[0]];
            dirs_above(store.entries@, store.name_lower_arena@, e.drive, e.file_ref, fuel) == (
                steps_of(store, way),
                own_on_way(store, way),
            )
        }),
    decreases way.len(),
{
    let e = store.entries@[way[0]];
    assert(0 <= way[0] < store.entries@.len());
    lemma_row_found(store, way[0]);
    assert(lower_in(store.name_lower_arena@, e) == store.lower_of(e));
    if way.len() == 1 {
        if e.parent_ref != e.file_ref {
            lemma_no_row(store, e);
            assert(dirs_above(
                store.entries@,
                store.name_lower_arena@,
                e.drive,
                e.parent_ref,
                (fuel - 1) as nat,
            ) == (0nat, false));
        }
        assert(is_user_name(store.lower_of(e)) ==> own_on_way(store, way)) by {
            assert(store.entries@[way[0]] == e);
        }
    } else {
        let rest = way.drop_first();
        lemma_way_rest(store, way);
        lemma_dirs_above(store, rest, (fuel - 1) as nat);
        assert(rest.last() == way.last());
        if own_on_way(store, rest) {
            let k = choose|k: int|
                0 <= k < rest.len() && is_user_name(
                    store.lower_of(store.entries@[#[trigger] rest[k]]),
                );
            assert(way[k + 1] == rest[k]);
        }
        if own_on_way(store, way) {
            let k = choose|k: int|
                0 <= k < way.len() && is_user_name(
                    store.lower_of(store.entries@[#[trigger] way[k]]),
                );
            if k > 0 {
                assert(rest[k - 1] == way[k]);
            }
        }
        assert(is_user_name(store.lower_of(store.entries@[way[0]])) ==> own_on_way(store, way));
    }
}

/// The depth of a record is one more than the steps from its parent to the root
/// of the volume, and 15 at most. It is a user's own where such a directory is on
/// the way, or where it is such a directory.
pub proof fn law_depth_counts_the_way(
    store: IndexStore,
    way: Seq<int>,
    lower: Seq<u8>,
    is_dir: bool,
)
    requires
        store.unique_refs(),
        is_way(store, way),
    ensures
        ({
            let e = store.entries@[way[0]];
            let meta = meta_of(
                store.entries@,
                store.name_lower_arena@,
                e.drive,
                e.file_ref,
                lower,
                is_dir,
            );
            &&& steps_of(store, way) < 15 ==> meta.0 == steps_of(store, way) + 1
            &&& steps_of(store, way) >= 14 ==> meta.0 == 15
            &&& meta.1 == 1 <==> own_on_way(store, way) || (is_dir && is_user_name(lower))
            &&& meta.1 <= 1
        }),
{
    lemma_dirs_above(store, way, 32);
}

/// The names of junk directories.
pub proof fn law_junk_names(name: Seq<u8>)
    ensures
        is_junk_name(name) <==> {
            ||| name == encode_utf8("windows"@)
            ||| name == encode_utf8("program files"@)
            ||| name == encode_utf8("program files (x86)"@)
            ||| name == encode_utf8("$recycle.bin"@)
            ||| name == encode_utf8("prefetch"@)
            ||| name == encode_utf8("appdata"@)
            ||| name == encode_utf8("temp"@)
            ||| name == encode_utf8("perflogs"@)
            ||| name == encode_utf8("debug"@)
            ||| name == encode_utf8("bin"@)
            ||| name == encode_utf8("obj"@)
            ||| name == encode_utf8("node_modules"@)
            ||| name == encode_utf8(".git"@)
            ||| name == encode_utf8("__pycache__"@)
            ||| name == encode_utf8("microsoft"@)
        },
{
    assert(JUNK_DIR_NAMES@[0]@ == "windows"@);
    assert(JUNK_DIR_NAMES@[1]@ == "program files"@);
    assert(JUNK_DIR_NAMES@[2]@ == "program files (x86)"@);
    assert(JUNK_DIR_NAMES@[3]@ == "$recycle.bin"@);
    assert(JUNK_DIR_NAMES@[4]@ == "prefetch"@);
    assert(JUNK_DIR_NAMES@[5]@ == "appdata"@);
    assert(JUNK_DIR_NAMES@[6]@ == "temp"@);
    assert(JUNK_DIR_NAMES@[7]@ == "perflogs"@);
    assert(JUNK_DIR_NAMES@[8]@ == "debug"@);
    assert(JUNK_DIR_NAMES@[9]@ == "bin"@);
    assert(JUNK_DIR_NAMES@[10]@ == "obj"@);
    assert(JUNK_DIR_NAMES@[11]@ == "node_modules"@);
    assert(JUNK_DIR_NAMES@[12]@ == ".git"@);
    assert(JUNK_DIR_NAMES@[13]@ == "__pycache__"@);
    assert(JUNK_DIR_NAMES@[14]@ == "microsoft"@);
    if is_junk_name(name) {
        let i = choose|i: int|
            0 <= i < JUNK_DIR_NAMES@.len() && encode_utf8((#[trigger] JUNK_DIR_NAMES@[i])@) == name;
        assert(0 <= i < 15);
    }
}

/// The names of directories that mark a user's own files.
pub proof fn law_user_names(name: Seq<u8>)
    ensures
        is_user_name(name) <==> {
            ||| name == encode_utf8("users"@)
            ||| name == encode_utf8("documents"@)
            ||| name == encode_utf8("downloads"@)
            ||| name == encode_utf8("desktop"@)
            ||| name == encode_utf8("pictures"@)
            ||| name == encode_utf8("videos"@)
            ||| name == encode_utf8("music"@)
        },
{
    assert(USER_DIR_NAMES@[0]@ == "users"@);
    assert(USER_DIR_NAMES@[1]@ == "documents"@);
    assert(USER_DIR_NAMES@[2]@ == "downloads"@);
    assert(USER_DIR_NAMES@[3]@ == "desktop"@);
    assert(USER_DIR_NAMES@[4]@ == "pictures"@);
    assert(USER_DIR_NAMES@[5]@ == "videos"@);
    assert(USER_DIR_NAMES@[6]@ == "music"@);
    if is_user_name(name) {
        let i = choose|i: int|
            0 <= i < USER_DIR_NAMES@.len() && encode_utf8((#[trigger] USER_DIR_NAMES@[i])@) == name;
        assert(0 <= i < 7);
    }
}

/// A lowercased path is a user's own where one of these directories is on it.
pub proof fn law_user_markers(path: Seq<u8>)
    ensures
        has_user_marker(path) <==> {
            ||| has_substring(path, encode_utf8("\\users\\"@))
            ||| has_substring(path, encode_utf8("\\documents\\"@))
            ||| has_substring(path, encode_utf8("\\downloads\\"@))
            ||| has_substring(path, encode_utf8("\\desktop\\"@))
            ||| has_substring(path, encode_utf8("\\pictures\\"@))
            ||| has_substring(path, encode_utf8("\\videos\\"@))
            ||| has_substring(path, encode_utf8("\\music\\"@))
        },
{
    assert(USER_PATH_MARKERS@[0]@ == "\\users\\"@);
    assert(USER_PATH_MARKERS@[1]@ == "\\documents\\"@);
    assert(USER_PATH_MARKERS@[2]@ == "\\downloads\\"@);
    assert(USER_PATH_MARKERS@[3]@ == "\\desktop\\"@);
    assert(USER_PATH_MARKERS@[4]@ == "\\pictures\\"@);
    assert(USER_PATH_MARKERS@[5]@ == "\\videos\\"@);
    assert(USER_PATH_MARKERS@[6]@ == "\\music\\"@);
    if has_user_marker(path) {
        let k = choose|k: int|
            0 <= k < USER_PATH_MARKERS@.len() && has_substring(
                path,
                encode_utf8((#[trigger] USER_PATH_MARKERS@[k])@),
            );
        assert(0 <= k < 7);
    }
}

/// The records of a scan have different numbers.
pub open spec fn numbers_differ(scan: ScanResult) -> bool {
    forall|i: int, j: int|
        0 <= i < j < scan.records@.len() ==> (#[trigger] scan.records@[i]).file_ref != (
        #[trigger] scan.records@[j]).file_ref
}

/// The name of a record of a scan: its part of the name data, as text.
pub open spec fn name_in_scan(scan: ScanResult, i: int) -> Seq<char> {
    let r = scan.records@[i];
    utf16_text(scan.name_data@.subrange(r.name_off as int, r.name_off + r.name_len))
}

/// Directories of a scan that lead up from the first one to the end, at most 31
/// of them: each is the parent of the one before it.
pub open spec fn is_scan_way(scan: ScanResult, way: Seq<int>) -> bool {
    &&& 0 < way.len() <= 31
    &&& forall|k: int|
        0 <= k < way.len() ==> 0 <= #[trigger] way[k] < scan.records@.len()
            && scan.records@[way[k]].is_dir
    &&& forall|k: int| 0 < k < way.len() ==> #[trigger] is_scan_step(scan, way, k)
    &&& is_scan_top(scan, way.last())
}

/// The `k`-th directory is the parent of the one before it, another record, and
/// not record 0.
pub open spec fn is_scan_step(scan: ScanResult, way: Seq<int>, k: int) -> bool {
    let below = scan.records@[way[k - 1]];
    let above = scan.records@[way[k]];
    below.parent_ref == above.file_ref && below.file_ref != above.file_ref && below.parent_ref != 0
}

/// A way up ends here: the directory is its own parent or names record 0, or its
/// parent is no directory of the scan.
pub open spec fn is_scan_top(scan: ScanResult, i: int) -> bool {
    let r = scan.records@[i];
    r.parent_ref == r.file_ref || r.parent_ref == 0 || is_no_dir(scan, r.parent_ref)
}

/// No directory of the scan has this number.
pub open spec fn is_no_dir(scan: ScanResult, r: u64) -> bool {
    forall|j: int|
        0 <= j < scan.records@.len() && (#[trigger] scan.records@[j]).is_dir
            ==> scan.records@[j].file_ref != r
}

/// A junk directory is on the way.
pub open spec fn junk_on_scan_way(scan: ScanResult, way: Seq<int>) -> bool {
    exists|k: int|
        0 <= k < way.len() && is_junk_name(
            encode_utf8(lowercase(name_in_scan(scan, #[trigger] way[k]))),
        )
}

/// A user's own directory is on the way.
pub open spec fn own_on_scan_way(scan: ScanResult, way: Seq<int>) -> bool {
    exists|k: int|
        0 <= k < way.len() && is_user_name(
            encode_utf8(lowercase(name_in_scan(scan, #[trigger] way[k]))),
        )
}

/// How many steps a way takes; the root of the volume is none.
pub open spec fn scan_steps(scan: ScanResult, way: Seq<int>) -> nat {
    let top = scan.records@[way.last()];
    if top.parent_ref == top.file_ref || top.parent_ref == 0 {
        (way.len() - 1) as nat
    } else {
        way.len()
    }
}

proof fn lemma_scan_dirs(scan: ScanResult, n: nat, r: u64)
    requires
        n <= scan.records@.len(),
        numbers_differ(scan),
    ensures
        scan_dirs(scan, n).contains_key(r) <==> exists|j: int|
            0 <= j < n && (#[trigger] scan.records@[j]).is_dir && scan.records@[j].file_ref == r,
        forall|j: int|
            0 <= j < n && (#[trigger] scan.records@[j]).is_dir && scan.records@[j].file_ref == r
                ==> scan_dirs(scan, n)[r] == (
                lowercase(name_in_scan(scan, j)),
                scan.records@[j].parent_ref,
            ),
    decreases n,
{
    if n > 0 {
        let m = (n - 1) as nat;
        lemma_scan_dirs(scan, m, r);
        let last = scan.records@[m as int];
        assert(scan_name(scan, m as int) == name_in_scan(scan, m as int));
        if last.is_dir && last.file_ref == r {
            assert forall|j: int|
                0 <= j < n && (#[trigger] scan.records@[j]).is_dir && scan.records@[j].file_ref
                    == r implies j == m by {
                if j < m {
                    assert(scan.records@[j].file_ref != scan.records@[m as int].file_ref);
                }
            }
        } else if scan_dirs(scan, n).contains_key(r) {
            assert(scan_dirs(scan, m).contains_key(r));
            let j = choose|j: int|
                0 <= j < m && (#[trigger] scan.records@[j]).is_dir && scan.records@[j].file_ref
                    == r;
            assert(scan.records@[j].is_dir);
        }
    }
}

#[verifier::rlimit(50)]
#[verifier::spinoff_prover]
proof fn lemma_scan_above(scan: ScanResult, way: Seq<int>, fuel: nat)
    requires
        numbers_differ(scan),
        is_scan_way(scan, way),
        way.len() < fuel,
    ensures
        scan_above(all_dirs(scan), scan.records@[way[0]].file_ref, fuel) == if junk_on_scan_way(
            scan,
            way,
        ) {
            None
        } else {
            Some((scan_steps(scan, way), own_on_scan_way(scan, way)))
        },
    decreases way.len(),
{
    let dirs = all_dirs(scan);
    let n = scan.records@.len();
    let e = scan.records@[way[0]];
    assert(0 <= way[0] < n && scan.records@[way[0]].is_dir);
    lemma_scan_dirs(scan, n, e.file_ref);
    assert(dirs.contains_key(e.file_ref));
    assert(dirs[e.file_ref] == (lowercase(name_in_scan(scan, way[0])), e.parent_ref));
    let name = encode_utf8(lowercase(name_in_scan(scan, way[0])));
    assert(is_junk_name(name) ==> junk_on_scan_way(scan, way));
    assert(is_user_name(name) ==> own_on_scan_way(scan, way));
    if way.len() == 1 {
        if e.parent_ref != e.file_ref && e.parent_ref != 0 {
            lemma_scan_dirs(scan, n, e.parent_ref);
            assert(is_no_dir(scan, e.parent_ref));
            assert(scan_above(dirs, e.parent_ref, (fuel - 1) as nat) == Some((0nat, false)));
        }
    } else {
        let rest = way.drop_first();
        assert(is_scan_way(scan, rest)) by {
            assert forall|k: int| 0 <= k < rest.len() implies 0 <= #[trigger] rest[k] < n
                && scan.records@[rest[k]].is_dir by {
                assert(rest[k] == way[k + 1]);
            }
            assert forall|k: int| 0 < k < rest.len() implies #[trigger] is_scan_step(
                scan,
                rest,
                k,
            ) by {
                assert(is_scan_step(scan, way, k + 1));
            }
            assert(rest.last() == way.last());
        }
        assert(is_scan_step(scan, way, 1));
        assert(rest[0] == way[1]);
        assert(rest.last() == way.last());
        lemma_scan_above(scan, rest, (fuel - 1) as nat);
        if junk_on_scan_way(scan, rest) {
            let k = choose|k: int|
                0 <= k < rest.len() && is_junk_name(
                    encode_utf8(lowercase(name_in_scan(scan, #[trigger] rest[k]))),
                );
            assert(way[k + 1] == rest[k]);
        }
        if own_on_scan_way(scan, rest) {
            let k = choose|k: int|
                0 <= k < rest.len() && is_user_name(
                    encode_utf8(lowercase(name_in_scan(scan, #[trigger] rest[k]))),
                );
            assert(way[k + 1] == rest[k]);
        }
        if junk_on_scan_way(scan, way) {
            let k = choose|k: int|
                0 <= k < way.len() && is_junk_name(
                    encode_utf8(lowercase(name_in_scan(scan, #[trigger] way[k]))),
                );
            if k > 0 {
                assert(rest[k - 1] == way[k]);
            }
        }
        if own_on_scan_way(scan, way) {
            let k = choose|k: int|
                0 <= k < way.len() && is_user_name(
                    encode_utf8(lowercase(name_in_scan(scan, #[trigger] way[k]))),
                );
            if k > 0 {
                assert(rest[k - 1] == way[k]);
            }
        }
    }
}

/// An entry tells what a record of a scan says: its numbers, its kind and its
/// names.
pub open spec fn tells_record(
    store: IndexStore,
    p: int,
    scan: ScanResult,
    i: int,
    drive: int,
) -> bool {
    let e = store.entries@[p];
    let r = scan.records@[i];
    &&& e.file_ref == r.file_ref
    &&& e.parent_ref == r.parent_ref
    &&& e.drive == drive
    &&& e.dir() == r.is_dir
    &&& store.name_of(e) == encode_utf8(name_in_scan(scan, i))
    &&& store.lower_of(e) == encode_utf8(lowercase(name_in_scan(scan, i)))
}

/// A scan brings every record that no junk directory stands above, under the
/// volume with that letter. The entry has the record's numbers, kind and name,
/// its depth counts the steps from its parent to the root, up to 15, and it is a
/// user's own where such a directory is on the way, or where it is one.
pub proof fn law_scan_brings_what_is_not_below_junk(
    before: IndexStore,
    scan: ScanResult,
    letter: char,
    root: Seq<char>,
    after: IndexStore,
    i: int,
    way: Seq<int>,
) -> (p: int)
    requires
        populated(before, scan, letter, root, after),
        register(roots_view(before.drive_roots@), letter).len() <= 256,
        numbers_differ(scan),
        0 <= i < scan.records@.len(),
        is_scan_way(scan, way),
        scan.records@[way[0]].file_ref == scan.records@[i].parent_ref,
        !junk_on_scan_way(scan, way),
    ensures
        before.entries@.len() <= p < after.entries@.len(),
        after.drive_roots@[after.entries@[p].drive as int].letter == letter,
        after.drive_roots@[after.entries@[p].drive as int].root@ == root,
        tells_record(after, p, scan, i, after.entries@[p].drive as int),
        scan_steps(scan, way) < 15 ==> after.entries@[p].depth == scan_steps(scan, way) + 1,
        scan_steps(scan, way) >= 14 ==> after.entries@[p].depth == 15,
        after.entries@[p].user_path <= 1,
        after.entries@[p].user_path == 1 <==> own_on_scan_way(scan, way) || (scan.records@[i].is_dir
            && is_user_name(encode_utf8(lowercase(name_in_scan(scan, i))))),
{
    lemma_scan_above(scan, way, 32);
    lemma_scan_entry(before, scan, letter, root, after, i)
}

/// The entry of a record that enters the index.
proof fn lemma_scan_entry(
    before: IndexStore,
    scan: ScanResult,
    letter: char,
    root: Seq<char>,
    after: IndexStore,
    i: int,
) -> (p: int)
    requires
        populated(before, scan, letter, root, after),
        register(roots_view(before.drive_roots@), letter).len() <= 256,
        0 <= i < scan.records@.len(),
        clean(scan, i),
    ensures
        before.entries@.len() <= p < after.entries@.len(),
        after.drive_roots@[after.entries@[p].drive as int].letter == letter,
        after.drive_roots@[after.entries@[p].drive as int].root@ == root,
        tells_record(after, p, scan, i, after.entries@[p].drive as int),
        (after.entries@[p].depth, after.entries@[p].user_path) == scan_stamp(scan, i),
{
    let n = scan.records@.len();
    let d = drive_pos(roots_view(before.drive_roots@), letter);
    let rows = clean_rows(scan, n);
    lemma_drive_pos_range(roots_view(before.drive_roots@), letter);
    let k = lemma_clean_row(scan, n, i);
    let p = before.entries@.len() + k;
    assert(scanned(
        after.entries@[p],
        scan,
        rows[k],
        d as u8,
        after.name_arena@,
        after.name_lower_arena@,
    ));
    assert(tells_record(after, p, scan, i, d)) by {
        assert(1u8 & 1u8 == 1u8 && 0u8 & 1u8 == 0u8) by (bit_vector);
    }
    lemma_scan_root(before, scan, letter, root, after);
    p
}

/// A scan gives its volume its root.
proof fn lemma_scan_root(
    before: IndexStore,
    scan: ScanResult,
    letter: char,
    root: Seq<char>,
    after: IndexStore,
)
    requires
        populated(before, scan, letter, root, after),
    ensures
        ({
            let d = drive_pos(roots_view(before.drive_roots@), letter);
            &&& 0 <= d < after.drive_roots@.len()
            &&& after.drive_roots@[d].letter == letter
            &&& after.drive_roots@[d].root@ == root
        }),
{
    let d = drive_pos(roots_view(before.drive_roots@), letter);
    lemma_drive_pos_range(roots_view(before.drive_roots@), letter);
    let roots = roots_view(after.drive_roots@);
    assert(roots.len() == after.drive_roots@.len());
    assert(roots[d] == (letter, root));
}

proof fn lemma_clean_row(scan: ScanResult, n: nat, i: int) -> (k: int)
    requires
        0 <= i < n,
        clean(scan, i),
    ensures
        0 <= k < clean_rows(scan, n).len(),
        clean_rows(scan, n)[k] == i,
    decreases n,
{
    let before = clean_rows(scan, (n - 1) as nat);
    if i == n - 1 {
        before.len() as int
    } else {
        let k = lemma_clean_row(scan, (n - 1) as nat, i);
        assert(clean_rows(scan, n)[k] == before[k]);
        k
    }
}

/// A scan brings nothing else: each new entry is that of a record of the scan,
/// which no junk directory stands above. What is below junk is remembered, under
/// the same volume; what was in the index stays, in front.
pub proof fn law_scan_brings_nothing_else(
    before: IndexStore,
    scan: ScanResult,
    letter: char,
    root: Seq<char>,
    after: IndexStore,
    p: int,
) -> (i: int)
    requires
        populated(before, scan, letter, root, after),
        register(roots_view(before.drive_roots@), letter).len() <= 256,
        numbers_differ(scan),
        0 <= p < after.entries@.len(),
    ensures
        p < before.entries@.len() ==> after.entries@[p] == before.entries@[p] && after.name_of(
            after.entries@[p],
        ) == after.name_of(before.entries@[p]),
        p >= before.entries@.len() ==> 0 <= i < scan.records@.len() && tells_record(
            after,
            p,
            scan,
            i,
            drive_pos(roots_view(before.drive_roots@), letter),
        ),
        p >= before.entries@.len() ==> forall|way: Seq<int>|
            #[trigger] is_scan_way(scan, way) && scan.records@[way[0]].file_ref
                == scan.records@[i].parent_ref ==> !junk_on_scan_way(scan, way),
{
    let n = scan.records@.len();
    let m = before.entries@.len() as int;
    let d = drive_pos(roots_view(before.drive_roots@), letter);
    let rows = clean_rows(scan, n);
    lemma_drive_pos_range(roots_view(before.drive_roots@), letter);
    lemma_clean_rows(scan, n);
    if p < m {
        assert(after.entries@.take(m)[p] == before.entries@[p]);
        0
    } else {
        let i = rows[p - m];
        assert(scanned(
            after.entries@[m + (p - m)],
            scan,
            rows[p - m],
            d as u8,
            after.name_arena@,
            after.name_lower_arena@,
        ));
        assert(scan_name(scan, i) == name_in_scan(scan, i));
        assert(1u8 & 1u8 == 1u8 && 0u8 & 1u8 == 0u8) by (bit_vector);
        assert(clean(scan, i));
        assert forall|way: Seq<int>|
            #[trigger] is_scan_way(scan, way) && scan.records@[way[0]].file_ref
                == scan.records@[i].parent_ref implies !junk_on_scan_way(scan, way) by {
            lemma_scan_above(scan, way, 32);
        }
        i
    }
}

/// What a junk directory stands above does not enter the index, and is
/// remembered as junk of its volume.
pub proof fn law_scan_remembers_junk(
    before: IndexStore,
    scan: ScanResult,
    letter: char,
    root: Seq<char>,
    after: IndexStore,
    i: int,
    way: Seq<int>,
)
    requires
        populated(before, scan, letter, root, after),
        register(roots_view(before.drive_roots@), letter).len() <= 256,
        numbers_differ(scan),
        0 <= i < scan.records@.len(),
        is_scan_way(scan, way),
        scan.records@[way[0]].file_ref == scan.records@[i].parent_ref,
        junk_on_scan_way(scan, way),
    ensures
        junk_at(
            junk_view(after.junk_refs@),
            drive_pos(roots_view(before.drive_roots@), letter),
        ).contains(scan.records@[i].file_ref),
{
    let d = drive_pos(roots_view(before.drive_roots@), letter);
    lemma_drive_pos_range(roots_view(before.drive_roots@), letter);
    lemma_scan_above(scan, way, 32);
    assert(!clean(scan, i));
    assert(pruned(scan, scan.records@.len()).contains(scan.records@[i].file_ref));
    let _ = junk_view(after.junk_refs@)[d];
}

/// An index that was built from a scan holds every record of it that no junk
/// directory stands above, with its numbers, its kind and its name.
pub proof fn law_built_index_holds_the_scan(
    before: IndexStore,
    scan: ScanResult,
    letter: char,
    root: Seq<char>,
    mid: IndexStore,
    after: IndexStore,
    i: int,
    way: Seq<int>,
) -> (p: int)
    requires
        populated(before, scan, letter, root, mid),
        finished(mid, after),
        register(roots_view(before.drive_roots@), letter).len() <= 256,
        numbers_differ(scan),
        0 <= i < scan.records@.len(),
        is_scan_way(scan, way),
        scan.records@[way[0]].file_ref == scan.records@[i].parent_ref,
        !junk_on_scan_way(scan, way),
    ensures
        0 <= p < after.entries@.len(),
        tells_record(after, p, scan, i, after.entries@[p].drive as int),
        after.drive_roots@[after.entries@[p].drive as int].letter == letter,
{
    let q = law_scan_brings_what_is_not_below_junk(before, scan, letter, root, mid, i, way);
    let e = mid.entries@[q];
    law_ordering_keeps_the_entries(mid, after, e);
    assert(mid.entries@.contains(e));
    let p = choose|p: int| 0 <= p < after.entries@.len() && after.entries@[p] == e;
    assert(after.name_of(e) == mid.name_of(e));
    assert(after.lower_of(e) == mid.lower_of(e));
    p
}

} // verus!
