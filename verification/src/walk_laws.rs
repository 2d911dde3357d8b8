//! What a walk below a folder finds, and how rows are shown.
use crate::apps::pool::UiResult;
use crate::bytes::lex_le;
use crate::index::search::SearchResult;
use crate::rows::{
    kind_of, kind_rank_keys, kind_keys, listed, ordered_by, shown_path, tail_start, APP_EXTS,
    ARCHIVE_EXTS, AUDIO_EXTS, DOCUMENT_EXTS, IMAGE_EXTS, PACKAGE_EXTS, VIDEO_EXTS,
};
use crate::sort::{is_order, key_le, lemma_place, lemma_small};
use crate::text::{char_width, has_text, lowercase, text_at, text_starts, text_width};
use crate::walk::{
    fit, found_key, found_keys, is_exact_row, is_found_row, left_in, shows_found, FoundView,
    ItemKind, ItemView, WalkView,
};
use crate::winpath::file_name;
use vstd::prelude::*;
use vstd::utf8::*;

verus! {

/// The name of an item fits the filter: it holds it, but for case.
pub open spec fn fits(item: ItemView, filter: Seq<char>) -> bool {
    has_text(lowercase(item.0), filter)
}

/// The row that an item gives: 1 where its name is the filter, 2 where it begins
/// with it, 3 otherwise.
pub open spec fn is_row_of(row: FoundView, item: ItemView, filter: Seq<char>) -> bool {
    let name = lowercase(item.0);
    &&& fits(item, filter)
    &&& row.0 == 1 <==> name == filter
    &&& row.0 <= 2 <==> text_starts(name, filter)
    &&& 1 <= row.0 <= 3
    &&& row.1 == (item.2 == ItemKind::Dir)
    &&& row.2 == item.0
    &&& row.3 == item.1
}

proof fn lemma_fit(item: ItemView, filter: Seq<char>)
    ensures
        fit(lowercase(item.0), filter) is Some <==> fits(item, filter),
        fit(lowercase(item.0), filter) is Some ==> is_row_of(
            (fit(lowercase(item.0), filter)->0, item.2 == ItemKind::Dir, item.0, item.1),
            item,
            filter,
        ),
{
    let name = lowercase(item.0);
    if name == filter {
        assert(name.subrange(0, filter.len() as int) =~= filter);
        assert(text_at(name, filter, 0));
    }
    if text_starts(name, filter) {
        assert(text_at(name, filter, 0));
    }
}

/// Looking at an item finds it where it is a file or a folder whose name fits the
/// filter. Whatever it is, it counts, unless it cannot be read; and the walk goes
/// on behind it.
pub proof fn law_looking_finds_what_fits(w: WalkView)
    requires
        w.levels.len() > 0,
        0 <= w.levels.last().1 < w.levels.last().0.len(),
    ensures
        ({
            let item = w.levels.last().0[w.levels.last().1];
            let next = w.looked();
            let found = (item.2 == ItemKind::File || item.2 == ItemKind::Dir) && fits(
                item,
                w.filter,
            );
            &&& found ==> next.out.len() == w.out.len() + 1 && is_row_of(
                next.out.last(),
                item,
                w.filter,
            )
            &&& found ==> next.out.drop_last() == w.out
            &&& !found ==> next.out == w.out
            &&& next.visited == w.visited + if item.2 == ItemKind::Unreadable {
                0int
            } else {
                1
            }
            &&& next.filter == w.filter
            &&& next.levels.len() == w.levels.len()
            &&& next.levels.last() == (w.levels.last().0, w.levels.last().1 + 1)
            &&& next.levels.drop_last() == w.levels.drop_last()
        }),
{
    let item = w.levels.last().0[w.levels.last().1];
    lemma_fit(item, w.filter);
    let next = w.looked();
    assert(next.levels.drop_last() =~= w.levels.drop_last());
    if next.out != w.out {
        assert(next.out.drop_last() =~= w.out);
    }
}

/// A walk goes into each folder that it comes to, to three folders below its
/// start, as long as it has looked at fewer than 25000 items and found fewer than
/// 200.
pub proof fn law_walk_goes_into_folders(w: WalkView)
    requires
        0 < w.levels.len() <= 3,
        0 <= w.levels.last().1 < w.levels.last().0.len(),
        w.levels.last().1 < 5_000,
        w.levels.last().0[w.levels.last().1].2 == ItemKind::Dir,
        w.visited + 1 < 25_000,
        w.out.len() + 1 < 200,
    ensures
        w.stop() == (w.looked(), Some(w.levels.last().0[w.levels.last().1].1)),
{
}

/// A walk never goes deeper, and looks at nothing more in a folder of which it
/// has seen 5000 items, or once it has looked at 25000 items or found 200.
pub proof fn law_walk_ends_at_its_bounds(w: WalkView)
    requires
        w.levels.len() > 0,
        w.visited >= 25_000 || w.out.len() >= 200 || w.levels.last().1 >= 5_000
            || w.levels.last().1 >= w.levels.last().0.len(),
    ensures
        w.stop() == (WalkView { levels: w.levels.drop_last(), ..w }).stop(),
{
}

/// Every file of the innermost folder that fits is found, where the folder holds
/// no folders and the bounds are not met.
pub proof fn law_every_file_that_fits_is_found(w: WalkView, i: int)
    requires
        w.levels.len() == 1,
        0 <= w.levels[0].1 <= i < w.levels[0].0.len() <= 5_000,
        forall|k: int|
            0 <= k < w.levels[0].0.len() ==> (#[trigger] w.levels[0].0[k]).2 != ItemKind::Dir,
        w.visited + w.levels[0].0.len() - w.levels[0].1 < 25_000,
        w.out.len() + w.levels[0].0.len() - w.levels[0].1 < 200,
        w.levels[0].0[i].2 == ItemKind::File,
        fits(w.levels[0].0[i], w.filter),
    ensures
        w.stop().1 is None,
        exists|k: int|
            0 <= k < w.stop().0.out.len() && is_row_of(
                #[trigger] w.stop().0.out[k],
                w.levels[0].0[i],
                w.filter,
            ),
    decreases w.levels[0].0.len() - w.levels[0].1,
{
    let at = w.levels[0].1;
    let next = w.looked();
    let item = w.levels[0].0[i];
    law_looking_finds_what_fits(w);
    assert(w.levels[0].0[at].2 != ItemKind::Dir);
    assert(w.stop() == next.stop());
    if at == i {
        let k = w.out.len() as int;
        assert(is_row_of(next.out[k], item, w.filter));
        lemma_found_stays(next, k);
        assert(next.stop().0.out[k] == next.out[k]);
        lemma_flat_ends(next);
    } else {
        law_every_file_that_fits_is_found(next, i);
    }
}

proof fn lemma_found_stays(w: WalkView, k: int)
    requires
        0 <= k < w.out.len(),
    ensures
        k < w.stop().0.out.len(),
        w.stop().0.out[k] == w.out[k],
    decreases left_in(w.levels) + w.levels.len(),
{
    if w.levels.len() > 0 {
        if w.level_done() {
            lemma_found_stays(w.left(), k);
        } else {
            assert(w.looked().levels.drop_last() =~= w.levels.drop_last());
            assert(w.looked().out[k] == w.out[k]);
            if !w.opens() {
                lemma_found_stays(w.looked(), k);
            }
        }
    }
}

proof fn lemma_flat_ends(w: WalkView)
    requires
        w.levels.len() == 1,
        0 <= w.levels[0].1 <= w.levels[0].0.len(),
        forall|k: int|
            0 <= k < w.levels[0].0.len() ==> (#[trigger] w.levels[0].0[k]).2 != ItemKind::Dir,
    ensures
        w.stop().1 is None,
    decreases w.levels[0].0.len() - w.levels[0].1,
{
    if w.level_done() {
        assert(w.left().stop().1 is None);
    } else {
        assert(w.levels[0].0[w.levels[0].1].2 != ItemKind::Dir);
        lemma_flat_ends(w.looked());
    }
}

/// The rows of a walk are the found items, each once: better matches first, of
/// these the folders first, and then by the lowercased names.
pub proof fn law_rows_of_a_walk(r: Seq<UiResult>, out: Seq<FoundView>) -> (picks: Seq<int>)
    requires
        shows_found(r, out),
        forall|i: int| 0 <= i < out.len() ==> 1 <= (#[trigger] out[i]).0 <= 3,
    ensures
        picks.len() == r.len(),
        out.len() <= 200 ==> r.len() == out.len(),
        r.len() <= 200,
        forall|i: int|
            0 <= i < r.len() ==> 0 <= picks[i] < out.len() && is_shown(
                #[trigger] r[i],
                out[picks[i]],
            ),
        forall|i: int, j: int|
            0 <= i < j < r.len() ==> #[trigger] picks[i] != #[trigger] picks[j] && {
                let (a, b) = (r[i], r[j]);
                ||| a.rank < b.rank
                ||| a.rank == b.rank && a.is_dir && !b.is_dir
                ||| a.rank == b.rank && a.is_dir == b.is_dir && lex_le(
                    encode_utf8(lowercase(a.name@)),
                    encode_utf8(lowercase(b.name@)),
                )
            },
{
    let keys = found_keys(out);
    let order = choose|order: Seq<usize>|
        {
            &&& #[trigger] is_order(order, found_keys(out))
            &&& r.len() == if out.len() < 200 {
                out.len() as int
            } else {
                200
            }
            &&& forall|i: int|
                0 <= i < r.len() ==> is_found_row(#[trigger] r[i], out[order[i] as int])
        };
    let picks = Seq::new(r.len(), |i: int| order[i] as int);
    assert forall|i: int| 0 <= i < r.len() implies 0 <= picks[i] < out.len() && is_shown(
        #[trigger] r[i],
        out[picks[i]],
    ) by {
        assert(order[i] < keys.len());
        assert(is_found_row(r[i], out[order[i] as int]));
    }
    assert forall|i: int, j: int| 0 <= i < j < r.len() implies #[trigger] picks[i]
        != #[trigger] picks[j] && {
        let (a, b) = (r[i], r[j]);
        ||| a.rank < b.rank
        ||| a.rank == b.rank && a.is_dir && !b.is_dir
        ||| a.rank == b.rank && a.is_dir == b.is_dir && lex_le(
            encode_utf8(lowercase(a.name@)),
            encode_utf8(lowercase(b.name@)),
        )
    } by {
        assert(order[i] < keys.len() && order[j] < keys.len());
        assert(order[i] != order[j]);
        let (f, g) = (out[order[i] as int], out[order[j] as int]);
        assert(is_found_row(r[i], f) && is_found_row(r[j], g));
        assert(keys[order[i] as int] == found_key(f) && keys[order[j] as int] == found_key(g));
        assert(key_le(found_key(f), found_key(g)));
    }
    picks
}

/// The row shows a found item.
pub open spec fn is_shown(r: UiResult, f: FoundView) -> bool {
    &&& r.rank == f.0
    &&& r.is_dir == f.1
    &&& r.name@ == f.2
    &&& r.path@ == f.3
    &&& f.1 ==> r.kind@ == "dir"@
    &&& !f.1 ==> r.kind@ == "file"@
}

/// Ordering results by kind keeps each of them, and those of one kind in their
/// order; in the web view those of one kind are ordered by their rank.
pub proof fn law_results_by_kind(
    r: Seq<SearchResult>,
    v: Seq<SearchResult>,
    ranked: bool,
) -> (picks: Seq<int>)
    requires
        ordered_by(
            r,
            v,
            if ranked {
                kind_rank_keys(v)
            } else {
                kind_keys(v)
            },
        ),
    ensures
        picks.len() == r.len(),
        r.len() == v.len(),
        forall|i: int|
            0 <= i < r.len() ==> 0 <= picks[i] < v.len() && #[trigger] r[i] == v[picks[i]],
        forall|k: int| 0 <= k < v.len() ==> #[trigger] picks.contains(k),
        forall|i: int, j: int|
            0 <= i < j < r.len() ==> {
                let (a, b) = (kind_of(r[i], ranked), kind_of(r[j], ranked));
                &&& #[trigger] picks[i] != #[trigger] picks[j]
                &&& a.place() <= b.place()
                &&& a == b && ranked ==> r[i].rank <= r[j].rank
                &&& a == b && (!ranked || r[i].rank == r[j].rank) ==> picks[i] < picks[j]
            },
{
    let keys = if ranked {
        kind_rank_keys(v)
    } else {
        kind_keys(v)
    };
    let order = choose|order: Seq<usize>|
        {
            &&& #[trigger] is_order(order, keys)
            &&& r.len() == v.len()
            &&& forall|i: int| 0 <= i < r.len() ==> (#[trigger] r[i]) == v[order[i] as int]
        };
    let picks = Seq::new(r.len(), |i: int| order[i] as int);
    assert forall|i: int| 0 <= i < r.len() implies 0 <= picks[i] < v.len() && #[trigger] r[i]
        == v[picks[i]] by {
        assert(order[i] < keys.len());
    }
    lemma_small(order);
    assert forall|k: int| 0 <= k < v.len() implies #[trigger] picks.contains(k) by {
        let at = lemma_place(order, keys, k as usize);
        assert(picks[at] == k);
    }
    assert forall|i: int, j: int| 0 <= i < j < r.len() implies {
        let (a, b) = (kind_of(r[i], ranked), kind_of(r[j], ranked));
        &&& #[trigger] picks[i] != #[trigger] picks[j]
        &&& a.place() <= b.place()
        &&& a == b && ranked ==> r[i].rank <= r[j].rank
        &&& a == b && (!ranked || r[i].rank == r[j].rank) ==> picks[i] < picks[j]
    } by {
        assert(order[i] < keys.len() && order[j] < keys.len());
        let (x, y) = (order[i] as int, order[j] as int);
        assert(order[i] != order[j]);
        assert(r[i] == v[x] && r[j] == v[y]);
        assert(key_le(keys[x], keys[y]));
    }
    picks
}

/// A path that takes 75 bytes at most is shown whole. Of a longer one the end is
/// shown, behind an ellipsis: as much of it as takes 73 bytes at most.
pub proof fn law_long_path_shows_its_end(path: Seq<char>) -> (k: int)
    ensures
        text_width(path) <= 75 ==> shown_path(path) == path,
        text_width(path) > 75 ==> {
            &&& 0 < k <= path.len()
            &&& shown_path(path) == seq!['\u{2026}'] + path.skip(k)
            &&& text_width(path.skip(k)) <= 73
            &&& text_width(path.skip(k - 1)) > 73
        },
{
    let n = path.len() as int;
    let k = lemma_tail(path, n, 73);
    lemma_width_parts(path, n);
    assert(path.skip(n).len() == 0);
    if text_width(path) > 75 && k == 0 {
        assert(path.skip(0) =~= path);
    }
    k
}

proof fn lemma_width_parts(s: Seq<char>, i: int)
    requires
        0 <= i <= s.len(),
    ensures
        text_width(s) == text_width(s.take(i)) + text_width(s.skip(i)),
    decreases s.len() - i,
{
    if i == s.len() {
        assert(s.take(i) =~= s);
    } else {
        let t = s.drop_last();
        lemma_width_parts(t, i);
        assert(t.take(i) =~= s.take(i));
        assert(s.skip(i).drop_last() =~= t.skip(i));
    }
}

proof fn lemma_width_step(s: Seq<char>, i: int)
    requires
        0 <= i < s.len(),
    ensures
        text_width(s.skip(i)) == char_width(s[i]) + text_width(s.skip(i + 1)),
{
    lemma_width_parts(s.skip(i), 1);
    reveal_with_fuel(text_width, 2);
    assert(s.skip(i).take(1) =~= seq![s[i]]);
    assert(seq![s[i]].drop_last() =~= Seq::empty());
    assert(s.skip(i).skip(1) =~= s.skip(i + 1));
}

proof fn lemma_tail(s: Seq<char>, end: int, n: int) -> (k: int)
    requires
        0 <= end <= s.len(),
        0 <= n,
    ensures
        k == tail_start(s, end, n),
        0 <= k <= end,
        text_width(s.skip(k)) <= text_width(s.skip(end)) + n,
        k > 0 ==> text_width(s.skip(k - 1)) > text_width(s.skip(end)) + n,
    decreases end,
{
    if end > 0 {
        lemma_width_step(s, end - 1);
    }
    if end <= 0 || char_width(s[end - 1]) > n {
        end
    } else {
        lemma_tail(s, end - 1, n - char_width(s[end - 1]))
    }
}

/// The extensions of applications, of their packages, of documents, pictures,
/// films, sound and archives.
pub proof fn law_extensions_of_the_kinds(ext: Seq<char>)
    ensures
        listed(APP_EXTS@, ext) <==> {
            ||| ext == "exe"@
            ||| ext == "lnk"@
            ||| ext == "appref-ms"@
            ||| ext == "msi"@
        },
        listed(PACKAGE_EXTS@, ext) <==> {
            ||| ext == "appx"@
            ||| ext == "msix"@
        },
        listed(DOCUMENT_EXTS@, ext) <==> {
            ||| ext == "doc"@
            ||| ext == "docx"@
            ||| ext == "pdf"@
            ||| ext == "txt"@
            ||| ext == "xlsx"@
            ||| ext == "xls"@
            ||| ext == "pptx"@
            ||| ext == "ppt"@
            ||| ext == "odt"@
            ||| ext == "ods"@
            ||| ext == "odp"@
            ||| ext == "rtf"@
            ||| ext == "md"@
            ||| ext == "csv"@
            ||| ext == "json"@
            ||| ext == "xml"@
            ||| ext == "yaml"@
            ||| ext == "toml"@
            ||| ext == "ini"@
            ||| ext == "log"@
        },
        listed(IMAGE_EXTS@, ext) <==> {
            ||| ext == "png"@
            ||| ext == "jpg"@
            ||| ext == "jpeg"@
            ||| ext == "gif"@
            ||| ext == "bmp"@
            ||| ext == "webp"@
            ||| ext == "svg"@
            ||| ext == "ico"@
            ||| ext == "tiff"@
            ||| ext == "heic"@
            ||| ext == "raw"@
            ||| ext == "psd"@
        },
        listed(VIDEO_EXTS@, ext) <==> {
            ||| ext == "mp4"@
            ||| ext == "mkv"@
            ||| ext == "avi"@
            ||| ext == "mov"@
            ||| ext == "wmv"@
            ||| ext == "flv"@
            ||| ext == "webm"@
            ||| ext == "m4v"@
        },
        listed(AUDIO_EXTS@, ext) <==> {
            ||| ext == "mp3"@
            ||| ext == "flac"@
            ||| ext == "wav"@
            ||| ext == "aac"@
            ||| ext == "ogg"@
            ||| ext == "m4a"@
            ||| ext == "wma"@
            ||| ext == "opus"@
        },
        listed(ARCHIVE_EXTS@, ext) <==> {
            ||| ext == "zip"@
            ||| ext == "rar"@
            ||| ext == "7z"@
            ||| ext == "tar"@
            ||| ext == "gz"@
            ||| ext == "bz2"@
            ||| ext == "xz"@
            ||| ext == "zst"@
        },
{
    assert(APP_EXTS@[0]@ == "exe"@);
    assert(APP_EXTS@[1]@ == "lnk"@);
    assert(APP_EXTS@[2]@ == "appref-ms"@);
    assert(APP_EXTS@[3]@ == "msi"@);
    assert(PACKAGE_EXTS@[0]@ == "appx"@);
    assert(PACKAGE_EXTS@[1]@ == "msix"@);
    assert(DOCUMENT_EXTS@[0]@ == "doc"@);
    assert(DOCUMENT_EXTS@[1]@ == "docx"@);
    assert(DOCUMENT_EXTS@[2]@ == "pdf"@);
    assert(DOCUMENT_EXTS@[3]@ == "txt"@);
    assert(DOCUMENT_EXTS@[4]@ == "xlsx"@);
    assert(DOCUMENT_EXTS@[5]@ == "xls"@);
    assert(DOCUMENT_EXTS@[6]@ == "pptx"@);
    assert(DOCUMENT_EXTS@[7]@ == "ppt"@);
    assert(DOCUMENT_EXTS@[8]@ == "odt"@);
    assert(DOCUMENT_EXTS@[9]@ == "ods"@);
    assert(DOCUMENT_EXTS@[10]@ == "odp"@);
    assert(DOCUMENT_EXTS@[11]@ == "rtf"@);
    assert(DOCUMENT_EXTS@[12]@ == "md"@);
    assert(DOCUMENT_EXTS@[13]@ == "csv"@);
    assert(DOCUMENT_EXTS@[14]@ == "json"@);
    assert(DOCUMENT_EXTS@[15]@ == "xml"@);
    assert(DOCUMENT_EXTS@[16]@ == "yaml"@);
    assert(DOCUMENT_EXTS@[17]@ == "toml"@);
    assert(DOCUMENT_EXTS@[18]@ == "ini"@);
    assert(DOCUMENT_EXTS@[19]@ == "log"@);
    assert(IMAGE_EXTS@[0]@ == "png"@);
    assert(IMAGE_EXTS@[1]@ == "jpg"@);
    assert(IMAGE_EXTS@[2]@ == "jpeg"@);
    assert(IMAGE_EXTS@[3]@ == "gif"@);
    assert(IMAGE_EXTS@[4]@ == "bmp"@);
    assert(IMAGE_EXTS@[5]@ == "webp"@);
    assert(IMAGE_EXTS@[6]@ == "svg"@);
    assert(IMAGE_EXTS@[7]@ == "ico"@);
    assert(IMAGE_EXTS@[8]@ == "tiff"@);
    assert(IMAGE_EXTS@[9]@ == "heic"@);
    assert(IMAGE_EXTS@[10]@ == "raw"@);
    assert(IMAGE_EXTS@[11]@ == "psd"@);
    assert(VIDEO_EXTS@[0]@ == "mp4"@);
    assert(VIDEO_EXTS@[1]@ == "mkv"@);
    assert(VIDEO_EXTS@[2]@ == "avi"@);
    assert(VIDEO_EXTS@[3]@ == "mov"@);
    assert(VIDEO_EXTS@[4]@ == "wmv"@);
    assert(VIDEO_EXTS@[5]@ == "flv"@);
    assert(VIDEO_EXTS@[6]@ == "webm"@);
    assert(VIDEO_EXTS@[7]@ == "m4v"@);
    assert(AUDIO_EXTS@[0]@ == "mp3"@);
    assert(AUDIO_EXTS@[1]@ == "flac"@);
    assert(AUDIO_EXTS@[2]@ == "wav"@);
    assert(AUDIO_EXTS@[3]@ == "aac"@);
    assert(AUDIO_EXTS@[4]@ == "ogg"@);
    assert(AUDIO_EXTS@[5]@ == "m4a"@);
    assert(AUDIO_EXTS@[6]@ == "wma"@);
    assert(AUDIO_EXTS@[7]@ == "opus"@);
    assert(ARCHIVE_EXTS@[0]@ == "zip"@);
    assert(ARCHIVE_EXTS@[1]@ == "rar"@);
    assert(ARCHIVE_EXTS@[2]@ == "7z"@);
    assert(ARCHIVE_EXTS@[3]@ == "tar"@);
    assert(ARCHIVE_EXTS@[4]@ == "gz"@);
    assert(ARCHIVE_EXTS@[5]@ == "bz2"@);
    assert(ARCHIVE_EXTS@[6]@ == "xz"@);
    assert(ARCHIVE_EXTS@[7]@ == "zst"@);
}

/// A query that is the path of something gives one row of the best rank, under the
/// last name of the path.
pub proof fn law_row_of_a_whole_path(r: Seq<UiResult>, path: Seq<char>, is_dir: bool)
    requires
        is_exact_row(r, path, is_dir),
    ensures
        r.len() == 1,
        r[0].path@ == path,
        file_name(path) is Some ==> r[0].name@ == file_name(path)->0,
        file_name(path) is None ==> r[0].name@ == path,
        r[0].rank == 1,
        r[0].is_dir == is_dir,
        is_dir <==> r[0].kind@ == "dir"@,
        !is_dir <==> r[0].kind@ == "file"@,
{
    reveal_strlit("dir");
    reveal_strlit("file");
    assert("dir"@.len() == 3 && "file"@.len() == 4);
}

} // verus!
