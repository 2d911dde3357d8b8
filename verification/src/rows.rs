//! Rows of results: of which kind they are, in which order they are shown, and
//! what is written in them.
use crate::index::search::SearchResult;
use crate::sort::{is_order, keys_of, stable_order, SortKey};
use crate::text::{
    ascii_lower, char_width, chars_of, str_ascii_lower, str_in, string_of, text_width,
};
use crate::winpath::{extension, file_stem, parent, path_extension, path_file_stem, path_parent};
use vstd::prelude::*;

verus! {

/// What a row stands for.
#[derive(Clone, Copy, PartialEq, Eq, Structural)]
pub enum Kind {
    App,
    Document,
    Image,
    Video,
    Audio,
    Archive,
    Folder,
    Other,
}

/// Extensions of applications.
pub const APP_EXTS: [&'static str; 4] = ["exe", "lnk", "appref-ms", "msi"];

/// Extensions of application packages.
pub const PACKAGE_EXTS: [&'static str; 2] = ["appx", "msix"];

/// Extensions of documents.
pub const DOCUMENT_EXTS: [&'static str; 20] = [
    "doc", "docx", "pdf", "txt", "xlsx", "xls", "pptx", "ppt", "odt", "ods", "odp", "rtf", "md",
    "csv", "json", "xml", "yaml", "toml", "ini", "log",
];

/// Extensions of pictures.
pub const IMAGE_EXTS: [&'static str; 12] = [
    "png", "jpg", "jpeg", "gif", "bmp", "webp", "svg", "ico", "tiff", "heic", "raw", "psd",
];

/// Extensions of films.
pub const VIDEO_EXTS: [&'static str; 8] = [
    "mp4", "mkv", "avi", "mov", "wmv", "flv", "webm", "m4v",
];

/// Extensions of sound.
pub const AUDIO_EXTS: [&'static str; 8] = [
    "mp3", "flac", "wav", "aac", "ogg", "m4a", "wma", "opus",
];

/// Extensions of archives.
pub const ARCHIVE_EXTS: [&'static str; 8] = ["zip", "rar", "7z", "tar", "gz", "bz2", "xz", "zst"];

/// A text stands in a list.
pub open spec fn listed(list: Seq<&'static str>, s: Seq<char>) -> bool {
    exists|i: int| 0 <= i < list.len() && #[trigger] list[i]@ == s
}

/// The kind of a file with an extension; `packages` says whether application
/// packages count as applications.
pub open spec fn kind_of_ext(ext: Seq<char>, packages: bool) -> Kind {
    if listed(APP_EXTS@, ext) || (packages && listed(PACKAGE_EXTS@, ext)) {
        Kind::App
    } else if listed(DOCUMENT_EXTS@, ext) {
        Kind::Document
    } else if listed(IMAGE_EXTS@, ext) {
        Kind::Image
    } else if listed(VIDEO_EXTS@, ext) {
        Kind::Video
    } else if listed(AUDIO_EXTS@, ext) {
        Kind::Audio
    } else if listed(ARCHIVE_EXTS@, ext) {
        Kind::Archive
    } else {
        Kind::Other
    }
}

/// The kind of a result.
pub open spec fn kind_of(r: SearchResult, packages: bool) -> Kind {
    if r.is_dir {
        Kind::Folder
    } else {
        match extension(r.full_path@) {
            Some(e) => kind_of_ext(ascii_lower(e), packages),
            None => Kind::Other,
        }
    }
}

/// The kind of a file with an extension.
fn ext_kind(ext: &str, packages: bool) -> (r: Kind)
    ensures
        r == kind_of_ext(ext@, packages),
{
    if str_in(ext, vstd::array::array_as_slice(&APP_EXTS)) || (packages && str_in(
        ext,
        vstd::array::array_as_slice(&PACKAGE_EXTS),
    )) {
        Kind::App
    } else if str_in(ext, vstd::array::array_as_slice(&DOCUMENT_EXTS)) {
        Kind::Document
    } else if str_in(ext, vstd::array::array_as_slice(&IMAGE_EXTS)) {
        Kind::Image
    } else if str_in(ext, vstd::array::array_as_slice(&VIDEO_EXTS)) {
        Kind::Video
    } else if str_in(ext, vstd::array::array_as_slice(&AUDIO_EXTS)) {
        Kind::Audio
    } else if str_in(ext, vstd::array::array_as_slice(&ARCHIVE_EXTS)) {
        Kind::Archive
    } else {
        Kind::Other
    }
}

/// The kind of a result.
fn any_kind(r: &SearchResult, packages: bool) -> (k: Kind)
    ensures
        k == kind_of(*r, packages),
{
    if r.is_dir {
        return Kind::Folder;
    }
    match path_extension(r.full_path.as_str()) {
        Some(e) => ext_kind(str_ascii_lower(e.as_str()).as_str(), packages),
        None => Kind::Other,
    }
}

/// The kind of a result in the plain window.
pub fn result_kind(r: &SearchResult) -> (k: Kind)
    ensures
        k == kind_of(*r, false),
{
    any_kind(r, false)
}

/// The kind of a result in the web view, where application packages count as
/// applications.
pub fn kind_for_result(r: &SearchResult) -> (k: Kind)
    ensures
        k == kind_of(*r, true),
{
    any_kind(r, true)
}

impl Kind {
    /// The place of a kind among the others.
    pub open spec fn place(self) -> u8 {
        match self {
            Kind::App => 0,
            Kind::Document => 1,
            Kind::Image => 2,
            Kind::Video => 3,
            Kind::Audio => 4,
            Kind::Archive => 5,
            Kind::Folder => 6,
            Kind::Other => 7,
        }
    }

    /// The place of a kind among the others.
    pub fn sort_key(self) -> (r: u8)
        ensures
            r == self.place(),
    {
        match self {
            Kind::App => 0,
            Kind::Document => 1,
            Kind::Image => 2,
            Kind::Video => 3,
            Kind::Audio => 4,
            Kind::Archive => 5,
            Kind::Folder => 6,
            Kind::Other => 7,
        }
    }

    /// The word for a kind.
    pub open spec fn word(self, other: Seq<char>) -> Seq<char> {
        match self {
            Kind::App => "APP"@,
            Kind::Document => "DOC"@,
            Kind::Image => "IMG"@,
            Kind::Video => "VID"@,
            Kind::Audio => "AUD"@,
            Kind::Archive => "ZIP"@,
            Kind::Folder => "DIR"@,
            Kind::Other => other,
        }
    }

    /// The badge of a kind; what is of no kind has none.
    pub fn label(self) -> (r: &'static str)
        ensures
            r@ == self.word(""@),
    {
        match self {
            Kind::App => "APP",
            Kind::Document => "DOC",
            Kind::Image => "IMG",
            Kind::Video => "VID",
            Kind::Audio => "AUD",
            Kind::Archive => "ZIP",
            Kind::Folder => "DIR",
            Kind::Other => "",
        }
    }

    /// The word for a kind; what is of no kind is a file.
    pub fn as_str(self) -> (r: &'static str)
        ensures
            r@ == self.word("FILE"@),
    {
        match self {
            Kind::App => "APP",
            Kind::Document => "DOC",
            Kind::Image => "IMG",
            Kind::Video => "VID",
            Kind::Audio => "AUD",
            Kind::Archive => "ZIP",
            Kind::Folder => "DIR",
            Kind::Other => "FILE",
        }
    }

    /// The red, green and blue of a badge.
    pub open spec fn colors(self) -> (u8, u8, u8) {
        match self {
            Kind::App => (60, 200, 120),
            Kind::Document => (240, 140, 60),
            Kind::Image => (180, 80, 220),
            Kind::Video => (220, 60, 80),
            Kind::Audio => (60, 160, 240),
            Kind::Archive => (200, 160, 40),
            Kind::Folder => (80, 120, 220),
            Kind::Other => (100, 100, 130),
        }
    }

    /// The red, green and blue of a badge.
    pub fn badge_color(self) -> (r: (u8, u8, u8))
        ensures
            r == self.colors(),
    {
        match self {
            Kind::App => (60, 200, 120),
            Kind::Document => (240, 140, 60),
            Kind::Image => (180, 80, 220),
            Kind::Video => (220, 60, 80),
            Kind::Audio => (60, 160, 240),
            Kind::Archive => (200, 160, 40),
            Kind::Folder => (80, 120, 220),
            Kind::Other => (100, 100, 130),
        }
    }
}

/// What the results are ordered by in the plain window: their kind.
pub open spec fn kind_keys(v: Seq<SearchResult>) -> Seq<(u64, Seq<u8>)> {
    v.map_values(|r: SearchResult| (kind_of(r, false).place() as u64, Seq::<u8>::empty()))
}

/// What the results are ordered by in the web view: their kind, then their rank.
pub open spec fn kind_rank_keys(v: Seq<SearchResult>) -> Seq<(u64, Seq<u8>)> {
    v.map_values(
        |r: SearchResult|
            ((kind_of(r, true).place() * 256 + r.rank) as u64, Seq::<u8>::empty()),
    )
}

/// `r` is `v` in an order of its keys; equal keys stay in their order.
pub open spec fn ordered_by(
    r: Seq<SearchResult>,
    v: Seq<SearchResult>,
    keys: Seq<(u64, Seq<u8>)>,
) -> bool {
    exists|order: Seq<usize>|
        {
            &&& #[trigger] is_order(order, keys)
            &&& r.len() == v.len()
            &&& forall|i: int| 0 <= i < r.len() ==> (#[trigger] r[i]) == v[order[i] as int]
        }
}

/// The results in the order of some keys.
fn reorder(v: &Vec<SearchResult>, keys: &Vec<SortKey>) -> (r: Vec<SearchResult>)
    requires
        keys.len() == v.len(),
    ensures
        ordered_by(r@, v@, keys_of(keys@)),
{
    let order = stable_order(keys);
    let mut out: Vec<SearchResult> = Vec::new();
    let mut i: usize = 0;
    while i < order.len()
        invariant
            i <= order.len(),
            out.len() == i,
            keys.len() == v.len(),
            is_order(order@, keys_of(keys@)),
            forall|m: int| 0 <= m < i ==> (#[trigger] out@[m]) == v@[order@[m] as int],
        decreases order.len() - i,
    {
        assert(order@[i as int] < keys_of(keys@).len());
        out.push(v[order[i]].clone());
        i = i + 1;
    }
    out
}

/// The results by kind; those of a kind stay in their order.
pub fn sort_results(v: &Vec<SearchResult>) -> (r: Vec<SearchResult>)
    ensures
        ordered_by(r@, v@, kind_keys(v@)),
{
    let mut keys: Vec<SortKey> = Vec::new();
    let mut i: usize = 0;
    while i < v.len()
        invariant
            i <= v.len(),
            keys.len() == i,
            forall|k: int|
                0 <= k < i ==> ((#[trigger] keys@[k]).num, keys@[k].text@) == kind_keys(v@)[k],
        decreases v.len() - i,
    {
        let key = SortKey { num: result_kind(&v[i]).sort_key() as u64, text: Vec::new() };
        assert(key.text@ =~= Seq::<u8>::empty());
        keys.push(key);
        i = i + 1;
    }
    assert(keys_of(keys@) =~= kind_keys(v@));
    reorder(v, &keys)
}

/// The results by kind and rank; those of one kind and rank stay in their order.
pub fn sort_by_kind_and_rank(v: &Vec<SearchResult>) -> (r: Vec<SearchResult>)
    ensures
        ordered_by(r@, v@, kind_rank_keys(v@)),
{
    let mut keys: Vec<SortKey> = Vec::new();
    let mut i: usize = 0;
    while i < v.len()
        invariant
            i <= v.len(),
            keys.len() == i,
            forall|k: int|
                0 <= k < i ==> ((#[trigger] keys@[k]).num, keys@[k].text@) == kind_rank_keys(
                    v@,
                )[k],
        decreases v.len() - i,
    {
        let num: u64 = kind_for_result(&v[i]).sort_key() as u64 * 256 + v[i].rank as u64;
        let key = SortKey { num, text: Vec::new() };
        assert(key.text@ =~= Seq::<u8>::empty());
        keys.push(key);
        i = i + 1;
    }
    assert(keys_of(keys@) =~= kind_rank_keys(v@));
    reorder(v, &keys)
}

/// The name that a row shows: an application without its extension, else the
/// name that the shell gives, or the file name where it gives none.
pub open spec fn shown_name(r: SearchResult, shell: Seq<char>) -> Seq<char> {
    if kind_of(r, false) == Kind::App {
        match file_stem(r.full_path@) {
            Some(s) => s,
            None => r.name@,
        }
    } else if shell.len() > 0 {
        shell
    } else {
        r.name@
    }
}

/// The name that a row shows; `shfi_raw` is the name that the shell gives.
pub fn display_name(r: &SearchResult, shfi_raw: &str) -> (n: String)
    ensures
        n@ == shown_name(*r, shfi_raw@),
{
    if result_kind(r) == Kind::App {
        return match path_file_stem(r.full_path.as_str()) {
            Some(s) => s,
            None => r.name.clone(),
        };
    }
    if shfi_raw.is_empty() {
        r.name.clone()
    } else {
        shfi_raw.to_owned()
    }
}

/// Where the last characters of a text that fit into `n` bytes begin, looking
/// back from `end`.
pub open spec fn tail_start(s: Seq<char>, end: int, n: int) -> int
    decreases end,
{
    if end <= 0 || end > s.len() || char_width(s[end - 1]) > n {
        end
    } else {
        tail_start(s, end - 1, n - char_width(s[end - 1]))
    }
}

/// A path as a row shows it: of a long one the end, behind an ellipsis.
pub open spec fn shown_path(path: Seq<char>) -> Seq<char> {
    if text_width(path) > 75 {
        seq!['\u{2026}'] + path.skip(tail_start(path, path.len() as int, 73))
    } else {
        path
    }
}

proof fn lemma_tail(s: Seq<char>, end: int, n: int)
    requires
        0 <= end <= s.len(),
    ensures
        0 <= tail_start(s, end, n) <= end,
    decreases end,
{
    if end > 0 && char_width(s[end - 1]) <= n {
        lemma_tail(s, end - 1, n - char_width(s[end - 1]));
    }
}

/// How many bytes UTF-8 takes for a character.
fn width(c: char) -> (r: usize)
    ensures
        r == char_width(c),
{
    let n: u32 = c as u32;
    if n < 0x80 {
        1
    } else if n < 0x800 {
        2
    } else if n < 0x10000 {
        3
    } else {
        4
    }
}

proof fn lemma_width_up(s: Seq<char>, i: int)
    requires
        0 <= i <= s.len(),
    ensures
        text_width(s.take(i)) <= text_width(s),
    decreases s.len() - i,
{
    if i < s.len() {
        lemma_width_up(s, i + 1);
        assert(s.take(i + 1).drop_last() =~= s.take(i));
    } else {
        assert(s.take(i) =~= s);
    }
}

/// A path as a row shows it. Where the cut would split a character, it falls
/// behind that character.
pub fn path_display(r: &SearchResult) -> (p: String)
    ensures
        p@ == shown_path(r.full_path@),
{
    let s = chars_of(r.full_path.as_str());
    let mut total: usize = 0;
    let mut i: usize = 0;
    while i < s.len() && total <= 75
        invariant
            i <= s.len(),
            total == text_width(s@.take(i as int)),
            total <= 79,
        decreases s.len() - i,
    {
        assert(s@.take(i + 1).drop_last() =~= s@.take(i as int));
        total = total + width(s[i]);
        i = i + 1;
    }
    proof {
        lemma_width_up(s@, i as int);
        if total <= 75 {
            assert(s@.take(i as int) =~= s@);
        }
    }
    if total <= 75 {
        return r.full_path.clone();
    }
    let mut end: usize = s.len();
    let mut left: usize = 73;
    while end > 0 && width(s[end - 1]) <= left
        invariant
            end <= s.len(),
            tail_start(s@, s@.len() as int, 73) == tail_start(s@, end as int, left as int),
        decreases end,
    {
        left = left - width(s[end - 1]);
        end = end - 1;
    }
    let mut out = "\u{2026}".to_owned();
    let tail = string_of(&s.as_slice()[end..s.len()]);
    out.push_str(tail.as_str());
    proof {
        reveal_strlit("\u{2026}");
        assert(tail@ =~= s@.skip(end as int));
        assert(out@ =~= seq!['\u{2026}'] + tail@);
    }
    out
}

/// What is opened for a row: the path, or the folder it is in.
pub open spec fn open_target(r: SearchResult, folder_only: bool) -> Seq<char> {
    if !folder_only || r.is_dir {
        r.full_path@
    } else {
        match parent(r.full_path@) {
            Some(p) => p,
            None => r.full_path@,
        }
    }
}

/// What is opened for a row: the path, or the folder it is in.
pub fn open_result(r: &SearchResult, folder_only: bool) -> (p: String)
    ensures
        p@ == open_target(*r, folder_only),
{
    if !folder_only || r.is_dir {
        return r.full_path.clone();
    }
    match path_parent(r.full_path.as_str()) {
        Some(p) => p,
        None => r.full_path.clone(),
    }
}

/// The low 16 bits.
pub fn loword(value: u32) -> (r: u16)
    ensures
        r == value % 0x10000,
{
    (value % 0x10000) as u16
}

/// The high 16 bits.
pub fn hiword(value: u32) -> (r: u16)
    ensures
        r == value / 0x10000,
{
    (value / 0x10000) as u16
}

/// A color as the system holds it: red in the lowest byte, then green, then blue.
pub fn gdi_rgb(red: u8, green: u8, blue: u8) -> (r: u32)
    ensures
        r == red + 0x100 * green + 0x1_0000 * blue,
{
    red as u32 + 0x100 * (green as u32) + 0x1_0000 * (blue as u32)
}

/// A row opens what it stands for; asked for the folder, a file's row opens the
/// folder that the file is in.
pub proof fn law_what_a_row_opens(r: SearchResult)
    ensures
        open_target(r, false) == r.full_path@,
        r.is_dir ==> open_target(r, true) == r.full_path@,
        !r.is_dir && parent(r.full_path@) is Some ==> open_target(r, true) == parent(
            r.full_path@,
        )->0,
        parent(r.full_path@) is None ==> open_target(r, true) == r.full_path@,
{
}

/// The row of an application shows the name of its file without the ending,
/// whatever the shell calls it; any other row shows what the shell calls it, or
/// its own name where the shell has none.
pub proof fn law_name_of_a_row(r: SearchResult, shell: Seq<char>)
    ensures
        kind_of(r, false) == Kind::App && file_stem(r.full_path@) is Some ==> shown_name(r, shell)
            == file_stem(r.full_path@)->0,
        r.is_dir && shell.len() > 0 ==> shown_name(r, shell) == shell,
        r.is_dir && shell.len() == 0 ==> shown_name(r, shell) == r.name@,
        extension(r.full_path@) is None && shell.len() > 0 ==> shown_name(r, shell) == shell,
        extension(r.full_path@) is None && shell.len() == 0 ==> shown_name(r, shell) == r.name@,
{
}

/// No two kinds have the same color, and folders and applications have their own
/// words.
pub proof fn law_kinds_are_told_apart(a: Kind, b: Kind, other: Seq<char>)
    ensures
        a.colors() == b.colors() ==> a == b,
        a.word("FILE"@) == "DIR"@ <==> a == Kind::Folder,
        a.word("FILE"@) == "APP"@ <==> a == Kind::App,
        a.word("FILE"@) == "DOC"@ <==> a == Kind::Document,
        a.word("FILE"@) == "IMG"@ <==> a == Kind::Image,
        a.word("FILE"@) == "VID"@ <==> a == Kind::Video,
        a.word("FILE"@) == "AUD"@ <==> a == Kind::Audio,
        a.word("FILE"@) == "ZIP"@ <==> a == Kind::Archive,
        Kind::Other.word(other) == other,
{
    reveal_strlit("FILE");
    reveal_strlit("DIR");
    reveal_strlit("APP");
    reveal_strlit("DOC");
    reveal_strlit("IMG");
    reveal_strlit("VID");
    reveal_strlit("AUD");
    reveal_strlit("ZIP");
    assert("DIR"@[1] == 'I' && "DIR"@[0] == 'D' && "DOC"@[0] == 'D' && "DOC"@[1] == 'O');
    assert("APP"@[0] == 'A' && "APP"@[1] == 'P' && "AUD"@[0] == 'A' && "AUD"@[1] == 'U');
    assert("IMG"@[0] == 'I' && "VID"@[0] == 'V' && "ZIP"@[0] == 'Z' && "FILE"@[0] == 'F');
}

/// A file is of a kind only where its extension is one of that kind, and it is of
/// no kind only where its extension is one of none.
pub proof fn law_kind_follows_the_extension(ext: Seq<char>)
    ensures
        ({
            let kind = kind_of_ext(ext, false);
            &&& kind == Kind::App <==> listed(APP_EXTS@, ext)
            &&& kind == Kind::Document ==> listed(DOCUMENT_EXTS@, ext)
            &&& kind == Kind::Image ==> listed(IMAGE_EXTS@, ext)
            &&& kind == Kind::Video ==> listed(VIDEO_EXTS@, ext)
            &&& kind == Kind::Audio ==> listed(AUDIO_EXTS@, ext)
            &&& kind == Kind::Archive ==> listed(ARCHIVE_EXTS@, ext)
            &&& kind != Kind::Folder
            &&& kind == Kind::Other <==> !listed(APP_EXTS@, ext) && !listed(DOCUMENT_EXTS@, ext)
                && !listed(IMAGE_EXTS@, ext) && !listed(VIDEO_EXTS@, ext) && !listed(
                AUDIO_EXTS@,
                ext,
            ) && !listed(ARCHIVE_EXTS@, ext)
        }),
        listed(PACKAGE_EXTS@, ext) ==> kind_of_ext(ext, true) == Kind::App,
        !listed(PACKAGE_EXTS@, ext) ==> kind_of_ext(ext, true) == kind_of_ext(ext, false),
{
}

} // verus!
