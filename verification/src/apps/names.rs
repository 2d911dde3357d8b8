//! Names and paths of applications: which are noise, and which name the same
//! application.
use crate::text::{
    ascii_num, ascii_small, ascii_word, chars_find, chars_of, has_text, is_ascii_num, is_ascii_word,
    lowercase, small, str_ends, str_eq, str_has, str_in, str_starts, str_trim, str_words, string_of,
    strip_start, text_at, text_ends, text_starts, texts, trimmed, words,
};
use crate::winpath::{file_name, file_stem, path_file_name, path_file_stem};
use vstd::prelude::*;

verus! {

/// A dotted number such as `3.13.7`. A number without a dot is none: a year
/// tells products apart.
pub open spec fn version_token(tok: Seq<char>) -> bool {
    &&& exists|i: int| 0 <= i < tok.len() && tok[i] == '.'
    &&& forall|i: int| 0 <= i < tok.len() ==> is_ascii_num(#[trigger] tok[i]) || tok[i] == '.'
}

/// Whether a word is a dotted version.
pub fn is_version_token(tok: &str) -> (r: bool)
    ensures
        r == version_token(tok@),
{
    let t = chars_of(tok);
    let mut dotted = false;
    let mut i: usize = 0;
    while i < t.len()
        invariant
            t@ == tok@,
            i <= t.len(),
            dotted <==> exists|k: int| 0 <= k < i && t@[k] == '.',
            forall|k: int| 0 <= k < i ==> is_ascii_num(#[trigger] t@[k]) || t@[k] == '.',
        decreases t.len() - i,
    {
        if t[i] == '.' {
            dotted = true;
        } else if !ascii_num(t[i]) {
            assert(!is_ascii_num(tok@[i as int]));
            return false;
        }
        i = i + 1;
    }
    dotted
}

/// The words that name a processor architecture.
pub const ARCH_TOKENS: [&'static str; 5] = ["(x86)", "(x64)", "(arm64)", "(32-bit)", "(64-bit)"];

/// A word that names a processor architecture.
pub open spec fn arch_token(tok: Seq<char>) -> bool {
    exists|i: int| 0 <= i < 5 && #[trigger] ARCH_TOKENS@[i]@ == tok
}

/// Whether a word names a processor architecture.
pub fn is_arch_token(tok: &str) -> (r: bool)
    ensures
        r == arch_token(tok@),
{
    str_in(tok, vstd::array::array_as_slice(&ARCH_TOKENS))
}

/// A text without its last `n` characters.
pub open spec fn cut(s: Seq<char>, n: int) -> Seq<char> {
    if n <= s.len() {
        s.take(s.len() - n)
    } else {
        s
    }
}

/// A text without an ending, if it has that ending in lowercase.
pub open spec fn without_end(s: Seq<char>, end: Seq<char>) -> Seq<char> {
    if text_ends(lowercase(s), end) {
        cut(s, end.len() as int)
    } else {
        s
    }
}

/// The endings that only say for whom an application was installed.
pub const SCOPE_ENDS: [&'static str; 4] = ["(user)", "(machine)", " - user", " - machine"];

/// A name without the first of the scope endings, from `from` on, that it has.
pub open spec fn without_scope(s: Seq<char>, from: int) -> Seq<char>
    decreases 4 - from,
{
    if from < 0 || from >= 4 {
        s
    } else if text_ends(lowercase(s), SCOPE_ENDS@[from]@) {
        cut(s, SCOPE_ENDS@[from]@.len() as int)
    } else {
        without_scope(s, from + 1)
    }
}

/// A word at the end of a name that tells no products apart.
pub open spec fn channel_token(tok: Seq<char>) -> bool {
    ||| lowercase(tok) == "-"@
    ||| lowercase(tok) == "stable"@
    ||| lowercase(tok) == "browser"@
    ||| version_token(tok)
}

/// How many of the first `end` words are left without versions, channels, and
/// architectures behind a version, at the end.
pub open spec fn telling(toks: Seq<Seq<char>>, end: nat) -> nat
    decreases end,
{
    if end == 0 {
        0
    } else if channel_token(toks[end - 1]) {
        telling(toks, (end - 1) as nat)
    } else if arch_token(lowercase(toks[end - 1])) && end >= 2 && version_token(toks[end - 2]) {
        telling(toks, (end - 2) as nat)
    } else {
        end
    }
}

/// The ASCII letters and digits of a text, in lowercase.
pub open spec fn compact(s: Seq<char>) -> Seq<char>
    decreases s.len(),
{
    if s.len() == 0 {
        s
    } else if is_ascii_word(s.last()) {
        compact(s.drop_last()).push(ascii_small(s.last()))
    } else {
        compact(s.drop_last())
    }
}

/// The compact forms of the first `n` words, one behind the other.
pub open spec fn compact_words(toks: Seq<Seq<char>>, n: nat) -> Seq<char>
    decreases n,
{
    if n == 0 {
        Seq::empty()
    } else {
        compact_words(toks, (n - 1) as nat) + compact(toks[n - 1])
    }
}

/// The name without a shortcut ending and a scope ending.
pub open spec fn bare_name(name: Seq<char>) -> Seq<char> {
    without_scope(without_end(trimmed(name), " - shortcut"@), 0)
}

/// The key under which names of one application fall together.
pub open spec fn name_key(name: Seq<char>) -> Seq<char> {
    let toks = words(bare_name(name));
    compact_words(toks, telling(toks, toks.len()))
}

/// A text without its last `n` characters.
fn cut_end(s: &str, n: usize) -> (r: String)
    ensures
        r@ == cut(s@, n as int),
{
    let a = chars_of(s);
    if n <= a.len() {
        assert(a@.subrange(0, a@.len() - n) =~= a@.take(a@.len() - n));
        string_of(&a.as_slice()[0..a.len() - n])
    } else {
        string_of(a.as_slice())
    }
}

/// The ASCII letters and digits of a text, in lowercase.
pub fn str_compact(s: &str) -> (r: String)
    ensures
        r@ == compact(s@),
{
    let a = chars_of(s);
    let mut out = String::new();
    let mut i: usize = 0;
    assert(a@.take(0) =~= Seq::<char>::empty());
    while i < a.len()
        invariant
            i <= a@.len(),
            out@ == compact(a@.take(i as int)),
        decreases a@.len() - i,
    {
        assert(a@.take(i + 1).drop_last() =~= a@.take(i as int));
        assert(a@.take(i + 1).last() == a@[i as int]);
        if ascii_word(a[i]) {
            out.push(small(a[i]));
        }
        i = i + 1;
    }
    assert(a@.take(i as int) =~= a@);
    out
}

/// The key under which names of one application fall together: lowercase
/// letters and digits only, without the version, the channel and the
/// installation scope at the end.
pub fn norm_app_name(name: &str) -> (r: String)
    ensures
        r@ == name_key(name@),
{
    let mut n = str_trim(name);
    let shortcut = " - shortcut";
    if str_ends(n.as_str().to_lowercase().as_str(), shortcut) {
        n = cut_end(n.as_str(), chars_of(shortcut).len());
    }
    let ghost bare = without_end(trimmed(name@), " - shortcut"@);
    let mut i: usize = 0;
    let mut done = false;
    while !done && i < 4
        invariant
            i <= 4,
            !done ==> n@ == bare && without_scope(bare, 0) == without_scope(bare, i as int),
            done ==> n@ == without_scope(bare, 0),
        decreases 4 - i + (if done { 0int } else { 1int }),
    {
        if str_ends(n.as_str().to_lowercase().as_str(), SCOPE_ENDS[i]) {
            n = cut_end(n.as_str(), chars_of(SCOPE_ENDS[i]).len());
            done = true;
        } else {
            i = i + 1;
        }
    }
    assert(n@ == bare_name(name@));
    let toks = str_words(n.as_str());
    let ghost all = words(n@);
    assert(all.len() == toks.len());
    let mut end: usize = toks.len();
    let mut settled = false;
    while !settled && end > 0
        invariant
            end <= toks.len(),
            texts(toks@) == all,
            all.len() == toks.len(),
            telling(all, all.len()) == telling(all, end as nat),
            settled ==> telling(all, all.len()) == end,
        decreases end + (if settled { 0int } else { 1int }),
    {
        assert(all[end - 1] == toks@[end - 1]@);
        let tl = toks[end - 1].as_str().to_lowercase();
        if str_eq(tl.as_str(), "-") || str_eq(tl.as_str(), "stable") || str_eq(
            tl.as_str(),
            "browser",
        ) {
            end = end - 1;
        } else if is_version_token(toks[end - 1].as_str()) {
            end = end - 1;
        } else if is_arch_token(tl.as_str()) && end >= 2 && is_version_token(
            toks[end - 2].as_str(),
        ) {
            assert(all[end - 2] == toks@[end - 2]@);
            end = end - 2;
        } else {
            proof {
                if end >= 2 {
                    assert(all[end - 2] == toks@[end - 2]@);
                }
            }
            settled = true;
        }
    }
    let mut out = String::new();
    let mut k: usize = 0;
    while k < end
        invariant
            k <= end <= toks.len(),
            texts(toks@) == all,
            out@ == compact_words(all, k as nat),
        decreases end - k,
    {
        assert(all[k as int] == toks@[k as int]@);
        let c = str_compact(toks[k].as_str());
        out.push_str(c.as_str());
        k = k + 1;
    }
    out
}

/// Where the exe name that ends at `at` begins: behind the dot before it.
pub open spec fn stem_start(s: Seq<char>, at: int) -> int
    decreases at,
{
    if at <= 0 || s[at - 1] == '.' {
        at
    } else {
        stem_start(s, at - 1)
    }
}

/// An exe name ends at `at`: `.exe` stands there, with nothing or a dot behind
/// it, and before it a word of letters, digits, `_` and `-`.
pub open spec fn exe_ends_at(s: Seq<char>, at: int) -> bool {
    &&& text_at(s, ".exe"@, at)
    &&& at + 4 == s.len() || s[at + 4] == '.'
    &&& stem_start(s, at) < at
    &&& forall|k: int|
        stem_start(s, at) <= k < at ==> is_ascii_word(#[trigger] s[k]) || s[k] == '_' || s[k]
            == '-'
}

/// Whether an exe name ends at `at`, and where it begins.
fn exe_stem(s: &[char], at: usize) -> (r: Option<usize>)
    requires
        text_at(s@, ".exe"@, at as int),
    ensures
        r is Some <==> exe_ends_at(s@, at as int),
        r is Some ==> r->0 == stem_start(s@, at as int) && r->0 < at,
{
    proof {
        reveal_strlit(".exe");
        assert(at + 4 <= s@.len() && s@.len() == s.len());
    }
    if at + 4 < s.len() && s[at + 4] != '.' {
        return None;
    }
    let mut k: usize = at;
    let mut word = true;
    while k > 0 && s[k - 1] != '.'
        invariant
            k <= at <= s.len(),
            stem_start(s@, at as int) == stem_start(s@, k as int),
            word <==> forall|m: int|
                k <= m < at ==> is_ascii_word(#[trigger] s@[m]) || s@[m] == '_' || s@[m] == '-',
        decreases k,
    {
        let c = s[k - 1];
        word = word && (ascii_word(c) || c == '_' || c == '-');
        k = k - 1;
    }
    if word && k < at {
        Some(k)
    } else {
        None
    }
}

/// The exe name that a store application's id holds
/// (`Microsoft.Office.WINWORD.EXE.15` holds `winword.exe`): the first, in
/// lowercase.
pub fn aumid_exe_token(aumid: &str) -> (r: Option<String>)
    ensures
        r is None <==> forall|at: int| !exe_ends_at(lowercase(aumid@), at),
        r is Some ==> exists|at: int|
            {
                &&& #[trigger] exe_ends_at(lowercase(aumid@), at)
                &&& forall|k: int| k < at ==> !exe_ends_at(lowercase(aumid@), k)
                &&& r->0@ == lowercase(aumid@).subrange(
                    stem_start(lowercase(aumid@), at),
                    at,
                ) + ".exe"@
            },
{
    let low = chars_of(aumid.to_lowercase().as_str());
    let exe = chars_of(".exe");
    let mut from: usize = 0;
    proof {
        reveal_strlit(".exe");
    }
    while from <= low.len()
        invariant
            low@ == lowercase(aumid@),
            exe@ == ".exe"@,
            forall|k: int| k < from ==> !exe_ends_at(low@, k),
        decreases low.len() + 1 - from,
    {
        match chars_find(low.as_slice(), exe.as_slice(), from) {
            None => {
                assert forall|at: int| !exe_ends_at(low@, at) by {
                    if at >= from {
                        assert(!text_at(low@, exe@, at));
                    }
                }
                return None;
            },
            Some(at) => {
                match exe_stem(low.as_slice(), at) {
                    Some(start) => {
                        let mut out = string_of(&low.as_slice()[start..at]);
                        out.push_str(".exe");
                        assert(exe_ends_at(low@, at as int));
                        assert forall|k: int| k < at implies !exe_ends_at(low@, k) by {
                            if k >= from {
                                assert(!text_at(low@, exe@, k));
                            }
                        }
                        return Some(out);
                    },
                    None => {
                        assert forall|k: int| k < at + 1 implies !exe_ends_at(low@, k) by {
                            if from <= k < at {
                                assert(!text_at(low@, exe@, k));
                            }
                        }
                        assert(at < low.len()) by {
                            reveal_strlit(".exe");
                        }
                        from = at + 1;
                    },
                }
            },
        }
    }
    assert forall|at: int| !exe_ends_at(low@, at) by {
        reveal_strlit(".exe");
    }
    None
}

/// A lowercase path that leads to a web page.
pub open spec fn web_page(low: Seq<char>) -> bool {
    ||| text_starts(low, "http"@)
    ||| text_ends(low, ".url"@)
    ||| text_ends(low, ".html"@)
    ||| text_ends(low, ".htm"@)
}

/// Whether a lowercase path leads to a web page.
fn leads_to_web(low: &str) -> (r: bool)
    ensures
        r == web_page(low@),
{
    str_starts(low, "http") || str_ends(low, ".url") || str_ends(low, ".html") || str_ends(
        low,
        ".htm",
    )
}

/// An entry of the shell's application folder that is no application: a web
/// page, an installer or uninstaller, or a command prompt.
pub open spec fn shell_junk(name: Seq<char>, path: Seq<char>) -> bool {
    let low = lowercase(path);
    let prefix = "aumid:"@;
    ||| text_starts(low, prefix) && web_page(low.skip(prefix.len() as int))
    ||| text_starts(lowercase(name), "uninstall "@)
    ||| text_starts(lowercase(name), "install "@)
    ||| text_ends(lowercase(name), " command prompt"@)
}

/// Whether an entry of the shell's application folder is no application.
pub fn is_shell_junk(name: &str, path: &str) -> (r: bool)
    ensures
        r == shell_junk(name@, path@),
{
    let pl = path.to_lowercase();
    match strip_start(pl.as_str(), "aumid:") {
        Some(rest) => {
            if leads_to_web(rest.as_str()) {
                return true;
            }
        },
        None => {},
    }
    let lower = name.to_lowercase();
    str_starts(lower.as_str(), "uninstall ") || str_starts(lower.as_str(), "install ") || str_ends(
        lower.as_str(),
        " command prompt",
    )
}

/// A lowercase stem of an uninstaller.
pub open spec fn uninstaller_stem(stem: Seq<char>) -> bool {
    ||| has_text(stem, "unins"@)
    ||| has_text(stem, "uninst"@)
    ||| has_text(stem, "uninstall"@)
}

/// Whether a lowercase stem is that of an uninstaller.
pub fn is_uninstaller_stem(stem: &str) -> (r: bool)
    ensures
        r == uninstaller_stem(stem@),
{
    str_has(stem, "unins") || str_has(stem, "uninst") || str_has(stem, "uninstall")
}

/// The interpreters that a shortcut may start.
pub const SHELL_STEMS: [&'static str; 5] = ["cmd", "powershell", "pwsh", "wscript", "cscript"];

/// A shortcut's target that is no application: a web page, an interpreter, an
/// uninstaller, or no file at all.
pub open spec fn target_junk(target: Seq<char>) -> bool {
    ||| web_page(lowercase(target))
    ||| match file_stem(target) {
        None => true,
        Some(stem) => {
            ||| exists|i: int| 0 <= i < 5 && #[trigger] SHELL_STEMS@[i]@ == lowercase(stem)
            ||| uninstaller_stem(lowercase(stem))
        },
    }
}

/// Whether a shortcut's target is no application.
pub fn is_shortcut_target_junk(target: &str) -> (r: bool)
    ensures
        r == target_junk(target@),
{
    if leads_to_web(target.to_lowercase().as_str()) {
        return true;
    }
    match path_file_stem(target) {
        None => true,
        Some(stem) => {
            let low = stem.as_str().to_lowercase();
            str_in(low.as_str(), vstd::array::array_as_slice(&SHELL_STEMS)) || is_uninstaller_stem(
                low.as_str(),
            )
        },
    }
}

/// A path that leads to installer machinery.
pub open spec fn installer_junk(path: Seq<char>) -> bool {
    ||| has_text(lowercase(path), "\\package cache\\"@)
    ||| text_ends(lowercase(path), "\\package cache"@)
    ||| file_stem(path) is Some && uninstaller_stem(lowercase(file_stem(path)->0))
}

/// Whether a path leads to installer machinery.
pub fn is_installer_junk(path: &str) -> (r: bool)
    ensures
        r == installer_junk(path@),
{
    let low = path.to_lowercase();
    if str_has(low.as_str(), "\\package cache\\") || str_ends(low.as_str(), "\\package cache") {
        return true;
    }
    match path_file_stem(path) {
        Some(stem) => is_uninstaller_stem(stem.as_str().to_lowercase().as_str()),
        None => false,
    }
}

/// The file name of a path, in lowercase.
pub fn file_name_key(p: &str) -> (r: Option<String>)
    ensures
        r is Some <==> file_name(p@) is Some,
        r is Some ==> r->0@ == lowercase(file_name(p@)->0),
{
    match path_file_name(p) {
        Some(n) => Some(n.as_str().to_lowercase()),
        None => None,
    }
}

} // verus!
