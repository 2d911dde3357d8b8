//! Text: what the library takes from `std` on strings, and the small operations
//! on characters that the rest is written with.
use crate::bytes::bytes_eq;
use vstd::prelude::*;
use vstd::std_specs::iter::IteratorSpec;
use vstd::string::spec_iter;
use vstd::utf8::*;

verus! {

/// What `str::to_lowercase` makes of a text.
pub uninterp spec fn lowercase(s: Seq<char>) -> Seq<char>;

/// `str::to_lowercase`: the lowercase mapping of the Unicode tables, which
/// depends on the text alone.
pub assume_specification[ str::to_lowercase ](s: &str) -> (r: String)
    ensures
        r@ == lowercase(s@),
;

/// What `String::from_utf16_lossy` makes of UTF-16 code units.
pub uninterp spec fn utf16_text(units: Seq<u16>) -> Seq<char>;

/// `String::from_utf16_lossy`: the decoded text, with a replacement character
/// for what is no valid UTF-16. It depends on the code units alone.
pub assume_specification[ String::from_utf16_lossy ](units: &[u16]) -> (r: String)
    ensures
        r@ == utf16_text(units@),
;

/// `String::push`: appends one character.
pub assume_specification[ String::push ](s: &mut String, c: char)
    ensures
        final(s)@ == old(s)@.push(c),
;

/// `String::push_str`: appends a text.
pub assume_specification[ String::push_str ](s: &mut String, t: &str)
    ensures
        final(s)@ == old(s)@ + t@,
;

/// `std::str::from_utf8`: the text that the bytes encode, if they are valid
/// UTF-8.
#[verifier::external_body]
pub(crate) fn utf8_str(b: &[u8]) -> (r: Option<&str>)
    ensures
        r is Some <==> valid_utf8(b@),
        r is Some ==> encode_utf8(r->0@) == b@,
{
    std::str::from_utf8(b).ok()
}

/// The characters of a text.
pub fn chars_of(s: &str) -> (r: Vec<char>)
    ensures
        r@ == s@,
{
    let mut out: Vec<char> = Vec::new();
    let ghost all = spec_iter(s).remaining();
    for c in it: s.chars()
        invariant
            it.seq() == all,
            out@ == all.take(it.index() as int),
    {
        out.push(c);
    }
    assert(all.take(all.len() as int) =~= all);
    out
}

/// The text of some characters.
pub fn string_of(chars: &[char]) -> (r: String)
    ensures
        r@ == chars@,
{
    let mut out = String::new();
    let mut i: usize = 0;
    assert(chars@.take(0) =~= Seq::<char>::empty());
    while i < chars.len()
        invariant
            i <= chars@.len(),
            out@ == chars@.take(i as int),
        decreases chars@.len() - i,
    {
        out.push(chars[i]);
        assert(chars@.take(i + 1) =~= chars@.take(i as int).push(chars@[i as int]));
        i = i + 1;
    }
    assert(chars@.take(i as int) =~= chars@);
    out
}

/// Whether two texts are equal.
pub fn str_eq(a: &str, b: &str) -> (r: bool)
    ensures
        r == (a@ == b@),
{
    proof {
        encode_utf8_decode_utf8(a@);
        encode_utf8_decode_utf8(b@);
    }
    bytes_eq(a.as_bytes(), b.as_bytes())
}

/// `q` stands in `s` at position `at`.
pub open spec fn text_at(s: Seq<char>, q: Seq<char>, at: int) -> bool {
    0 <= at && at + q.len() <= s.len() && s.subrange(at, at + q.len()) == q
}

/// `q` stands somewhere in `s`.
pub open spec fn has_text(s: Seq<char>, q: Seq<char>) -> bool {
    exists|at: int| text_at(s, q, at)
}

/// Whether `q` stands in `s` at position `at`.
pub fn chars_at(s: &[char], q: &[char], at: usize) -> (r: bool)
    ensures
        r == text_at(s@, q@, at as int),
{
    if at > s.len() || q.len() > s.len() - at {
        return false;
    }
    let mut i: usize = 0;
    while i < q.len()
        invariant
            at + q.len() <= s.len(),
            i <= q.len(),
            forall|k: int| 0 <= k < i ==> s@[at + k] == q@[k],
        decreases q.len() - i,
    {
        if s[at + i] != q[i] {
            assert(s@.subrange(at as int, at + q.len())[i as int] == s@[at + i]);
            return false;
        }
        i = i + 1;
    }
    assert(s@.subrange(at as int, at + q.len()) =~= q@);
    true
}

/// The first position at or after `from` where `q` stands in `s`.
pub fn chars_find(s: &[char], q: &[char], from: usize) -> (r: Option<usize>)
    ensures
        r is Some ==> from <= r->0 && text_at(s@, q@, r->0 as int) && forall|k: int|
            from <= k < r->0 ==> !text_at(s@, q@, k),
        r is Some ==> r->0 + q.len() <= s.len(),
        r is None ==> forall|k: int| from <= k ==> !text_at(s@, q@, k),
{
    let mut at: usize = from;
    while at <= s.len()
        invariant
            from <= at,
            forall|k: int| from <= k < at ==> !text_at(s@, q@, k),
        decreases s.len() + 1 - at,
    {
        if chars_at(s, q, at) {
            return Some(at);
        }
        if at == s.len() {
            return None;
        }
        at = at + 1;
    }
    None
}

/// `s` begins with `q`.
pub open spec fn text_starts(s: Seq<char>, q: Seq<char>) -> bool {
    text_at(s, q, 0)
}

/// `s` ends with `q`.
pub open spec fn text_ends(s: Seq<char>, q: Seq<char>) -> bool {
    text_at(s, q, s.len() - q.len())
}

/// Whether `s` begins with `q`.
pub fn str_starts(s: &str, q: &str) -> (r: bool)
    ensures
        r == text_starts(s@, q@),
{
    chars_at(chars_of(s).as_slice(), chars_of(q).as_slice(), 0)
}

/// Whether `s` ends with `q`.
pub fn str_ends(s: &str, q: &str) -> (r: bool)
    ensures
        r == text_ends(s@, q@),
{
    let a = chars_of(s);
    let b = chars_of(q);
    if b.len() > a.len() {
        return false;
    }
    chars_at(a.as_slice(), b.as_slice(), a.len() - b.len())
}

/// Whether `q` stands somewhere in `s`.
pub fn str_has(s: &str, q: &str) -> (r: bool)
    ensures
        r == has_text(s@, q@),
{
    let found = chars_find(chars_of(s).as_slice(), chars_of(q).as_slice(), 0);
    found.is_some()
}

/// What follows a prefix, if the text begins with it.
pub fn strip_start(s: &str, q: &str) -> (r: Option<String>)
    ensures
        r is Some <==> text_starts(s@, q@),
        r is Some ==> r->0@ == s@.skip(q@.len() as int),
{
    let a = chars_of(s);
    let b = chars_of(q);
    if chars_at(a.as_slice(), b.as_slice(), 0) {
        Some(string_of(&a.as_slice()[b.len()..a.len()]))
    } else {
        None
    }
}

/// A character with the Unicode property `White_Space`.
pub open spec fn is_space(c: char) -> bool {
    ||| 0x09 <= c as u32 <= 0x0d
    ||| c as u32 == 0x20
    ||| c as u32 == 0x85
    ||| c as u32 == 0xa0
    ||| c as u32 == 0x1680
    ||| 0x2000 <= c as u32 <= 0x200a
    ||| c as u32 == 0x2028
    ||| c as u32 == 0x2029
    ||| c as u32 == 0x202f
    ||| c as u32 == 0x205f
    ||| c as u32 == 0x3000
}

/// Whether a character has the Unicode property `White_Space`.
pub fn space(c: char) -> (r: bool)
    ensures
        r == is_space(c),
{
    let n: u32 = c as u32;
    (0x09 <= n && n <= 0x0d) || n == 0x20 || n == 0x85 || n == 0xa0 || n == 0x1680 || (0x2000 <= n
        && n <= 0x200a) || n == 0x2028 || n == 0x2029 || n == 0x202f || n == 0x205f || n == 0x3000
}

/// A text without leading white space.
pub open spec fn trimmed_start(s: Seq<char>) -> Seq<char>
    decreases s.len(),
{
    if s.len() > 0 && is_space(s[0]) {
        trimmed_start(s.drop_first())
    } else {
        s
    }
}

/// A text without trailing white space.
pub open spec fn trimmed_end(s: Seq<char>) -> Seq<char>
    decreases s.len(),
{
    if s.len() > 0 && is_space(s.last()) {
        trimmed_end(s.drop_last())
    } else {
        s
    }
}

/// A text without leading and trailing white space.
pub open spec fn trimmed(s: Seq<char>) -> Seq<char> {
    trimmed_end(trimmed_start(s))
}

/// Where a text without leading and trailing white space begins and ends.
pub fn trim_range(s: &[char]) -> (r: (usize, usize))
    ensures
        r.0 <= r.1 <= s.len(),
        s@.subrange(r.0 as int, r.1 as int) == trimmed(s@),
{
    let mut lo: usize = 0;
    assert(s@.skip(0) =~= s@);
    while lo < s.len() && space(s[lo])
        invariant
            lo <= s.len(),
            trimmed_start(s@) == trimmed_start(s@.skip(lo as int)),
        decreases s.len() - lo,
    {
        assert(s@.skip(lo as int)[0] == s@[lo as int]);
        assert(s@.skip(lo as int).drop_first() =~= s@.skip(lo + 1));
        lo = lo + 1;
    }
    let ghost from = s@.skip(lo as int);
    proof {
        if lo < s.len() {
            assert(from[0] == s@[lo as int]);
        }
        assert(trimmed_start(s@) == from);
        assert(from =~= s@.subrange(lo as int, s@.len() as int));
    }
    let mut hi: usize = s.len();
    while hi > lo && space(s[hi - 1])
        invariant
            lo <= hi <= s.len(),
            trimmed_end(from) == trimmed_end(s@.subrange(lo as int, hi as int)),
        decreases hi,
    {
        let ghost part = s@.subrange(lo as int, hi as int);
        assert(part.last() == s@[hi - 1]);
        assert(part.drop_last() =~= s@.subrange(lo as int, hi - 1));
        hi = hi - 1;
    }
    proof {
        let part = s@.subrange(lo as int, hi as int);
        if hi > lo {
            assert(part.last() == s@[hi - 1]);
        }
    }
    (lo, hi)
}

/// A text without leading and trailing white space.
pub fn str_trim(s: &str) -> (r: String)
    ensures
        r@ == trimmed(s@),
{
    let a = chars_of(s);
    let (lo, hi) = trim_range(a.as_slice());
    string_of(&a.as_slice()[lo..hi])
}

/// An ASCII letter.
pub open spec fn is_ascii_letter(c: char) -> bool {
    'a' <= c <= 'z' || 'A' <= c <= 'Z'
}

/// An ASCII digit.
pub open spec fn is_ascii_num(c: char) -> bool {
    '0' <= c <= '9'
}

/// An ASCII letter or digit.
pub open spec fn is_ascii_word(c: char) -> bool {
    is_ascii_letter(c) || is_ascii_num(c)
}

/// Whether a character is an ASCII letter.
pub fn ascii_letter(c: char) -> (r: bool)
    ensures
        r == is_ascii_letter(c),
{
    ('a' <= c && c <= 'z') || ('A' <= c && c <= 'Z')
}

/// Whether a character is an ASCII digit.
pub fn ascii_num(c: char) -> (r: bool)
    ensures
        r == is_ascii_num(c),
{
    '0' <= c && c <= '9'
}

/// Whether a character is an ASCII letter or digit.
pub fn ascii_word(c: char) -> (r: bool)
    ensures
        r == is_ascii_word(c),
{
    ascii_letter(c) || ascii_num(c)
}

/// A character with ASCII capitals made small.
pub open spec fn ascii_small(c: char) -> char {
    if 'A' <= c <= 'Z' {
        (c as u8 + 32) as char
    } else {
        c
    }
}

/// A character with ASCII capitals made small.
pub fn small(c: char) -> (r: char)
    ensures
        r == ascii_small(c),
{
    if 'A' <= c && c <= 'Z' {
        (c as u8 + 32) as char
    } else {
        c
    }
}

/// A text with ASCII capitals made small.
pub open spec fn ascii_lower(s: Seq<char>) -> Seq<char> {
    s.map_values(|c: char| ascii_small(c))
}

/// A text with ASCII capitals made small.
pub fn str_ascii_lower(s: &str) -> (r: String)
    ensures
        r@ == ascii_lower(s@),
{
    let a = chars_of(s);
    let mut out = String::new();
    let mut i: usize = 0;
    assert(ascii_lower(a@.take(0)) =~= Seq::<char>::empty());
    while i < a.len()
        invariant
            i <= a@.len(),
            out@ == ascii_lower(a@.take(i as int)),
        decreases a@.len() - i,
    {
        out.push(small(a[i]));
        assert(ascii_lower(a@.take(i + 1)) =~= ascii_lower(a@.take(i as int)).push(
            ascii_small(a@[i as int]),
        ));
        i = i + 1;
    }
    assert(a@.take(i as int) =~= a@);
    out
}

/// How many characters of a text stand before its first white space.
pub open spec fn word_len(s: Seq<char>) -> nat
    decreases s.len(),
{
    if s.len() == 0 || is_space(s[0]) {
        0
    } else {
        1 + word_len(s.drop_first())
    }
}

/// The words of a text: what its white space separates.
pub open spec fn words(s: Seq<char>) -> Seq<Seq<char>>
    decreases s.len(),
{
    if s.len() == 0 {
        Seq::empty()
    } else if is_space(s[0]) {
        words(s.drop_first())
    } else {
        proof {
            lemma_word_len(s);
        }
        seq![s.take(word_len(s) as int)] + words(s.skip(word_len(s) as int))
    }
}

/// A word is no longer than the text, and not empty where one begins.
pub proof fn lemma_word_len(s: Seq<char>)
    ensures
        word_len(s) <= s.len(),
        s.len() > 0 && !is_space(s[0]) ==> word_len(s) > 0,
    decreases s.len(),
{
    if s.len() > 0 && !is_space(s[0]) {
        lemma_word_len(s.drop_first());
    }
}

/// The texts of a list.
pub open spec fn texts(v: Seq<String>) -> Seq<Seq<char>> {
    v.map_values(|s: String| s@)
}

/// The words of a text.
pub fn str_words(s: &str) -> (r: Vec<String>)
    ensures
        texts(r@) == words(s@),
{
    let a = chars_of(s);
    let mut out: Vec<String> = Vec::new();
    let mut i: usize = 0;
    assert(a@.skip(0) =~= a@);
    assert(texts(out@) + words(a@) =~= words(a@));
    while i < a.len()
        invariant
            i <= a@.len(),
            texts(out@) + words(a@.skip(i as int)) == words(a@),
        decreases a@.len() - i,
    {
        let ghost rest = a@.skip(i as int);
        assert(rest[0] == a@[i as int]);
        if space(a[i]) {
            assert(rest.drop_first() =~= a@.skip(i + 1));
            i = i + 1;
        } else {
            let mut end: usize = i;
            proof {
                lemma_word_len(rest);
                assert(a@.skip(end as int) == rest);
            }
            while end < a.len() && !space(a[end])
                invariant
                    i <= end <= a@.len(),
                    word_len(rest) == (end - i) + word_len(a@.skip(end as int)),
                decreases a@.len() - end,
            {
                assert(a@.skip(end as int)[0] == a@[end as int]);
                assert(a@.skip(end as int).drop_first() =~= a@.skip(end + 1));
                end = end + 1;
            }
            proof {
                if end < a.len() {
                    assert(a@.skip(end as int)[0] == a@[end as int]);
                }
                assert(word_len(a@.skip(end as int)) == 0);
                assert(rest.take(end - i) =~= a@.subrange(i as int, end as int));
                assert(rest.skip(end - i) =~= a@.skip(end as int));
            }
            let ghost before = texts(out@);
            out.push(string_of(&a.as_slice()[i..end]));
            proof {
                let w = a@.subrange(i as int, end as int);
                assert(texts(out@) =~= before.push(w));
                assert(before.push(w) + words(a@.skip(end as int)) =~= before + (seq![w] + words(
                    a@.skip(end as int),
                )));
            }
            i = end;
        }
    }
    assert(a@.skip(i as int).len() == 0);
    assert(texts(out@) =~= words(a@));
    out
}

/// Whether a text stands in a list.
pub fn str_in(s: &str, list: &[&str]) -> (r: bool)
    ensures
        r == exists|i: int| 0 <= i < list@.len() && #[trigger] list@[i]@ == s@,
{
    let mut i: usize = 0;
    while i < list.len()
        invariant
            i <= list@.len(),
            forall|k: int| 0 <= k < i ==> #[trigger] list@[k]@ != s@,
        decreases list@.len() - i,
    {
        if str_eq(s, list[i]) {
            assert(list@[i as int]@ == s@);
            return true;
        }
        i = i + 1;
    }
    false
}

/// The first position at or after `from` where `q` stands in `s`, or -1.
pub open spec fn find_text(s: Seq<char>, q: Seq<char>, from: int) -> int
    decreases s.len() + 1 - from,
{
    if from < 0 || from + q.len() > s.len() {
        -1
    } else if text_at(s, q, from) {
        from
    } else {
        find_text(s, q, from + 1)
    }
}

/// `find_text` finds the first position, and -1 means that there is none.
pub proof fn lemma_find_text(s: Seq<char>, q: Seq<char>, from: int)
    requires
        0 <= from,
    ensures
        find_text(s, q, from) >= 0 ==> {
            &&& from <= find_text(s, q, from)
            &&& text_at(s, q, find_text(s, q, from))
            &&& forall|k: int| from <= k < find_text(s, q, from) ==> !text_at(s, q, k)
        },
        find_text(s, q, from) < 0 ==> find_text(s, q, from) == -1 && forall|k: int|
            from <= k ==> !text_at(s, q, k),
    decreases s.len() + 1 - from,
{
    if from + q.len() <= s.len() && !text_at(s, q, from) {
        lemma_find_text(s, q, from + 1);
    }
}

/// The first position at or after `from` where `q` stands in `s`.
pub fn find_chars(s: &[char], q: &[char], from: usize) -> (r: Option<usize>)
    ensures
        r is Some <==> find_text(s@, q@, from as int) >= 0,
        r is Some ==> r->0 == find_text(s@, q@, from as int) && from <= r->0 && r->0 + q.len()
            <= s.len(),
        r is None ==> find_text(s@, q@, from as int) == -1,
{
    proof {
        lemma_find_text(s@, q@, from as int);
    }
    let r = chars_find(s, q, from);
    r
}

/// A text with each `q` replaced by `with`, from the left, without overlaps.
pub open spec fn replaced_text(s: Seq<char>, q: Seq<char>, with: Seq<char>) -> Seq<char>
    decreases s.len(),
{
    let at = find_text(s, q, 0);
    if q.len() == 0 || at < 0 {
        s
    } else {
        proof {
            lemma_find_text(s, q, 0);
        }
        s.take(at) + with + replaced_text(s.skip(at + q.len()), q, with)
    }
}

proof fn lemma_find_shift(s: Seq<char>, q: Seq<char>, base: int, from: int)
    requires
        0 <= base <= s.len(),
        0 <= from,
    ensures
        find_text(s.skip(base), q, from) >= 0 <==> find_text(s, q, base + from) >= 0,
        find_text(s.skip(base), q, from) >= 0 ==> find_text(s, q, base + from) == base + find_text(
            s.skip(base),
            q,
            from,
        ),
    decreases s.len() + 1 - base - from,
{
    let t = s.skip(base);
    if from + q.len() <= t.len() {
        assert(t.subrange(from, from + q.len()) =~= s.subrange(
            base + from,
            base + from + q.len(),
        ));
        if !text_at(t, q, from) {
            lemma_find_shift(s, q, base, from + 1);
        }
    }
}

/// A text with each `q` replaced by `with`.
pub fn str_replace(text: &str, q: &str, with: &str) -> (r: String)
    requires
        q@.len() > 0,
    ensures
        r@ == replaced_text(text@, q@, with@),
{
    let s = chars_of(text);
    let k = chars_of(q);
    let mut out = String::new();
    let mut from: usize = 0;
    let mut done = false;
    assert(s@.skip(0) =~= s@);
    assert(out@ + replaced_text(s@, q@, with@) =~= replaced_text(s@, q@, with@));
    while !done
        invariant
            s@ == text@,
            k@ == q@,
            q@.len() > 0,
            from <= s@.len(),
            s@.len() == s.len(),
            !done ==> out@ + replaced_text(s@.skip(from as int), q@, with@) == replaced_text(
                s@,
                q@,
                with@,
            ),
            done ==> out@ == replaced_text(s@, q@, with@),
        decreases s@.len() - from + (if done { 0int } else { 1int }),
    {
        let ghost rest = s@.skip(from as int);
        proof {
            lemma_find_shift(s@, q@, from as int, 0);
            lemma_find_text(rest, q@, 0);
            lemma_find_text(s@, q@, from as int);
        }
        match find_chars(s.as_slice(), k.as_slice(), from) {
            None => {
                assert(s@.subrange(from as int, s@.len() as int) =~= rest);
                let tail = string_of(&s.as_slice()[from..s.len()]);
                out.push_str(tail.as_str());
                done = true;
            },
            Some(at) => {
                let ghost before = out@;
                let part = string_of(&s.as_slice()[from..at]);
                out.push_str(part.as_str());
                out.push_str(with);
                proof {
                    assert(rest.take(at - from) =~= part@);
                    assert(rest.skip(at - from + q@.len()) =~= s@.skip(at + q@.len()));
                    let more = replaced_text(s@.skip(at + q@.len()), q@, with@);
                    assert(before + part@ + with@ + more =~= before + (part@ + with@ + more));
                }
                from = at + k.len();
            },
        }
    }
    out
}

/// How many bytes UTF-8 takes for a character.
pub open spec fn char_width(c: char) -> nat {
    if (c as u32) < 0x80 {
        1
    } else if (c as u32) < 0x800 {
        2
    } else if (c as u32) < 0x10000 {
        3
    } else {
        4
    }
}

/// How many bytes UTF-8 takes for a text.
pub open spec fn text_width(s: Seq<char>) -> nat
    decreases s.len(),
{
    if s.len() == 0 {
        0
    } else {
        text_width(s.drop_last()) + char_width(s.last())
    }
}

/// How many of the first characters of a text, from `i` on, fit into `n` bytes.
pub open spec fn fitting(s: Seq<char>, n: int, i: int) -> int
    decreases s.len() - i,
{
    if i < 0 || i >= s.len() || char_width(s[i]) > n {
        i
    } else {
        fitting(s, n - char_width(s[i]), i + 1)
    }
}

/// A text that takes more than `n` bytes, cut to the characters that fit into
/// them, with an ellipsis behind.
pub open spec fn shortened(s: Seq<char>, n: int) -> Seq<char> {
    if text_width(s) > n {
        s.take(fitting(s, n, 0)).push('\u{2026}')
    } else {
        s
    }
}

/// How many bytes UTF-8 takes for a character.
fn width_of(c: char) -> (r: usize)
    ensures
        r == char_width(c),
{
    let n: u32 = c as u32;
    if n < 0x80 {
        1
    } else if n < 0x800 {
        2
    } else if n < 0x10000 {
        3
    } else {
        4
    }
}

/// Cuts a text that takes more than `n` bytes.
pub fn str_shorten(text: &str, n: usize) -> (r: String)
    ensures
        r@ == shortened(text@, n as int),
{
    let s = chars_of(text);
    let mut i: usize = 0;
    let mut left: usize = n;
    while i < s.len() && width_of(s[i]) <= left
        invariant
            i <= s.len(),
            s@ == text@,
            left <= n,
            text_width(s@.take(i as int)) == n - left,
            fitting(s@, n as int, 0) == fitting(s@, left as int, i as int),
        decreases s.len() - i,
    {
        assert(s@.take(i + 1).drop_last() =~= s@.take(i as int));
        left = left - width_of(s[i]);
        i = i + 1;
    }
    if i == s.len() {
        assert(s@.take(i as int) =~= s@);
        return string_of(s.as_slice());
    }
    proof {
        assert(s@.take(i + 1).drop_last() =~= s@.take(i as int));
        lemma_width_grows(s@, i + 1, s@.len() as int);
        assert(s@.take(s@.len() as int) =~= s@);
        assert(s@.subrange(0, i as int) =~= s@.take(i as int));
    }
    let mut out = string_of(&s.as_slice()[0..i]);
    out.push('\u{2026}');
    out
}

proof fn lemma_width_grows(s: Seq<char>, i: int, j: int)
    requires
        0 <= i <= j <= s.len(),
    ensures
        text_width(s.take(i)) <= text_width(s.take(j)),
    decreases j - i,
{
    if i < j {
        lemma_width_grows(s, i, j - 1);
        assert(s.take(j).drop_last() =~= s.take(j - 1));
    }
}

/// What a character separates in a text: one part more than it stands there.
pub open spec fn parts(s: Seq<char>, c: char) -> Seq<Seq<char>>
    decreases s.len(),
{
    let at = find_text(s, seq![c], 0);
    if at < 0 {
        seq![s]
    } else {
        proof {
            lemma_find_text(s, seq![c], 0);
        }
        seq![s.take(at)] + parts(s.skip(at + 1), c)
    }
}

/// What a character separates in a text.
pub fn str_parts(text: &str, c: char) -> (r: Vec<String>)
    ensures
        texts(r@) == parts(text@, c),
        r.len() > 0,
{
    let s = chars_of(text);
    let mut key: Vec<char> = Vec::new();
    key.push(c);
    assert(key@ =~= seq![c]);
    let mut out: Vec<String> = Vec::new();
    let mut from: usize = 0;
    let mut done = false;
    let ghost goal = parts(s@, c);
    assert(s@.skip(0) =~= s@);
    assert(texts(out@) + goal =~= goal);
    while !done
        invariant
            s@ == text@,
            key@ == seq![c],
            from <= s@.len(),
            s@.len() == s.len(),
            !done ==> texts(out@) + parts(s@.skip(from as int), c) == goal,
            done ==> texts(out@) == goal && out.len() > 0,
        decreases s@.len() - from + (if done { 0int } else { 1int }),
    {
        let ghost rest = s@.skip(from as int);
        let ghost before = texts(out@);
        proof {
            lemma_find_shift(s@, seq![c], from as int, 0);
            lemma_find_text(rest, seq![c], 0);
            lemma_find_text(s@, seq![c], from as int);
        }
        match find_chars(s.as_slice(), key.as_slice(), from) {
            None => {
                assert(s@.subrange(from as int, s@.len() as int) =~= rest);
                out.push(string_of(&s.as_slice()[from..s.len()]));
                assert(texts(out@) =~= before + seq![rest]);
                done = true;
            },
            Some(at) => {
                let part = string_of(&s.as_slice()[from..at]);
                proof {
                    assert(rest.take(at - from) =~= part@);
                    assert(rest.skip(at - from + 1) =~= s@.skip(at + 1));
                }
                out.push(part);
                proof {
                    assert(texts(out@) =~= before.push(part@));
                    let more = parts(s@.skip(at + 1), c);
                    assert(before.push(part@) + more =~= before + (seq![part@] + more));
                }
                from = at + 1;
            },
        }
    }
    out
}

} // verus!
