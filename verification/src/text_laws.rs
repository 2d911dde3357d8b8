//! What holds of texts: parts of them, their words, and numbers in them.
use crate::num::{ago, decimal, digit, stamp_text, three};
use crate::text::{
    char_width, find_text, fitting, has_text, is_space, lemma_find_text, lemma_word_len, parts,
    replaced_text, shortened, text_at, text_ends, text_starts, text_width, trimmed, trimmed_end,
    trimmed_start, word_len, words,
};
use crate::utf16::{char_units, code_units, le_bytes, nul_at};
use vstd::prelude::*;
use vstd::utf8::encode_utf8;

verus! {

/// What stands between two parts is found in the whole, and what is found stands
/// between two parts.
pub proof fn law_text_stands_between(a: Seq<char>, q: Seq<char>, b: Seq<char>, s: Seq<char>) -> (at:
    int)
    ensures
        has_text(a + q + b, q),
        text_starts(q + b, q),
        text_ends(a + q, q),
        has_text(s, q) ==> 0 <= at <= s.len() - q.len() && s == s.take(at) + q + s.skip(
            at + q.len(),
        ),
        text_starts(s, q) ==> q.len() <= s.len() && s == q + s.skip(q.len() as int),
        text_ends(s, q) ==> q.len() <= s.len() && s == s.take(s.len() - q.len()) + q,
{
    let start: int = a.len() as int;
    assert((a + q + b).subrange(start, start + q.len()) =~= q);
    assert(text_at(a + q + b, q, start));
    assert((q + b).subrange(0, q.len() as int) =~= q);
    assert((a + q).subrange(start, start + q.len()) =~= q);
    let at = choose|at: int| text_at(s, q, at);
    if has_text(s, q) {
        lemma_whole(s, q, at);
    }
    if text_starts(s, q) {
        lemma_whole(s, q, 0);
        assert(s.take(0) + q =~= q);
    }
    if text_ends(s, q) {
        lemma_whole(s, q, s.len() - q.len());
        assert(s =~= s.take(s.len() - q.len()) + q);
    }
    at
}

proof fn lemma_whole(s: Seq<char>, q: Seq<char>, at: int)
    requires
        text_at(s, q, at),
    ensures
        s == s.take(at) + q + s.skip(at + q.len()),
{
    let whole = s.take(at) + q + s.skip(at + q.len());
    assert forall|k: int| 0 <= k < s.len() implies #[trigger] whole[k] == s[k] by {
        if at <= k < at + q.len() {
            assert(s.subrange(at, at + q.len())[k - at] == s[k]);
        }
    }
    assert(s =~= whole);
}

/// Trimming takes white space away at both ends, all of it, and nothing else.
pub proof fn law_trimming_takes_white_space(s: Seq<char>) -> (r: (int, int))
    ensures
        0 <= r.0 <= r.1 <= s.len(),
        trimmed(s) == s.subrange(r.0, r.1),
        forall|k: int| 0 <= k < r.0 ==> is_space(#[trigger] s[k]),
        forall|k: int| r.1 <= k < s.len() ==> is_space(#[trigger] s[k]),
        trimmed(s).len() > 0 ==> !is_space(trimmed(s)[0]) && !is_space(trimmed(s).last()),
{
    let lo = lemma_trim_start(s);
    let t = trimmed_start(s);
    let n = lemma_trim_end(t);
    assert(t.take(n) =~= s.subrange(lo, lo + n));
    assert forall|k: int| lo + n <= k < s.len() implies is_space(#[trigger] s[k]) by {
        assert(t[k - lo] == s[k]);
    }
    if n > 0 {
        assert(t.take(n)[0] == t[0]);
    }
    (lo, lo + n)
}

proof fn lemma_trim_start(s: Seq<char>) -> (lo: int)
    ensures
        0 <= lo <= s.len(),
        trimmed_start(s) == s.skip(lo),
        forall|k: int| 0 <= k < lo ==> is_space(#[trigger] s[k]),
        lo < s.len() ==> !is_space(s[lo]),
    decreases s.len(),
{
    if s.len() > 0 && is_space(s[0]) {
        let rest = s.drop_first();
        let lo = lemma_trim_start(rest);
        assert(rest.skip(lo) =~= s.skip(lo + 1));
        assert forall|k: int| 0 <= k < lo + 1 implies is_space(#[trigger] s[k]) by {
            if k > 0 {
                assert(rest[k - 1] == s[k]);
            }
        }
        lo + 1
    } else {
        assert(s.skip(0) =~= s);
        0
    }
}

proof fn lemma_trim_end(s: Seq<char>) -> (n: int)
    ensures
        0 <= n <= s.len(),
        trimmed_end(s) == s.take(n),
        forall|k: int| n <= k < s.len() ==> is_space(#[trigger] s[k]),
        n > 0 ==> !is_space(s[n - 1]),
    decreases s.len(),
{
    if s.len() > 0 && is_space(s.last()) {
        let head = s.drop_last();
        let n = lemma_trim_end(head);
        assert(head.take(n) =~= s.take(n));
        assert forall|k: int| n <= k < s.len() implies is_space(#[trigger] s[k]) by {
            if k < head.len() {
                assert(head[k] == s[k]);
            }
        }
        n
    } else {
        assert(s.take(s.len() as int) =~= s);
        s.len() as int
    }
}

/// White space parts the words of a text: those of two texts with white space
/// between them are those of the first and those of the second. A text without
/// white space is one word.
pub proof fn law_white_space_parts_words(a: Seq<char>, c: char, b: Seq<char>)
    requires
        is_space(c),
    ensures
        words(a.push(c) + b) == words(a) + words(b),
        a.len() > 0 && (forall|k: int| 0 <= k < a.len() ==> !is_space(#[trigger] a[k])) ==> words(a)
            == seq![a],
        words(Seq::empty()) == Seq::<Seq<char>>::empty(),
    decreases a.len(),
{
    let s = a.push(c) + b;
    if a.len() == 0 {
        assert(s.drop_first() =~= b);
        assert(words(a) + words(b) =~= words(b));
    } else if is_space(a[0]) {
        law_white_space_parts_words(a.drop_first(), c, b);
        assert(s.drop_first() =~= a.drop_first().push(c) + b);
    } else {
        lemma_word_len(a);
        lemma_word_len(s);
        let n = word_len(a) as int;
        lemma_same_word(a, c, b);
        assert(s.take(n) =~= a.take(n));
        let rest = a.skip(n);
        assert(s.skip(n) =~= rest.push(c) + b);
        law_white_space_parts_words(rest, c, b);
        assert(words(s) =~= words(a) + words(b));
        if forall|k: int| 0 <= k < a.len() ==> !is_space(#[trigger] a[k]) {
            lemma_all_word(a);
            assert(a.take(n) =~= a);
            assert(rest =~= Seq::empty());
            assert(words(a) =~= seq![a]);
        }
    }
}

proof fn lemma_same_word(a: Seq<char>, c: char, b: Seq<char>)
    requires
        is_space(c),
    ensures
        word_len(a.push(c) + b) == word_len(a),
    decreases a.len(),
{
    let s = a.push(c) + b;
    if a.len() > 0 && !is_space(a[0]) {
        assert(s.drop_first() =~= a.drop_first().push(c) + b);
        lemma_same_word(a.drop_first(), c, b);
    }
}

proof fn lemma_all_word(a: Seq<char>)
    requires
        forall|k: int| 0 <= k < a.len() ==> !is_space(#[trigger] a[k]),
    ensures
        word_len(a) == a.len(),
    decreases a.len(),
{
    if a.len() > 0 {
        assert(!is_space(a[0]));
        let rest = a.drop_first();
        assert forall|k: int| 0 <= k < rest.len() implies !is_space(#[trigger] rest[k]) by {
            assert(rest[k] == a[k + 1]);
        }
        lemma_all_word(rest);
    }
}

/// Replacing goes from the left: the first place where a text stands is replaced,
/// and then what is behind it. Where it does not stand nothing changes.
pub proof fn law_replacing_goes_from_the_left(s: Seq<char>, q: Seq<char>, with: Seq<char>, at: int)
    requires
        q.len() > 0,
        text_at(s, q, at),
        forall|k: int| 0 <= k < at ==> !text_at(s, q, k),
    ensures
        replaced_text(s, q, with) == s.take(at) + with + replaced_text(
            s.skip(at + q.len()),
            q,
            with,
        ),
{
    lemma_find_first(s, q, 0, at);
}

/// A text that does not hold another is not changed by replacing it.
pub proof fn law_nothing_to_replace(s: Seq<char>, q: Seq<char>, with: Seq<char>)
    requires
        !has_text(s, q),
    ensures
        replaced_text(s, q, with) == s,
{
    lemma_find_text(s, q, 0);
    let at = find_text(s, q, 0);
    if at >= 0 {
        assert(text_at(s, q, at));
    }
}

proof fn lemma_find_first(s: Seq<char>, q: Seq<char>, from: int, at: int)
    requires
        0 <= from <= at,
        text_at(s, q, at),
        forall|k: int| from <= k < at ==> !text_at(s, q, k),
    ensures
        find_text(s, q, from) == at,
    decreases at - from,
{
    if from < at {
        assert(!text_at(s, q, from));
        lemma_find_first(s, q, from + 1, at);
    }
}

/// The parts of a text are what stands between the separators: the first part
/// ends where the separator first stands.
pub proof fn law_separator_parts_a_text(a: Seq<char>, c: char, b: Seq<char>)
    requires
        forall|k: int| 0 <= k < a.len() ==> #[trigger] a[k] != c,
    ensures
        parts(a, c) == seq![a],
        parts(a.push(c) + b, c) == seq![a] + parts(b, c),
{
    let q = seq![c];
    lemma_find_text(a, q, 0);
    let f = find_text(a, q, 0);
    if f >= 0 {
        assert(a.subrange(f, f + 1)[0] == c);
        assert(a[f] == c);
    }
    let s = a.push(c) + b;
    let n: int = a.len() as int;
    assert(s.subrange(n, n + 1) =~= q);
    assert forall|k: int| 0 <= k < n implies !text_at(s, q, k) by {
        if text_at(s, q, k) {
            assert(s.subrange(k, k + 1)[0] == s[k]);
            assert(s[k] == a[k]);
        }
    }
    lemma_find_first(s, q, 0, n);
    assert(s.take(n) =~= a);
    assert(s.skip(n + 1) =~= b);
}

/// A text that takes no more bytes than there is room for stays. Of any other as
/// many characters are kept as there is room for, with an ellipsis behind.
pub proof fn law_shortened_text_fits(s: Seq<char>, n: int) -> (k: int)
    requires
        n >= 0,
    ensures
        text_width(s) <= n ==> shortened(s, n) == s,
        text_width(s) > n ==> {
            &&& 0 <= k < s.len()
            &&& shortened(s, n) == s.take(k) + seq!['\u{2026}']
            &&& text_width(s.take(k)) <= n
            &&& text_width(s.take(k + 1)) > n
        },
{
    let k = lemma_fitting(s, n, 0);
    assert(s.take(0) =~= Seq::empty());
    if text_width(s) > n {
        if k >= s.len() {
            assert(s.take(k) =~= s);
        }
        assert(s.take(k).push('\u{2026}') =~= s.take(k) + seq!['\u{2026}']);
    }
    k
}

proof fn lemma_fitting(s: Seq<char>, n: int, i: int) -> (k: int)
    requires
        0 <= i <= s.len(),
        0 <= n,
    ensures
        k == fitting(s, n, i),
        i <= k <= s.len(),
        text_width(s.take(k)) <= text_width(s.take(i)) + n,
        k < s.len() ==> text_width(s.take(k + 1)) > text_width(s.take(i)) + n,
    decreases s.len() - i,
{
    if i >= s.len() || char_width(s[i]) > n {
        if i < s.len() {
            assert(s.take(i + 1).drop_last() =~= s.take(i));
        }
        i
    } else {
        assert(s.take(i + 1).drop_last() =~= s.take(i));
        lemma_fitting(s, n - char_width(s[i]), i + 1)
    }
}

/// The number that decimal digits stand for.
pub open spec fn value_of(s: Seq<char>) -> int
    decreases s.len(),
{
    if s.len() == 0 {
        0
    } else {
        10 * value_of(s.drop_last()) + (s.last() as int - 48)
    }
}

/// A number is written in decimal digits that stand for it, without a zero in
/// front.
pub proof fn law_digits_stand_for_the_number(n: nat)
    ensures
        value_of(decimal(n)) == n,
        decimal(n).len() > 0,
        forall|k: int| 0 <= k < decimal(n).len() ==> '0' <= #[trigger] decimal(n)[k] <= '9',
        n > 0 ==> decimal(n)[0] != '0',
    decreases n,
{
    reveal_with_fuel(value_of, 2);
    if n < 10 {
        assert(decimal(n).drop_last() =~= Seq::empty());
    } else {
        let up = decimal(n / 10);
        law_digits_stand_for_the_number(n / 10);
        assert(decimal(n).drop_last() =~= up);
        assert forall|k: int| 0 <= k < decimal(n).len() implies '0' <= #[trigger] decimal(n)[k]
            <= '9' by {
            if k < up.len() {
                assert(decimal(n)[k] == up[k]);
            }
        }
        assert(decimal(n)[0] == up[0]);
    }
}

/// How long ago something was is told in whole minutes, hours, days or weeks.
pub proof fn law_past_is_told_in_whole_units(n: int, rest: int)
    requires
        n >= 1,
        0 <= rest,
    ensures
        rest < 60 ==> ago(rest) == "just now"@,
        n < 60 && rest < 60 ==> ago(60 * n + rest) == decimal(n as nat) + " min ago"@,
        n < 24 && rest < 3600 ==> ago(3600 * n + rest) == decimal(n as nat) + " h ago"@,
        n < 30 && rest < 86_400 ==> ago(86_400 * n + rest) == decimal(n as nat) + " d ago"@,
        rest < 604_800 && 604_800 * n + rest >= 2_592_000 ==> ago(604_800 * n + rest) == decimal(
            n as nat,
        ) + " wk ago"@,
{
    if rest < 60 {
        assert((60 * n + rest) / 60 == n);
    }
    if rest < 3600 {
        assert((3600 * n + rest) / 3600 == n);
    }
    if rest < 86_400 {
        assert((86_400 * n + rest) / 86_400 == n);
    }
    if rest < 604_800 {
        assert((604_800 * n + rest) / 604_800 == n);
    }
}

/// A time stamp shows seconds and milliseconds, rounded: half a millisecond and
/// more counts as a whole one.
pub proof fn law_stamp_is_rounded(secs: u64, ms: int, rest: int, nanos: u32)
    requires
        0 <= ms <= 1000,
        -500_000 <= rest < 500_000,
        nanos == ms * 1_000_000 + rest,
        nanos < 1_000_000_000,
    ensures
        ms < 1000 ==> stamp_text(secs, nanos) == "+"@ + decimal(secs as nat) + "."@ + three(ms)
            + "s"@,
        ms == 1000 ==> stamp_text(secs, nanos) == "+"@ + decimal((secs + 1) as nat) + "."@ + three(
            0,
        ) + "s"@,
        ms < 1000 ==> value_of(three(ms)) == ms && three(ms).len() == 3,
{
    assert((nanos + 500_000) / 1_000_000 == ms);
    reveal_with_fuel(value_of, 4);
    if ms < 1000 {
        let t = three(ms);
        assert(t.drop_last() =~= seq![digit(ms / 100), digit(ms / 10 % 10)]);
        assert(t.drop_last().drop_last() =~= seq![digit(ms / 100)]);
        assert(t.drop_last().drop_last().drop_last() =~= Seq::empty());
    }
}

/// The code units of two texts stand one behind the other. A character below
/// 0x10000 is one unit, its own number; any other is a pair of surrogates, from
/// which its number is read back.
pub proof fn law_code_units(a: Seq<char>, b: Seq<char>, c: char)
    ensures
        code_units(a + b) == code_units(a) + code_units(b),
        code_units(seq![c]) == char_units(c),
        (c as u32) < 0x10000 ==> char_units(c).len() == 1 && char_units(c)[0] == c as u32,
        c as u32 >= 0x10000 ==> {
            let u = char_units(c);
            &&& u.len() == 2
            &&& 0xd800 <= u[0] < 0xdc00
            &&& 0xdc00 <= u[1] < 0xe000
            &&& c as u32 == 0x10000 + (u[0] - 0xd800) * 0x400 + (u[1] - 0xdc00)
        },
    decreases b.len(),
{
    reveal_with_fuel(code_units, 2);
    assert(seq![c].drop_last() =~= Seq::empty());
    assert(code_units(seq![c]) =~= char_units(c));
    if b.len() == 0 {
        assert(a + b =~= a);
        assert(code_units(a) + code_units(b) =~= code_units(a));
    } else {
        law_code_units(a, b.drop_last(), c);
        assert((a + b).drop_last() =~= a + b.drop_last());
        assert(code_units(a + b) =~= code_units(a) + code_units(b));
    }
}

/// A text ends at its first zero: no unit before it is zero.
pub proof fn law_text_ends_at_the_first_zero(u: Seq<u16>)
    ensures
        0 <= nul_at(u) <= u.len(),
        forall|k: int| 0 <= k < nul_at(u) ==> #[trigger] u[k] != 0,
        nul_at(u) < u.len() ==> u[nul_at(u)] == 0,
    decreases u.len(),
{
    if u.len() > 0 && u[0] != 0 {
        let rest = u.skip(1);
        law_text_ends_at_the_first_zero(rest);
        assert forall|k: int| 0 <= k < nul_at(u) implies #[trigger] u[k] != 0 by {
            if k > 0 {
                assert(rest[k - 1] == u[k]);
            }
        }
    }
}

/// The characters that are white space.
pub proof fn law_white_space(c: char)
    ensures
        is_space(c) <==> {
            ||| c == '\t' || c == '\n' || c == '\u{b}' || c == '\u{c}' || c == '\r' || c == ' '
            ||| c == '\u{85}' || c == '\u{a0}' || c == '\u{1680}'
            ||| '\u{2000}' <= c <= '\u{200a}'
            ||| c == '\u{2028}' || c == '\u{2029}' || c == '\u{202f}' || c == '\u{205f}'
            ||| c == '\u{3000}'
        },
{
}

/// The bytes of code units: two for each, the low one first.
pub proof fn law_units_as_bytes(u: Seq<u16>, i: int)
    requires
        0 <= i < u.len(),
    ensures
        le_bytes(u).len() == 2 * u.len(),
        le_bytes(u)[2 * i] + 256 * le_bytes(u)[2 * i + 1] == u[i],
    decreases u.len(),
{
    let head = u.drop_last();
    let last = u.last();
    assert((last % 256) as u8 == last % 256 && (last / 256) as u8 == last / 256);
    if head.len() > 0 {
        law_units_as_bytes(head, if i < head.len() {
            i
        } else {
            0
        });
        assert(2 * head.len() == le_bytes(head).len());
    } else {
        assert(le_bytes(head).len() == 0);
    }
    if i < head.len() {
        assert(le_bytes(u)[2 * i] == le_bytes(head)[2 * i]);
        assert(le_bytes(u)[2 * i + 1] == le_bytes(head)[2 * i + 1]);
    } else {
        assert(le_bytes(u)[2 * i] == (last % 256) as u8);
        assert(le_bytes(u)[2 * i + 1] == (last / 256) as u8);
    }
}

/// A character is as wide as the bytes that it is written with.
pub proof fn law_width_is_the_number_of_bytes(c: char)
    ensures
        char_width(c) == encode_utf8(seq![c]).len(),
{
    reveal_with_fuel(encode_utf8, 2);
    assert(seq![c].drop_first() =~= Seq::<char>::empty());
}

} // verus!
