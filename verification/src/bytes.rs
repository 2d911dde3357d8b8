//! Byte strings: order, equality and substring search.
//!
//! File names are kept as UTF-8 bytes in two arenas, so the index compares and
//! searches bytes. The order of `str` is the order of its bytes.
use vstd::prelude::*;

verus! {

/// `a` comes no later than `b` in dictionary order.
pub open spec fn lex_le(a: Seq<u8>, b: Seq<u8>) -> bool
    decreases a.len(),
{
    if a.len() == 0 {
        true
    } else if b.len() == 0 {
        false
    } else if a[0] != b[0] {
        a[0] < b[0]
    } else {
        lex_le(a.drop_first(), b.drop_first())
    }
}

/// Any byte string comes no later than itself.
pub proof fn lemma_lex_reflexive(a: Seq<u8>)
    ensures
        lex_le(a, a),
    decreases a.len(),
{
    if a.len() > 0 {
        lemma_lex_reflexive(a.drop_first());
    }
}

/// Of two byte strings one comes no later than the other.
pub proof fn lemma_lex_total(a: Seq<u8>, b: Seq<u8>)
    ensures
        lex_le(a, b) || lex_le(b, a),
    decreases a.len(),
{
    if a.len() > 0 && b.len() > 0 && a[0] == b[0] {
        lemma_lex_total(a.drop_first(), b.drop_first());
    }
}

/// Two byte strings that come no later than each other are equal.
pub proof fn lemma_lex_antisymmetric(a: Seq<u8>, b: Seq<u8>)
    requires
        lex_le(a, b),
        lex_le(b, a),
    ensures
        a == b,
    decreases a.len(),
{
    if a.len() == 0 {
        assert(b.len() == 0);
        assert(a =~= b);
    } else {
        assert(b.len() > 0 && a[0] == b[0]);
        lemma_lex_antisymmetric(a.drop_first(), b.drop_first());
        assert(a =~= seq![a[0]] + a.drop_first());
        assert(b =~= seq![b[0]] + b.drop_first());
    }
}

/// Dictionary order is transitive.
pub proof fn lemma_lex_transitive(a: Seq<u8>, b: Seq<u8>, c: Seq<u8>)
    requires
        lex_le(a, b),
        lex_le(b, c),
    ensures
        lex_le(a, c),
    decreases a.len(),
{
    if a.len() > 0 && a[0] == b[0] && b[0] == c[0] {
        lemma_lex_transitive(a.drop_first(), b.drop_first(), c.drop_first());
    }
}

/// How two byte strings with a common prefix compare is decided behind it.
proof fn lemma_lex_skip(a: Seq<u8>, b: Seq<u8>, n: nat)
    requires
        n <= a.len(),
        n <= b.len(),
        forall|i: int| 0 <= i < n ==> a[i] == b[i],
    ensures
        lex_le(a, b) == lex_le(a.skip(n as int), b.skip(n as int)),
    decreases n,
{
    if n == 0 {
        assert(a.skip(0) =~= a);
        assert(b.skip(0) =~= b);
    } else {
        assert(a[0] == b[0]);
        assert forall|i: int| 0 <= i < n - 1 implies a.drop_first()[i] == b.drop_first()[i] by {
            assert(a[i + 1] == b[i + 1]);
        }
        lemma_lex_skip(a.drop_first(), b.drop_first(), (n - 1) as nat);
        assert(a.drop_first().skip(n - 1) =~= a.skip(n as int));
        assert(b.drop_first().skip(n - 1) =~= b.skip(n as int));
    }
}

/// Whether `a` comes no later than `b` in dictionary order.
pub fn bytes_le(a: &[u8], b: &[u8]) -> (r: bool)
    ensures
        r == lex_le(a@, b@),
{
    let mut i: usize = 0;
    while i < a.len() && i < b.len()
        invariant
            i <= a.len(),
            i <= b.len(),
            forall|k: int| 0 <= k < i ==> a@[k] == b@[k],
        decreases a.len() - i,
    {
        if a[i] != b[i] {
            proof {
                lemma_lex_skip(a@, b@, i as nat);
                assert(a@.skip(i as int)[0] == a@[i as int]);
                assert(b@.skip(i as int)[0] == b@[i as int]);
            }
            return a[i] < b[i];
        }
        i = i + 1;
    }
    proof {
        lemma_lex_skip(a@, b@, i as nat);
    }
    i == a.len()
}

/// Whether two byte strings are equal.
pub fn bytes_eq(a: &[u8], b: &[u8]) -> (r: bool)
    ensures
        r == (a@ == b@),
{
    if a.len() != b.len() {
        return false;
    }
    let mut i: usize = 0;
    while i < a.len()
        invariant
            a.len() == b.len(),
            i <= a.len(),
            forall|k: int| 0 <= k < i ==> a@[k] == b@[k],
        decreases a.len() - i,
    {
        if a[i] != b[i] {
            return false;
        }
        i = i + 1;
    }
    proof {
        assert(a@ =~= b@);
    }
    true
}

/// `q` stands in `s` at position `at`.
pub open spec fn occurs_at(s: Seq<u8>, q: Seq<u8>, at: int) -> bool {
    &&& 0 <= at
    &&& at + q.len() <= s.len()
    &&& s.subrange(at, at + q.len()) == q
}

/// `q` stands somewhere in `s`.
pub open spec fn has_substring(s: Seq<u8>, q: Seq<u8>) -> bool {
    exists|at: int| occurs_at(s, q, at)
}

/// Whether `q` stands in `s` at position `at`.
pub fn matches_at(s: &[u8], q: &[u8], at: usize) -> (r: bool)
    ensures
        r == occurs_at(s@, q@, at as int),
{
    if at > s.len() || q.len() > s.len() - at {
        return false;
    }
    let mut i: usize = 0;
    while i < q.len()
        invariant
            at + q.len() <= s.len(),
            i <= q.len(),
            forall|k: int| 0 <= k < i ==> s@[at + k] == q@[k],
        decreases q.len() - i,
    {
        if s[at + i] != q[i] {
            proof {
                assert(s@.subrange(at as int, at + q.len())[i as int] == s@[at + i]);
            }
            return false;
        }
        i = i + 1;
    }
    proof {
        assert(s@.subrange(at as int, at + q.len()) =~= q@);
    }
    true
}

/// Whether `q` stands somewhere in `s`.
pub fn contains_bytes(s: &[u8], q: &[u8]) -> (r: bool)
    ensures
        r == has_substring(s@, q@),
{
    if q.len() > s.len() {
        return false;
    }
    let last: usize = s.len() - q.len();
    let mut at: usize = 0;
    while at <= last
        invariant
            last == s.len() - q.len(),
            at <= last + 1,
            forall|k: int| 0 <= k < at ==> !occurs_at(s@, q@, k),
        decreases last + 1 - at,
    {
        if matches_at(s, q, at) {
            return true;
        }
        if at == last {
            proof {
                assert forall|k: int| !occurs_at(s@, q@, k) by {
                    if occurs_at(s@, q@, k) {
                        assert(k <= at);
                    }
                }
            }
            return false;
        }
        at = at + 1;
    }
    proof {
        assert forall|k: int| !occurs_at(s@, q@, k) by {
            if occurs_at(s@, q@, k) {
                assert(k < at);
            }
        }
    }
    false
}

/// `s` begins with `q`.
pub open spec fn has_prefix(s: Seq<u8>, q: Seq<u8>) -> bool {
    occurs_at(s, q, 0)
}

/// Whether `s` begins with `q`.
pub fn starts_with_bytes(s: &[u8], q: &[u8]) -> (r: bool)
    ensures
        r == has_prefix(s@, q@),
{
    matches_at(s, q, 0)
}

/// An ASCII letter or digit.
pub open spec fn is_alnum(b: u8) -> bool {
    ||| 0x30 <= b <= 0x39
    ||| 0x41 <= b <= 0x5a
    ||| 0x61 <= b <= 0x7a
}

/// Whether a byte is an ASCII letter or digit.
pub fn alnum(b: u8) -> (r: bool)
    ensures
        r == is_alnum(b),
{
    (0x30 <= b && b <= 0x39) || (0x41 <= b && b <= 0x5a) || (0x61 <= b && b <= 0x7a)
}

/// `q` stands in `name` at the start, or right after a byte that is no ASCII
/// letter or digit.
pub open spec fn word_prefix(name: Seq<u8>, q: Seq<u8>) -> bool {
    q.len() == 0 || exists|at: int|
        #[trigger] occurs_at(name, q, at) && (at == 0 || !is_alnum(name[at - 1]))
}

/// True when `q` appears in `name` at the start or right after a
/// non-alphanumeric separator.
pub fn word_prefix_match(name: &[u8], q: &[u8]) -> (r: bool)
    ensures
        r == word_prefix(name@, q@),
{
    if q.len() == 0 {
        return true;
    }
    let mut at: usize = 0;
    while at < name.len()
        invariant
            q.len() > 0,
            at <= name.len(),
            forall|k: int|
                0 <= k < at && #[trigger] occurs_at(name@, q@, k) ==> k != 0 && is_alnum(
                    name@[k - 1],
                ),
        decreases name.len() - at,
    {
        if (at == 0 || !alnum(name[at - 1])) && matches_at(name, q, at) {
            return true;
        }
        at = at + 1;
    }
    false
}

/// What stands between two parts is found in the whole, and what is found stands
/// between two parts.
pub proof fn law_substring_stands_between(a: Seq<u8>, q: Seq<u8>, b: Seq<u8>, s: Seq<u8>) -> (at:
    int)
    ensures
        has_substring(a + q + b, q),
        has_substring(s, q) ==> 0 <= at <= s.len() - q.len() && s == s.take(at) + q + s.skip(
            at + q.len(),
        ),
{
    let start: int = a.len() as int;
    assert((a + q + b).subrange(start, start + q.len()) =~= q);
    assert(occurs_at(a + q + b, q, start));
    let at = choose|at: int| occurs_at(s, q, at);
    if has_substring(s, q) {
        let whole = s.take(at) + q + s.skip(at + q.len());
        assert forall|k: int| 0 <= k < s.len() implies #[trigger] whole[k] == s[k] by {
            if at <= k < at + q.len() {
                assert(s.subrange(at, at + q.len())[k - at] == s[k]);
            }
        }
        assert(s =~= whole);
    }
    at
}

/// A byte string begins with another exactly where it is that one with something
/// behind it.
pub proof fn law_prefix_stands_first(q: Seq<u8>, b: Seq<u8>, s: Seq<u8>)
    ensures
        has_prefix(q + b, q),
        has_prefix(s, q) ==> q.len() <= s.len() && s == q + s.skip(q.len() as int),
        has_prefix(s, q) ==> has_substring(s, q),
{
    assert((q + b).subrange(0, q.len() as int) =~= q);
    if has_prefix(s, q) {
        assert(occurs_at(s, q, 0));
        let whole = q + s.skip(q.len() as int);
        assert forall|k: int| 0 <= k < s.len() implies #[trigger] whole[k] == s[k] by {
            if k < q.len() {
                assert(s.subrange(0, q.len() as int)[k] == s[k]);
            }
        }
        assert(s =~= whole);
    }
}

/// A query begins a word behind any byte that is no ASCII letter or digit, and at
/// the start; where it stands only behind letters and digits, it begins none.
pub proof fn law_word_begins_behind_a_separator(
    a: Seq<u8>,
    c: u8,
    q: Seq<u8>,
    b: Seq<u8>,
    s: Seq<u8>,
)
    ensures
        !(0x30 <= c <= 0x39 || 0x41 <= c <= 0x5a || 0x61 <= c <= 0x7a) ==> word_prefix(
            a.push(c) + q + b,
            q,
        ),
        word_prefix(q + b, q),
        word_prefix(s, q) && q.len() > 0 ==> exists|at: int|
            0 <= at <= s.len() - q.len() && #[trigger] s.subrange(at, at + q.len()) == q && (at == 0
                || !(0x30 <= s[at - 1] <= 0x39 || 0x41 <= s[at - 1] <= 0x5a || 0x61 <= s[at - 1]
                <= 0x7a)),
{
    let whole = a.push(c) + q + b;
    let at: int = a.len() as int + 1;
    assert(whole.subrange(at, at + q.len()) =~= q);
    assert(whole[at - 1] == c);
    assert(occurs_at(whole, q, at));
    assert((q + b).subrange(0, q.len() as int) =~= q);
    assert(occurs_at(q + b, q, 0));
    if word_prefix(s, q) && q.len() > 0 {
        let at = choose|at: int|
            #[trigger] occurs_at(s, q, at) && (at == 0 || !is_alnum(s[at - 1]));
        assert(s.subrange(at, at + q.len()) == q);
    }
}

/// Dictionary order is decided by the first byte in which two strings differ; a
/// string comes before what it is continued to.
pub proof fn law_first_difference_decides(a: Seq<u8>, x: u8, y: u8, b: Seq<u8>, c: Seq<u8>)
    ensures
        lex_le(a, a + b),
        b.len() > 0 ==> !lex_le(a + b, a),
        x < y ==> lex_le(a.push(x) + b, a.push(y) + c),
        x < y ==> !lex_le(a.push(y) + c, a.push(x) + b),
    decreases a.len(),
{
    let l = a.push(x) + b;
    let r = a.push(y) + c;
    if a.len() > 0 {
        let t = a.drop_first();
        law_first_difference_decides(t, x, y, b, c);
        assert((a + b).drop_first() =~= t + b);
        assert(l.drop_first() =~= t.push(x) + b);
        assert(r.drop_first() =~= t.push(y) + c);
    }
}

} // verus!
