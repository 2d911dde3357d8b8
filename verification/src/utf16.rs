//! Text as UTF-16 code units.
use crate::text::{chars_of, utf16_text};
use vstd::prelude::*;

verus! {

/// The code units of a character: one, or a surrogate pair.
pub open spec fn char_units(c: char) -> Seq<u16> {
    let n = c as u32;
    if n < 0x10000 {
        seq![n as u16]
    } else {
        seq![
            (0xd800 + (n - 0x10000) / 0x400) as u16,
            (0xdc00 + (n - 0x10000) % 0x400) as u16,
        ]
    }
}

/// The code units of a text.
pub open spec fn code_units(s: Seq<char>) -> Seq<u16>
    decreases s.len(),
{
    if s.len() == 0 {
        Seq::empty()
    } else {
        code_units(s.drop_last()) + char_units(s.last())
    }
}

/// The code units of a text.
pub fn utf16(s: &str) -> (r: Vec<u16>)
    ensures
        r@ == code_units(s@),
{
    let c = chars_of(s);
    let mut out: Vec<u16> = Vec::new();
    let mut i: usize = 0;
    assert(c@.take(0) =~= Seq::<char>::empty());
    while i < c.len()
        invariant
            i <= c@.len(),
            out@ == code_units(c@.take(i as int)),
        decreases c@.len() - i,
    {
        assert(c@.take(i + 1).drop_last() =~= c@.take(i as int));
        assert(c@.take(i + 1).last() == c@[i as int]);
        let n: u32 = c[i] as u32;
        let ghost before = out@;
        if n < 0x10000 {
            out.push(n as u16);
            assert(out@ =~= before + char_units(c@[i as int]));
        } else {
            let m: u32 = n - 0x10000;
            out.push((0xd800 + m / 0x400) as u16);
            out.push((0xdc00 + m % 0x400) as u16);
            assert(out@ =~= before + char_units(c@[i as int]));
        }
        i = i + 1;
    }
    assert(c@.take(i as int) =~= c@);
    out
}

/// The code units of a text, with a zero behind.
pub fn utf16_null(s: &str) -> (r: Vec<u16>)
    ensures
        r@ == code_units(s@).push(0),
{
    let mut out = utf16(s);
    out.push(0);
    out
}

/// Code units as bytes, the low byte first.
pub open spec fn le_bytes(u: Seq<u16>) -> Seq<u8>
    decreases u.len(),
{
    if u.len() == 0 {
        Seq::empty()
    } else {
        le_bytes(u.drop_last()).push((u.last() % 256) as u8).push((u.last() / 256) as u8)
    }
}

/// The text as UTF-16 bytes, the low byte of each unit first.
pub fn utf16_le(s: &str) -> (r: Vec<u8>)
    ensures
        r@ == le_bytes(code_units(s@)),
{
    let u = utf16(s);
    let mut out: Vec<u8> = Vec::new();
    let mut i: usize = 0;
    assert(u@.take(0) =~= Seq::<u16>::empty());
    while i < u.len()
        invariant
            i <= u@.len(),
            out@ == le_bytes(u@.take(i as int)),
        decreases u@.len() - i,
    {
        assert(u@.take(i + 1).drop_last() =~= u@.take(i as int));
        assert(u@.take(i + 1).last() == u@[i as int]);
        out.push((u[i] % 256) as u8);
        out.push((u[i] / 256) as u8);
        i = i + 1;
    }
    assert(u@.take(i as int) =~= u@);
    out
}

/// How many code units stand before the first zero.
pub open spec fn nul_at(u: Seq<u16>) -> int
    decreases u.len(),
{
    if u.len() == 0 || u[0] == 0 {
        0
    } else {
        1 + nul_at(u.skip(1))
    }
}

/// The text before the first zero, if it is not empty.
pub fn text_to_nul(u: &[u16]) -> (r: Option<String>)
    ensures
        r is Some <==> utf16_text(u@.take(nul_at(u@))).len() > 0 && nul_at(u@) > 0,
        r is Some ==> r->0@ == utf16_text(u@.take(nul_at(u@))),
{
    let mut i: usize = 0;
    assert(u@.skip(0) =~= u@);
    while i < u.len() && u[i] != 0
        invariant
            i <= u@.len(),
            nul_at(u@) == i + nul_at(u@.skip(i as int)),
        decreases u@.len() - i,
    {
        assert(u@.skip(i as int).skip(1) =~= u@.skip(i + 1));
        i = i + 1;
    }
    if i == 0 {
        return None;
    }
    let text = String::from_utf16_lossy(&u[0..i]);
    assert(u@.subrange(0, i as int) =~= u@.take(i as int));
    if text.as_str().is_empty() {
        return None;
    }
    Some(text)
}

} // verus!
