//! Little-endian numbers inside a buffer.
use vstd::prelude::*;

verus! {

/// The two-byte number at a place.
pub open spec fn n16(b: Seq<u8>, at: int) -> int {
    b[at] + 256 * b[at + 1]
}

/// The four-byte number at a place.
pub open spec fn n32(b: Seq<u8>, at: int) -> int {
    n16(b, at) + 0x1_0000 * n16(b, at + 2)
}

/// The eight-byte number at a place.
pub open spec fn n64(b: Seq<u8>, at: int) -> int {
    n32(b, at) + 0x1_0000_0000 * n32(b, at + 4)
}

/// The two-byte number at a place.
pub fn u16_at(b: &[u8], at: usize) -> (r: u16)
    requires
        at + 2 <= b@.len(),
    ensures
        r == n16(b@, at as int),
{
    b[at] as u16 + 256 * (b[at + 1] as u16)
}

/// The four-byte number at a place.
pub fn u32_at(b: &[u8], at: usize) -> (r: u32)
    requires
        at + 4 <= b@.len(),
    ensures
        r == n32(b@, at as int),
{
    assert(b.len() == b@.len());
    u16_at(b, at) as u32 + 0x1_0000 * (u16_at(b, at + 2) as u32)
}

/// The eight-byte number at a place.
pub fn u64_at(b: &[u8], at: usize) -> (r: u64)
    requires
        at + 8 <= b@.len(),
    ensures
        r == n64(b@, at as int),
{
    assert(b.len() == b@.len());
    u32_at(b, at) as u64 + 0x1_0000_0000 * (u32_at(b, at + 4) as u64)
}

/// The UTF-16 code units at a place.
pub open spec fn units_at(b: Seq<u8>, at: int, n: int) -> Seq<u16> {
    Seq::new(n as nat, |i: int| n16(b, at + 2 * i) as u16)
}

/// Appends the UTF-16 code units at a place.
pub fn push_units(out: &mut Vec<u16>, b: &[u8], at: usize, n: usize)
    requires
        at + 2 * n <= b@.len(),
    ensures
        final(out)@ == old(out)@ + units_at(b@, at as int, n as int),
{
    let ghost before = out@;
    let mut i: usize = 0;
    assert(out@ =~= before + units_at(b@, at as int, 0));
    while i < n
        invariant
            i <= n,
            at + 2 * n <= b@.len(),
            out@ == before + units_at(b@, at as int, i as int),
        decreases n - i,
    {
        assert(b.len() == b@.len());
        let u = u16_at(b, at + 2 * i);
        out.push(u);
        assert(out@ =~= before + units_at(b@, at as int, i + 1));
        i = i + 1;
    }
}

} // verus!
