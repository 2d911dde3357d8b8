//! Ordering entries by lowercased name.
use crate::bytes::{bytes_eq, bytes_le, lemma_lex_antisymmetric, lemma_lex_total, lex_le};
use crate::index::store::{lower_in, IndexEntry};
use rayon::prelude::ParallelSliceMut;
use std::cmp::Ordering;
use vstd::prelude::*;

verus! {

/// An entry's lowercased name lies inside the arena.
pub open spec fn lower_inside(e: IndexEntry, lowers: Seq<u8>) -> bool {
    e.name_lower_off + e.name_lower_len <= lowers.len()
}

/// The entries are in the order of their lowercased names.
pub open spec fn names_sorted(entries: Seq<IndexEntry>, lowers: Seq<u8>) -> bool {
    forall|i: int, j: int|
        0 <= i < j < entries.len() ==> lex_le(
            lower_in(lowers, #[trigger] entries[i]),
            lower_in(lowers, #[trigger] entries[j]),
        )
}

/// The bytes of an entry's lowercased name.
pub fn lower_slice<'a>(lowers: &'a [u8], e: &IndexEntry) -> (r: &'a [u8])
    requires
        lower_inside(*e, lowers@),
    ensures
        r@ == lower_in(lowers@, *e),
{
    assert(lowers.len() == lowers@.len());
    let lo: usize = e.name_lower_off as usize;
    let hi: usize = lo + e.name_lower_len as usize;
    &lowers[lo..hi]
}

/// How two entries compare by lowercased name.
fn name_order(lowers: &[u8], a: &IndexEntry, b: &IndexEntry) -> (r: Ordering)
    requires
        lower_inside(*a, lowers@),
        lower_inside(*b, lowers@),
    ensures
        r == Ordering::Equal <==> lower_in(lowers@, *a) == lower_in(lowers@, *b),
        r != Ordering::Greater <==> lex_le(lower_in(lowers@, *a), lower_in(lowers@, *b)),
        r != Ordering::Less <==> lex_le(lower_in(lowers@, *b), lower_in(lowers@, *a)),
{
    let x = lower_slice(lowers, a);
    let y = lower_slice(lowers, b);
    proof {
        lemma_lex_total(x@, y@);
        if lex_le(x@, y@) && lex_le(y@, x@) {
            lemma_lex_antisymmetric(x@, y@);
        }
    }
    if bytes_eq(x, y) {
        Ordering::Equal
    } else if bytes_le(x, y) {
        Ordering::Less
    } else {
        Ordering::Greater
    }
}

/// `rayon`'s `par_sort_unstable_by`, comparing by lowercased name: the same
/// entries, in order. Nothing is said of the order of entries with equal names.
#[verifier::external_body]
pub(crate) fn sort_by_name(entries: &mut Vec<IndexEntry>, lowers: &[u8])
    requires
        forall|i: int|
            0 <= i < old(entries)@.len() ==> lower_inside(#[trigger] old(entries)@[i], lowers@),
    ensures
        final(entries)@.to_multiset() == old(entries)@.to_multiset(),
        names_sorted(final(entries)@, lowers@),
{
    entries.par_sort_unstable_by(|a, b| name_order(lowers, a, b));
}

} // verus!
