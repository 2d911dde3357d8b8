//! A stable ordering by a number and a text.
use crate::bytes::{bytes_le, lemma_lex_total, lemma_lex_transitive, lex_le};
use vstd::prelude::*;

verus! {

/// What a row is ordered by: first the number, on equal numbers the bytes of
/// the text.
pub struct SortKey {
    pub num: u64,
    pub text: Vec<u8>,
}

/// The numbers and texts of some keys.
pub open spec fn keys_of(keys: Seq<SortKey>) -> Seq<(u64, Seq<u8>)> {
    keys.map_values(|k: SortKey| (k.num, k.text@))
}

/// The row with key `a` may stand before the row with key `b`.
pub open spec fn key_le(a: (u64, Seq<u8>), b: (u64, Seq<u8>)) -> bool {
    a.0 < b.0 || (a.0 == b.0 && lex_le(a.1, b.1))
}

/// `rows` lists the rows of `keys` in order; equal keys stay in their order.
pub open spec fn is_order(rows: Seq<usize>, keys: Seq<(u64, Seq<u8>)>) -> bool {
    &&& rows.len() == keys.len()
    &&& rows.no_duplicates()
    &&& forall|i: int| 0 <= i < rows.len() ==> (#[trigger] rows[i]) < keys.len()
    &&& in_order(rows, keys)
}

/// Each of `rows` may stand before those behind it, and equal keys stay in
/// their order.
pub open spec fn in_order(rows: Seq<usize>, keys: Seq<(u64, Seq<u8>)>) -> bool {
    forall|i: int, j: int|
        0 <= i < j < rows.len() ==> {
            let a = #[trigger] rows[i];
            let b = #[trigger] rows[j];
            &&& key_le(keys[a as int], keys[b as int])
            &&& key_le(keys[b as int], keys[a as int]) ==> a < b
        }
}

/// Whether the row with key `a` may stand before the row with key `b`.
fn may_precede(a: &SortKey, b: &SortKey) -> (r: bool)
    ensures
        r == key_le((a.num, a.text@), (b.num, b.text@)),
{
    if a.num != b.num {
        return a.num < b.num;
    }
    bytes_le(a.text.as_slice(), b.text.as_slice())
}

proof fn lemma_key_total(a: (u64, Seq<u8>), b: (u64, Seq<u8>))
    ensures
        key_le(a, b) || key_le(b, a),
{
    lemma_lex_total(a.1, b.1);
}

proof fn lemma_key_transitive(a: (u64, Seq<u8>), b: (u64, Seq<u8>), c: (u64, Seq<u8>))
    requires
        key_le(a, b),
        key_le(b, c),
    ensures
        key_le(a, c),
{
    if a.0 == b.0 && b.0 == c.0 {
        lemma_lex_transitive(a.1, b.1, c.1);
    }
}

/// The rows in order of their keys; equal keys stay in their order.
pub fn stable_order(keys: &Vec<SortKey>) -> (rows: Vec<usize>)
    ensures
        is_order(rows@, keys_of(keys@)),
{
    let ghost ks = keys_of(keys@);
    let mut rows: Vec<usize> = Vec::new();
    let mut i: usize = 0;
    while i < keys.len()
        invariant
            ks == keys_of(keys@),
            i <= keys.len(),
            rows.len() == i,
            rows@.no_duplicates(),
            forall|k: int| 0 <= k < rows.len() ==> (#[trigger] rows@[k]) < i,
            in_order(rows@, ks),
        decreases keys.len() - i,
    {
        let mut at: usize = rows.len();
        while at > 0 && !may_precede(&keys[rows[at - 1]], &keys[i])
            invariant
                ks == keys_of(keys@),
                at <= rows.len(),
                i < keys.len(),
                rows.len() == i,
                forall|k: int| 0 <= k < rows.len() ==> (#[trigger] rows@[k]) < i,
                forall|k: int|
                    at <= k < rows.len() ==> !key_le(
                        ks[(#[trigger] rows@[k]) as int],
                        ks[i as int],
                    ),
            decreases at,
        {
            at = at - 1;
        }
        let ghost before = rows@;
        rows.insert(at, i);
        proof {
            assert(rows@ == before.insert(at as int, i));
            assert forall|k: int| 0 <= k < at implies key_le(
                ks[(#[trigger] before[k]) as int],
                ks[i as int],
            ) by {
                let last = before[at - 1];
                assert(key_le(ks[last as int], ks[i as int]));
                if k < at - 1 {
                    lemma_key_transitive(
                        ks[before[k] as int],
                        ks[last as int],
                        ks[i as int],
                    );
                }
            }
            assert forall|a: int, b: int| 0 <= a < b < rows.len() implies {
                let x = #[trigger] rows@[a];
                let y = #[trigger] rows@[b];
                &&& key_le(ks[x as int], ks[y as int])
                &&& key_le(ks[y as int], ks[x as int]) ==> x < y
            } by {
                if a < at {
                    assert(rows@[a] == before[a]);
                } else if a > at {
                    assert(rows@[a] == before[a - 1]);
                }
                if b < at {
                    assert(rows@[b] == before[b]);
                } else if b > at {
                    assert(rows@[b] == before[b - 1]);
                    if a == at {
                        lemma_key_total(ks[before[b - 1] as int], ks[i as int]);
                    }
                }
            }
            assert forall|a: int, b: int| 0 <= a < rows.len() && 0 <= b < rows.len() && a != b implies rows@[a]
                != rows@[b] by {
                let pa = if a < at {
                    a
                } else {
                    a - 1
                };
                let pb = if b < at {
                    b
                } else {
                    b - 1
                };
                if a != at {
                    assert(rows@[a] == before[pa]);
                }
                if b != at {
                    assert(rows@[b] == before[pb]);
                }
            }
            assert forall|k: int| 0 <= k < rows.len() implies (#[trigger] rows@[k]) < i + 1 by {
                if k < at {
                    assert(rows@[k] == before[k]);
                } else if k > at {
                    assert(rows@[k] == before[k - 1]);
                }
            }
        }
        i = i + 1;
    }
    rows
}

/// One list of keys has one order.
pub proof fn law_order_is_unique(a: Seq<usize>, b: Seq<usize>, keys: Seq<(u64, Seq<u8>)>)
    requires
        is_order(a, keys),
        is_order(b, keys),
    ensures
        a == b,
{
    let n = keys.len() as int;
    assert forall|i: int| 0 <= i < n implies a[i] == b[i] by {
        lemma_same_place(a, b, keys, i);
    }
    assert(a =~= b);
}

/// Two orders of one list agree at each place, if they do before it.
proof fn lemma_same_place(a: Seq<usize>, b: Seq<usize>, keys: Seq<(u64, Seq<u8>)>, i: int)
    requires
        is_order(a, keys),
        is_order(b, keys),
        0 <= i < keys.len(),
    ensures
        a[i] == b[i],
    decreases i,
{
    assert forall|k: int| 0 <= k < i implies a[k] == b[k] by {
        lemma_same_place(a, b, keys, k);
    }
    if a[i] != b[i] {
        let pb = lemma_place(b, keys, a[i]);
        let pa = lemma_place(a, keys, b[i]);
        assert(pb > i) by {
            if pb < i {
                assert(a[pb] == b[pb]);
            }
        }
        assert(pa > i) by {
            if pa < i {
                assert(a[pa] == b[pa]);
            }
        }
        assert(key_le(keys[a[i] as int], keys[a[pa] as int]));
        assert(key_le(keys[b[i] as int], keys[b[pb] as int]));
    }
}

/// Each row stands somewhere in an order.
pub proof fn lemma_place(a: Seq<usize>, keys: Seq<(u64, Seq<u8>)>, row: usize) -> (at: int)
    requires
        is_order(a, keys),
        row < keys.len(),
    ensures
        0 <= at < a.len(),
        a[at] == row,
{
    let all = Set::<int>::new(|k: int| 0 <= k < keys.len());
    let have = a.map_values(|r: usize| r as int).to_set();
    vstd::set_lib::lemma_int_range(0, keys.len() as int);
    assert(all =~= vstd::set_lib::set_int_range(0, keys.len() as int));
    let ints = a.map_values(|r: usize| r as int);
    assert(ints.no_duplicates()) by {
        assert forall|x: int, y: int| 0 <= x < ints.len() && 0 <= y < ints.len() && x != y implies ints[x]
            != ints[y] by {
            assert(a[x] != a[y]);
        }
    }
    ints.unique_seq_to_set();
    assert(have.subset_of(all)) by {
        assert forall|v: int| have.contains(v) implies all.contains(v) by {
            let k = choose|k: int| 0 <= k < ints.len() && ints[k] == v;
            assert(a[k] < keys.len());
        }
    }
    vstd::set_lib::lemma_subset_equality(have, all);
    assert(have.contains(row as int));
    let at = choose|k: int| 0 <= k < ints.len() && ints[k] == row as int;
    at
}

/// Different machine words are no more than there are.
pub proof fn lemma_small(order: Seq<usize>)
    requires
        order.no_duplicates(),
    ensures
        order.len() <= usize::MAX + 1,
{
    let all = vstd::set_lib::set_int_range(0, usize::MAX + 1);
    vstd::set_lib::lemma_int_range(0, usize::MAX + 1);
    let ints = order.map_values(|r: usize| r as int);
    assert(ints.no_duplicates());
    ints.unique_seq_to_set();
    assert(ints.to_set().subset_of(all));
    vstd::set_lib::lemma_len_subset(ints.to_set(), all);
}

} // verus!
