//! What the records of a volume and of its journal tell: bytes that were laid
//! out from numbers and names are read back as those numbers and names.
use super::numbers::{n16, n32, n64, units_at};
use super::reader::{
    entries, entry_at, is_boot_sector, law_pieces_join, power_of_two, record_size_of, usn_entries,
    usn_entry, usn_fits, NamedRecord,
};
use super::record::{
    attrs_end, best_attr, file_entry, fixed, law_best_name_comes_first,
    law_fixup_restores_sector_ends, name_attr, name_attrs, restored,
};
use super::types::{FileKind, IndexEvent};
use super::watcher::{
    are_events, changes, has_reason, is_event, journal_fits, polled, Polled, UsnWatcher,
};
use crate::index::laws::brings;
use crate::text::utf16_text;
use vstd::prelude::*;

verus! {

/// A number in `n` bytes, the lowest byte first.
pub open spec fn le_bytes(x: nat, n: nat) -> Seq<u8>
    decreases n,
{
    if n == 0 {
        Seq::empty()
    } else {
        seq![(x % 256) as u8] + le_bytes(x / 256, (n - 1) as nat)
    }
}

/// Code units in two bytes each, the lower byte first.
pub open spec fn unit_bytes(units: Seq<u16>) -> Seq<u8>
    decreases units.len(),
{
    if units.len() == 0 {
        Seq::empty()
    } else {
        unit_bytes(units.drop_last()) + le_bytes(units.last() as nat, 2)
    }
}

/// These bytes stand at this place of the buffer.
pub open spec fn stands_at(b: Seq<u8>, at: int, part: Seq<u8>) -> bool {
    0 <= at && at + part.len() <= b.len() && b.subrange(at, at + part.len()) == part
}

proof fn lemma_stands(b: Seq<u8>, at: int, part: Seq<u8>, i: int)
    requires
        stands_at(b, at, part),
        0 <= i < part.len(),
    ensures
        b[at + i] == part[i],
{
    assert(b.subrange(at, at + part.len())[i] == b[at + i]);
}

proof fn lemma_stands_inside(b: Seq<u8>, at: int, part: Seq<u8>, from: int, inner: Seq<u8>)
    requires
        stands_at(b, at, part),
        stands_at(part, from, inner),
    ensures
        stands_at(b, at + from, inner),
{
    let here = b.subrange(at + from, at + from + inner.len());
    assert forall|i: int| 0 <= i < inner.len() implies #[trigger] here[i] == inner[i] by {
        lemma_stands(b, at, part, from + i);
        lemma_stands(part, from, inner, i);
    }
    assert(here =~= inner);
}

proof fn lemma_le_len(x: nat, n: nat)
    ensures
        le_bytes(x, n).len() == n,
    decreases n,
{
    if n > 0 {
        lemma_le_len(x / 256, (n - 1) as nat);
    }
}

proof fn lemma_n16(b: Seq<u8>, at: int, x: nat)
    requires
        stands_at(b, at, le_bytes(x, 2)),
        x < 0x1_0000,
    ensures
        n16(b, at) == x,
        at + 2 <= b.len(),
{
    reveal_with_fuel(le_bytes, 3);
    lemma_stands(b, at, le_bytes(x, 2), 0);
    lemma_stands(b, at, le_bytes(x, 2), 1);
}

proof fn lemma_n32(b: Seq<u8>, at: int, x: nat)
    requires
        stands_at(b, at, le_bytes(x, 4)),
        x < 0x1_0000_0000,
    ensures
        n32(b, at) == x,
        at + 4 <= b.len(),
{
    reveal_with_fuel(le_bytes, 5);
    let p = le_bytes(x, 4);
    assert(p.len() == 4);
    lemma_stands(b, at, p, 0);
    lemma_stands(b, at, p, 1);
    lemma_stands(b, at, p, 2);
    lemma_stands(b, at, p, 3);
    assert(x / 256 / 256 / 256 < 256);
}

proof fn lemma_n64(b: Seq<u8>, at: int, x: nat)
    requires
        stands_at(b, at, le_bytes(x, 8)),
        x < 0x1_0000_0000_0000_0000,
    ensures
        n64(b, at) == x,
        at + 8 <= b.len(),
{
    let p = le_bytes(x, 8);
    let low = x % 0x1_0000_0000;
    let high = x / 0x1_0000_0000;
    lemma_le_len(x, 8);
    lemma_le_halves(x);
    assert(stands_at(p, 0, le_bytes(low, 4))) by {
        lemma_le_len(low, 4);
        assert(p.subrange(0, 4) =~= le_bytes(low, 4));
    }
    assert(stands_at(p, 4, le_bytes(high, 4))) by {
        lemma_le_len(low, 4);
        lemma_le_len(high, 4);
        assert(p.subrange(4, 8) =~= le_bytes(high, 4));
    }
    lemma_stands_inside(b, at, p, 0, le_bytes(low, 4));
    lemma_stands_inside(b, at, p, 4, le_bytes(high, 4));
    lemma_n32(b, at, low);
    lemma_n32(b, at + 4, high);
}

proof fn lemma_le_halves(x: nat)
    ensures
        le_bytes(x, 8) == le_bytes(x % 0x1_0000_0000, 4) + le_bytes(x / 0x1_0000_0000, 4),
{
    reveal_with_fuel(le_bytes, 9);
    let low = x % 0x1_0000_0000;
    let high = x / 0x1_0000_0000;
    assert(x / 256 / 256 / 256 / 256 == high);
    assert(low % 256 == x % 256);
    assert((low / 256) % 256 == (x / 256) % 256);
    assert((low / 256 / 256) % 256 == (x / 256 / 256) % 256);
    assert((low / 256 / 256 / 256) % 256 == (x / 256 / 256 / 256) % 256);
    assert(le_bytes(x, 8) =~= le_bytes(low, 4) + le_bytes(high, 4));
}

proof fn lemma_unit_len(units: Seq<u16>)
    ensures
        unit_bytes(units).len() == 2 * units.len(),
    decreases units.len(),
{
    if units.len() > 0 {
        lemma_unit_len(units.drop_last());
        lemma_le_len(units.last() as nat, 2);
    }
}

proof fn lemma_units(b: Seq<u8>, at: int, units: Seq<u16>)
    requires
        stands_at(b, at, unit_bytes(units)),
    ensures
        units_at(b, at, units.len() as int) == units,
        at + 2 * units.len() <= b.len(),
    decreases units.len(),
{
    lemma_unit_len(units);
    if units.len() > 0 {
        let front = units.drop_last();
        let all = unit_bytes(units);
        let mid: int = 2 * front.len() as int;
        lemma_unit_len(front);
        lemma_le_len(units.last() as nat, 2);
        assert(stands_at(all, 0, unit_bytes(front))) by {
            assert(all.subrange(0, mid) =~= unit_bytes(front));
        }
        assert(stands_at(all, mid, le_bytes(units.last() as nat, 2))) by {
            assert(all.subrange(mid, mid + 2) =~= le_bytes(
                units.last() as nat,
                2,
            ));
        }
        lemma_stands_inside(b, at, all, 0, unit_bytes(front));
        lemma_stands_inside(b, at, all, mid, le_bytes(units.last() as nat, 2));
        lemma_units(b, at, front);
        lemma_n16(b, at + mid, units.last() as nat);
        assert forall|i: int| 0 <= i < units.len() implies units_at(b, at, units.len() as int)[i]
            == units[i] by {
            if i < front.len() {
                assert(units_at(b, at, front.len() as int)[i] == front[i]);
            }
        }
    }
    assert(units_at(b, at, units.len() as int) =~= units);
}

/// The bytes of an attribute that holds a name: the folder that the name is in,
/// the namespace of the name, and the name. The value starts at `off`.
pub open spec fn is_name_attr(
    a: Seq<u8>,
    off: int,
    parent: u64,
    namespace: u8,
    name: Seq<u16>,
) -> bool {
    &&& name.len() <= 255
    &&& 22 <= off <= 0xffff
    &&& off + 66 + 2 * name.len() <= a.len() <= 0xffff_ffff
    &&& stands_at(a, 0, le_bytes(0x30, 4))
    &&& stands_at(a, 4, le_bytes(a.len(), 4))
    &&& a[8] == 0
    &&& stands_at(a, 16, le_bytes((66 + 2 * name.len()) as nat, 4))
    &&& stands_at(a, 20, le_bytes(off as nat, 2))
    &&& stands_at(a, off, le_bytes(parent as nat, 8))
    &&& a[off + 64] == name.len()
    &&& a[off + 65] == namespace
    &&& stands_at(a, off + 66, unit_bytes(name))
}

/// The bytes of an attribute that holds something else.
pub open spec fn is_other_attr(a: Seq<u8>) -> bool {
    &&& 8 <= a.len() <= 0xffff_ffff
    &&& !stands_at(a, 0, le_bytes(0x30, 4))
    &&& !stands_at(a, 0, le_bytes(0xffff_ffff, 4))
    &&& stands_at(a, 4, le_bytes(a.len(), 4))
}

/// The attributes stand one behind the other, from this place on.
pub open spec fn attrs_at(b: Seq<u8>, at: int, attrs: Seq<Seq<u8>>) -> bool
    decreases attrs.len(),
{
    attrs.len() > 0 ==> stands_at(b, at, attrs[0]) && attrs_at(
        b,
        at + attrs[0].len(),
        attrs.drop_first(),
    )
}

proof fn lemma_n32_back(b: Seq<u8>, at: int)
    requires
        0 <= at,
        at + 4 <= b.len(),
    ensures
        stands_at(b, at, le_bytes(n32(b, at) as nat, 4)),
{
    reveal_with_fuel(le_bytes, 5);
    let x = n32(b, at) as nat;
    let (b0, b1, b2, b3) = (b[at] as int, b[at + 1] as int, b[at + 2] as int, b[at + 3] as int);
    assert(x == b0 + 256 * b1 + 0x1_0000 * b2 + 0x100_0000 * b3);
    assert(x % 256 == b0);
    assert((x / 256) % 256 == b1);
    assert((x / 256 / 256) % 256 == b2);
    assert((x / 256 / 256 / 256) % 256 == b3);
    assert(b.subrange(at, at + 4) =~= le_bytes(x, 4));
}

/// An attribute that is no name says nothing of the names of a record.
pub proof fn law_other_attribute_is_passed(b: Seq<u8>, at: int, a: Seq<u8>)
    requires
        stands_at(b, at, a),
        is_other_attr(a),
    ensures
        name_attrs(b, at) == name_attrs(b, at + a.len()),
{
    lemma_stands_inside(b, at, a, 4, le_bytes(a.len(), 4));
    lemma_n32(b, at + 4, a.len());
    lemma_n32_back(a, 0);
    assert(n32(a, 0) == n32(b, at)) by {
        lemma_stands(b, at, a, 0);
        lemma_stands(b, at, a, 1);
        lemma_stands(b, at, a, 2);
        lemma_stands(b, at, a, 3);
    }
    assert(!attrs_end(b, at));
}

/// A name attribute gives the name that it was laid out from: the folder that
/// it names, with all eight bytes of the reference, and the place and the
/// length of the name. A DOS name, which has namespace 2, is passed over.
pub proof fn law_name_attribute_is_read(
    b: Seq<u8>,
    at: int,
    a: Seq<u8>,
    off: int,
    parent: u64,
    namespace: u8,
    name: Seq<u16>,
)
    requires
        stands_at(b, at, a),
        is_name_attr(a, off, parent, namespace, name),
    ensures
        namespace == 2 ==> name_attrs(b, at) == name_attrs(b, at + a.len()),
        namespace != 2 ==> {
            let n = name_attrs(b, at)[0];
            &&& name_attrs(b, at) == seq![n] + name_attrs(b, at + a.len())
            &&& n.parent == parent
            &&& units_at(b, n.at, n.len) == name
        },
        namespace == 1 ==> name_attrs(b, at)[0].rank == 0,
        namespace == 3 ==> name_attrs(b, at)[0].rank == 1,
        namespace == 0 ==> name_attrs(b, at)[0].rank == 2,
        namespace > 3 ==> name_attrs(b, at)[0].rank == 3,
{
    let size = (66 + 2 * name.len()) as nat;
    lemma_stands_inside(b, at, a, 0, le_bytes(0x30, 4));
    lemma_n32(b, at, 0x30);
    lemma_stands_inside(b, at, a, 4, le_bytes(a.len(), 4));
    lemma_n32(b, at + 4, a.len());
    lemma_stands(b, at, a, 8);
    lemma_stands_inside(b, at, a, 16, le_bytes(size, 4));
    lemma_n32(b, at + 16, size);
    lemma_stands_inside(b, at, a, 20, le_bytes(off as nat, 2));
    lemma_n16(b, at + 20, off as nat);
    lemma_stands_inside(b, at, a, off, le_bytes(parent as nat, 8));
    lemma_n64(b, at + off, parent as nat);
    lemma_stands(b, at, a, off + 64);
    lemma_stands(b, at, a, off + 65);
    lemma_stands_inside(b, at, a, off + 66, unit_bytes(name));
    lemma_units(b, at + off + 66, name);
    assert(!attrs_end(b, at));
    if namespace != 2 {
        assert(name_attr(b, at) is Some);
        let n = name_attr(b, at)->0;
        assert(name_attrs(b, at)[0] == n);
    }
}

proof fn lemma_others_passed(b: Seq<u8>, at: int, attrs: Seq<Seq<u8>>, last: Seq<u8>) -> (to: int)
    requires
        attrs_at(b, at, attrs.push(last)),
        forall|i: int| 0 <= i < attrs.len() ==> is_other_attr(#[trigger] attrs[i]),
    ensures
        name_attrs(b, at) == name_attrs(b, to),
        stands_at(b, to, last),
    decreases attrs.len(),
{
    let all = attrs.push(last);
    if attrs.len() == 0 {
        assert(all[0] == last);
        at
    } else {
        let rest = attrs.drop_first();
        assert(all[0] == attrs[0]);
        assert(is_other_attr(attrs[0]));
        assert(all.drop_first() =~= rest.push(last));
        law_other_attribute_is_passed(b, at, attrs[0]);
        assert forall|i: int| 0 <= i < rest.len() implies is_other_attr(#[trigger] rest[i]) by {
            assert(rest[i] == attrs[i + 1]);
        }
        lemma_others_passed(b, at + attrs[0].len(), rest, last)
    }
}

/// The bytes of a record in use: its sequence number, the place of its first
/// attribute, and whether it is a directory.
pub open spec fn is_record_head(b: Seq<u8>, seq_number: u16, first: u16, is_dir: bool) -> bool {
    &&& 48 <= b.len() <= 0xffff_ffff
    &&& stands_at(b, 0x10, le_bytes(seq_number as nat, 2))
    &&& stands_at(b, 0x14, le_bytes(first as nat, 2))
    &&& b[0x16] % 2 == 1
    &&& (b[0x16] / 2) % 2 == if is_dir {
        1int
    } else {
        0int
    }
}

proof fn lemma_flags(b: Seq<u8>)
    requires
        b.len() >= 0x18,
    ensures
        ((n16(b, 0x16) as u16) & 0x01 == 0) == (b[0x16] % 2 == 0),
        ((n16(b, 0x16) as u16) & 0x02 != 0) == ((b[0x16] / 2) % 2 == 1),
{
    let f = n16(b, 0x16) as u16;
    assert((f & 0x01 == 0) == (f % 2 == 0) && (f & 0x02 != 0) == ((f / 2) % 2 == 1))
        by (bit_vector);
    let (low, high) = (b[0x16] as int, b[0x17] as int);
    assert(f == low + 256 * high);
    assert(f % 2 == low % 2);
    assert((f / 2) % 2 == (low / 2) % 2);
}

proof fn lemma_reference(index: u64, seq_number: u16)
    requires
        index < 0x1_0000_0000_0000,
    ensures
        index | ((seq_number as u64) << 48) == index + seq_number * 0x1_0000_0000_0000,
{
    let s = seq_number as u64;
    assert(index | (s << 48) == index + s * 0x1_0000_0000_0000) by (bit_vector)
        requires
            index < 0x1_0000_0000_0000u64,
            s < 0x1_0000u64,
    ;
}

/// A record is read back as it was laid out. With a Windows name, behind any
/// attributes that are no names, it tells of the file with that number and that
/// sequence number, with that name, in that folder.
pub proof fn law_record_is_read(
    b: Seq<u8>,
    index: u64,
    seq_number: u16,
    first: u16,
    is_dir: bool,
    others: Seq<Seq<u8>>,
    a: Seq<u8>,
    off: int,
    parent: u64,
    name: Seq<u16>,
)
    requires
        is_record_head(b, seq_number, first, is_dir),
        index < 0x1_0000_0000_0000,
        attrs_at(b, first as int, others.push(a)),
        forall|i: int| 0 <= i < others.len() ==> is_other_attr(#[trigger] others[i]),
        is_name_attr(a, off, parent, 1, name),
    ensures
        file_entry(b, index) is Some,
        file_entry(b, index)->0.file_ref == index + seq_number * 0x1_0000_0000_0000,
        file_entry(b, index)->0.parent_ref == parent,
        file_entry(b, index)->0.name == name,
        file_entry(b, index)->0.is_dir == is_dir,
{
    lemma_n16(b, 0x10, seq_number as nat);
    lemma_n16(b, 0x14, first as nat);
    lemma_flags(b);
    lemma_reference(index, seq_number);
    let to = lemma_others_passed(b, first as int, others, a);
    law_name_attribute_is_read(b, to, a, off, parent, 1, name);
    let names = name_attrs(b, to);
    let i = law_best_name_comes_first(names);
    if i > 0 {
        lemma_rank_range(b, to, i);
        assert(names[i].rank < names[0].rank);
    }
}

proof fn lemma_rank_range(b: Seq<u8>, at: int, i: int)
    requires
        0 <= i < name_attrs(b, at).len(),
    ensures
        0 <= name_attrs(b, at)[i].rank <= 3,
    decreases b.len() - at,
{
    let next = at + n32(b, at + 4);
    let rest = name_attrs(b, next);
    match name_attr(b, at) {
        Some(n) => {
            if i > 0 {
                assert(name_attrs(b, at)[i] == rest[i - 1]);
                lemma_rank_range(b, next, i - 1);
            }
        },
        None => {
            lemma_rank_range(b, next, i);
        },
    }
}

/// A record that is not in use tells of nothing.
pub proof fn law_unused_record_is_passed(b: Seq<u8>, index: u64)
    requires
        b.len() >= 48,
        b[0x16] % 2 == 0,
    ensures
        file_entry(b, index) is None,
{
    lemma_flags(b);
}

/// Of two names of a record the better one is kept, whichever stands first: a
/// Windows name before one that is a DOS name too, and that before a POSIX name.
/// Of two that are equally good the first is kept.
pub proof fn law_better_name_is_kept(
    b: Seq<u8>,
    first: int,
    a1: Seq<u8>,
    off1: int,
    parent1: u64,
    namespace1: u8,
    name1: Seq<u16>,
    a2: Seq<u8>,
    off2: int,
    parent2: u64,
    namespace2: u8,
    name2: Seq<u16>,
)
    requires
        attrs_at(b, first, seq![a1, a2]),
        is_name_attr(a1, off1, parent1, namespace1, name1),
        is_name_attr(a2, off2, parent2, namespace2, name2),
        stands_at(b, first + a1.len() + a2.len(), le_bytes(0xffff_ffff, 4)),
        namespace1 <= 3,
        namespace2 <= 3,
        namespace1 != 2 || namespace2 != 2,
    ensures
        ({
            let second = namespace1 == 2 || (namespace2 == 1 && namespace1 != 1) || (namespace2
                == 3 && namespace1 == 0);
            let kept = best_attr(name_attrs(b, first))->0;
            &&& best_attr(name_attrs(b, first)) is Some
            &&& kept.parent == if second {
                parent2
            } else {
                parent1
            }
            &&& units_at(b, kept.at, kept.len) == if second {
                name2
            } else {
                name1
            }
        }),
{
    let both = seq![a1, a2];
    assert(both.drop_first() =~= seq![a2]);
    assert(both.drop_first()[0] == a2);
    assert(stands_at(b, first + a1.len(), a2)) by {
        assert(attrs_at(b, first + a1.len(), both.drop_first()));
    }
    let mid = first + a1.len();
    let end = mid + a2.len();
    lemma_n32(b, end, 0xffff_ffff);
    assert(name_attrs(b, end) =~= Seq::empty());
    law_name_attribute_is_read(b, first, a1, off1, parent1, namespace1, name1);
    law_name_attribute_is_read(b, mid, a2, off2, parent2, namespace2, name2);
    let names = name_attrs(b, first);
    let i = law_best_name_comes_first(names);
    if namespace1 != 2 && namespace2 != 2 {
        assert(names.len() == 2);
        assert(names[1] == name_attrs(b, mid)[0]);
    }
}

/// A folder and what is in it: a record that names the folder's number in six
/// bytes and its sequence number in two has the folder's reference as its
/// parent.
pub proof fn law_child_names_its_folder(
    folder: NamedRecord,
    d: Seq<u8>,
    i: u64,
    seq_number: u16,
    c: Seq<u8>,
    j: u64,
    child_number: u16,
    first: u16,
    is_dir: bool,
    others: Seq<Seq<u8>>,
    a: Seq<u8>,
    off: int,
    parent: u64,
    name: Seq<u16>,
)
    requires
        i < 0x1_0000_0000_0000,
        j < 0x1_0000_0000_0000,
        d.len() >= 48,
        stands_at(d, 0x10, le_bytes(seq_number as nat, 2)),
        file_entry(d, i) == Some(folder),
        is_record_head(c, child_number, first, is_dir),
        attrs_at(c, first as int, others.push(a)),
        forall|k: int| 0 <= k < others.len() ==> is_other_attr(#[trigger] others[k]),
        is_name_attr(a, off, parent, 1, name),
        stands_at(a, off, le_bytes(i as nat, 6)),
        stands_at(a, off + 6, d.subrange(0x10, 0x12)),
    ensures
        file_entry(c, j) is Some,
        file_entry(c, j)->0.parent_ref == folder.file_ref,
        folder.file_ref == i | ((seq_number as u64) << 48),
{
    law_record_is_read(c, j, child_number, first, is_dir, others, a, off, parent, name);
    lemma_n16(d, 0x10, seq_number as nat);
    lemma_reference(i, seq_number);
    lemma_le_len(seq_number as nat, 2);
    assert(d.subrange(0x10, 0x12) =~= le_bytes(seq_number as nat, 2));
    lemma_n16(a, off + 6, seq_number as nat);
    lemma_n64(a, off, parent as nat);
    lemma_n48(a, off, i as nat);
}

proof fn lemma_n48(b: Seq<u8>, at: int, x: nat)
    requires
        stands_at(b, at, le_bytes(x, 6)),
        x < 0x1_0000_0000_0000,
    ensures
        n32(b, at) + 0x1_0000_0000 * n16(b, at + 4) == x,
{
    reveal_with_fuel(le_bytes, 7);
    let p = le_bytes(x, 6);
    assert(p.len() == 6);
    lemma_stands(b, at, p, 0);
    lemma_stands(b, at, p, 1);
    lemma_stands(b, at, p, 2);
    lemma_stands(b, at, p, 3);
    lemma_stands(b, at, p, 4);
    lemma_stands(b, at, p, 5);
    let low = x % 0x1_0000_0000;
    let high = x / 0x1_0000_0000;
    assert(x / 256 / 256 / 256 / 256 == high);
    assert(n16(b, at + 4) == high % 256 + 256 * ((high / 256) % 256));
    assert(n32(b, at) == low);
}

/// A record as it lies on disk: the last two bytes of every sector are the
/// check bytes, and the bytes that belong there stand in the update array at
/// `at`, behind the check bytes.
pub open spec fn is_stored(d: Seq<u8>, b: Seq<u8>, at: int, check: (u8, u8)) -> bool {
    let sectors = d.len() as int / 512;
    &&& d.len() == b.len()
    &&& d.len() as int % 512 == 0
    &&& 0 < sectors < 0xffff
    &&& stands_at(d, 0, seq![0x46u8, 0x49u8, 0x4cu8, 0x45u8])
    &&& stands_at(d, 4, le_bytes(at as nat, 2))
    &&& stands_at(d, 6, le_bytes((sectors + 1) as nat, 2))
    &&& 8 <= at
    &&& at + 2 * (sectors + 1) <= 510
    &&& d[at] == check.0 && d[at + 1] == check.1
    &&& forall|i: int| 1 <= i <= sectors ==> #[trigger] sector_is_stored(d, b, at, check, i)
    &&& forall|p: int| 0 <= p < d.len() && p % 512 < 510 ==> #[trigger] d[p] == b[p]
}

/// The end of the `i`-th sector holds the check bytes, and its own bytes stand
/// in the update array.
pub open spec fn sector_is_stored(
    d: Seq<u8>,
    b: Seq<u8>,
    at: int,
    check: (u8, u8),
    i: int,
) -> bool {
    &&& d[512 * i - 2] == check.0
    &&& d[512 * i - 1] == check.1
    &&& d[at + 2 * i] == b[512 * i - 2]
    &&& d[at + 2 * i + 1] == b[512 * i - 1]
}

/// A record is whole only where every sector end holds the check bytes, and
/// where they all do, it is.
proof fn lemma_whole(now: Seq<u8>, at: int, count: int, check: (u8, u8), size: int, from: int)
    requires
        1 <= from,
        0 <= at,
        at + 2 * count <= 510,
        size <= now.len(),
    ensures
        restored(now, at, count, check, size, from).1 <==> forall|i: int|
            from <= i < count && 512 * i - 1 < size ==> #[trigger] ends_with(now, i, check),
    decreases count - from,
{
    let end = from * 512 - 2;
    if from >= count || end + 1 >= size {
        assert forall|i: int| from <= i < count && 512 * i - 1 < size implies #[trigger] ends_with(
            now,
            i,
            check,
        ) by {
            assert(512 * i >= 512 * from);
        }
    } else if now[end] != check.0 || now[end + 1] != check.1 {
        assert(!ends_with(now, from, check));
    } else {
        let one = now.update(end, now[at + from * 2]);
        let two = one.update(end + 1, one[at + from * 2 + 1]);
        lemma_whole(two, at, count, check, size, from + 1);
        assert(ends_with(now, from, check));
        assert forall|i: int| from < i < count && 512 * i - 1 < size implies ends_with(
            two,
            i,
            check,
        ) == #[trigger] ends_with(now, i, check) by {
            assert(512 * i >= 512 * from + 512);
        }
        if forall|i: int|
            from + 1 <= i < count && 512 * i - 1 < size ==> #[trigger] ends_with(two, i, check) {
            assert forall|i: int|
                from <= i < count && 512 * i - 1 < size implies #[trigger] ends_with(
                now,
                i,
                check,
            ) by {
                if i > from {
                    assert(ends_with(two, i, check));
                }
            }
        } else {
            let i = choose|i: int|
                from + 1 <= i < count && 512 * i - 1 < size && !#[trigger] ends_with(two, i, check);
            assert(!ends_with(now, i, check));
        }
    }
}

/// The `i`-th sector ends with these bytes.
pub open spec fn ends_with(d: Seq<u8>, i: int, check: (u8, u8)) -> bool {
    d[512 * i - 2] == check.0 && d[512 * i - 1] == check.1
}

/// A record that was written is read back: the sector ends are as they were, and
/// the record's place in the table is its number.
pub proof fn law_stored_record_is_restored(
    d: Seq<u8>,
    b: Seq<u8>,
    at: int,
    check: (u8, u8),
    first: u64,
)
    requires
        is_stored(d, b, at, check),
    ensures
        fixed(d, d.len() as int) == (b, true),
        entries(d, d.len() as int, first as int, 1) == match file_entry(b, first) {
            Some(e) => seq![e],
            None => Seq::empty(),
        },
{
    let size = d.len() as int;
    let count = size / 512 + 1;
    lemma_n16(d, 4, at as nat);
    lemma_n16(d, 6, count as nat);
    let magic = seq![0x46u8, 0x49u8, 0x4cu8, 0x45u8];
    lemma_stands(d, 0, magic, 0);
    lemma_stands(d, 0, magic, 1);
    lemma_stands(d, 0, magic, 2);
    lemma_stands(d, 0, magic, 3);
    lemma_whole(d, at, count, check, size, 1);
    assert forall|i: int| 1 <= i < count && 512 * i - 1 < size implies #[trigger] ends_with(
        d,
        i,
        check,
    ) by {
        assert(sector_is_stored(d, b, at, check, i));
    }
    law_fixup_restores_sector_ends(d, size);
    let out = fixed(d, size).0;
    assert forall|p: int| 0 <= p < size implies #[trigger] out[p] == b[p] by {
        if p % 512 >= 510 {
            let i = p / 512 + 1;
            assert(sector_is_stored(d, b, at, check, i));
            assert(out[i * 512 - 2] == d[at + i * 2]);
        }
    }
    assert(out =~= b);
    assert(d.subrange(0 * size, (0 + 1) * size) =~= d);
    assert(entry_at(d, size, first as int, 0) == file_entry(b, first));
    assert(entries(d, size, first as int, 0) =~= Seq::empty());
}

/// A record that was written in part tells of nothing: one sector end at least
/// does not hold the check bytes. Nor does a record without the mark.
pub proof fn law_torn_record_is_passed(d: Seq<u8>, at: u16, count: u16, i: int, first: u64)
    requires
        48 <= d.len(),
        stands_at(d, 4, le_bytes(at as nat, 2)),
        stands_at(d, 6, le_bytes(count as nat, 2)),
        at + 2 * count <= 510,
        !stands_at(d, 0, seq![0x46u8, 0x49u8, 0x4cu8, 0x45u8]) || (1 <= i < count && 512 * i
            <= d.len() && !ends_with(d, i, (d[at as int], d[at + 1]))),
    ensures
        entries(d, d.len() as int, first as int, 1) == Seq::<NamedRecord>::empty(),
{
    let size = d.len() as int;
    lemma_n16(d, 4, at as nat);
    lemma_n16(d, 6, count as nat);
    lemma_whole(d, at as int, count as int, (d[at as int], d[at + 1]), size, 1);
    if d[0] == 0x46 && d[1] == 0x49 && d[2] == 0x4c && d[3] == 0x45 {
        assert(d.subrange(0, 4) =~= seq![0x46u8, 0x49u8, 0x4cu8, 0x45u8]);
    }
    assert(d.subrange(0 * size, (0 + 1) * size) =~= d);
    assert(entry_at(d, size, first as int, 0) is None);
    assert(entries(d, size, first as int, 0) =~= Seq::empty());
}

/// The bytes of a journal record: the reason, the attributes, the references of
/// the file and of its folder, and the name, which starts at `off`.
pub open spec fn is_change(
    a: Seq<u8>,
    off: int,
    reason: u32,
    attributes: u32,
    file: u64,
    parent: u64,
    name: Seq<u16>,
) -> bool {
    &&& 64 <= a.len() <= 0xffff_ffff
    &&& name.len() <= 0x7fff
    &&& 60 <= off <= 0xffff
    &&& off + 2 * name.len() <= a.len()
    &&& stands_at(a, 0, le_bytes(a.len(), 4))
    &&& stands_at(a, 8, le_bytes(file as nat, 8))
    &&& stands_at(a, 16, le_bytes(parent as nat, 8))
    &&& stands_at(a, 40, le_bytes(reason as nat, 4))
    &&& stands_at(a, 52, le_bytes(attributes as nat, 4))
    &&& stands_at(a, 56, le_bytes((2 * name.len()) as nat, 2))
    &&& stands_at(a, 58, le_bytes(off as nat, 2))
    &&& stands_at(a, off, unit_bytes(name))
}

/// A file was created.
pub open spec fn is_creation(reason: u32) -> bool {
    (reason / 0x100) % 2 == 1
}

/// A file was deleted.
pub open spec fn is_deletion(reason: u32) -> bool {
    (reason / 0x200) % 2 == 1
}

/// A file got a new name, or came to another folder.
pub open spec fn is_renaming(reason: u32) -> bool {
    (reason / 0x2000) % 2 == 1
}

/// The attributes of a directory.
pub open spec fn is_folder(attributes: u32) -> bool {
    (attributes / 0x10) % 2 == 1
}

proof fn lemma_change(
    b: Seq<u8>,
    at: int,
    a: Seq<u8>,
    off: int,
    reason: u32,
    attributes: u32,
    file: u64,
    parent: u64,
    name: Seq<u16>,
)
    requires
        stands_at(b, at, a),
        is_change(a, off, reason, attributes, file, parent, name),
    ensures
        at + 64 <= at + a.len() <= b.len(),
        n32(b, at) == a.len(),
        n64(b, at + 8) == file,
        n64(b, at + 16) == parent,
        n32(b, at + 40) == reason,
        n32(b, at + 52) == attributes,
        n16(b, at + 56) == 2 * name.len(),
        n16(b, at + 58) == off,
        units_at(b, at + off, name.len() as int) == name,
        (reason & 0x100 != 0) == is_creation(reason),
        (reason & 0x200 != 0) == is_deletion(reason),
        (reason & 0x2000 != 0) == is_renaming(reason),
        (attributes & 0x10 != 0) == is_folder(attributes),
{
    let bytes = (2 * name.len()) as nat;
    lemma_stands_inside(b, at, a, 0, le_bytes(a.len(), 4));
    lemma_n32(b, at, a.len());
    lemma_stands_inside(b, at, a, 8, le_bytes(file as nat, 8));
    lemma_n64(b, at + 8, file as nat);
    lemma_stands_inside(b, at, a, 16, le_bytes(parent as nat, 8));
    lemma_n64(b, at + 16, parent as nat);
    lemma_stands_inside(b, at, a, 40, le_bytes(reason as nat, 4));
    lemma_n32(b, at + 40, reason as nat);
    lemma_stands_inside(b, at, a, 52, le_bytes(attributes as nat, 4));
    lemma_n32(b, at + 52, attributes as nat);
    lemma_stands_inside(b, at, a, 56, le_bytes(bytes, 2));
    lemma_n16(b, at + 56, bytes);
    lemma_stands_inside(b, at, a, 58, le_bytes(off as nat, 2));
    lemma_n16(b, at + 58, off as nat);
    lemma_stands_inside(b, at, a, off, unit_bytes(name));
    lemma_units(b, at + off, name);
    assert((reason & 0x100 != 0) == ((reason / 0x100) % 2 == 1)) by (bit_vector);
    assert((reason & 0x200 != 0) == ((reason / 0x200) % 2 == 1)) by (bit_vector);
    assert((reason & 0x2000 != 0) == ((reason / 0x2000) % 2 == 1)) by (bit_vector);
    assert((attributes & 0x10 != 0) == ((attributes / 0x10) % 2 == 1)) by (bit_vector);
}

/// A journal record tells of a change exactly where a file was created, was
/// deleted or got a new name, and the record has a name; the records behind it
/// are read either way.
pub proof fn law_change_is_told(
    b: Seq<u8>,
    at: int,
    a: Seq<u8>,
    off: int,
    reason: u32,
    attributes: u32,
    file: u64,
    parent: u64,
    name: Seq<u16>,
)
    requires
        stands_at(b, at, a),
        is_change(a, off, reason, attributes, file, parent, name),
    ensures
        changes(b, at) == if name.len() > 0 && (is_creation(reason) || is_deletion(reason)
            || is_renaming(reason)) {
            seq![at] + changes(b, at + a.len())
        } else {
            changes(b, at + a.len())
        },
{
    lemma_change(b, at, a, off, reason, attributes, file, parent, name);
    assert(journal_fits(b, at));
}

/// Whatever event a journal record becomes, a deletion takes the file of the
/// record away, and any other event brings that file, in that folder, under
/// that name: as a directory exactly where the attributes say that it is one.
pub proof fn law_event_tells_the_change(
    e: IndexEvent,
    letter: char,
    b: Seq<u8>,
    at: int,
    a: Seq<u8>,
    off: int,
    reason: u32,
    attributes: u32,
    file: u64,
    parent: u64,
    name: Seq<u16>,
)
    requires
        is_event(e, letter, b, at),
        stands_at(b, at, a),
        is_change(a, off, reason, attributes, file, parent, name),
    ensures
        is_deletion(reason) <==> e == (IndexEvent::Deleted {
            drive_letter: letter,
            file_ref: file,
        }),
        is_deletion(reason) <==> brings(e) is None,
        !is_deletion(reason) ==> (e is Moved <==> is_renaming(reason)),
        !is_deletion(reason) ==> (e is Created <==> !is_renaming(reason)),
        brings(e) matches Some(r) ==> {
            &&& r.0 == letter
            &&& r.1.file_ref == file
            &&& r.1.parent_ref == parent
            &&& r.1.name@ == utf16_text(name)
            &&& r.1.kind == FileKind::Directory <==> is_folder(attributes)
        },
{
    lemma_change(b, at, a, off, reason, attributes, file, parent, name);
    assert(has_reason(b, at, 0x200) == is_deletion(reason));
    assert(has_reason(b, at, 0x2000) == is_renaming(reason));
}

/// A read of the journal brings one event for each change that its records tell
/// of, in their order, and goes on from the position that stands before them.
pub proof fn law_poll_tells_each_change(
    before: UsnWatcher,
    b: Vec<u8>,
    after: UsnWatcher,
    r: Polled,
    next: u64,
    i: int,
    a: Seq<u8>,
    off: int,
    reason: u32,
    attributes: u32,
    file: u64,
    parent: u64,
    name: Seq<u16>,
)
    requires
        polled(before, Some(b), after, r),
        b@.len() > 8,
        stands_at(b@, 0, le_bytes(next as nat, 8)),
        0 <= i < changes(b@, 8).len(),
        stands_at(b@, changes(b@, 8)[i], a),
        is_change(a, off, reason, attributes, file, parent, name),
    ensures
        r.ok,
        after.next_usn == if next < 0x8000_0000_0000_0000 {
            next as int
        } else {
            next - 0x1_0000_0000_0000_0000
        },
        after.drive == before.drive,
        after.journal_id == before.journal_id,
        r.events@.len() == changes(b@, 8).len(),
        is_deletion(reason) <==> r.events@[i] == (IndexEvent::Deleted {
            drive_letter: before.drive.letter,
            file_ref: file,
        }),
        is_deletion(reason) <==> brings(r.events@[i]) is None,
        brings(r.events@[i]) matches Some(t) ==> {
            &&& t.0 == before.drive.letter
            &&& t.1.file_ref == file
            &&& t.1.parent_ref == parent
            &&& t.1.name@ == utf16_text(name)
            &&& t.1.kind == FileKind::Directory <==> is_folder(attributes)
        },
{
    lemma_n64(b@, 0, next as nat);
    assert(are_events(r.events@, before.drive.letter, b@, changes(b@, 8)));
    law_event_tells_the_change(
        r.events@[i],
        before.drive.letter,
        b@,
        changes(b@, 8)[i],
        a,
        off,
        reason,
        attributes,
        file,
        parent,
        name,
    );
}

/// An enumeration of a volume gives each record as it was laid out, whatever
/// the reason in it says.
pub proof fn law_enumeration_tells_each_record(
    b: Seq<u8>,
    at: int,
    a: Seq<u8>,
    off: int,
    reason: u32,
    attributes: u32,
    file: u64,
    parent: u64,
    name: Seq<u16>,
)
    requires
        stands_at(b, at, a),
        is_change(a, off, reason, attributes, file, parent, name),
    ensures
        usn_entries(b, at) == seq![
            NamedRecord {
                file_ref: file,
                parent_ref: parent,
                name,
                is_dir: is_folder(attributes),
            },
        ] + usn_entries(b, at + a.len()),
{
    lemma_change(b, at, a, off, reason, attributes, file, parent, name);
    assert(usn_fits(b, at));
    assert(usn_entry(b, at) == (NamedRecord {
        file_ref: file,
        parent_ref: parent,
        name,
        is_dir: is_folder(attributes),
    }));
}

/// The number of a record is its place in the table: a record behind `n` others
/// is read with the number of the first one and `n`.
pub proof fn law_number_is_the_place(
    a: Seq<u8>,
    n: int,
    d: Seq<u8>,
    b: Seq<u8>,
    at: int,
    check: (u8, u8),
    first: u64,
)
    requires
        0 <= n,
        a.len() == n * d.len(),
        first + n <= u64::MAX,
        is_stored(d, b, at, check),
    ensures
        entries(a + d, d.len() as int, first as int, n + 1) == entries(
            a,
            d.len() as int,
            first as int,
            n,
        ) + (match file_entry(b, (first + n) as u64) {
            Some(e) => seq![e],
            None => Seq::empty(),
        }),
{
    law_pieces_join(a, d, d.len() as int, first as int, n, 1);
    law_stored_record_is_restored(d, b, at, check, (first + n) as u64);
}

/// The size of a table record in a boot sector: so many clusters, of so many
/// sectors, of so many bytes. Where the number of clusters is negative the size is
/// a power of two: 2 for -1, and twice as much for each number below.
pub proof fn law_size_of_a_record(boot: Seq<u8>, other: Seq<u8>, bytes: u16)
    requires
        boot.len() >= 512,
        stands_at(boot, 0x0b, le_bytes(bytes as nat, 2)),
    ensures
        is_boot_sector(boot) <==> stands_at(boot, 3, seq![0x4eu8, 0x54u8, 0x46u8, 0x53u8]),
        0 < boot[0x40] < 128 ==> record_size_of(boot) == boot[0x40] * (bytes * boot[0x0d]),
        boot[0x40] == 255 ==> record_size_of(boot) == 2,
        192 < boot[0x40] < 255 && other[0x40] == boot[0x40] + 1 ==> record_size_of(boot) == 2
            * record_size_of(other),
{
    lemma_n16(boot, 0x0b, bytes as nat);
    let mark = seq![0x4eu8, 0x54u8, 0x46u8, 0x53u8];
    if is_boot_sector(boot) {
        assert(boot.subrange(3, 7) =~= mark);
    }
    if stands_at(boot, 3, mark) {
        lemma_stands(boot, 3, mark, 0);
        lemma_stands(boot, 3, mark, 1);
        lemma_stands(boot, 3, mark, 2);
        lemma_stands(boot, 3, mark, 3);
    }
    reveal_with_fuel(power_of_two, 2);
}

} // verus!
