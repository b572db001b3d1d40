//! Posting bitmaps: sets of document identifiers held in compressed form.
//!
//! The bitmap itself is `roaring::RoaringBitmap`. Verified code sees it
//! through [`bitmap_set`], the set of integers it holds, and through the
//! contracts below, which are taken on trust from the `roaring` crate.
//! The contracts hold of well-formed bitmaps, which [`bitmap_wf`] names:
//! the bitmaps that the crate builds by its set operations. A bitmap that
//! is read from bytes is built anew before it is used.

use roaring::MultiOps;
use roaring::RoaringBitmap;
use vstd::prelude::*;
use vstd::set_lib::*;

verus! {

/// Trusted: the type `roaring::RoaringBitmap`. Nothing inside a bitmap is
/// seen; all that is known of one is said by the items below.
#[verifier::external_type_specification]
#[verifier::external_body]
pub struct ExRoaringBitmap(roaring::RoaringBitmap);

/// The integers that a bitmap holds.
pub uninterp spec fn bitmap_set(b: RoaringBitmap) -> Set<u32>;

/// Whether a bitmap is well formed: its containers come in the order of
/// their keys, no two share a key and none is empty. The `roaring` crate
/// keeps its bitmaps so under its set operations, and what it says of
/// them holds of such bitmaps.
pub uninterp spec fn bitmap_wf(b: RoaringBitmap) -> bool;

/// Whether every bitmap of a sequence is well formed.
pub open spec fn bitmaps_wf(bs: Seq<RoaringBitmap>) -> bool {
    forall|i: int| 0 <= i < bs.len() ==> bitmap_wf(#[trigger] bs[i])
}

/// The sets held by a sequence of bitmaps, in the same order.
pub open spec fn bitmap_sets(bs: Seq<RoaringBitmap>) -> Seq<Set<u32>> {
    Seq::new(bs.len(), |i: int| bitmap_set(bs[i]))
}

/// The integers that occur in at least one set of `sets`.
pub open spec fn union_of(sets: Seq<Set<u32>>) -> Set<u32> {
    Set::new(|x: u32| exists|i: int| 0 <= i < sets.len() && #[trigger] sets[i].contains(x))
}

/// The integers that occur in every set of `sets`; empty when there is no set at all.
pub open spec fn intersection_of(sets: Seq<Set<u32>>) -> Set<u32> {
    Set::new(
        |x: u32| sets.len() > 0 && forall|i: int| 0 <= i < sets.len() ==> #[trigger] sets[i].contains(x),
    )
}

/// Trusted: `RoaringBitmap::new` returns a well-formed bitmap that holds
/// nothing.
pub assume_specification[ RoaringBitmap::new ]() -> (r: RoaringBitmap)
    ensures
        bitmap_wf(r),
        bitmap_set(r) == Set::<u32>::empty(),
;

/// Trusted: on a well-formed bitmap, `RoaringBitmap::insert` adds `value`
/// to the set, reports whether it was absent before and leaves the bitmap
/// well formed.
pub assume_specification[ RoaringBitmap::insert ](b: &mut RoaringBitmap, value: u32) -> (added: bool)
    requires
        bitmap_wf(*old(b)),
    ensures
        bitmap_wf(*final(b)),
        bitmap_set(*final(b)) == bitmap_set(*old(b)).insert(value),
        added == !bitmap_set(*old(b)).contains(value),
;

/// Trusted: on a well-formed bitmap, `RoaringBitmap::len` is the number
/// of integers in the set.
pub assume_specification[ RoaringBitmap::len ](b: &RoaringBitmap) -> (n: u64)
    requires
        bitmap_wf(*b),
    ensures
        n == bitmap_set(*b).len(),
;

/// Trusted: on a well-formed bitmap, `RoaringBitmap::is_empty` tells
/// whether the set has no element.
pub assume_specification[ RoaringBitmap::is_empty ](b: &RoaringBitmap) -> (r: bool)
    requires
        bitmap_wf(*b),
    ensures
        r == (bitmap_set(*b) == Set::<u32>::empty()),
;

/// Trusted: on a well-formed bitmap, `RoaringBitmap::max` is the greatest
/// integer of the set, and `None` exactly when the set is empty.
pub assume_specification[ RoaringBitmap::max ](b: &RoaringBitmap) -> (r: Option<u32>)
    requires
        bitmap_wf(*b),
    ensures
        match r {
            Some(m) => bitmap_set(*b).contains(m) && forall|x: u32|
                bitmap_set(*b).contains(x) ==> x <= m,
            None => bitmap_set(*b) == Set::<u32>::empty(),
        },
;

/// Trusted: cloning a `RoaringBitmap` yields a bitmap with the same set,
/// well formed if the bitmap is.
pub assume_specification[ <RoaringBitmap as Clone>::clone ](b: &RoaringBitmap) -> (r: RoaringBitmap)
    ensures
        bitmap_wf(r) == bitmap_wf(*b),
        bitmap_set(r) == bitmap_set(*b),
;

/// Trusted: `|=` between well-formed bitmaps
/// (`BitOrAssign<&RoaringBitmap>`) replaces the left set by the union of
/// both and leaves the left bitmap well formed.
#[verifier::external_body]
pub(crate) fn bitmap_union_with(b: &mut RoaringBitmap, other: &RoaringBitmap)
    requires
        bitmap_wf(*old(b)),
        bitmap_wf(*other),
    ensures
        bitmap_wf(*final(b)),
        bitmap_set(*final(b)) == bitmap_set(*old(b)).union(bitmap_set(*other)),
{
    *b |= other;
}

/// Trusted: `-=` between well-formed bitmaps
/// (`SubAssign<&RoaringBitmap>`) removes from the left set every integer
/// of the right one and leaves the left bitmap well formed.
#[verifier::external_body]
pub(crate) fn bitmap_difference_with(b: &mut RoaringBitmap, other: &RoaringBitmap)
    requires
        bitmap_wf(*old(b)),
        bitmap_wf(*other),
    ensures
        bitmap_wf(*final(b)),
        bitmap_set(*final(b)) == bitmap_set(*old(b)).difference(bitmap_set(*other)),
{
    *b -= other;
}

/// Trusted: `MultiOps::union` over a slice of well-formed bitmaps is a
/// well-formed bitmap that holds what at least one of them holds.
#[verifier::external_body]
pub(crate) fn bitmap_union(bs: &[RoaringBitmap]) -> (r: RoaringBitmap)
    requires
        bitmaps_wf(bs@),
    ensures
        bitmap_wf(r),
        bitmap_set(r) == union_of(bitmap_sets(bs@)),
{
    bs.union()
}

/// Trusted: `MultiOps::intersection` over a slice of well-formed bitmaps
/// is a well-formed bitmap that holds what all of them hold, and nothing
/// when the slice is empty.
#[verifier::external_body]
pub(crate) fn bitmap_intersection(bs: &[RoaringBitmap]) -> (r: RoaringBitmap)
    requires
        bitmaps_wf(bs@),
    ensures
        bitmap_wf(r),
        bitmap_set(r) == intersection_of(bitmap_sets(bs@)),
{
    bs.intersection()
}

/// Whether `ids` lists the integers of `set` once each, in increasing order.
pub open spec fn is_listing(ids: Seq<u32>, set: Set<u32>) -> bool {
    &&& ids.to_set() == set
    &&& forall|i: int, j: int| 0 <= i < j < ids.len() ==> ids[i] < ids[j]
}

/// The integers of a set in increasing order.
pub open spec fn listing(set: Set<u32>) -> Seq<u32> {
    choose|ids: Seq<u32>| is_listing(ids, set)
}

/// Trusted: on a well-formed bitmap, `RoaringBitmap::iter` yields every
/// integer of the set once, in increasing order.
#[verifier::external_body]
pub(crate) fn bitmap_to_vec(b: &RoaringBitmap) -> (v: Vec<u32>)
    requires
        bitmap_wf(*b),
    ensures
        is_listing(v@, bitmap_set(*b)),
{
    b.iter().collect()
}

/// The integers of a well-formed bitmap in increasing order.
pub fn bitmap_ids(b: &RoaringBitmap) -> (v: Vec<u32>)
    requires
        bitmap_wf(*b),
    ensures
        v@ == listing(bitmap_set(*b)),
        is_listing(v@, bitmap_set(*b)),
{
    let v = bitmap_to_vec(b);
    proof {
        lemma_listing_unique(v@, listing(bitmap_set(*b)), bitmap_set(*b));
    }
    v
}

/// A listing without its last item lists the set without that item.
proof fn lemma_listing_drop_last(a: Seq<u32>, set: Set<u32>)
    requires
        is_listing(a, set),
        a.len() > 0,
    ensures
        is_listing(a.drop_last(), set.remove(a.last())),
{
    let rest = set.remove(a.last());
    assert forall|x: u32| rest.contains(x) implies a.drop_last().to_set().contains(x) by {
        assert(a.to_set().contains(x));
        let i = choose|i: int| 0 <= i < a.len() && a[i] == x;
        assert(a.drop_last()[i] == x);
    }
    assert forall|x: u32| a.drop_last().to_set().contains(x) implies rest.contains(x) by {
        let i = choose|i: int| 0 <= i < a.drop_last().len() && a.drop_last()[i] == x;
        assert(a[i] == x);
        assert(a.to_set().contains(x));
    }
    assert(a.drop_last().to_set() =~= rest);
}

/// A set has one listing only.
pub proof fn lemma_listing_unique(a: Seq<u32>, b: Seq<u32>, set: Set<u32>)
    requires
        is_listing(a, set),
        is_listing(b, set),
    ensures
        a == b,
    decreases a.len(),
{
    if a.len() == 0 {
        if b.len() > 0 {
            assert(b.to_set().contains(b[0]));
            assert(a.to_set().contains(b[0]));
        }
        assert(a =~= b);
    } else {
        let top = a.last();
        assert(a.to_set().contains(top));
        assert(b.to_set().contains(top));
        assert(b.len() > 0);
        assert(b.to_set().contains(b.last()));
        assert(a.to_set().contains(b.last()));
        assert(b.last() == top);
        lemma_listing_drop_last(a, set);
        lemma_listing_drop_last(b, set);
        lemma_listing_unique(a.drop_last(), b.drop_last(), set.remove(top));
        assert(a =~= a.drop_last().push(top));
        assert(b =~= b.drop_last().push(top));
    }
}

/// What the bytes of a serialized bitmap stand for: the set, and the number
/// of bytes that the bitmap takes at the front of `bytes`; `None` when no
/// bitmap can be read there.
pub uninterp spec fn roaring_decode(bytes: Seq<u8>) -> Option<(Set<u32>, int)>;

/// Trusted: `RoaringBitmap::deserialize_from` on the front of `bytes`,
/// followed by `RoaringBitmap::from_sorted_iter` on what was read, which
/// turns down a bitmap whose integers do not come out in increasing
/// order and builds a well-formed bitmap of the others. What is read is
/// known by its name only; the bytes that were not used are handed back.
#[verifier::external_body]
pub(crate) fn bitmap_from_bytes(bytes: &[u8]) -> (r: Option<(RoaringBitmap, &[u8])>)
    ensures
        match r {
            Some((bitmap, rest)) => {
                &&& bitmap_wf(bitmap)
                &&& rest@.len() <= bytes@.len()
                &&& rest@ == bytes@.skip(bytes@.len() - rest@.len())
                &&& roaring_decode(bytes@) == Some(
                    (bitmap_set(bitmap), bytes@.len() - rest@.len()),
                )
            },
            None => roaring_decode(bytes@) is None,
        },
{
    let mut rest = bytes;
    match RoaringBitmap::deserialize_from(&mut rest) {
        Ok(read) => match RoaringBitmap::from_sorted_iter(read.iter()) {
            Ok(bitmap) => Some((bitmap, rest)),
            Err(_) => None,
        },
        Err(_) => None,
    }
}

/// Trusted: `RoaringBitmap::serialize_into` a fresh vector, on a
/// well-formed bitmap. The call fails only where the writer fails, and a
/// vector takes every write, so there is a result. The bytes written
/// read back as the same set, whatever follows them, and all of them are
/// used: where the bytes end before the last of them, the reader runs out
/// of bytes and no bitmap is read.
#[verifier::external_body]
pub(crate) fn bitmap_to_bytes(b: &RoaringBitmap) -> (r: Option<Vec<u8>>)
    requires
        bitmap_wf(*b),
    ensures
        r is Some,
        r matches Some(bytes) ==> forall|rest: Seq<u8>|
            #![trigger roaring_decode(bytes@ + rest)]
            roaring_decode(bytes@ + rest) == Some((bitmap_set(*b), bytes@.len() as int)),
        r matches Some(bytes) ==> forall|cut: int|
            #![trigger roaring_decode(bytes@.take(cut))]
            0 <= cut < bytes@.len() ==> roaring_decode(bytes@.take(cut)) is None,
{
    let mut out = Vec::new();
    match b.serialize_into(&mut out) {
        Ok(()) => Some(out),
        Err(_) => None,
    }
}

/// Every set of 32-bit integers is finite and has at most 2^32 elements.
pub proof fn lemma_u32_set_bounded(s: Set<u32>)
    ensures
        s.finite(),
        s.len() <= 0x1_0000_0000,
{
    let ints = set_int_range(0, 0x1_0000_0000);
    lemma_int_range(0, 0x1_0000_0000);
    let all = ints.map(|i: int| i as u32);
    ints.lemma_map_finite(|i: int| i as u32);
    lemma_map_size_bound(ints, all, |i: int| i as u32);
    assert forall|x: u32| s.contains(x) implies all.contains(x) by {
        assert(ints.contains(x as int));
    }
    lemma_len_subset(s, all);
}

} // verus!
