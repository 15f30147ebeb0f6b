//! Trusted boundary to the `box_intersect_ze` crate, which supplies the box
//! storage (`BBoxSet`) and the batch box-overlap reporting primitive
//! (`intersect_scan`). The free-space store is kept in a `BBoxSet` of
//! integer-coordinate 2D boxes tagged with `usize` ids.
//!
//! `bbs_contents` names what a set holds: the sequence of its entries, in
//! storage order, each as `(id, x_lo, y_lo, x_hi, y_hi)`. Every wrapper below
//! states its effect over that name, as the crate's source shows it.

use vstd::prelude::*;
use crate::geom::{AxisAlignedBox, open_intersect};
use box_intersect_ze::boxes::BBox;

verus! {

/// A set of tagged boxes, held for the `box_intersect_ze` algorithms: 2D
/// boxes with `i32` bounds, tagged with `usize` ids. Opaque to the verifier;
/// what it holds is named by [`bbs_contents`].
#[verifier::external_body]
pub struct StoreSet {
    inner: box_intersect_ze::set::BBoxSet<box_intersect_ze::boxes::Box2D<i32>, usize>,
}

/// One stored entry, as plain values: `(id, x_lo, y_lo, x_hi, y_hi)`.
pub type StoreEntry = (usize, i32, i32, i32, i32);

/// What a `BBoxSet` holds: its `(box, id)` entries in storage order, each
/// flattened to plain values.
pub uninterp spec fn bbs_contents(s: StoreSet) -> Seq<StoreEntry>;

/// The box of an entry.
pub open spec fn entry_box(e: StoreEntry) -> AxisAlignedBox {
    AxisAlignedBox { x_lo: e.1, y_lo: e.2, x_hi: e.3, y_hi: e.4 }
}

/// The entry for a tagged box.
pub open spec fn entry_of(id: usize, b: AxisAlignedBox) -> StoreEntry {
    (id, b.x_lo, b.y_lo, b.x_hi, b.y_hi)
}

/// Entries are ordered by their low x coordinate.
pub open spec fn sorted_by_x_lo(s: Seq<StoreEntry>) -> bool {
    forall|i: int, j: int| 0 <= i < j < s.len() ==> (#[trigger] s[i]).1 <= (#[trigger] s[j]).1
}

/// No id occurs twice.
pub open spec fn distinct_ids(s: Seq<StoreEntry>) -> bool {
    forall|i: int, j: int| 0 <= i < j < s.len() ==> (#[trigger] s[i]).0 != (#[trigger] s[j]).0
}

/// No id occurs in both sequences.
pub open spec fn ids_disjoint(a: Seq<StoreEntry>, b: Seq<StoreEntry>) -> bool {
    forall|i: int, j: int| 0 <= i < a.len() && 0 <= j < b.len()
        ==> (#[trigger] a[i]).0 != (#[trigger] b[j]).0
}

/// Every entry holds a non-degenerate box (`lo < hi` on both axes).
pub open spec fn entries_nondeg(s: Seq<StoreEntry>) -> bool {
    forall|i: int| 0 <= i < s.len() ==> entry_box(#[trigger] s[i]).nondegenerate()
}

/// `b` lists the same elements as `a`, rearranged by the index map `p`.
pub open spec fn is_reordering<T>(p: Seq<int>, a: Seq<T>, b: Seq<T>) -> bool {
    &&& p.len() == a.len()
    &&& b.len() == a.len()
    &&& forall|k: int| 0 <= k < p.len() ==> 0 <= #[trigger] p[k] < a.len()
    &&& forall|k1: int, k2: int| 0 <= k1 < k2 < p.len() ==> p[k1] != p[k2]
    &&& forall|k: int| 0 <= k < p.len() ==> #[trigger] b[k] == a[p[k]]
}

/// Every reported pair is a real overlap: its second id tags a box of `a`,
/// its first id a box of `b`, and the two boxes intersect with positive
/// extent on both axes.
pub open spec fn scan_sound(a: Seq<StoreEntry>, b: Seq<StoreEntry>, out: Seq<(usize, usize)>) -> bool {
    forall|k: int| 0 <= k < out.len() ==> exists|i: int, j: int|
        0 <= i < a.len() && 0 <= j < b.len()
        && a[i].0 == (#[trigger] out[k]).1 && b[j].0 == out[k].0
        && open_intersect(entry_box(a[i]), entry_box(b[j]))
}

/// Every positively-overlapping pair is reported, as `(id in b, id in a)`.
pub open spec fn scan_complete(a: Seq<StoreEntry>, b: Seq<StoreEntry>, out: Seq<(usize, usize)>) -> bool {
    forall|i: int, j: int| 0 <= i < a.len() && 0 <= j < b.len()
        && open_intersect(entry_box(#[trigger] a[i]), entry_box(#[trigger] b[j]))
        ==> out.contains((b[j].0, a[i].0))
}

/// Relies on `BBoxSet::new`: creates an empty set.
#[verifier::external_body]
pub fn bbs_new() -> (s: StoreSet)
    ensures
        bbs_contents(s) == Seq::<StoreEntry>::empty(),
{
    StoreSet { inner: box_intersect_ze::set::BBoxSet::new() }
}

/// Relies on `BBoxSet::push`: appends one `(box, id)` entry at the end.
#[verifier::external_body]
pub fn bbs_push(s: &mut StoreSet, id: usize, b: &AxisAlignedBox)
    ensures
        bbs_contents(*final(s)) == bbs_contents(*old(s)).push(entry_of(id, *b)),
{
    s.inner.push(id, box_intersect_ze::boxes::Box2D::new([b.x_lo, b.y_lo], [b.x_hi, b.y_hi]))
}

/// Relies on `BBoxSet::clear`: removes all entries.
#[verifier::external_body]
pub fn bbs_clear(s: &mut StoreSet)
    ensures
        bbs_contents(*final(s)) == Seq::<StoreEntry>::empty(),
{
    s.inner.clear()
}

/// Relies on `BBoxSet::len`: the number of entries.
#[verifier::external_body]
pub fn bbs_len(s: &StoreSet) -> (n: usize)
    ensures
        n == bbs_contents(*s).len(),
{
    s.inner.len()
}

/// Relies on `BBoxSet::get`: the entry at a storage index.
#[verifier::external_body]
pub fn bbs_get(s: &StoreSet, i: usize) -> (e: (usize, AxisAlignedBox))
    requires
        i < bbs_contents(*s).len(),
    ensures
        entry_of(e.0, e.1) == bbs_contents(*s)[i as int],
{
    let (b, id) = s.inner.get(i);
    (id, AxisAlignedBox { x_lo: b.lo(0), y_lo: b.lo(1), x_hi: b.hi(0), y_hi: b.hi(1) })
}

/// Relies on `BBoxSet::sort`: reorders the entries by their low x
/// coordinate (a stable sort of the underlying vector; a permutation).
#[verifier::external_body]
pub fn bbs_sort(s: &mut StoreSet)
    ensures
        sorted_by_x_lo(bbs_contents(*final(s))),
        bbs_contents(*final(s)).to_multiset() == bbs_contents(*old(s)).to_multiset(),
        exists|p: Seq<int>| is_reordering(p, bbs_contents(*old(s)), bbs_contents(*final(s))),
{
    s.inner.sort()
}

/// Relies on `box_intersect_ze::intersect_scan` (a two-way sweep over two
/// sorted sets): appends to `out` exactly the id pairs of boxes, one from
/// each set, that overlap with positive extent on both axes (the crate's
/// half-open interval convention), each pair as `(id in b, id in a)`. Pairs
/// whose two ids are equal are skipped, so the id sets must be disjoint.
/// The sweep tests one side of the x-axis overlap only through the sort
/// order, which decides positive overlap only for boxes of strictly
/// positive x-extent (with degenerate boxes, tied low coordinates can make
/// it report a pair that does not positively overlap), so every entry must
/// hold a non-degenerate box.
#[verifier::external_body]
pub fn scan_pairs(a: &StoreSet, b: &StoreSet, out: &mut Vec<(usize, usize)>)
    requires
        sorted_by_x_lo(bbs_contents(*a)),
        sorted_by_x_lo(bbs_contents(*b)),
        distinct_ids(bbs_contents(*a)),
        distinct_ids(bbs_contents(*b)),
        ids_disjoint(bbs_contents(*a), bbs_contents(*b)),
        entries_nondeg(bbs_contents(*a)),
        entries_nondeg(bbs_contents(*b)),
        old(out)@.len() == 0,
    ensures
        scan_sound(bbs_contents(*a), bbs_contents(*b), final(out)@),
        scan_complete(bbs_contents(*a), bbs_contents(*b), final(out)@),
{
    box_intersect_ze::intersect_scan(&a.inner, &b.inner, out)
}

} // verus!
