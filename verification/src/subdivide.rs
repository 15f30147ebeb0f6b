//! Region subtraction: classifying how an occluder overlaps a free region and
//! rewriting the region into the exact fragments that remain free.
//!
//! The overlap topology of two axis-aligned rectangles is classified by
//! corner-containment counts, as a pair of per-axis counts: how many of the
//! occluder's boundary coordinates fall inside the free region's closed extent
//! on each axis, and vice versa. The product of the two per-axis counts for a
//! rectangle is exactly its number of corners inside the other rectangle.

use vstd::prelude::*;
use crate::geom::{AxisAlignedBox, area_sum, interior_disjoint, intersection, open_intersect, overlap_area};

verus! {

/// 1 when `lo <= p <= hi`, else 0.
pub open spec fn cnt_in(lo: int, hi: int, p: int) -> int {
    if lo <= p <= hi { 1 } else { 0 }
}

/// How many of `inner`'s two x-coordinates lie in `outer`'s closed x-extent.
pub open spec fn x_coords_inside(inner: AxisAlignedBox, outer: AxisAlignedBox) -> int {
    cnt_in(outer.x_lo as int, outer.x_hi as int, inner.x_lo as int)
        + cnt_in(outer.x_lo as int, outer.x_hi as int, inner.x_hi as int)
}

/// How many of `inner`'s two y-coordinates lie in `outer`'s closed y-extent.
pub open spec fn y_coords_inside(inner: AxisAlignedBox, outer: AxisAlignedBox) -> int {
    cnt_in(outer.y_lo as int, outer.y_hi as int, inner.y_lo as int)
        + cnt_in(outer.y_lo as int, outer.y_hi as int, inner.y_hi as int)
}

/// Number of `inner`'s four corners lying in `outer`'s closed extent; it is
/// the product of the per-axis counts.
pub open spec fn corners_inside(inner: AxisAlignedBox, outer: AxisAlignedBox) -> int {
    x_coords_inside(inner, outer) * y_coords_inside(inner, outer)
}

/// All boxes of `s` lie within `f` and have interiors disjoint from `o`.
pub open spec fn fragments_fit(s: Seq<AxisAlignedBox>, f: AxisAlignedBox, o: AxisAlignedBox) -> bool {
    forall|i: int| 0 <= i < s.len() ==> (#[trigger] s[i]).valid()
        && f.contains_box(s[i]) && interior_disjoint(s[i], o)
}

/// The boxes of `s` are pairwise interior-disjoint.
pub open spec fn pairwise_disjoint(s: Seq<AxisAlignedBox>) -> bool {
    forall|i: int, j: int| 0 <= i < j < s.len()
        ==> interior_disjoint(#[trigger] s[i], #[trigger] s[j])
}

pub open spec fn is_nondeg(b: AxisAlignedBox) -> bool {
    b.nondegenerate()
}

/// Every box of `s` is non-degenerate.
pub open spec fn all_nondeg(s: Seq<AxisAlignedBox>) -> bool {
    forall|i: int| 0 <= i < s.len() ==> (#[trigger] s[i]).nondegenerate()
}

/// Computes the per-axis containment counts that classify the overlap
/// topology: `(ax, ay, bx, by)` where `ax * ay` is the number of `new`'s
/// corners inside `free` and `bx * by` the number of `free`'s corners inside
/// `new` (closed extents; boundary-touching counts).
pub fn identify_intersection_case(new: &AxisAlignedBox, free: &AxisAlignedBox) -> (c: (u32, u32, u32, u32))
    ensures
        c.0 == x_coords_inside(*new, *free),
        c.1 == y_coords_inside(*new, *free),
        c.2 == x_coords_inside(*free, *new),
        c.3 == y_coords_inside(*free, *new),
{
    let ax: u32 = (if free.x_lo <= new.x_lo && new.x_lo <= free.x_hi { 1 } else { 0 })
        + (if free.x_lo <= new.x_hi && new.x_hi <= free.x_hi { 1 } else { 0 });
    let ay: u32 = (if free.y_lo <= new.y_lo && new.y_lo <= free.y_hi { 1 } else { 0 })
        + (if free.y_lo <= new.y_hi && new.y_hi <= free.y_hi { 1 } else { 0 });
    let bx: u32 = (if new.x_lo <= free.x_lo && free.x_lo <= new.x_hi { 1 } else { 0 })
        + (if new.x_lo <= free.x_hi && free.x_hi <= new.x_hi { 1 } else { 0 });
    let by: u32 = (if new.y_lo <= free.y_lo && free.y_lo <= new.y_hi { 1 } else { 0 })
        + (if new.y_lo <= free.y_hi && free.y_hi <= new.y_hi { 1 } else { 0 });
    (ax, ay, bx, by)
}

/// On one axis, two strictly overlapping non-degenerate intervals always
/// produce one of six count pairs; counts like (0, 0) or (0, 1) cannot occur.
proof fn lemma_axis_pair(flo: int, fhi: int, olo: int, ohi: int)
    requires
        flo < fhi,
        olo < ohi,
        flo < ohi,
        olo < fhi,
    ensures
        ({
            let a = cnt_in(flo, fhi, olo) + cnt_in(flo, fhi, ohi);
            let b = cnt_in(olo, ohi, flo) + cnt_in(olo, ohi, fhi);
            (a == 2 && b == 0) || (a == 0 && b == 2) || (a == 1 && b == 1)
                || (a == 2 && b == 2) || (a == 2 && b == 1) || (a == 1 && b == 2)
        }),
{
}

/// Appends `b` and accounts for its area.
fn push_cand(v: &mut Vec<AxisAlignedBox>, b: AxisAlignedBox)
    ensures
        final(v)@ == old(v)@.push(b),
        area_sum(final(v)@) == area_sum(old(v)@) + b.area(),
{
    let ghost pre = v@;
    v.push(b);
    proof {
        assert(v@.drop_last() =~= pre);
    }
}

/// One unfolding step of `filter` at the end of a sequence.
proof fn lemma_filter_push(s: Seq<AxisAlignedBox>, b: AxisAlignedBox)
    ensures
        s.push(b).filter(|x: AxisAlignedBox| is_nondeg(x)) == if is_nondeg(b) {
            s.filter(|x: AxisAlignedBox| is_nondeg(x)).push(b)
        } else {
            s.filter(|x: AxisAlignedBox| is_nondeg(x))
        },
{
    reveal(Seq::filter);
    assert(s.push(b).drop_last() =~= s);
    assert(s.push(b).last() == b);
}

/// Keeps exactly the non-degenerate boxes, in order.
fn keep_nondegenerate(c: &Vec<AxisAlignedBox>) -> (r: Vec<AxisAlignedBox>)
    ensures
        r@ == c@.filter(|b: AxisAlignedBox| is_nondeg(b)),
{
    let mut r: Vec<AxisAlignedBox> = Vec::new();
    let mut i: usize = 0;
    proof {
        reveal(Seq::filter);
        assert(c@.subrange(0, 0).filter(|b: AxisAlignedBox| is_nondeg(b)) =~= Seq::<AxisAlignedBox>::empty());
    }
    while i < c.len()
        invariant
            0 <= i <= c@.len(),
            r@ == c@.subrange(0, i as int).filter(|b: AxisAlignedBox| is_nondeg(b)),
        decreases c@.len() - i,
    {
        let b = c[i];
        proof {
            let sub = c@.subrange(0, i as int);
            assert(c@.subrange(0, i as int + 1) =~= sub.push(b));
            lemma_filter_push(sub, b);
        }
        if b.x_lo < b.x_hi && b.y_lo < b.y_hi {
            r.push(b);
        }
        i = i + 1;
    }
    proof {
        assert(c@.subrange(0, c@.len() as int) =~= c@);
    }
    r
}

/// The non-degenerate boxes of `s`, in order.
pub open spec fn nondeg_filter(s: Seq<AxisAlignedBox>) -> Seq<AxisAlignedBox> {
    s.filter(|b: AxisAlignedBox| is_nondeg(b))
}

/// Every element of the filtered sequence occurs somewhere in the original.
proof fn lemma_filter_origin(s: Seq<AxisAlignedBox>)
    ensures
        forall|i: int| 0 <= i < nondeg_filter(s).len()
            ==> exists|k: int| 0 <= k < s.len() && s[k] == #[trigger] nondeg_filter(s)[i],
    decreases s.len(),
{
    if s.len() == 0 {
        reveal(Seq::filter);
    } else {
        let pre = s.drop_last();
        let b = s.last();
        lemma_filter_origin(pre);
        assert(pre.push(b) =~= s);
        lemma_filter_push(pre, b);
        let fs = s.filter(|x: AxisAlignedBox| is_nondeg(x));
        let fpre = pre.filter(|x: AxisAlignedBox| is_nondeg(x));
        assert forall|i: int| 0 <= i < fs.len() implies exists|k: int| 0 <= k < s.len()
            && s[k] == #[trigger] fs[i] by {
            if is_nondeg(b) && i == fs.len() - 1 {
                assert(fs[i] == b);
                assert(s[s.len() - 1] == b);
            } else {
                assert(fs[i] == fpre[i]);
                assert(nondeg_filter(pre)[i] == fpre[i]);
                assert(exists|k: int| 0 <= k < pre.len() && pre[k] == nondeg_filter(pre)[i]);
                let k = choose|k: int| 0 <= k < pre.len() && pre[k] == nondeg_filter(pre)[i];
                assert(pre[k] == s.subrange(0, s.len() - 1)[k]);
                assert(s[k] == fs[i]);
            }
        }
    }
}

/// Filtering a sequence of valid boxes down to its non-degenerate members
/// keeps the total area: a valid degenerate box has area zero.
proof fn lemma_area_sum_filter(s: Seq<AxisAlignedBox>)
    requires
        forall|i: int| 0 <= i < s.len() ==> (#[trigger] s[i]).valid(),
    ensures
        area_sum(s.filter(|b: AxisAlignedBox| is_nondeg(b))) == area_sum(s),
    decreases s.len(),
{
    if s.len() > 0 {
        let pre = s.drop_last();
        let b = s.last();
        assert(forall|i: int| 0 <= i < pre.len() ==> (#[trigger] pre[i]).valid());
        lemma_area_sum_filter(pre);
        assert(pre.push(b) =~= s);
        lemma_filter_push(pre, b);
        if !is_nondeg(b) {
            assert(b.valid() && !b.nondegenerate());
            assert((b.x_hi - b.x_lo) * (b.y_hi - b.y_lo) == 0) by (nonlinear_arith)
                requires
                    b.x_lo <= b.x_hi,
                    b.y_lo <= b.y_hi,
                    !(b.x_lo < b.x_hi && b.y_lo < b.y_hi),
            ;
        } else {
            let fpre = pre.filter(|x: AxisAlignedBox| is_nondeg(x));
            assert(fpre.push(b).drop_last() =~= fpre);
        }
    }
}

/// Filtering preserves pairwise interior-disjointness.
proof fn lemma_filter_pairwise(s: Seq<AxisAlignedBox>)
    requires
        pairwise_disjoint(s),
    ensures
        pairwise_disjoint(s.filter(|b: AxisAlignedBox| is_nondeg(b))),
    decreases s.len(),
{
    if s.len() > 0 {
        let pre = s.drop_last();
        let b = s.last();
        assert(pairwise_disjoint(pre)) by {
            assert(forall|i: int, j: int| 0 <= i < j < pre.len()
                ==> interior_disjoint(#[trigger] pre[i], #[trigger] pre[j]));
        }
        lemma_filter_pairwise(pre);
        assert(pre.push(b) =~= s);
        lemma_filter_push(pre, b);
        lemma_filter_origin(pre);
        let fs = s.filter(|x: AxisAlignedBox| is_nondeg(x));
        let fpre = pre.filter(|x: AxisAlignedBox| is_nondeg(x));
        if is_nondeg(b) {
            assert forall|i: int, j: int| 0 <= i < j < fs.len()
                implies interior_disjoint(#[trigger] fs[i], #[trigger] fs[j]) by {
                if j < fs.len() - 1 {
                    assert(fs[i] == fpre[i] && fs[j] == fpre[j]);
                } else {
                    assert(fs[i] == fpre[i] && fs[j] == b);
                    assert(nondeg_filter(pre)[i] == fpre[i]);
                    assert(exists|k: int| 0 <= k < pre.len() && pre[k] == nondeg_filter(pre)[i]);
                    let k = choose|k: int| 0 <= k < pre.len() && pre[k] == nondeg_filter(pre)[i];
                    assert(pre[k] == s.subrange(0, s.len() - 1)[k]);
                    assert(interior_disjoint(s[k], s[s.len() - 1]));
                }
            }
        }
    }
}

/// Filtering preserves membership-derived per-element facts.
proof fn lemma_filter_fits(s: Seq<AxisAlignedBox>, f: AxisAlignedBox, o: AxisAlignedBox)
    requires
        fragments_fit(s, f, o),
    ensures
        fragments_fit(s.filter(|b: AxisAlignedBox| is_nondeg(b)), f, o),
        all_nondeg(s.filter(|b: AxisAlignedBox| is_nondeg(b))),
{
    let fs = s.filter(|b: AxisAlignedBox| is_nondeg(b));
    broadcast use vstd::seq_lib::group_filter_ensures;
    lemma_filter_origin(s);
    assert forall|i: int| 0 <= i < fs.len() implies (#[trigger] fs[i]).valid()
        && f.contains_box(fs[i]) && interior_disjoint(fs[i], o) && fs[i].nondegenerate() by {
        assert(nondeg_filter(s)[i] == fs[i]);
        assert(exists|k: int| 0 <= k < s.len() && s[k] == nondeg_filter(s)[i]);
        let k = choose|k: int| 0 <= k < s.len() && s[k] == nondeg_filter(s)[i];
        assert(s[k].valid() && f.contains_box(s[k]) && interior_disjoint(s[k], o));
        assert(is_nondeg(fs[i]));
    }
}

/// Subtracts `occ` from `free`: returns the non-degenerate rectangular
/// fragments that remain of `free` once `occ` is carved out.
///
/// The fragments lie within `free`, avoid the interior of `occ`, are pairwise
/// interior-disjoint, and their areas add up to exactly the area of `free`
/// minus the area of `free ∩ occ`. An occluder that covers the whole region
/// leaves nothing; a single-corner clip leaves exactly three fragments; no
/// topology leaves more than five.
pub fn subdivide(free: &AxisAlignedBox, occ: &AxisAlignedBox) -> (r: Vec<AxisAlignedBox>)
    requires
        free.valid(),
        free.nondegenerate(),
        occ.valid(),
        occ.nondegenerate(),
        open_intersect(*free, *occ),
    ensures
        fragments_fit(r@, *free, *occ),
        all_nondeg(r@),
        pairwise_disjoint(r@),
        area_sum(r@) == free.area() - overlap_area(*free, *occ),
        occ.contains_box(*free) ==> r@.len() == 0,
        r@.len() <= 5,
        (x_coords_inside(*occ, *free) == 1 && y_coords_inside(*occ, *free) == 1
            && x_coords_inside(*free, *occ) == 1 && y_coords_inside(*free, *occ) == 1)
            ==> r@.len() == 3,
        (x_coords_inside(*occ, *free) == 2 && y_coords_inside(*occ, *free) == 2)
            ==> r@.len() <= 4,
{
    let (ax, ay, bx, by) = identify_intersection_case(occ, free);
    let fx0 = free.x_lo;
    let fy0 = free.y_lo;
    let fx1 = free.x_hi;
    let fy1 = free.y_hi;
    let ox0 = occ.x_lo;
    let oy0 = occ.y_lo;
    let ox1 = occ.x_hi;
    let oy1 = occ.y_hi;
    let ghost gfx0 = fx0 as int;
    let ghost gfy0 = fy0 as int;
    let ghost gfx1 = fx1 as int;
    let ghost gfy1 = fy1 as int;
    let ghost gox0 = ox0 as int;
    let ghost goy0 = oy0 as int;
    let ghost gox1 = ox1 as int;
    let ghost goy1 = oy1 as int;

    let mut cands: Vec<AxisAlignedBox> = Vec::new();

    if bx == 2 && by == 2 {
        // The occluder covers the whole region: nothing remains.
        proof {
            assert(occ.contains_box(*free));
            assert(intersection(*free, *occ) == *free);
        }
    } else if ax == 2 && ay == 2 {
        // The occluder lies inside the region: a ring of up to four strips
        // remains (full-width strips above and below, side strips beside it).
        let top = AxisAlignedBox { x_lo: fx0, y_lo: oy1, x_hi: fx1, y_hi: fy1 };
        let bot = AxisAlignedBox { x_lo: fx0, y_lo: fy0, x_hi: fx1, y_hi: oy0 };
        let left = AxisAlignedBox { x_lo: fx0, y_lo: oy0, x_hi: ox0, y_hi: oy1 };
        let right = AxisAlignedBox { x_lo: ox1, y_lo: oy0, x_hi: fx1, y_hi: oy1 };
        push_cand(&mut cands, top);
        push_cand(&mut cands, bot);
        push_cand(&mut cands, left);
        push_cand(&mut cands, right);
        proof {
            assert(intersection(*free, *occ) == *occ);
            assert((gfx1 - gfx0) * (gfy1 - goy1) + (gfx1 - gfx0) * (goy0 - gfy0)
                + (gox0 - gfx0) * (goy1 - goy0) + (gfx1 - gox1) * (goy1 - goy0)
                == (gfx1 - gfx0) * (gfy1 - gfy0) - (gox1 - gox0) * (goy1 - goy0))
                by (nonlinear_arith);
            assert(!occ.contains_box(*free));
        }
    } else if ax == 1 && ay == 1 && bx == 1 && by == 1 {
        // Corner clip: the occluder covers exactly one corner of the region.
        // Cutting the region into quadrants at the occluder's inner corner
        // leaves exactly the three quadrants away from that corner.
        let xr = fx0 <= ox0 && ox0 <= fx1;
        let yu = fy0 <= oy0 && oy0 <= fy1;
        let cx = if xr { ox0 } else { ox1 };
        let cy = if yu { oy0 } else { oy1 };
        proof {
            assert(fx0 < cx && cx < fx1);
            assert(fy0 < cy && cy < fy1);
        }
        let qll = AxisAlignedBox { x_lo: fx0, y_lo: fy0, x_hi: cx, y_hi: cy };
        let qlr = AxisAlignedBox { x_lo: cx, y_lo: fy0, x_hi: fx1, y_hi: cy };
        let qul = AxisAlignedBox { x_lo: fx0, y_lo: cy, x_hi: cx, y_hi: fy1 };
        let qur = AxisAlignedBox { x_lo: cx, y_lo: cy, x_hi: fx1, y_hi: fy1 };
        if xr {
            if yu {
                push_cand(&mut cands, qll);
                push_cand(&mut cands, qlr);
                push_cand(&mut cands, qul);
                proof { assert(intersection(*free, *occ) == qur); }
            } else {
                push_cand(&mut cands, qll);
                push_cand(&mut cands, qul);
                push_cand(&mut cands, qur);
                proof { assert(intersection(*free, *occ) == qlr); }
            }
        } else {
            if yu {
                push_cand(&mut cands, qll);
                push_cand(&mut cands, qlr);
                push_cand(&mut cands, qur);
                proof { assert(intersection(*free, *occ) == qul); }
            } else {
                push_cand(&mut cands, qlr);
                push_cand(&mut cands, qul);
                push_cand(&mut cands, qur);
                proof { assert(intersection(*free, *occ) == qll); }
            }
        }
        proof {
            let gcx = cx as int;
            let gcy = cy as int;
            assert((gcx - gfx0) * (gcy - gfy0) + (gfx1 - gcx) * (gcy - gfy0)
                + (gcx - gfx0) * (gfy1 - gcy) + (gfx1 - gcx) * (gfy1 - gcy)
                == (gfx1 - gfx0) * (gfy1 - gfy0)) by (nonlinear_arith);
            assert(all_nondeg(cands@));
            assert(cands@.len() == 3);
            assert(!occ.contains_box(*free));
        }
    } else if ax == 2 && ay == 1 {
        // Edge clip: the occluder pokes into the region across its top or
        // bottom edge. Up to five fragments: the band beyond the occluder's
        // inner edge, and the two side columns, each split at that edge.
        if fy0 <= oy0 && oy0 <= fy1 {
            // enters across the top edge
            let mid = AxisAlignedBox { x_lo: ox0, y_lo: fy0, x_hi: ox1, y_hi: oy0 };
            let lb = AxisAlignedBox { x_lo: fx0, y_lo: fy0, x_hi: ox0, y_hi: oy0 };
            let lt = AxisAlignedBox { x_lo: fx0, y_lo: oy0, x_hi: ox0, y_hi: fy1 };
            let rb = AxisAlignedBox { x_lo: ox1, y_lo: fy0, x_hi: fx1, y_hi: oy0 };
            let rt = AxisAlignedBox { x_lo: ox1, y_lo: oy0, x_hi: fx1, y_hi: fy1 };
            push_cand(&mut cands, mid);
            push_cand(&mut cands, lb);
            push_cand(&mut cands, lt);
            push_cand(&mut cands, rb);
            push_cand(&mut cands, rt);
            proof {
                assert(goy1 > gfy1);
                assert(intersection(*free, *occ) == (AxisAlignedBox {
                    x_lo: ox0, y_lo: oy0, x_hi: ox1, y_hi: fy1
                }));
                assert((gox1 - gox0) * (goy0 - gfy0) + (gox0 - gfx0) * (goy0 - gfy0)
                    + (gox0 - gfx0) * (gfy1 - goy0) + (gfx1 - gox1) * (goy0 - gfy0)
                    + (gfx1 - gox1) * (gfy1 - goy0)
                    == (gfx1 - gfx0) * (gfy1 - gfy0) - (gox1 - gox0) * (gfy1 - goy0))
                    by (nonlinear_arith);
            }
        } else {
            // enters across the bottom edge
            let mid = AxisAlignedBox { x_lo: ox0, y_lo: oy1, x_hi: ox1, y_hi: fy1 };
            let lb = AxisAlignedBox { x_lo: fx0, y_lo: fy0, x_hi: ox0, y_hi: oy1 };
            let lt = AxisAlignedBox { x_lo: fx0, y_lo: oy1, x_hi: ox0, y_hi: fy1 };
            let rb = AxisAlignedBox { x_lo: ox1, y_lo: fy0, x_hi: fx1, y_hi: oy1 };
            let rt = AxisAlignedBox { x_lo: ox1, y_lo: oy1, x_hi: fx1, y_hi: fy1 };
            push_cand(&mut cands, mid);
            push_cand(&mut cands, lb);
            push_cand(&mut cands, lt);
            push_cand(&mut cands, rb);
            push_cand(&mut cands, rt);
            proof {
                assert(fy0 <= oy1 && oy1 <= fy1 && goy0 < gfy0);
                assert(intersection(*free, *occ) == (AxisAlignedBox {
                    x_lo: ox0, y_lo: fy0, x_hi: ox1, y_hi: oy1
                }));
                assert((gox1 - gox0) * (gfy1 - goy1) + (gox0 - gfx0) * (goy1 - gfy0)
                    + (gox0 - gfx0) * (gfy1 - goy1) + (gfx1 - gox1) * (goy1 - gfy0)
                    + (gfx1 - gox1) * (gfy1 - goy1)
                    == (gfx1 - gfx0) * (gfy1 - gfy0) - (gox1 - gox0) * (goy1 - gfy0))
                    by (nonlinear_arith);
            }
        }
        proof { assert(!occ.contains_box(*free)); }
    } else if ax == 1 && ay == 2 {
        // Edge clip across the left or right edge of the region.
        if fx0 <= ox0 && ox0 <= fx1 {
            // enters across the right edge
            let mid = AxisAlignedBox { x_lo: fx0, y_lo: oy0, x_hi: ox0, y_hi: oy1 };
            let bl = AxisAlignedBox { x_lo: fx0, y_lo: fy0, x_hi: ox0, y_hi: oy0 };
            let br = AxisAlignedBox { x_lo: ox0, y_lo: fy0, x_hi: fx1, y_hi: oy0 };
            let tl = AxisAlignedBox { x_lo: fx0, y_lo: oy1, x_hi: ox0, y_hi: fy1 };
            let tr = AxisAlignedBox { x_lo: ox0, y_lo: oy1, x_hi: fx1, y_hi: fy1 };
            push_cand(&mut cands, mid);
            push_cand(&mut cands, bl);
            push_cand(&mut cands, br);
            push_cand(&mut cands, tl);
            push_cand(&mut cands, tr);
            proof {
                assert(gox1 > gfx1);
                assert(intersection(*free, *occ) == (AxisAlignedBox {
                    x_lo: ox0, y_lo: oy0, x_hi: fx1, y_hi: oy1
                }));
                assert((gox0 - gfx0) * (goy1 - goy0) + (gox0 - gfx0) * (goy0 - gfy0)
                    + (gfx1 - gox0) * (goy0 - gfy0) + (gox0 - gfx0) * (gfy1 - goy1)
                    + (gfx1 - gox0) * (gfy1 - goy1)
                    == (gfx1 - gfx0) * (gfy1 - gfy0) - (gfx1 - gox0) * (goy1 - goy0))
                    by (nonlinear_arith);
            }
        } else {
            // enters across the left edge
            let mid = AxisAlignedBox { x_lo: ox1, y_lo: oy0, x_hi: fx1, y_hi: oy1 };
            let bl = AxisAlignedBox { x_lo: fx0, y_lo: fy0, x_hi: ox1, y_hi: oy0 };
            let br = AxisAlignedBox { x_lo: ox1, y_lo: fy0, x_hi: fx1, y_hi: oy0 };
            let tl = AxisAlignedBox { x_lo: fx0, y_lo: oy1, x_hi: ox1, y_hi: fy1 };
            let tr = AxisAlignedBox { x_lo: ox1, y_lo: oy1, x_hi: fx1, y_hi: fy1 };
            push_cand(&mut cands, mid);
            push_cand(&mut cands, bl);
            push_cand(&mut cands, br);
            push_cand(&mut cands, tl);
            push_cand(&mut cands, tr);
            proof {
                assert(fx0 <= ox1 && ox1 <= fx1 && gox0 < gfx0);
                assert(intersection(*free, *occ) == (AxisAlignedBox {
                    x_lo: fx0, y_lo: oy0, x_hi: ox1, y_hi: oy1
                }));
                assert((gfx1 - gox1) * (goy1 - goy0) + (gox1 - gfx0) * (goy0 - gfy0)
                    + (gfx1 - gox1) * (goy0 - gfy0) + (gox1 - gfx0) * (gfy1 - goy1)
                    + (gfx1 - gox1) * (gfy1 - goy1)
                    == (gfx1 - gfx0) * (gfy1 - gfy0) - (gox1 - gfx0) * (goy1 - goy0))
                    by (nonlinear_arith);
            }
        }
        proof { assert(!occ.contains_box(*free)); }
    } else if bx == 1 && by == 2 {
        // The occluder spans the region's full height and covers one side:
        // a single slab remains on the other side.
        if ox0 <= fx1 && fx1 <= ox1 {
            let slab = AxisAlignedBox { x_lo: fx0, y_lo: fy0, x_hi: ox0, y_hi: fy1 };
            push_cand(&mut cands, slab);
            proof {
                assert(gfx0 < gox0);
                assert(intersection(*free, *occ) == (AxisAlignedBox {
                    x_lo: ox0, y_lo: fy0, x_hi: fx1, y_hi: fy1
                }));
                assert((gox0 - gfx0) * (gfy1 - gfy0)
                    == (gfx1 - gfx0) * (gfy1 - gfy0) - (gfx1 - gox0) * (gfy1 - gfy0))
                    by (nonlinear_arith);
            }
        } else {
            let slab = AxisAlignedBox { x_lo: ox1, y_lo: fy0, x_hi: fx1, y_hi: fy1 };
            push_cand(&mut cands, slab);
            proof {
                assert(ox0 <= fx0 && fx0 <= ox1 && gox1 < gfx1);
                assert(intersection(*free, *occ) == (AxisAlignedBox {
                    x_lo: fx0, y_lo: fy0, x_hi: ox1, y_hi: fy1
                }));
                assert((gfx1 - gox1) * (gfy1 - gfy0)
                    == (gfx1 - gfx0) * (gfy1 - gfy0) - (gox1 - gfx0) * (gfy1 - gfy0))
                    by (nonlinear_arith);
            }
        }
        proof { assert(!occ.contains_box(*free)); }
    } else if bx == 2 && by == 1 {
        // The occluder spans the region's full width and covers its top or
        // bottom: a single band remains.
        if oy0 <= fy1 && fy1 <= oy1 {
            let band = AxisAlignedBox { x_lo: fx0, y_lo: fy0, x_hi: fx1, y_hi: oy0 };
            push_cand(&mut cands, band);
            proof {
                assert(gfy0 < goy0);
                assert(intersection(*free, *occ) == (AxisAlignedBox {
                    x_lo: fx0, y_lo: oy0, x_hi: fx1, y_hi: fy1
                }));
                assert((gfx1 - gfx0) * (goy0 - gfy0)
                    == (gfx1 - gfx0) * (gfy1 - gfy0) - (gfx1 - gfx0) * (gfy1 - goy0))
                    by (nonlinear_arith);
            }
        } else {
            let band = AxisAlignedBox { x_lo: fx0, y_lo: oy1, x_hi: fx1, y_hi: fy1 };
            push_cand(&mut cands, band);
            proof {
                assert(oy0 <= fy0 && fy0 <= oy1 && goy1 < gfy1);
                assert(intersection(*free, *occ) == (AxisAlignedBox {
                    x_lo: fx0, y_lo: fy0, x_hi: fx1, y_hi: oy1
                }));
                assert((gfx1 - gfx0) * (gfy1 - goy1)
                    == (gfx1 - gfx0) * (gfy1 - gfy0) - (gfx1 - gfx0) * (goy1 - gfy0))
                    by (nonlinear_arith);
            }
        }
        proof { assert(!occ.contains_box(*free)); }
    } else if ax == 2 && by == 2 {
        // The occluder is a vertical band across the region: a slab remains
        // on each side.
        let left = AxisAlignedBox { x_lo: fx0, y_lo: fy0, x_hi: ox0, y_hi: fy1 };
        let right = AxisAlignedBox { x_lo: ox1, y_lo: fy0, x_hi: fx1, y_hi: fy1 };
        push_cand(&mut cands, left);
        push_cand(&mut cands, right);
        proof {
            assert(intersection(*free, *occ) == (AxisAlignedBox {
                x_lo: ox0, y_lo: fy0, x_hi: ox1, y_hi: fy1
            }));
            assert((gox0 - gfx0) * (gfy1 - gfy0) + (gfx1 - gox1) * (gfy1 - gfy0)
                == (gfx1 - gfx0) * (gfy1 - gfy0) - (gox1 - gox0) * (gfy1 - gfy0))
                by (nonlinear_arith);
            assert(!occ.contains_box(*free));
        }
    } else {
        // The occluder is a horizontal band across the region: the remaining
        // per-axis count configuration is necessarily this one.
        proof {
            lemma_axis_pair(gfx0, gfx1, gox0, gox1);
            lemma_axis_pair(gfy0, gfy1, goy0, goy1);
            assert(ay == 2 && bx == 2);
        }
        let bot = AxisAlignedBox { x_lo: fx0, y_lo: fy0, x_hi: fx1, y_hi: oy0 };
        let top = AxisAlignedBox { x_lo: fx0, y_lo: oy1, x_hi: fx1, y_hi: fy1 };
        push_cand(&mut cands, bot);
        push_cand(&mut cands, top);
        proof {
            assert(intersection(*free, *occ) == (AxisAlignedBox {
                x_lo: fx0, y_lo: oy0, x_hi: fx1, y_hi: oy1
            }));
            assert((gfx1 - gfx0) * (goy0 - gfy0) + (gfx1 - gfx0) * (gfy1 - goy1)
                == (gfx1 - gfx0) * (gfy1 - gfy0) - (gfx1 - gfx0) * (goy1 - goy0))
                by (nonlinear_arith);
            assert(!occ.contains_box(*free));
        }
    }

    let r = keep_nondegenerate(&cands);
    proof {
        broadcast use vstd::seq_lib::group_filter_ensures;
        lemma_area_sum_filter(cands@);
        lemma_filter_pairwise(cands@);
        lemma_filter_fits(cands@, *free, *occ);
        if x_coords_inside(*occ, *free) == 1 && y_coords_inside(*occ, *free) == 1
            && x_coords_inside(*free, *occ) == 1 && y_coords_inside(*free, *occ) == 1 {
            lemma_filter_all(cands@);
        }
    }
    r
}

/// If every box is non-degenerate, filtering keeps the whole sequence.
proof fn lemma_filter_all(s: Seq<AxisAlignedBox>)
    requires
        forall|i: int| 0 <= i < s.len() ==> (#[trigger] s[i]).nondegenerate(),
    ensures
        s.filter(|b: AxisAlignedBox| is_nondeg(b)) =~= s,
    decreases s.len(),
{
    if s.len() > 0 {
        let pre = s.drop_last();
        let b = s.last();
        assert(forall|i: int| 0 <= i < pre.len() ==> (#[trigger] pre[i]).nondegenerate());
        lemma_filter_all(pre);
        assert(pre.push(b) =~= s);
        lemma_filter_push(pre, b);
        assert(is_nondeg(b));
    } else {
        reveal(Seq::filter);
    }
}

} // verus!
