//! The occlusion buffer: a store of pairwise interior-disjoint free regions,
//! the check/commit protocol over it, and the commit orchestration that
//! rewrites overlapped regions into their remaining fragments.

use vstd::prelude::*;
use crate::geom::{AxisAlignedBox, area_sum, interior_disjoint, open_intersect, overlap_area};
use crate::index::{
    StoreSet, bbs_clear, bbs_contents, bbs_get, bbs_len, bbs_new, bbs_push, bbs_sort, entry_box,
    entry_of, distinct_ids, entries_nondeg, ids_disjoint, is_reordering, scan_complete, scan_pairs,
    scan_sound, sorted_by_x_lo,
};
use crate::subdivide::subdivide;

verus! {

/// A stored free region: its id and its box.
pub type Region = (usize, AxisAlignedBox);

/// Result of checking a candidate box against current free space.
#[derive(Clone, Copy, Debug, PartialEq, Eq, Structural)]
pub enum OcclusionStatus {
    /// No remaining free area overlaps the candidate.
    Occluded,
    /// Some free region still overlaps the candidate.
    PartiallyVisible,
}

/// The caller-misuse fault of the commit protocol.
#[derive(Clone, Copy, Debug, PartialEq, Eq, Structural)]
pub enum OcclusionError {
    /// `add_last_box` was called with no pending partially-visible check.
    NoPendingMatch,
}

/// Well-formedness of a region list: every box is a valid, non-degenerate
/// rectangle; ids are unique and below the allocator mark; boxes are pairwise
/// interior-disjoint.
pub open spec fn store_wf(s: Seq<Region>, next: int) -> bool {
    &&& forall|i: int| 0 <= i < s.len() ==> (#[trigger] s[i]).1.valid() && s[i].1.nondegenerate()
        && s[i].0 < next
    &&& forall|i: int, j: int| 0 <= i < j < s.len() ==> (#[trigger] s[i]).0 != (#[trigger] s[j]).0
        && interior_disjoint(s[i].1, s[j].1)
}

/// Total area of the stored regions.
pub open spec fn store_area(s: Seq<Region>) -> int
    decreases s.len(),
{
    if s.len() == 0 {
        0
    } else {
        store_area(s.drop_last()) + s.last().1.area()
    }
}

/// Total area of the overlap between the stored regions and `o`.
pub open spec fn store_occluded_area(s: Seq<Region>, o: AxisAlignedBox) -> int
    decreases s.len(),
{
    if s.len() == 0 {
        0
    } else {
        store_occluded_area(s.drop_last(), o) + overlap_area(s.last().1, o)
    }
}

/// Some stored region overlaps `c` with positive extent.
pub open spec fn has_visible(s: Seq<Region>, c: AxisAlignedBox) -> bool {
    exists|i: int| 0 <= i < s.len() && open_intersect((#[trigger] s[i]).1, c)
}

/// `id` tags a stored region that overlaps `c` with positive extent.
pub open spec fn id_is_matched(s: Seq<Region>, c: AxisAlignedBox, id: usize) -> bool {
    exists|w: int| 0 <= w < s.len() && (#[trigger] s[w]).0 == id && open_intersect(s[w].1, c)
}

proof fn lemma_store_step(s: Seq<Region>, r: Region, o: AxisAlignedBox)
    ensures
        store_area(s.push(r)) == store_area(s) + r.1.area(),
        store_occluded_area(s.push(r), o) == store_occluded_area(s, o) + overlap_area(r.1, o),
{
    assert(s.push(r).drop_last() =~= s);
}

/// Rearranging a sequence leaves its multiset of elements unchanged.
proof fn lemma_reordering_to_multiset<T>(p: Seq<int>, a: Seq<T>, b: Seq<T>)
    requires
        is_reordering(p, a, b),
    ensures
        a.to_multiset() == b.to_multiset(),
    decreases a.len(),
{
    broadcast use vstd::seq_lib::group_to_multiset_ensures;
    if a.len() == 0 {
        assert(a =~= b);
    } else {
        let n = a.len() as int;
        let j = p[n - 1];
        let a2 = a.remove(j);
        let b2 = b.drop_last();
        let p2 = Seq::new((n - 1) as nat, |k: int| if p[k] < j { p[k] } else { p[k] - 1 });
        assert forall|k: int| 0 <= k < n - 1 implies 0 <= #[trigger] p2[k] < a2.len() by {
            assert(p[k] != p[n - 1]);
        }
        assert forall|k1: int, k2: int| 0 <= k1 < k2 < n - 1 implies p2[k1] != p2[k2] by {
            assert(p[k1] != p[k2]);
            assert(p[k1] != j && p[k2] != j);
        }
        assert forall|k: int| 0 <= k < n - 1 implies #[trigger] b2[k] == a2[p2[k]] by {
            assert(p[k] != j);
            assert(b2[k] == b[k]);
            assert(b[k] == a[p[k]]);
            if p[k] < j {
                assert(a2[p2[k]] == a[p[k]]);
            } else {
                assert(a2[p2[k]] == a[p2[k] + 1]);
            }
        }
        assert(is_reordering(p2, a2, b2));
        lemma_reordering_to_multiset(p2, a2, b2);
        assert(b.last() == a[j]);
        assert(b2.push(b.last()) =~= b);
        assert(b.to_multiset() == b2.to_multiset().insert(a[j]));
        assert(a2.to_multiset() == a.to_multiset().remove(a[j]));
        assert(a.to_multiset().contains(a[j])) by {
            assert(a.contains(a[j]));
        }
        assert(a.to_multiset().remove(a[j]).insert(a[j]) =~= a.to_multiset());
    }
}

/// Region lists with the same elements have the same total area.
proof fn lemma_store_area_fold(s: Seq<Region>, b: int)
    ensures
        s.fold_right(|r: Region, acc: int| acc + r.1.area(), b) == store_area(s) + b,
    decreases s.len(),
{
    if s.len() > 0 {
        lemma_store_area_fold(s.drop_last(), b + s.last().1.area());
    }
}

proof fn lemma_store_area_multiset(a: Seq<Region>, b: Seq<Region>)
    requires
        a.to_multiset() == b.to_multiset(),
    ensures
        store_area(a) == store_area(b),
{
    let f = |r: Region, acc: int| acc + r.1.area();
    lemma_store_area_fold(a, 0);
    lemma_store_area_fold(b, 0);
    assert(vstd::seq_lib::commutative_foldr(f)) by {
        assert forall|x: Region, y: Region, v: int| #[trigger] f(x, f(y, v)) == f(y, f(x, v)) by {}
    }
    vstd::seq_lib::lemma_fold_right_permutation(a, b, f, 0);
}

/// Nested boxes of interior-disjoint boxes are interior-disjoint.
proof fn lemma_sub_disjoint(a: AxisAlignedBox, b: AxisAlignedBox, oa: AxisAlignedBox, ob: AxisAlignedBox)
    requires
        oa.contains_box(a),
        ob.contains_box(b),
        interior_disjoint(oa, ob),
    ensures
        interior_disjoint(a, b),
{
}

/// Commit orchestration: every region that the occluder overlaps with
/// positive extent is replaced by its remaining fragments (the first
/// fragment keeps the region's id, the rest get fresh ids); untouched
/// regions are kept as they are. Returns the rewritten region list and the
/// new id-allocator mark.
#[verifier::rlimit(100)]
fn cut_space(all: &Vec<Region>, occ: &AxisAlignedBox, next_id: usize) -> (res: (Vec<Region>, usize))
    requires
        store_wf(all@, next_id as int),
        occ.valid(),
        occ.nondegenerate(),
        next_id as int + 4 * all@.len() <= usize::MAX as int - 1,
    ensures
        store_wf(res.0@, res.1 as int),
        next_id <= res.1,
        res.1 as int <= next_id as int + 4 * all@.len(),
        store_area(res.0@) == store_area(all@) - store_occluded_area(all@, *occ),
        forall|j: int| 0 <= j < res.0@.len() ==> interior_disjoint((#[trigger] res.0@[j]).1, *occ),
        forall|j: int| 0 <= j < res.0@.len() ==> exists|k: int| 0 <= k < all@.len()
            && all@[k].1.contains_box((#[trigger] res.0@[j]).1),
        forall|k: int| 0 <= k < all@.len() && (#[trigger] all@[k]).1 == *occ
            ==> res.0@ == all@.remove(k),
        forall|k: int| 0 <= k < all@.len() && !open_intersect((#[trigger] all@[k]).1, *occ)
            ==> res.0@.contains(all@[k]),
        forall|j: int| 0 <= j < res.0@.len() && (#[trigger] res.0@[j]).0 < next_id
            ==> exists|k: int| 0 <= k < all@.len() && all@[k].0 == res.0@[j].0
                && all@[k].1.contains_box(res.0@[j].1),
{
    let n = all.len();
    let mut out: Vec<Region> = Vec::new();
    let mut cur: usize = next_id;
    let mut pos: usize = 0;
    proof {
        assert(all@.subrange(0, 0) =~= Seq::<Region>::empty());
    }
    while pos < n
        invariant
            n == all@.len(),
            0 <= pos <= n,
            store_wf(all@, next_id as int),
            occ.valid(),
            occ.nondegenerate(),
            next_id as int + 4 * all@.len() <= usize::MAX as int - 1,
            next_id <= cur,
            cur as int <= next_id as int + 4 * pos,
            forall|j: int| 0 <= j < out@.len() ==> (#[trigger] out@[j]).1.valid()
                && out@[j].1.nondegenerate() && out@[j].0 < cur
                && interior_disjoint(out@[j].1, *occ),
            forall|j: int| 0 <= j < out@.len() && (#[trigger] out@[j]).0 < next_id
                ==> exists|k: int| 0 <= k < pos && all@[k].0 == out@[j].0
                    && all@[k].1.contains_box(out@[j].1),
            forall|j1: int, j2: int| 0 <= j1 < j2 < out@.len()
                ==> (#[trigger] out@[j1]).0 != (#[trigger] out@[j2]).0,
            forall|j: int| 0 <= j < out@.len() ==> exists|k: int| 0 <= k < pos
                && all@[k].1.contains_box((#[trigger] out@[j]).1),
            forall|j1: int, j2: int| 0 <= j1 < j2 < out@.len()
                ==> interior_disjoint((#[trigger] out@[j1]).1, (#[trigger] out@[j2]).1),
            store_area(out@) == store_area(all@.subrange(0, pos as int))
                - store_occluded_area(all@.subrange(0, pos as int), *occ),
            forall|k: int| 0 <= k < all@.len() && (#[trigger] all@[k]).1 == *occ
                ==> (if k < pos {
                    out@ == all@.subrange(0, pos as int).remove(k)
                } else {
                    out@ == all@.subrange(0, pos as int)
                }),
            forall|k: int| 0 <= k < pos && !open_intersect((#[trigger] all@[k]).1, *occ)
                ==> out@.contains(all@[k]),
        decreases n - pos,
    {
        let (rid, rbox) = all[pos];
        let ghost pre_out = out@;
        let ghost pre_cur = cur as int;
        proof {
            assert(all@.subrange(0, pos as int + 1) =~= all@.subrange(0, pos as int).push(all@[pos as int]));
            assert((rid, rbox) == all@[pos as int]);
        }
        if crate::geom::boxes_overlap(&rbox, occ) {
            let frags = subdivide(&rbox, occ);
            let fl = frags.len();
            let mut t: usize = 0;
            while t < fl
                invariant
                    fl == frags@.len(),
                    0 <= t <= fl,
                    // context carried through the inner loop
                    n == all@.len(),
                    0 <= pos < n,
                    store_wf(all@, next_id as int),
                    occ.valid(),
                    occ.nondegenerate(),
                    (rid, rbox) == all@[pos as int],
                    open_intersect(rbox, *occ),
                    crate::subdivide::fragments_fit(frags@, rbox, *occ),
                    crate::subdivide::all_nondeg(frags@),
                    crate::subdivide::pairwise_disjoint(frags@),
                    frags@.len() <= 5,
                    next_id as int + 4 * all@.len() <= usize::MAX as int - 1,
                    next_id <= cur,
                    pre_cur <= next_id as int + 4 * pos,
                    cur as int == if t == 0 { pre_cur } else { pre_cur + (t - 1) },
                    out@.len() == pre_out.len() + t,
                    out@.subrange(0, pre_out.len() as int) == pre_out,
                    forall|u: int| 0 <= u < t ==> (#[trigger] out@[pre_out.len() + u]).1 == frags@[u]
                        && (u == 0 ==> out@[pre_out.len() + u].0 == rid)
                        && (u > 0 ==> out@[pre_out.len() + u].0 >= next_id
                            && out@[pre_out.len() + u].0 == pre_cur + u - 1),
                    forall|j: int| 0 <= j < pre_out.len() ==> (#[trigger] out@[j]).1.valid()
                        && out@[j].1.nondegenerate() && out@[j].0 < pre_cur
                        && interior_disjoint(out@[j].1, *occ),
                    forall|j: int| 0 <= j < pre_out.len() && (#[trigger] out@[j]).0 < next_id
                        ==> exists|k: int| 0 <= k < pos && all@[k].0 == out@[j].0
                            && all@[k].1.contains_box(out@[j].1),
                    forall|j1: int, j2: int| 0 <= j1 < j2 < pre_out.len()
                        ==> (#[trigger] out@[j1]).0 != (#[trigger] out@[j2]).0,
                    forall|j: int| 0 <= j < pre_out.len() ==> exists|k: int| 0 <= k < pos
                        && all@[k].1.contains_box((#[trigger] out@[j]).1),
                    forall|j1: int, j2: int| 0 <= j1 < j2 < pre_out.len()
                        ==> interior_disjoint((#[trigger] out@[j1]).1, (#[trigger] out@[j2]).1),
                    store_area(out@) == store_area(pre_out) + area_sum(frags@.subrange(0, t as int)),
                decreases fl - t,
            {
                let fb = frags[t];
                let fid = if t == 0 {
                    rid
                } else {
                    let f = cur;
                    cur = cur + 1;
                    f
                };
                let ghost mid_out = out@;
                out.push((fid, fb));
                proof {
                    assert(out@.drop_last() =~= mid_out);
                    assert(out@.last() == (fid, fb));
                    assert(store_area(out@) == store_area(mid_out) + fb.area());
                    assert(frags@.subrange(0, t as int + 1)
                        =~= frags@.subrange(0, t as int).push(frags@[t as int]));
                    assert(frags@.subrange(0, t as int + 1).drop_last() =~= frags@.subrange(0, t as int));
                    assert(frags@.subrange(0, t as int + 1).last() == frags@[t as int]);
                    assert(area_sum(frags@.subrange(0, t as int + 1))
                        == area_sum(frags@.subrange(0, t as int)) + frags@[t as int].area());
                    assert(fb == frags@[t as int]);
                    assert(out@.subrange(0, pre_out.len() as int) =~= pre_out) by {
                        assert(forall|j: int| 0 <= j < pre_out.len()
                            ==> out@.subrange(0, pre_out.len() as int)[j] == mid_out.subrange(0, pre_out.len() as int)[j]);
                    }
                }
                t = t + 1;
            }
            proof {
                assert(frags@.subrange(0, fl as int) =~= frags@);
                // per-element facts for the new fragment entries
                assert forall|j: int| 0 <= j < out@.len() implies (#[trigger] out@[j]).1.valid()
                    && out@[j].1.nondegenerate() && out@[j].0 < cur
                    && interior_disjoint(out@[j].1, *occ) by {
                    if j < pre_out.len() {
                        assert(pre_cur <= cur as int);
                    } else {
                        let u = j - pre_out.len();
                        assert(out@[pre_out.len() + u].1 == frags@[u]);
                        assert(frags@[u].valid() && frags@[u].nondegenerate()
                            && interior_disjoint(frags@[u], *occ));
                        if u == 0 {
                            assert(out@[pre_out.len() + u].0 == rid);
                        } else {
                            assert(out@[pre_out.len() + u].0 == pre_cur + u - 1);
                        }
                    }
                }
                // ids below the allocator mark trace back to a source region
                assert forall|j: int| 0 <= j < out@.len() && (#[trigger] out@[j]).0 < next_id
                    implies exists|k: int| 0 <= k < pos + 1 && all@[k].0 == out@[j].0
                        && all@[k].1.contains_box(out@[j].1) by {
                    if j < pre_out.len() {
                        let k = choose|k: int| 0 <= k < pos && all@[k].0 == pre_out[j].0
                            && all@[k].1.contains_box(pre_out[j].1);
                        assert(all@[k].0 == out@[j].0 && all@[k].1.contains_box(out@[j].1));
                    } else {
                        let u = j - pre_out.len();
                        if u == 0 {
                            assert(out@[pre_out.len() + u].0 == rid);
                            assert(out@[pre_out.len() + u].1 == frags@[u]);
                            assert(all@[pos as int].0 == out@[j].0);
                            assert(all@[pos as int].1.contains_box(out@[j].1));
                        } else {
                            assert(out@[pre_out.len() + u].0 == pre_cur + u - 1);
                            assert(out@[j].0 >= next_id);
                        }
                    }
                }
                // the new entries fit inside the source region
                assert forall|j: int| 0 <= j < out@.len() implies exists|k: int| 0 <= k < pos + 1
                    && all@[k].1.contains_box((#[trigger] out@[j]).1) by {
                    if j < pre_out.len() {
                        let k = choose|k: int| 0 <= k < pos && all@[k].1.contains_box(pre_out[j].1);
                        assert(all@[k].1.contains_box(out@[j].1));
                    } else {
                        let u = j - pre_out.len();
                        assert(out@[pre_out.len() + u].1 == frags@[u]);
                        assert(all@[pos as int].1.contains_box(out@[j].1));
                    }
                }
                // pairwise disjointness including the new fragments
                assert forall|j1: int, j2: int| 0 <= j1 < j2 < out@.len()
                    implies interior_disjoint((#[trigger] out@[j1]).1, (#[trigger] out@[j2]).1) by {
                    if j2 < pre_out.len() {
                    } else if j1 >= pre_out.len() {
                        let u1 = j1 - pre_out.len();
                        let u2 = j2 - pre_out.len();
                        assert(out@[pre_out.len() + u1].1 == frags@[u1]);
                        assert(out@[pre_out.len() + u2].1 == frags@[u2]);
                    } else {
                        let k = choose|k: int| 0 <= k < pos && all@[k].1.contains_box(pre_out[j1].1);
                        let u2 = j2 - pre_out.len();
                        assert(out@[pre_out.len() + u2].1 == frags@[u2]);
                        assert(rbox.contains_box(out@[j2].1));
                        assert(interior_disjoint(all@[k].1, all@[pos as int].1));
                        lemma_sub_disjoint(out@[j1].1, out@[j2].1, all@[k].1, all@[pos as int].1);
                    }
                }
                // id uniqueness including the new fragments
                assert forall|j1: int, j2: int| 0 <= j1 < j2 < out@.len()
                    implies (#[trigger] out@[j1]).0 != (#[trigger] out@[j2]).0 by {
                    if j2 < pre_out.len() {
                    } else if j1 >= pre_out.len() {
                        let u1 = j1 - pre_out.len();
                        let u2 = j2 - pre_out.len();
                        assert(u2 > 0);
                        assert(out@[pre_out.len() + u2].0 >= next_id
                            && out@[pre_out.len() + u2].0 == pre_cur + u2 - 1);
                        if u1 == 0 {
                            assert(out@[pre_out.len() + u1].0 == rid);
                            assert(rid < next_id);
                        } else {
                            assert(out@[pre_out.len() + u1].0 == pre_cur + u1 - 1);
                        }
                    } else {
                        let u2 = j2 - pre_out.len();
                        if u2 == 0 {
                            assert(out@[pre_out.len() + u2].0 == rid);
                            if out@[j1].0 < next_id {
                                let k = choose|k: int| 0 <= k < pos && all@[k].0 == pre_out[j1].0
                                    && all@[k].1.contains_box(pre_out[j1].1);
                                assert(all@[k].0 != all@[pos as int].0);
                            }
                        } else {
                            assert(out@[pre_out.len() + u2].0 >= next_id
                                && out@[pre_out.len() + u2].0 == pre_cur + u2 - 1);
                            assert(out@[j1].0 < pre_cur);
                        }
                    }
                }
                // area accounting for this region
                assert(store_area(out@) == store_area(pre_out) + rbox.area() - overlap_area(rbox, *occ));
                assert(store_occluded_area(all@.subrange(0, pos as int + 1), *occ)
                    == store_occluded_area(all@.subrange(0, pos as int), *occ) + overlap_area(rbox, *occ)) by {
                    lemma_store_step(all@.subrange(0, pos as int), all@[pos as int], *occ);
                }
                assert(store_area(all@.subrange(0, pos as int + 1))
                    == store_area(all@.subrange(0, pos as int)) + rbox.area()) by {
                    lemma_store_step(all@.subrange(0, pos as int), all@[pos as int], *occ);
                }
                // the equal-box rewrite bookkeeping
                assert forall|k: int| 0 <= k < all@.len() && (#[trigger] all@[k]).1 == *occ
                    implies (if k < pos + 1 {
                        out@ == all@.subrange(0, pos as int + 1).remove(k)
                    } else {
                        out@ == all@.subrange(0, pos as int + 1)
                    }) by {
                    if k == pos {
                        assert(occ.contains_box(rbox));
                        assert(frags@.len() == 0);
                        assert(out@ == pre_out);
                        assert(all@.subrange(0, pos as int + 1).remove(pos as int)
                            =~= all@.subrange(0, pos as int));
                    } else if k < pos {
                        // then this region equals the occluder elsewhere: it is
                        // interior-disjoint from the current one, which cannot
                        // then overlap the occluder
                        assert(interior_disjoint(all@[k].1, all@[pos as int].1));
                        assert(false);
                    } else {
                        assert(interior_disjoint(all@[k].1, all@[pos as int].1));
                        assert(false);
                    }
                }
                // untouched regions are still present
                assert forall|k: int| 0 <= k < pos + 1 && !open_intersect((#[trigger] all@[k]).1, *occ)
                    implies out@.contains(all@[k]) by {
                    assert(k != pos);
                    assert(pre_out.contains(all@[k]));
                    let w = choose|w: int| 0 <= w < pre_out.len() && pre_out[w] == all@[k];
                    assert(out@[w] == all@[k]);
                }
                assert(cur as int <= next_id as int + 4 * (pos + 1));
            }
        } else {
            out.push((rid, rbox));
            proof {
                assert(out@.drop_last() =~= pre_out);
                assert(!open_intersect(rbox, *occ));
                assert(overlap_area(rbox, *occ) == 0);
                lemma_store_step(all@.subrange(0, pos as int), all@[pos as int], *occ);
                assert(store_area(out@) == store_area(pre_out) + rbox.area());
                assert forall|j: int| 0 <= j < out@.len() implies exists|k: int| 0 <= k < pos + 1
                    && all@[k].1.contains_box((#[trigger] out@[j]).1) by {
                    if j < pre_out.len() {
                        let k = choose|k: int| 0 <= k < pos && all@[k].1.contains_box(pre_out[j].1);
                        assert(all@[k].1.contains_box(out@[j].1));
                    } else {
                        assert(out@[j] == (rid, rbox));
                        assert(all@[pos as int].1.contains_box(out@[j].1));
                    }
                }
                assert forall|j1: int, j2: int| 0 <= j1 < j2 < out@.len()
                    implies interior_disjoint((#[trigger] out@[j1]).1, (#[trigger] out@[j2]).1)
                        && (#[trigger] out@[j1]).0 != (#[trigger] out@[j2]).0 by {
                    if j2 == out@.len() - 1 {
                        let k = choose|k: int| 0 <= k < pos && all@[k].1.contains_box(pre_out[j1].1);
                        assert(interior_disjoint(all@[k].1, all@[pos as int].1));
                        lemma_sub_disjoint(out@[j1].1, out@[j2].1, all@[k].1, all@[pos as int].1);
                        if out@[j1].0 < next_id {
                            let k2 = choose|k2: int| 0 <= k2 < pos && all@[k2].0 == pre_out[j1].0
                                && all@[k2].1.contains_box(pre_out[j1].1);
                            assert(all@[k2].0 != all@[pos as int].0);
                        } else {
                            assert(out@[j2].0 == rid && rid < next_id);
                        }
                    }
                }
                assert forall|k: int| 0 <= k < all@.len() && (#[trigger] all@[k]).1 == *occ
                    implies (if k < pos + 1 {
                        out@ == all@.subrange(0, pos as int + 1).remove(k)
                    } else {
                        out@ == all@.subrange(0, pos as int + 1)
                    }) by {
                    if k < pos {
                        assert(pre_out =~= all@.subrange(0, pos as int).remove(k));
                        assert(out@ =~= all@.subrange(0, pos as int + 1).remove(k));
                    } else if k == pos {
                        // an equal box overlaps the occluder, against this branch
                        assert(open_intersect(all@[k].1, *occ));
                        assert(false);
                    } else {
                        assert(out@ =~= all@.subrange(0, pos as int + 1));
                    }
                }
                assert forall|k: int| 0 <= k < pos + 1 && !open_intersect((#[trigger] all@[k]).1, *occ)
                    implies out@.contains(all@[k]) by {
                    if k == pos {
                        assert(out@[out@.len() - 1] == all@[k]);
                    } else {
                        assert(pre_out.contains(all@[k]));
                        let w = choose|w: int| 0 <= w < pre_out.len() && pre_out[w] == all@[k];
                        assert(out@[w] == all@[k]);
                    }
                }
            }
        }
        pos = pos + 1;
    }
    proof {
        assert(all@.subrange(0, n as int) =~= all@);
        assert forall|k: int| 0 <= k < all@.len() && (#[trigger] all@[k]).1 == *occ
            implies out@ == all@.remove(k) by {
            assert(out@ == all@.subrange(0, n as int).remove(k));
        }
    }
    (out, cur)
}

/// Linear membership test on an id list.
fn contains_id(v: &Vec<usize>, id: usize) -> (r: bool)
    ensures
        r == v@.contains(id),
{
    let mut i: usize = 0;
    while i < v.len()
        invariant
            0 <= i <= v@.len(),
            forall|j: int| 0 <= j < i ==> v@[j] != id,
        decreases v@.len() - i,
    {
        if v[i] == id {
            return true;
        }
        i = i + 1;
    }
    false
}

/// Query idempotence: as long as the free-space regions are unchanged, the
/// visibility of a candidate box does not change, so repeated checks of the
/// same candidate with no intervening commit return the same status.
pub proof fn lemma_check_idempotent(before: Seq<Region>, after: Seq<Region>, c: AxisAlignedBox)
    requires
        after == before,
    ensures
        has_visible(after, c) == has_visible(before, c),
{
}

/// Disjointness invariant: the stored free regions of a well-formed buffer
/// are pairwise interior-disjoint, and every one of them is a valid,
/// non-degenerate rectangle.
pub proof fn lemma_buffer_regions_disjoint(b: OcclusionBuffer)
    requires
        b.wf(),
    ensures
        forall|i: int, j: int| 0 <= i < j < b.regions().len()
            ==> interior_disjoint((#[trigger] b.regions()[i]).1, (#[trigger] b.regions()[j]).1),
        forall|i: int| 0 <= i < b.regions().len()
            ==> (#[trigger] b.regions()[i]).1.valid() && b.regions()[i].1.nondegenerate(),
{
}

/// Incremental visibility accelerator over a set of disjoint free regions.
///
/// `check_a_box` classifies a candidate against current free space and
/// retains the match for one commit; `add_last_box` commits the retained
/// candidate, subtracting it from every free region it overlaps.
pub struct OcclusionBuffer {
    free_space: StoreSet,
    new_box: StoreSet,
    scan_hits: Vec<(usize, usize)>,
    next_id: usize,
    pending: Option<(AxisAlignedBox, Vec<usize>)>,
}

/// The region list an entry sequence stands for.
spec fn to_regions(e: Seq<crate::index::StoreEntry>) -> Seq<Region> {
    e.map_values(|x: crate::index::StoreEntry| (x.0, entry_box(x)))
}

/// A rearrangement of the entries rearranges the regions the same way.
proof fn lemma_reordering_map(p: Seq<int>, e1: Seq<crate::index::StoreEntry>, e2: Seq<crate::index::StoreEntry>)
    requires
        is_reordering(p, e1, e2),
    ensures
        is_reordering(p, to_regions(e1), to_regions(e2)),
{
    assert forall|k: int| 0 <= k < p.len() implies #[trigger] to_regions(e2)[k]
        == to_regions(e1)[p[k]] by {
        assert(e2[k] == e1[p[k]]);
    }
}

impl OcclusionBuffer {
    /// The stored free regions, in storage order.
    pub closed spec fn regions(self) -> Seq<Region> {
        to_regions(bbs_contents(self.free_space))
    }

    /// The candidate retained by the last check, if it is still uncommitted.
    pub closed spec fn pending_candidate(self) -> Option<AxisAlignedBox> {
        match self.pending {
            Some((c, _)) => Some(c),
            None => None,
        }
    }

    /// The region ids retained by the last check, in collection order;
    /// empty when nothing pends.
    pub closed spec fn pending_ids(self) -> Seq<usize> {
        match self.pending {
            Some((_, ids)) => ids@,
            None => Seq::empty(),
        }
    }

    /// Number of region ids retained by the last check.
    pub open spec fn pending_matches(self) -> int {
        self.pending_ids().len() as int
    }

    /// The id-allocation mark: every stored id is below it, and it never
    /// moves backwards, so retired ids are never reused.
    pub closed spec fn next_mark(self) -> int {
        self.next_id as int
    }

    /// Buffer invariant: the store is well formed (disjoint non-degenerate
    /// regions, unique ids below the mark) and sorted for the overlap index;
    /// a pending match lists exactly the ids of the regions its candidate
    /// overlaps.
    pub closed spec fn wf(self) -> bool {
        &&& store_wf(self.regions(), self.next_id as int)
        &&& 1 <= self.next_id < usize::MAX
        &&& sorted_by_x_lo(bbs_contents(self.free_space))
        &&& match self.pending {
            Some((c, ids)) => {
                &&& c.valid()
                &&& c.nondegenerate()
                &&& ids@.len() > 0
                &&& forall|k1: int, k2: int| 0 <= k1 < k2 < ids@.len()
                    ==> ids@[k1] != ids@[k2]
                &&& forall|k: int| 0 <= k < ids@.len()
                    ==> id_is_matched(self.regions(), c, #[trigger] ids@[k])
                &&& forall|i: int| 0 <= i < self.regions().len()
                    && open_intersect((#[trigger] self.regions()[i]).1, c)
                    ==> ids@.contains(self.regions()[i].0)
            },
            None => true,
        }
    }

    /// Creates an empty buffer: no free space, nothing pending, ids from 1.
    pub fn new() -> (r: OcclusionBuffer)
        ensures
            r.wf(),
            r.regions().len() == 0,
            r.pending_candidate() is None,
            r.next_mark() == 1,
    {
        OcclusionBuffer {
            free_space: bbs_new(),
            new_box: bbs_new(),
            scan_hits: Vec::new(),
            next_id: 1,
            pending: None,
        }
    }

    /// Seeds one more free region directly, bypassing subtraction. Meant for
    /// initialization: it performs no overlap check itself, so the caller
    /// owes that the new region is interior-disjoint from every stored one.
    /// Any pending (uncommitted) match is dropped.
    pub fn add_freespace_box(&mut self, b: AxisAlignedBox)
        requires
            old(self).wf(),
            b.valid(),
            b.nondegenerate(),
            forall|i: int| 0 <= i < old(self).regions().len()
                ==> interior_disjoint((#[trigger] old(self).regions()[i]).1, b),
            old(self).next_mark() < usize::MAX as int - 1,
        ensures
            final(self).wf(),
            final(self).next_mark() == old(self).next_mark() + 1,
            final(self).pending_candidate() is None,
            final(self).regions().to_multiset()
                == old(self).regions().push((old(self).next_mark() as usize, b)).to_multiset(),
            store_area(final(self).regions()) == store_area(old(self).regions()) + b.area(),
    {
        let id = self.next_id;
        let ghost e0 = bbs_contents(self.free_space);
        let ghost r0 = old(self).regions();
        bbs_push(&mut self.free_space, id, &b);
        let ghost e1 = bbs_contents(self.free_space);
        proof {
            assert(to_regions(e1) =~= r0.push((id, b))) by {
                assert(entry_box(entry_of(id, b)) == b);
                assert forall|k: int| 0 <= k < e1.len()
                    implies #[trigger] to_regions(e1)[k] == r0.push((id, b))[k] by {
                    if k < e0.len() {
                        assert(e1[k] == e0[k]);
                    } else {
                        assert(e1[k] == entry_of(id, b));
                    }
                }
            }
            assert(store_wf(r0.push((id, b)), id as int + 1)) by {
                let r1 = r0.push((id, b));
                assert forall|i: int, j: int| 0 <= i < j < r1.len()
                    implies (#[trigger] r1[i]).0 != (#[trigger] r1[j]).0
                        && interior_disjoint(r1[i].1, r1[j].1) by {
                    if j == r1.len() - 1 {
                        assert(r1[i] == r0[i]);
                        assert(r0[i].0 < id);
                        assert(interior_disjoint(r0[i].1, b));
                    }
                }
            }
        }
        bbs_sort(&mut self.free_space);
        self.next_id = id + 1;
        self.pending = None;
        proof {
            let e2 = bbs_contents(self.free_space);
            let p = choose|p: Seq<int>| is_reordering(p, e1, e2);
            lemma_reordering_map(p, e1, e2);
            let r1 = r0.push((id, b));
            let r2 = self.regions();
            assert(is_reordering(p, r1, r2));
            lemma_reordering_to_multiset(p, r1, r2);
            lemma_store_area_multiset(r1, r2);
            lemma_store_step(r0, (id, b), b);
            assert(store_wf(r2, self.next_id as int)) by {
                assert forall|i: int| 0 <= i < r2.len() implies (#[trigger] r2[i]).1.valid()
                    && r2[i].1.nondegenerate() && r2[i].0 < self.next_id as int by {
                    assert(r2[i] == r1[p[i]]);
                }
                assert forall|i: int, j: int| 0 <= i < j < r2.len()
                    implies (#[trigger] r2[i]).0 != (#[trigger] r2[j]).0
                        && interior_disjoint(r2[i].1, r2[j].1) by {
                    assert(r2[i] == r1[p[i]] && r2[j] == r1[p[j]]);
                    assert(p[i] != p[j]);
                    if p[i] < p[j] {
                        assert(r1[p[i]].0 != r1[p[j]].0 && interior_disjoint(r1[p[i]].1, r1[p[j]].1));
                    } else {
                        assert(r1[p[j]].0 != r1[p[i]].0 && interior_disjoint(r1[p[j]].1, r1[p[i]].1));
                    }
                }
            }
        }
    }

    /// Classifies a candidate box against current free space. `Occluded`
    /// means no free region overlaps the candidate with positive extent;
    /// otherwise the candidate and the matched region ids are retained for a
    /// subsequent `add_last_box`, discarding any previously pending match.
    /// The free space itself is not changed.
    pub fn check_a_box(&mut self, new: AxisAlignedBox) -> (r: OcclusionStatus)
        requires
            old(self).wf(),
            new.valid(),
            new.nondegenerate(),
        ensures
            final(self).wf(),
            final(self).regions() == old(self).regions(),
            final(self).next_mark() == old(self).next_mark(),
            (r == OcclusionStatus::PartiallyVisible) == has_visible(old(self).regions(), new),
            final(self).pending_candidate() == (if has_visible(old(self).regions(), new) {
                Some(new)
            } else {
                None::<AxisAlignedBox>
            }),
            // the retained list holds exactly the distinct ids of the regions
            // the candidate positively overlaps (empty on an occluded check)
            forall|k: int| 0 <= k < final(self).pending_ids().len()
                ==> id_is_matched(old(self).regions(), new, #[trigger] final(self).pending_ids()[k]),
            forall|i: int| 0 <= i < old(self).regions().len()
                && open_intersect((#[trigger] old(self).regions()[i]).1, new)
                ==> final(self).pending_ids().contains(old(self).regions()[i].0),
            forall|k1: int, k2: int| 0 <= k1 < k2 < final(self).pending_ids().len()
                ==> final(self).pending_ids()[k1] != final(self).pending_ids()[k2],
            (final(self).pending_ids().len() == 0) == !has_visible(old(self).regions(), new),
    {
        let cand_id = usize::MAX - 1;
        bbs_clear(&mut self.new_box);
        bbs_push(&mut self.new_box, cand_id, &new);
        self.scan_hits.clear();
        let ghost regs = self.regions();
        let ghost fsc = bbs_contents(self.free_space);
        let ghost nbc = bbs_contents(self.new_box);
        proof {
            assert(nbc =~= Seq::<crate::index::StoreEntry>::empty().push(entry_of(cand_id, new)));
            assert(nbc.len() == 1 && nbc[0] == entry_of(cand_id, new));
            assert(sorted_by_x_lo(nbc));
            assert(distinct_ids(nbc));
            assert forall|i: int, j: int| 0 <= i < fsc.len() && 0 <= j < nbc.len()
                implies (#[trigger] fsc[i]).0 != (#[trigger] nbc[j]).0 by {
                assert(regs[i] == (fsc[i].0, entry_box(fsc[i])));
                assert(regs[i].0 < self.next_id);
            }
            assert forall|i: int, j: int| 0 <= i < j < fsc.len()
                implies (#[trigger] fsc[i]).0 != (#[trigger] fsc[j]).0 by {
                assert(regs[i] == (fsc[i].0, entry_box(fsc[i])));
                assert(regs[j] == (fsc[j].0, entry_box(fsc[j])));
                assert(regs[i].0 != regs[j].0);
            }
            assert forall|i: int| 0 <= i < fsc.len()
                implies entry_box(#[trigger] fsc[i]).nondegenerate() by {
                assert(regs[i] == (fsc[i].0, entry_box(fsc[i])));
                assert(regs[i].1.nondegenerate());
            }
            assert(entries_nondeg(nbc)) by {
                assert(entry_box(nbc[0]) == new);
            }
        }
        scan_pairs(&self.free_space, &self.new_box, &mut self.scan_hits);
        let ghost hits = self.scan_hits@;
        let mut ids: Vec<usize> = Vec::new();
        let mut i: usize = 0;
        while i < self.scan_hits.len()
            invariant
                0 <= i <= hits.len(),
                hits == self.scan_hits@,
                forall|h: int| 0 <= h < i ==> ids@.contains((#[trigger] hits[h]).1),
                forall|k: int| 0 <= k < ids@.len() ==> exists|h: int| 0 <= h < hits.len()
                    && hits[h].1 == #[trigger] ids@[k],
                forall|k1: int, k2: int| 0 <= k1 < k2 < ids@.len() ==> ids@[k1] != ids@[k2],
            decreases hits.len() - i,
        {
            let id = self.scan_hits[i].1;
            if !contains_id(&ids, id) {
                let ghost pre_ids = ids@;
                ids.push(id);
                proof {
                    assert forall|h: int| 0 <= h < i + 1 implies ids@.contains((#[trigger] hits[h]).1) by {
                        if h < i {
                            let w = choose|w: int| 0 <= w < pre_ids.len() && pre_ids[w] == hits[h].1;
                            assert(ids@[w] == hits[h].1);
                        } else {
                            assert(ids@[pre_ids.len() as int] == id);
                        }
                    }
                    assert forall|k: int| 0 <= k < ids@.len() implies exists|h: int|
                        0 <= h < hits.len() && hits[h].1 == #[trigger] ids@[k] by {
                        if k < pre_ids.len() {
                            assert(ids@[k] == pre_ids[k]);
                            assert(exists|h: int| 0 <= h < hits.len() && hits[h].1 == pre_ids[k]);
                        } else {
                            assert(ids@[k] == id);
                            assert(0 <= i < hits.len() && hits[i as int].1 == id);
                        }
                    }
                }
            } else {
                proof {
                    assert forall|h: int| 0 <= h < i + 1 implies ids@.contains((#[trigger] hits[h]).1) by {
                        if h == i {
                            assert(ids@.contains(id));
                        }
                    }
                }
            }
            i = i + 1;
        }
        let ghost gids = ids@;
        proof {
            assert(gids == ids@);
            // soundness and completeness of the collected id list
            assert forall|k: int| 0 <= k < gids.len()
                implies id_is_matched(regs, new, #[trigger] gids[k]) by {
                assert(gids[k] == ids@[k]);
                assert(exists|h: int| 0 <= h < hits.len() && hits[h].1 == ids@[k]);
                let h = choose|h: int| 0 <= h < hits.len() && hits[h].1 == ids@[k];
                assert(scan_sound(fsc, nbc, hits));
                let (a, b) = choose|a: int, b: int| 0 <= a < fsc.len() && 0 <= b < nbc.len()
                    && fsc[a].0 == (#[trigger] hits[h]).1 && nbc[b].0 == hits[h].0
                    && open_intersect(entry_box(fsc[a]), entry_box(nbc[b]));
                assert(entry_box(nbc[b]) == new);
                assert(regs[a] == (fsc[a].0, entry_box(fsc[a])));
                assert(0 <= a < regs.len() && regs[a].0 == gids[k]
                    && open_intersect(regs[a].1, new));
            }
            assert forall|w: int| 0 <= w < regs.len()
                && open_intersect((#[trigger] regs[w]).1, new)
                implies gids.contains(regs[w].0) by {
                assert(scan_complete(fsc, nbc, hits));
                assert(regs[w] == (fsc[w].0, entry_box(fsc[w])));
                assert(open_intersect(entry_box(fsc[w]), entry_box(nbc[0])));
                assert(hits.contains((nbc[0].0, fsc[w].0)));
                let h = choose|h: int| 0 <= h < hits.len() && hits[h] == (nbc[0].0, fsc[w].0);
                assert(ids@.contains(hits[h].1));
                let u = choose|u: int| 0 <= u < ids@.len() && ids@[u] == hits[h].1;
                assert(gids[u] == ids@[u]);
                assert(gids[u] == regs[w].0);
            }
            assert(forall|k1: int, k2: int| 0 <= k1 < k2 < gids.len()
                ==> gids[k1] != gids[k2]);
        }
        if ids.len() == 0 {
            self.pending = None;
            proof {
                assert(gids.len() == 0);
                assert(!has_visible(regs, new)) by {
                    if has_visible(regs, new) {
                        let w = choose|w: int| 0 <= w < regs.len()
                            && open_intersect((#[trigger] regs[w]).1, new);
                        assert(gids.contains(regs[w].0));
                        assert(gids.len() > 0);
                    }
                }
            }
            OcclusionStatus::Occluded
        } else {
            proof {
                assert(gids.len() > 0);
                assert(id_is_matched(regs, new, gids[0]));
                let w0 = choose|w: int| 0 <= w < regs.len() && (#[trigger] regs[w]).0 == gids[0]
                    && open_intersect(regs[w].1, new);
                assert(open_intersect(regs[w0].1, new));
                assert(has_visible(regs, new));
            }
            self.pending = Some((new, ids));
            proof {
                let pids = self.pending.unwrap().1@;
                assert(pids == gids);
                assert(regs == self.regions());
                assert forall|k: int| 0 <= k < pids.len()
                    implies id_is_matched(self.regions(), new, #[trigger] pids[k]) by {
                    assert(pids[k] == gids[k]);
                    assert(id_is_matched(regs, new, gids[k]));
                }
                assert forall|w: int| 0 <= w < regs.len()
                    && open_intersect((#[trigger] regs[w]).1, new)
                    implies pids.contains(regs[w].0) by {
                    assert(gids.contains(regs[w].0));
                    let u = choose|u: int| 0 <= u < gids.len() && gids[u] == regs[w].0;
                    assert(pids[u] == gids[u]);
                }
                assert forall|k1: int, k2: int| 0 <= k1 < k2 < pids.len()
                    implies pids[k1] != pids[k2] by {
                    assert(pids[k1] == gids[k1] && pids[k2] == gids[k2]);
                }
            }
            OcclusionStatus::PartiallyVisible
        }
    }

    /// Commits the candidate retained by the last check: subtracts it from
    /// every free region it overlaps, replacing each with its remaining
    /// fragments (the first keeps the region's id, the rest get fresh ids
    /// from the allocator mark upward), then re-sorts the store for the
    /// overlap index.
    ///
    /// Calling this with no pending partially-visible check is a fatal
    /// caller-misuse fault, excluded here by precondition: no verified
    /// caller can reach that state. A caller outside the verifier that does
    /// so anyway gets `Err(NoPendingMatch)` back, with the buffer untouched;
    /// no partial commit is ever attempted.
    pub fn add_last_box(&mut self) -> (r: Result<(), OcclusionError>)
        requires
            old(self).wf(),
            old(self).pending_candidate() is Some,
            old(self).next_mark() + 4 * old(self).regions().len() <= usize::MAX as int - 1,
        ensures
            final(self).wf(),
            final(self).next_mark() >= old(self).next_mark(),
            old(self).pending_candidate() matches Some(c) ==> {
                &&& r == Ok::<(), OcclusionError>(())
                &&& final(self).pending_candidate() is None
                &&& store_area(final(self).regions())
                    == store_area(old(self).regions())
                        - store_occluded_area(old(self).regions(), c)
                &&& forall|j: int| 0 <= j < final(self).regions().len()
                    ==> interior_disjoint((#[trigger] final(self).regions()[j]).1, c)
                &&& forall|j: int| 0 <= j < final(self).regions().len()
                    ==> exists|k: int| 0 <= k < old(self).regions().len()
                        && old(self).regions()[k].1.contains_box(
                            (#[trigger] final(self).regions()[j]).1)
                &&& forall|k: int| 0 <= k < old(self).regions().len()
                    && (#[trigger] old(self).regions()[k]).1 == c
                    ==> final(self).regions().to_multiset()
                        == old(self).regions().to_multiset().remove(old(self).regions()[k])
                &&& forall|k: int| 0 <= k < old(self).regions().len()
                    && !open_intersect((#[trigger] old(self).regions()[k]).1, c)
                    ==> final(self).regions().contains(old(self).regions()[k])
                &&& forall|j: int| 0 <= j < final(self).regions().len()
                    && (#[trigger] final(self).regions()[j]).0 < old(self).next_mark()
                    ==> exists|k: int| 0 <= k < old(self).regions().len()
                        && old(self).regions()[k].0 == final(self).regions()[j].0
                        && old(self).regions()[k].1.contains_box(final(self).regions()[j].1)
            },
    {
        let c = match &self.pending {
            None => {
                return Err(OcclusionError::NoPendingMatch);
            },
            Some(p) => p.0,
        };
        self.pending = None;
        let ghost r0 = old(self).regions();
        let n = bbs_len(&self.free_space);
        let mut all: Vec<Region> = Vec::new();
        let mut i: usize = 0;
        while i < n
            invariant
                n == r0.len(),
                r0 == self.regions(),
                self.free_space == old(self).free_space,
                self.pending is None,
                self.next_id == old(self).next_id,
                0 <= i <= n,
                all@.len() == i,
                forall|j: int| 0 <= j < i ==> all@[j] == r0[j],
            decreases n - i,
        {
            let e = bbs_get(&self.free_space, i);
            proof {
                let fsc = bbs_contents(self.free_space);
                assert(entry_of(e.0, e.1) == fsc[i as int]);
                assert(r0[i as int] == (fsc[i as int].0, entry_box(fsc[i as int])));
            }
            all.push(e);
            i = i + 1;
        }
        proof {
            assert(all@ =~= r0);
            assert(store_wf(all@, self.next_id as int));
        }
        let (out, new_next) = cut_space(&all, &c, self.next_id);
        bbs_clear(&mut self.free_space);
        let m = out.len();
        let mut w: usize = 0;
        while w < m
            invariant
                m == out@.len(),
                0 <= w <= m,
                self.pending is None,
                bbs_contents(self.free_space).len() == w,
                forall|j: int| 0 <= j < w ==> bbs_contents(self.free_space)[j]
                    == entry_of((#[trigger] out@[j]).0, out@[j].1),
            decreases m - w,
        {
            let (oid, obox) = out[w];
            bbs_push(&mut self.free_space, oid, &obox);
            w = w + 1;
        }
        let ghost e1 = bbs_contents(self.free_space);
        proof {
            assert(to_regions(e1) =~= out@) by {
                assert forall|j: int| 0 <= j < e1.len()
                    implies #[trigger] to_regions(e1)[j] == out@[j] by {
                    assert(e1[j] == entry_of(out@[j].0, out@[j].1));
                    assert(entry_box(entry_of(out@[j].0, out@[j].1)) == out@[j].1);
                }
            }
        }
        bbs_sort(&mut self.free_space);
        self.next_id = new_next;
        proof {
            let e2 = bbs_contents(self.free_space);
            let p = choose|p: Seq<int>| is_reordering(p, e1, e2);
            lemma_reordering_map(p, e1, e2);
            let r2 = self.regions();
            assert(is_reordering(p, out@, r2));
            lemma_reordering_to_multiset(p, out@, r2);
            lemma_store_area_multiset(out@, r2);
            broadcast use vstd::seq_lib::group_to_multiset_ensures;
            assert(store_wf(r2, self.next_id as int)) by {
                assert forall|a: int| 0 <= a < r2.len() implies (#[trigger] r2[a]).1.valid()
                    && r2[a].1.nondegenerate() && r2[a].0 < self.next_id as int by {
                    assert(r2[a] == out@[p[a]]);
                }
                assert forall|a: int, b: int| 0 <= a < b < r2.len()
                    implies (#[trigger] r2[a]).0 != (#[trigger] r2[b]).0
                        && interior_disjoint(r2[a].1, r2[b].1) by {
                    assert(r2[a] == out@[p[a]] && r2[b] == out@[p[b]]);
                    assert(p[a] != p[b]);
                    if p[a] < p[b] {
                        assert(out@[p[a]].0 != out@[p[b]].0
                            && interior_disjoint(out@[p[a]].1, out@[p[b]].1));
                    } else {
                        assert(out@[p[b]].0 != out@[p[a]].0
                            && interior_disjoint(out@[p[b]].1, out@[p[a]].1));
                    }
                }
            }
            assert forall|j: int| 0 <= j < r2.len()
                implies interior_disjoint((#[trigger] r2[j]).1, c) by {
                assert(r2[j] == out@[p[j]]);
            }
            assert forall|j: int| 0 <= j < r2.len() implies exists|k: int| 0 <= k < r0.len()
                && r0[k].1.contains_box((#[trigger] r2[j]).1) by {
                assert(r2[j] == out@[p[j]]);
                let k = choose|k: int| 0 <= k < all@.len()
                    && all@[k].1.contains_box(out@[p[j]].1);
                assert(r0[k].1.contains_box(r2[j].1));
            }
            assert forall|k: int| 0 <= k < r0.len() && (#[trigger] r0[k]).1 == c
                implies r2.to_multiset() == r0.to_multiset().remove(r0[k]) by {
                assert(out@ == all@.remove(k));
                assert(all@.remove(k).to_multiset() == all@.to_multiset().remove(all@[k]));
            }
            assert forall|k: int| 0 <= k < r0.len()
                && !open_intersect((#[trigger] r0[k]).1, c)
                implies r2.contains(r0[k]) by {
                assert(out@.contains(all@[k]));
                assert(out@.to_multiset().count(all@[k]) > 0);
                assert(r2.to_multiset().count(r0[k]) > 0);
            }
            assert forall|j: int| 0 <= j < r2.len()
                && (#[trigger] r2[j]).0 < old(self).next_mark()
                implies exists|k: int| 0 <= k < r0.len() && r0[k].0 == r2[j].0
                    && r0[k].1.contains_box(r2[j].1) by {
                assert(r2[j] == out@[p[j]]);
                assert(out@[p[j]].0 == r2[j].0);
                let k = choose|k: int| 0 <= k < all@.len() && all@[k].0 == out@[p[j]].0
                    && all@[k].1.contains_box(out@[p[j]].1);
                assert(r0[k].0 == r2[j].0 && r0[k].1.contains_box(r2[j].1));
            }
        }
        Ok(())
    }

    /// Number of stored free regions.
    pub fn region_count(&self) -> (n: usize)
        ensures
            n == self.regions().len(),
    {
        bbs_len(&self.free_space)
    }

    /// The stored free region at a storage index.
    pub fn region_at(&self, i: usize) -> (r: Region)
        requires
            i < self.regions().len(),
        ensures
            r == self.regions()[i as int],
    {
        let e = bbs_get(&self.free_space, i);
        proof {
            let fsc = bbs_contents(self.free_space);
            assert(entry_of(e.0, e.1) == fsc[i as int]);
            assert(self.regions()[i as int] == (fsc[i as int].0, entry_box(fsc[i as int])));
        }
        e
    }

    /// How many region ids the last check retained (0 when nothing pends).
    pub fn pending_match_count(&self) -> (n: usize)
        ensures
            n as int == self.pending_matches(),
    {
        match &self.pending {
            Some(p) => p.1.len(),
            None => 0,
        }
    }

    /// The bounding corners of the stored free space: the smallest low corner
    /// and the largest high corner over all regions. An empty store yields
    /// the sentinel `((i32::MAX, i32::MAX), (i32::MIN, i32::MIN))`.
    pub fn covered_area_limits(&self) -> (r: ((i32, i32), (i32, i32)))
        ensures
            forall|i: int| 0 <= i < self.regions().len()
                ==> r.0.0 <= (#[trigger] self.regions()[i]).1.x_lo
                    && r.0.1 <= self.regions()[i].1.y_lo
                    && r.1.0 >= self.regions()[i].1.x_hi
                    && r.1.1 >= self.regions()[i].1.y_hi,
            self.regions().len() == 0 ==> r == ((i32::MAX, i32::MAX), (i32::MIN, i32::MIN)),
            self.regions().len() > 0 ==> (exists|i: int| 0 <= i < self.regions().len()
                    && (#[trigger] self.regions()[i]).1.x_lo == r.0.0)
                && (exists|i: int| 0 <= i < self.regions().len()
                    && (#[trigger] self.regions()[i]).1.y_lo == r.0.1)
                && (exists|i: int| 0 <= i < self.regions().len()
                    && (#[trigger] self.regions()[i]).1.x_hi == r.1.0)
                && (exists|i: int| 0 <= i < self.regions().len()
                    && (#[trigger] self.regions()[i]).1.y_hi == r.1.1),
    {
        let ghost regs = self.regions();
        let mut min_x: i32 = i32::MAX;
        let mut min_y: i32 = i32::MAX;
        let mut max_x: i32 = i32::MIN;
        let mut max_y: i32 = i32::MIN;
        let n = bbs_len(&self.free_space);
        let mut i: usize = 0;
        while i < n
            invariant
                n == regs.len(),
                regs == self.regions(),
                0 <= i <= n,
                forall|j: int| 0 <= j < i ==> min_x <= (#[trigger] regs[j]).1.x_lo
                    && min_y <= regs[j].1.y_lo && max_x >= regs[j].1.x_hi
                    && max_y >= regs[j].1.y_hi,
                i == 0 ==> min_x == i32::MAX && min_y == i32::MAX
                    && max_x == i32::MIN && max_y == i32::MIN,
                i > 0 ==> (exists|j: int| 0 <= j < i
                        && (#[trigger] regs[j]).1.x_lo == min_x)
                    && (exists|j: int| 0 <= j < i && (#[trigger] regs[j]).1.y_lo == min_y)
                    && (exists|j: int| 0 <= j < i && (#[trigger] regs[j]).1.x_hi == max_x)
                    && (exists|j: int| 0 <= j < i && (#[trigger] regs[j]).1.y_hi == max_y),
            decreases n - i,
        {
            let (_, b) = self.region_at(i);
            if i == 0 {
                min_x = b.x_lo;
                min_y = b.y_lo;
                max_x = b.x_hi;
                max_y = b.y_hi;
            } else {
                if b.x_lo < min_x {
                    min_x = b.x_lo;
                }
                if b.y_lo < min_y {
                    min_y = b.y_lo;
                }
                if b.x_hi > max_x {
                    max_x = b.x_hi;
                }
                if b.y_hi > max_y {
                    max_y = b.y_hi;
                }
            }
            proof {
                assert(regs[i as int].1 == b);
            }
            i = i + 1;
        }
        ((min_x, min_y), (max_x, max_y))
    }
}

} // verus!
