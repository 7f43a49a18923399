//! Merging of nearby regions into bounding boxes, carried to the fixpoint.
//!
//! Two regions are merged when they are adjacent for a given gap; the merged
//! region is their bounding box. The result of merging a list is the least
//! family of pairwise non-adjacent boxes that covers the list, and it does not
//! depend on the order in which the pairs are merged.

use vstd::prelude::*;
use crate::region::SRegion;

verus! {

/// Some member of `family` contains `r`.
pub open spec fn covered_by(family: Seq<SRegion>, r: SRegion) -> bool {
    exists|j: int| 0 <= j < family.len() && (#[trigger] family[j]).contains(r)
}

/// Every region of `regions` lies inside some member of `family`.
pub open spec fn covers(family: Seq<SRegion>, regions: Seq<SRegion>) -> bool {
    forall|i: int| 0 <= i < regions.len() ==> #[trigger] covered_by(family, regions[i])
}

/// No two members of `family` are adjacent for `gap`.
pub open spec fn separated(family: Seq<SRegion>, gap: int) -> bool {
    forall|i: int, j: int|
        0 <= i < family.len() && 0 <= j < family.len() && i != j ==> !(#[trigger] family[i]).adjacent(
            #[trigger] family[j],
            gap,
        )
}

/// `family` covers `regions` and nothing in it can be merged any further.
pub open spec fn closed_over(family: Seq<SRegion>, regions: Seq<SRegion>, gap: int) -> bool {
    covers(family, regions) && separated(family, gap)
}

/// Every family that is closed over `regions` also covers `out`: `out` holds
/// nothing larger than what merging forces.
pub open spec fn least_closed(out: Seq<SRegion>, regions: Seq<SRegion>, gap: int) -> bool {
    forall|family: Seq<SRegion>| #[trigger]
        closed_over(family, regions, gap) ==> covers(family, out)
}

/// Some region of `regions` before position `q` lies inside `r`.
#[verifier::opaque]
pub open spec fn holds_earlier(r: SRegion, regions: Seq<SRegion>, q: int) -> bool {
    exists|p: int| 0 <= p < q && r.contains(#[trigger] regions[p])
}

/// The members of `out` come in the order in which `regions` first reaches
/// them.
pub open spec fn ordered_by_first(out: Seq<SRegion>, regions: Seq<SRegion>) -> bool {
    forall|j: int, k: int, q: int|
        #![trigger out[j], out[k].contains(regions[q])]
        0 <= j < k < out.len() && 0 <= q < regions.len() && out[k].contains(regions[q])
            ==> holds_earlier(out[j], regions, q)
}

/// Every member of `out` contains at least one region of `regions`.
pub open spec fn inhabited(out: Seq<SRegion>, regions: Seq<SRegion>) -> bool {
    forall|j: int| 0 <= j < out.len() ==> holds_earlier(#[trigger] out[j], regions, regions.len() as int)
}

/// `out` is the result of merging `regions` with the given gap.
pub open spec fn is_merge_of(out: Seq<SRegion>, regions: Seq<SRegion>, gap: int) -> bool {
    &&& closed_over(out, regions, gap)
    &&& least_closed(out, regions, gap)
    &&& inhabited(out, regions)
    &&& ordered_by_first(out, regions)
}

/// Every region of `s` has at least one pixel.
pub open spec fn all_nonempty(s: Seq<SRegion>) -> bool {
    forall|i: int| 0 <= i < s.len() ==> (#[trigger] s[i]).width > 0 && s[i].height > 0
}

/// The gap is one for which merging is defined on `regions`: not negative,
/// or minus one, which merges the regions that overlap, on regions that all
/// have a pixel.
pub open spec fn reach_ok(regions: Seq<SRegion>, gap: int) -> bool {
    gap >= 0 || (gap == -1 && all_nonempty(regions))
}

/// Every region of `s` has representable far edges.
pub open spec fn all_wf(s: Seq<SRegion>) -> bool {
    forall|i: int| 0 <= i < s.len() ==> (#[trigger] s[i]).wf()
}

/// Every region of `s` is non-empty and inside the image.
pub open spec fn all_within(s: Seq<SRegion>, image_width: int, image_height: int) -> bool {
    forall|i: int| 0 <= i < s.len() ==> (#[trigger] s[i]).within(image_width, image_height)
}

/// Bookkeeping of the merge loop: `firsts[k]` is the position in `regions`,
/// below `n`, of the first region inside `out[k]`, and these positions grow
/// along `out`.
spec fn firsts_ok(out: Seq<SRegion>, regions: Seq<SRegion>, firsts: Seq<int>, n: int) -> bool {
    &&& firsts.len() == out.len()
    &&& n <= regions.len()
    &&& forall|k: int|
        0 <= k < out.len() ==> 0 <= #[trigger] firsts[k] < n && out[k].contains(
            regions[firsts[k]],
        )
    &&& forall|k: int, p: int|
        0 <= k < out.len() && 0 <= p < firsts[k] ==> !(#[trigger] out[k].contains(regions[p]))
    &&& forall|a: int, b: int| 0 <= a < b < out.len() ==> firsts[a] < firsts[b]
}

/// What the absorbing loop knows about the region being grown.
#[verifier::opaque]
spec fn growing_ok(
    out: Seq<SRegion>,
    cur: SRegion,
    regions: Seq<SRegion>,
    firsts: Seq<int>,
    cur_first: int,
    pos: int,
    n: int,
    gap: int,
) -> bool {
    &&& 0 <= n < regions.len()
    &&& 0 <= pos <= out.len()
    &&& 0 <= cur_first <= n
    &&& separated(out, gap)
    &&& firsts_ok(out, regions, firsts, n)
    &&& cur.contains(regions[cur_first])
    &&& forall|q: int|
        0 <= q <= n ==> covered_by(out, #[trigger] regions[q]) || (cur.contains(regions[q])
            && q >= cur_first)
    &&& forall|k: int| 0 <= k < pos ==> #[trigger] firsts[k] < cur_first
    &&& forall|k: int| pos <= k < out.len() ==> #[trigger] firsts[k] > cur_first
    &&& forall|family: Seq<SRegion>| #[trigger]
        closed_over(family, regions.take(n + 1), gap) ==> covers(family, out) && covered_by(
            family,
            cur,
        )
}

/// What the merge loop knows after taking in the first `n` regions.
#[verifier::opaque]
spec fn merged_prefix(
    out: Seq<SRegion>,
    regions: Seq<SRegion>,
    firsts: Seq<int>,
    n: int,
    gap: int,
) -> bool {
    &&& closed_over(out, regions.take(n), gap)
    &&& least_closed(out, regions.take(n), gap)
    &&& firsts_ok(out, regions, firsts, n)
}

proof fn lemma_start_growing(
    out: Seq<SRegion>,
    regions: Seq<SRegion>,
    firsts: Seq<int>,
    n: int,
    gap: int,
)
    requires
        0 <= n < regions.len(),
        reach_ok(regions, gap),
        merged_prefix(out, regions, firsts, n, gap),
    ensures
        growing_ok(out, regions[n], regions, firsts, n, out.len() as int, n, gap),
{
    reveal(merged_prefix);
    reveal(growing_ok);
    let cur = regions[n];
    assert forall|q: int| 0 <= q <= n implies covered_by(out, #[trigger] regions[q]) || (
    cur.contains(regions[q]) && q >= n) by {
        if q < n {
            assert(regions.take(n)[q] == regions[q]);
        }
    }
    assert forall|family: Seq<SRegion>| #[trigger]
        closed_over(family, regions.take(n + 1), gap) implies covers(family, out) && covered_by(
        family,
        cur,
    ) by {
        assert forall|i: int| 0 <= i < regions.take(n).len() implies covered_by(
            family,
            #[trigger] regions.take(n)[i],
        ) by {
            assert(regions.take(n + 1)[i] == regions.take(n)[i]);
        }
        assert(closed_over(family, regions.take(n), gap));
        assert(regions.take(n + 1)[n] == cur);
    }
}

proof fn lemma_absorb(
    out: Seq<SRegion>,
    cur: SRegion,
    regions: Seq<SRegion>,
    firsts: Seq<int>,
    cur_first: int,
    pos: int,
    n: int,
    gap: int,
    j: int,
)
    requires
        reach_ok(regions, gap),
        cur.wf(),
        all_wf(out),
        0 <= pos <= out.len(),
        growing_ok(out, cur, regions, firsts, cur_first, pos, n, gap),
        0 <= j < out.len(),
        out[j].adjacent(cur, gap),
    ensures
        growing_ok(
            out.remove(j),
            cur.hull(out[j]),
            regions,
            firsts.remove(j),
            if j < pos { firsts[j] } else { cur_first },
            if j < pos { j } else { pos },
            n,
            gap,
        ),
        cur.hull(out[j]).wf(),
        all_wf(out.remove(j)),
{
    reveal(growing_ok);
    let d = out[j];
    let out2 = out.remove(j);
    let cur2 = cur.hull(d);
    let firsts2 = firsts.remove(j);
    let cur_first2 = if j < pos { firsts[j] } else { cur_first };
    let pos2 = if j < pos { j } else { pos };
    assert(d.wf());
    assert(cur2.contains(cur) && cur2.contains(d));
    assert forall|k: int| 0 <= k < out2.len() implies out2[k] == out[if k < j { k } else { k + 1 }]
        && firsts2[k] == firsts[if k < j { k } else { k + 1 }] by {}
    assert(all_wf(out2));
    assert(separated(out2, gap)) by {
        assert forall|a: int, b: int|
            0 <= a < out2.len() && 0 <= b < out2.len() && a != b implies !(#[trigger] out2[a]).adjacent(
            #[trigger] out2[b],
            gap,
        ) by {
            let a0 = if a < j { a } else { a + 1 };
            let b0 = if b < j { b } else { b + 1 };
            assert(!out[a0].adjacent(out[b0], gap));
        }
    }
    assert(firsts_ok(out2, regions, firsts2, n)) by {
        assert forall|k: int| 0 <= k < out2.len() implies 0 <= #[trigger] firsts2[k] < n
            && out2[k].contains(regions[firsts2[k]]) by {
            let k0 = if k < j { k } else { k + 1 };
            assert(0 <= firsts[k0] < n);
        }
        assert forall|k: int, p: int| 0 <= k < out2.len() && 0 <= p < firsts2[k] implies !(
        #[trigger] out2[k].contains(regions[p])) by {
            let k0 = if k < j { k } else { k + 1 };
            assert(!out[k0].contains(regions[p]));
        }
        assert forall|a: int, b: int| 0 <= a < b < out2.len() implies firsts2[a] < firsts2[b] by {
            let a0 = if a < j { a } else { a + 1 };
            let b0 = if b < j { b } else { b + 1 };
            assert(firsts[a0] < firsts[b0]);
        }
    }
    assert(firsts[j] < n && d.contains(regions[firsts[j]]));
    assert forall|q: int| 0 <= q <= n implies covered_by(out2, #[trigger] regions[q]) || (
    cur2.contains(regions[q]) && q >= cur_first2) by {
        if covered_by(out, regions[q]) {
            let k = choose|k: int| 0 <= k < out.len() && (#[trigger] out[k]).contains(regions[q]);
            if k == j {
                if q < firsts[j] {
                    assert(!out[j].contains(regions[q]));
                }
            } else {
                let k2 = if k < j { k } else { k - 1 };
                assert(out2[k2].contains(regions[q]));
            }
        }
    }
    assert forall|k: int| 0 <= k < pos2 implies #[trigger] firsts2[k] < cur_first2 by {
        let k0 = if k < j { k } else { k + 1 };
        assert(firsts[k0] < cur_first2);
    }
    assert forall|k: int| pos2 <= k < out2.len() implies #[trigger] firsts2[k] > cur_first2 by {
        let k0 = if k < j { k } else { k + 1 };
        assert(firsts[k0] > cur_first2);
    }
    assert forall|family: Seq<SRegion>| #[trigger]
        closed_over(family, regions.take(n + 1), gap) implies covers(family, out2) && covered_by(
        family,
        cur2,
    ) by {
        assert(covers(family, out) && covered_by(family, cur));
        assert forall|i: int| 0 <= i < out2.len() implies covered_by(family, #[trigger] out2[i]) by {
            let i0 = if i < j { i } else { i + 1 };
            assert(covered_by(family, out[i0]));
        }
        let kc = choose|k: int| 0 <= k < family.len() && (#[trigger] family[k]).contains(cur);
        assert(covered_by(family, out[j]));
        let kd = choose|k: int| 0 <= k < family.len() && (#[trigger] family[k]).contains(d);
        assert(family[kd].adjacent(family[kc], gap));
        assert(kd == kc);
        assert(family[kc].contains(cur2));
    }
}

proof fn lemma_finish_growing(
    out: Seq<SRegion>,
    cur: SRegion,
    regions: Seq<SRegion>,
    firsts: Seq<int>,
    cur_first: int,
    pos: int,
    n: int,
    gap: int,
)
    requires
        reach_ok(regions, gap),
        cur.wf(),
        all_wf(out),
        0 <= pos <= out.len(),
        growing_ok(out, cur, regions, firsts, cur_first, pos, n, gap),
        forall|k: int| 0 <= k < out.len() ==> !(#[trigger] out[k]).adjacent(cur, gap),
    ensures
        all_wf(out.insert(pos, cur)),
        merged_prefix(out.insert(pos, cur), regions, firsts.insert(pos, cur_first), n + 1, gap),
{
    reveal(growing_ok);
    reveal(merged_prefix);
    let out2 = out.insert(pos, cur);
    let firsts2 = firsts.insert(pos, cur_first);
    assert forall|k: int| 0 <= k < out2.len() && k != pos implies out2[k] == out[if k < pos {
        k
    } else {
        k - 1
    }] && firsts2[k] == firsts[if k < pos { k } else { k - 1 }] by {}
    assert(out2[pos] == cur && firsts2[pos] == cur_first);
    assert(all_wf(out2)) by {
        assert forall|k: int| 0 <= k < out2.len() implies (#[trigger] out2[k]).wf() by {
            if k != pos {
                assert(out[if k < pos { k } else { k - 1 }].wf());
            }
        }
    }
    assert(separated(out2, gap)) by {
        assert forall|a: int, b: int|
            0 <= a < out2.len() && 0 <= b < out2.len() && a != b implies !(#[trigger] out2[a]).adjacent(
            #[trigger] out2[b],
            gap,
        ) by {
            let a0 = if a < pos { a } else { a - 1 };
            let b0 = if b < pos { b } else { b - 1 };
            if a == pos {
                assert(!out[b0].adjacent(cur, gap));
            } else if b == pos {
                assert(!out[a0].adjacent(cur, gap));
            } else {
                assert(!out[a0].adjacent(out[b0], gap));
            }
        }
    }
    assert(covers(out2, regions.take(n + 1))) by {
        assert forall|i: int| 0 <= i < regions.take(n + 1).len() implies covered_by(
            out2,
            #[trigger] regions.take(n + 1)[i],
        ) by {
            assert(regions.take(n + 1)[i] == regions[i]);
            if covered_by(out, regions[i]) {
                let k = choose|k: int| 0 <= k < out.len() && (#[trigger] out[k]).contains(regions[i]);
                let k2 = if k < pos { k } else { k + 1 };
                assert(out2[k2].contains(regions[i]));
            } else {
                assert(out2[pos].contains(regions[i]));
            }
        }
    }
    assert(least_closed(out2, regions.take(n + 1), gap)) by {
        assert forall|family: Seq<SRegion>| #[trigger]
            closed_over(family, regions.take(n + 1), gap) implies covers(family, out2) by {
            assert(covers(family, out) && covered_by(family, cur));
            assert forall|i: int| 0 <= i < out2.len() implies covered_by(
                family,
                #[trigger] out2[i],
            ) by {
                if i != pos {
                    assert(covered_by(family, out[if i < pos { i } else { i - 1 }]));
                }
            }
        }
    }
    assert(firsts_ok(out2, regions, firsts2, n + 1)) by {
        assert forall|k: int| 0 <= k < out2.len() implies 0 <= #[trigger] firsts2[k] < n + 1
            && out2[k].contains(regions[firsts2[k]]) by {
            if k != pos {
                let k0 = if k < pos { k } else { k - 1 };
                assert(0 <= firsts[k0] < n);
            }
        }
        assert forall|k: int, p: int| 0 <= k < out2.len() && 0 <= p < firsts2[k] implies !(
        #[trigger] out2[k].contains(regions[p])) by {
            if k != pos {
                let k0 = if k < pos { k } else { k - 1 };
                assert(!out[k0].contains(regions[p]));
            } else {
                if cur.contains(regions[p]) {
                    assert(covered_by(out, regions[p]));
                    let m = choose|m: int| 0 <= m < out.len() && (#[trigger] out[m]).contains(
                        regions[p],
                    );
                    assert(out[m].adjacent(cur, gap));
                }
            }
        }
        assert forall|a: int, b: int| 0 <= a < b < out2.len() implies firsts2[a] < firsts2[b] by {
            let a0 = if a < pos { a } else { a - 1 };
            let b0 = if b < pos { b } else { b - 1 };
            if a == pos {
                assert(firsts[b0] > cur_first);
            } else if b == pos {
                assert(firsts[a0] < cur_first);
            } else {
                assert(firsts[a0] < firsts[b0]);
            }
        }
    }
}

proof fn lemma_merged_all(out: Seq<SRegion>, regions: Seq<SRegion>, firsts: Seq<int>, gap: int)
    requires
        merged_prefix(out, regions, firsts, regions.len() as int, gap),
    ensures
        is_merge_of(out, regions, gap),
{
    reveal(merged_prefix);
    assert(regions.take(regions.len() as int) =~= regions);
    assert forall|j: int| 0 <= j < out.len() implies holds_earlier(
        #[trigger] out[j],
        regions,
        regions.len() as int,
    ) by {
        lemma_earlier_from(out[j], regions, regions.len() as int, firsts[j]);
    }
    assert forall|j: int, k: int, q: int|
        #![trigger out[j], out[k].contains(regions[q])]
        0 <= j < k < out.len() && 0 <= q < regions.len() && out[k].contains(
            regions[q],
        ) implies holds_earlier(out[j], regions, q) by {
        assert(firsts[j] < firsts[k]);
        if q < firsts[k] {
            assert(!out[k].contains(regions[q]));
        }
        lemma_earlier_from(out[j], regions, q, firsts[j]);
    }
}

/// Whether `a` and `b` are adjacent for `gap`.
fn within_reach(a: &SRegion, b: &SRegion, gap: i64) -> (r: bool)
    requires
        -1 <= gap <= u32::MAX,
    ensures
        r == a.adjacent(*b, gap as int),
{
    let a_right: i64 = a.x as i64 + a.width as i64 + gap;
    let b_right: i64 = b.x as i64 + b.width as i64 + gap;
    let a_bottom: i64 = a.y as i64 + a.height as i64 + gap;
    let b_bottom: i64 = b.y as i64 + b.height as i64 + gap;
    a_right >= b.x as i64 && b_right >= a.x as i64 && a_bottom >= b.y as i64 && b_bottom
        >= a.y as i64
}

/// Merges for a gap that may be minus one.
fn merge_with_reach(regions: &Vec<SRegion>, gap: i64) -> (out: Vec<SRegion>)
    requires
        -1 <= gap <= u32::MAX,
        all_wf(regions@),
        reach_ok(regions@, gap as int),
    ensures
        is_merge_of(out@, regions@, gap as int),
        all_wf(out@),
{
    let mut out: Vec<SRegion> = Vec::new();
    let ghost mut firsts: Seq<int> = Seq::empty();
    let mut i: usize = 0;
    proof {
        reveal(merged_prefix);
    }
    while i < regions.len()
        invariant
            0 <= i <= regions.len(),
            -1 <= gap <= u32::MAX,
            all_wf(regions@),
            reach_ok(regions@, gap as int),
            all_wf(out@),
            merged_prefix(out@, regions@, firsts, i as int, gap as int),
        decreases regions.len() - i,
    {
        let mut cur: SRegion = regions[i];
        let mut pos: usize = out.len();
        let mut j: usize = 0;
        let ghost mut cur_first: int = i as int;
        proof {
            lemma_start_growing(out@, regions@, firsts, i as int, gap as int);
        }
        while j < out.len()
            invariant
                0 <= j <= out.len(),
                0 <= pos <= out.len(),
                i < regions.len(),
                -1 <= gap <= u32::MAX,
                reach_ok(regions@, gap as int),
                cur.wf(),
                all_wf(out@),
                growing_ok(
                    out@,
                    cur,
                    regions@,
                    firsts,
                    cur_first,
                    pos as int,
                    i as int,
                    gap as int,
                ),
                forall|k: int| 0 <= k < j ==> !(#[trigger] out@[k]).adjacent(cur, gap as int),
            decreases out.len(), out.len() - j,
        {
            if within_reach(&out[j], &cur, gap) {
                proof {
                    lemma_absorb(
                        out@,
                        cur,
                        regions@,
                        firsts,
                        cur_first,
                        pos as int,
                        i as int,
                        gap as int,
                        j as int,
                    );
                    cur_first = if j < pos { firsts[j as int] } else { cur_first };
                    firsts = firsts.remove(j as int);
                }
                let absorbed = out.remove(j);
                cur = cur.merge_two_regions(&absorbed);
                if j < pos {
                    pos = j;
                }
                j = 0;
            } else {
                j += 1;
            }
        }
        proof {
            lemma_finish_growing(
                out@,
                cur,
                regions@,
                firsts,
                cur_first,
                pos as int,
                i as int,
                gap as int,
            );
            firsts = firsts.insert(pos as int, cur_first);
        }
        out.insert(pos, cur);
        i += 1;
    }
    proof {
        lemma_merged_all(out@, regions@, firsts, gap as int);
    }
    out
}

/// Merges the regions of `regions` that are adjacent for `gap` into their
/// bounding boxes, and goes on until no two boxes are adjacent. The boxes
/// come in the order in which `regions` first reaches them.
pub fn merge_adjacent_regions(regions: &Vec<SRegion>, gap: u32) -> (out: Vec<SRegion>)
    requires
        all_wf(regions@),
    ensures
        is_merge_of(out@, regions@, gap as int),
        all_wf(out@),
{
    merge_with_reach(regions, gap as i64)
}

/// Merges the regions of `regions` that overlap into their bounding boxes,
/// and goes on until no two boxes overlap. The boxes come in the order in
/// which `regions` first reaches them.
pub fn merge_overlapping_regions(regions: &Vec<SRegion>) -> (out: Vec<SRegion>)
    requires
        all_wf(regions@),
        all_nonempty(regions@),
    ensures
        is_merge_of(out@, regions@, -1),
        all_wf(out@),
        all_nonempty(out@),
{
    let out = merge_with_reach(regions, -1);
    proof {
        assert forall|j: int| 0 <= j < out@.len() implies (#[trigger] out@[j]).width > 0
            && out@[j].height > 0 by {
            let q = lemma_earlier_witness(out@[j], regions@, regions@.len() as int);
            assert(regions@[q].width > 0);
        }
    }
    out
}

/// Two regions are adjacent for a gap of minus one exactly when they
/// overlap.
pub proof fn overlap_is_reach_of_minus_one(a: SRegion, b: SRegion)
    ensures
        a.adjacent(b, -1) == a.overlaps(b),
{
}

/// Each member of one merge result is a member of any other merge result of
/// regions that the other covers.
proof fn lemma_member_of_other(
    a: Seq<SRegion>,
    b: Seq<SRegion>,
    ra: Seq<SRegion>,
    rb: Seq<SRegion>,
    gap: int,
    j: int,
)
    requires
        reach_ok(ra, gap),
        closed_over(a, ra, gap),
        least_closed(a, ra, gap),
        inhabited(a, ra),
        closed_over(b, rb, gap),
        least_closed(b, rb, gap),
        covers(b, ra),
        covers(a, rb),
        0 <= j < a.len(),
    ensures
        exists|k: int| 0 <= k < b.len() && #[trigger] b[k] == a[j],
{
    assert(closed_over(b, ra, gap));
    assert(covered_by(b, a[j]));
    let k = choose|k: int| 0 <= k < b.len() && (#[trigger] b[k]).contains(a[j]);
    assert(closed_over(a, rb, gap));
    assert(covered_by(a, b[k]));
    let m = choose|m: int| 0 <= m < a.len() && (#[trigger] a[m]).contains(b[k]);
    let q = lemma_earlier_witness(a[j], ra, ra.len() as int);
    assert(a[j].contains(ra[q]));
    assert(a[m].adjacent(a[j], gap));
    assert(m == j);
    assert(b[k] == a[j]);
}

/// A region of `regions` before position `q` that lies inside `r`, where
/// there is one.
pub proof fn lemma_earlier_witness(r: SRegion, regions: Seq<SRegion>, q: int) -> (p: int)
    requires
        holds_earlier(r, regions, q),
    ensures
        0 <= p < q,
        r.contains(regions[p]),
{
    reveal(holds_earlier);
    choose|p: int| 0 <= p < q && r.contains(#[trigger] regions[p])
}

proof fn lemma_earlier_from(r: SRegion, regions: Seq<SRegion>, q: int, p: int)
    requires
        0 <= p < q,
        r.contains(regions[p]),
    ensures
        holds_earlier(r, regions, q),
{
    reveal(holds_earlier);
}

/// Two regions cannot each be reached only after the other.
proof fn lemma_no_descent(x: SRegion, y: SRegion, regions: Seq<SRegion>, q: int)
    requires
        forall|i: int|
            0 <= i < regions.len() && x.contains(#[trigger] regions[i]) ==> holds_earlier(
                y,
                regions,
                i,
            ),
        forall|i: int|
            0 <= i < regions.len() && y.contains(#[trigger] regions[i]) ==> holds_earlier(
                x,
                regions,
                i,
            ),
        0 <= q < regions.len(),
    ensures
        !x.contains(regions[q]),
        !y.contains(regions[q]),
    decreases q,
{
    if x.contains(regions[q]) {
        let p = lemma_earlier_witness(y, regions, q);
        lemma_no_descent(x, y, regions, p);
    }
    if y.contains(regions[q]) {
        let p = lemma_earlier_witness(x, regions, q);
        lemma_no_descent(x, y, regions, p);
    }
}

proof fn lemma_same_prefix(
    a: Seq<SRegion>,
    b: Seq<SRegion>,
    regions: Seq<SRegion>,
    gap: int,
    j: int,
)
    requires
        reach_ok(regions, gap),
        is_merge_of(a, regions, gap),
        is_merge_of(b, regions, gap),
        0 <= j <= a.len(),
    ensures
        j <= b.len(),
        forall|m: int| 0 <= m < j ==> a[m] == b[m],
    decreases j,
{
    if j > 0 {
        let i = j - 1;
        lemma_same_prefix(a, b, regions, gap, i);
        lemma_member_of_other(a, b, regions, regions, gap, i);
        let k = choose|k: int| 0 <= k < b.len() && #[trigger] b[k] == a[i];
        let qa = lemma_earlier_witness(a[i], regions, regions.len() as int);
        assert(a[i].contains(regions[qa]));
        if k < i {
            assert(a[k].adjacent(a[i], gap));
        }
        if k > i {
            lemma_member_of_other(b, a, regions, regions, gap, i);
            let m = choose|m: int| 0 <= m < a.len() && #[trigger] a[m] == b[i];
            let qb = lemma_earlier_witness(b[i], regions, regions.len() as int);
            assert(b[i].contains(regions[qb]));
            if m < i {
                assert(b[m].adjacent(b[i], gap));
            }
            if m == i {
                assert(b[i].adjacent(b[k], gap));
            }
            let x = a[i];
            let y = b[i];
            assert forall|q: int|
                0 <= q < regions.len() && x.contains(#[trigger] regions[q]) implies holds_earlier(
                y,
                regions,
                q,
            ) by {
                assert(b[k].contains(regions[q]));
                assert(holds_earlier(b[i], regions, q));
            }
            assert forall|q: int|
                0 <= q < regions.len() && y.contains(#[trigger] regions[q]) implies holds_earlier(
                x,
                regions,
                q,
            ) by {
                assert(a[m].contains(regions[q]));
                assert(holds_earlier(a[i], regions, q));
            }
            lemma_no_descent(x, y, regions, qa);
        }
    }
}

/// The merge of a list is determined by the list and the gap: whatever way
/// the adjacent pairs were merged, two results are the same sequence.
pub proof fn merge_result_is_unique(
    regions: Seq<SRegion>,
    a: Seq<SRegion>,
    b: Seq<SRegion>,
    gap: int,
)
    requires
        reach_ok(regions, gap),
        is_merge_of(a, regions, gap),
        is_merge_of(b, regions, gap),
    ensures
        a == b,
{
    lemma_same_prefix(a, b, regions, gap, a.len() as int);
    lemma_same_prefix(b, a, regions, gap, b.len() as int);
    assert(a =~= b);
}

/// Merging again changes nothing: the merge of a merge result is that result.
pub proof fn merge_is_idempotent(
    regions: Seq<SRegion>,
    once: Seq<SRegion>,
    twice: Seq<SRegion>,
    gap: int,
)
    requires
        reach_ok(regions, gap),
        is_merge_of(once, regions, gap),
        is_merge_of(twice, once, gap),
    ensures
        twice == once,
{
    assert forall|j: int| 0 <= j < once.len() implies (gap >= 0 || ((#[trigger] once[j]).width > 0
        && once[j].height > 0)) by {
        let q = lemma_earlier_witness(once[j], regions, regions.len() as int);
        assert(once[j].contains(regions[q]));
    }
    assert(reach_ok(once, gap));
    assert(inhabited(once, once)) by {
        assert forall|j: int| 0 <= j < once.len() implies holds_earlier(
            #[trigger] once[j],
            once,
            once.len() as int,
        ) by {
            lemma_earlier_from(once[j], once, once.len() as int, j);
        }
    }
    assert(covers(once, once)) by {
        assert forall|i: int| 0 <= i < once.len() implies covered_by(once, #[trigger] once[i]) by {
            assert(once[i].contains(once[i]));
        }
    }
    assert(ordered_by_first(once, once)) by {
        assert forall|j: int, k: int, q: int|
            #![trigger once[j], once[k].contains(once[q])]
            0 <= j < k < once.len() && 0 <= q < once.len() && once[k].contains(
                once[q],
            ) implies holds_earlier(once[j], once, q) by {
            assert(once[k].adjacent(once[q], gap));
            assert(k == q);
            lemma_earlier_from(once[j], once, q, j);
        }
    }
    assert(is_merge_of(once, once, gap));
    merge_result_is_unique(once, twice, once, gap);
}

/// The boxes of a merge result do not depend on the order of the merged
/// list: two lists that hold the same regions merge to the same boxes.
pub proof fn merge_ignores_input_order(
    first: Seq<SRegion>,
    second: Seq<SRegion>,
    out_first: Seq<SRegion>,
    out_second: Seq<SRegion>,
    gap: int,
)
    requires
        reach_ok(first, gap),
        reach_ok(second, gap),
        forall|r: SRegion| first.contains(r) <==> second.contains(r),
        is_merge_of(out_first, first, gap),
        is_merge_of(out_second, second, gap),
    ensures
        forall|r: SRegion| out_first.contains(r) <==> out_second.contains(r),
{
    assert(covers(out_first, second)) by {
        assert forall|i: int| 0 <= i < second.len() implies covered_by(
            out_first,
            #[trigger] second[i],
        ) by {
            assert(second.contains(second[i]));
            assert(first.contains(second[i]));
            let m = choose|m: int| 0 <= m < first.len() && first[m] == second[i];
            assert(covered_by(out_first, first[m]));
        }
    }
    assert(covers(out_second, first)) by {
        assert forall|i: int| 0 <= i < first.len() implies covered_by(
            out_second,
            #[trigger] first[i],
        ) by {
            assert(first.contains(first[i]));
            assert(second.contains(first[i]));
            let m = choose|m: int| 0 <= m < second.len() && second[m] == first[i];
            assert(covered_by(out_second, second[m]));
        }
    }
    assert forall|r: SRegion| out_first.contains(r) <==> out_second.contains(r) by {
        if out_first.contains(r) {
            let j = choose|j: int| 0 <= j < out_first.len() && out_first[j] == r;
            lemma_member_of_other(out_first, out_second, first, second, gap, j);
        }
        if out_second.contains(r) {
            let j = choose|j: int| 0 <= j < out_second.len() && out_second[j] == r;
            lemma_member_of_other(out_second, out_first, second, first, gap, j);
        }
    }
}

/// Merging regions that are non-empty and inside the image gives boxes that
/// are non-empty and inside the image.
pub proof fn merged_regions_stay_within(
    regions: Seq<SRegion>,
    out: Seq<SRegion>,
    gap: int,
    image_width: u32,
    image_height: u32,
)
    requires
        gap >= -1,
        all_within(regions, image_width as int, image_height as int),
        is_merge_of(out, regions, gap),
    ensures
        all_within(out, image_width as int, image_height as int),
{
    let whole = SRegion { x: 0, y: 0, width: image_width, height: image_height };
    let family = seq![whole];
    assert(covers(family, regions)) by {
        assert forall|i: int| 0 <= i < regions.len() implies covered_by(
            family,
            #[trigger] regions[i],
        ) by {
            assert(regions[i].within(image_width as int, image_height as int));
            assert(family[0].contains(regions[i]));
        }
    }
    assert(closed_over(family, regions, gap));
    assert forall|j: int| 0 <= j < out.len() implies (#[trigger] out[j]).within(
        image_width as int,
        image_height as int,
    ) by {
        assert(covered_by(family, out[j]));
        let q = lemma_earlier_witness(out[j], regions, regions.len() as int);
        assert(regions[q].within(image_width as int, image_height as int));
    }
}

} // verus!
