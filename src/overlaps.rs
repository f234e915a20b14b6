use vstd::prelude::*;

use crate::math::{lines_intersect, lines_intersect_spec};
use crate::shape::{lemma_flatten_points, Contour};
use crate::vector::Vector2;

verus! {

/// Some edge of the polyline `a` intersects some edge of the polyline `b`.
pub open spec fn polylines_intersect(a: Seq<Vector2>, b: Seq<Vector2>) -> bool {
    exists|i: int, j: int|
        0 <= i < a.len() - 1 && 0 <= j < b.len() - 1 && #[trigger] lines_intersect_spec(
            a[i],
            a[i + 1],
            b[j],
            #[trigger] b[j + 1],
        )
}

/// The outlines of two contours intersect.
pub open spec fn contours_overlap(a: &Contour, b: &Contour) -> bool {
    polylines_intersect(a.outline@, b.outline@)
}

/// Whether some edge of `a`'s polyline intersects some edge of `b`'s; the
/// search stops at the first hit.
pub fn contours_intersect(a: &Contour, b: &Contour) -> (r: bool)
    requires
        a.wf(),
        b.wf(),
    ensures
        r == contours_overlap(a, b),
{
    proof {
        lemma_flatten_points(a.segments@);
        lemma_flatten_points(b.segments@);
    }
    let pa = &a.outline;
    let pb = &b.outline;
    let mut i: usize = 0;
    let na = pa.len();
    let nb = pb.len();
    while i < na - 1
        invariant
            pa@ == a.outline@,
            na == pa@.len(),
            nb == pb@.len(),
            pb@ == b.outline@,
            pa@.len() >= 2,
            pb@.len() >= 2,
            forall|k: int| 0 <= k < pa@.len() ==> (#[trigger] pa@[k]).is_point(),
            forall|k: int| 0 <= k < pb@.len() ==> (#[trigger] pb@[k]).is_point(),
            0 <= i < pa@.len(),
            forall|k: int, l: int|
                0 <= k < i && 0 <= l < pb@.len() - 1 ==> !#[trigger] lines_intersect_spec(
                    pa@[k],
                    pa@[k + 1],
                    pb@[l],
                    #[trigger] pb@[l + 1],
                ),
        decreases pa@.len() - i,
    {
        let mut j: usize = 0;
        while j < nb - 1
            invariant
                pa@ == a.outline@,
                na == pa@.len(),
                nb == pb@.len(),
                pb@ == b.outline@,
                pa@.len() >= 2,
                pb@.len() >= 2,
                forall|k: int| 0 <= k < pa@.len() ==> (#[trigger] pa@[k]).is_point(),
                forall|k: int| 0 <= k < pb@.len() ==> (#[trigger] pb@[k]).is_point(),
                0 <= i < pa@.len() - 1,
                0 <= j < pb@.len(),
                forall|k: int, l: int|
                    0 <= k < i && 0 <= l < pb@.len() - 1 ==> !#[trigger] lines_intersect_spec(
                        pa@[k],
                        pa@[k + 1],
                        pb@[l],
                        #[trigger] pb@[l + 1],
                    ),
                forall|l: int|
                    0 <= l < j ==> !#[trigger] lines_intersect_spec(
                        pa@[i as int],
                        pa@[i + 1],
                        pb@[l],
                        pb@[l + 1],
                    ),
            decreases pb@.len() - j,
        {
            if lines_intersect(pa[i], pa[i + 1], pb[j], pb[j + 1]) {
                return true;
            }
            j = j + 1;
        }
        i = i + 1;
    }
    false
}

} // verus!
