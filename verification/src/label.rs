use vstd::prelude::*;

verus! {

/// A point, as a pair of coordinates. Coordinates are integers that order
/// points as the drawing coordinates they stand for do; the collider only
/// ever compares them.
pub type Point = (i64, i64);

/// An axis-aligned box, given by its top-left and bottom-right corners.
pub type BBox = (Point, Point);

/// Whether the box from `topleft` to `bottomright` intersects `bbox`, corners
/// and edges included: it does unless it lies entirely to the left of,
/// to the right of, above or below `bbox`.
pub open spec fn intersects(bbox: BBox, topleft: Point, bottomright: Point) -> bool {
    !(bottomright.0 < (bbox.0).0 || topleft.0 > (bbox.1).0 || bottomright.1 < (bbox.0).1
        || topleft.1 > (bbox.1).1)
}

/// Two boxes whose x ranges overlap (the larger left edge is not right of
/// the smaller right edge) and whose y ranges overlap (the lower top edge
/// is not below the higher bottom edge) intersect, so the collider refuses
/// the second once the first is recorded.
pub proof fn lemma_overlapping_ranges_intersect(b: BBox, topleft: Point, bottomright: Point)
    requires
        (if (b.0).0 >= topleft.0 { (b.0).0 } else { topleft.0 }) <= (if (b.1).0 <= bottomright.0 {
            (b.1).0
        } else {
            bottomright.0
        }) && (if (b.0).1 >= topleft.1 { (b.0).1 } else { topleft.1 }) <= (if (b.1).1
            <= bottomright.1 {
            (b.1).1
        } else {
            bottomright.1
        }),
    ensures
        intersects(b, topleft, bottomright),
{
}

/// A box that lies wholly to one side of another does not intersect it,
/// so the collider accepts a box that lies to one side of every recorded
/// box.
pub proof fn lemma_separated_boxes_do_not_intersect(b: BBox, topleft: Point, bottomright: Point)
    requires
        bottomright.0 < (b.0).0 || (b.1).0 < topleft.0 || bottomright.1 < (b.0).1 || (b.1).1 < topleft.1,
    ensures
        !intersects(b, topleft, bottomright),
{
}

/// Whether no two distinct entries of `boxes` intersect.
pub open spec fn pairwise_disjoint(boxes: Seq<BBox>) -> bool {
    forall|i: int, j: int|
        0 <= i < boxes.len() && 0 <= j < boxes.len() && i != j ==> !intersects(
            #[trigger] boxes[i],
            (#[trigger] boxes[j]).0,
            boxes[j].1,
        )
}

/// A very primitive label collider, that does a linear search over drawn
/// labels, rejecting any that intersect.
pub struct Collider {
    pub bboxes: Vec<BBox>,
}

impl Collider {
    /// Accepts the box from `topleft` to `bottomright` and records it when it
    /// intersects none of the recorded boxes; otherwise refuses it and
    /// records nothing. Returns whether the box was accepted.
    pub fn add(&mut self, topleft: Point, bottomright: Point) -> (accepted: bool)
        ensures
            accepted == !exists|i: int|
                0 <= i < old(self).bboxes@.len() && intersects(
                    #[trigger] old(self).bboxes@[i],
                    topleft,
                    bottomright,
                ),
            accepted ==> final(self).bboxes@ == old(self).bboxes@.push((topleft, bottomright)),
            !accepted ==> final(self).bboxes@ == old(self).bboxes@,
            pairwise_disjoint(old(self).bboxes@) ==> pairwise_disjoint(final(self).bboxes@),
            forall|b: BBox|
                old(self).bboxes@.contains(b) && ((if (b.0).0 >= topleft.0 { (b.0).0 } else { topleft.0 }) <= (if (b.1).0 <= bottomright.0 {
            (b.1).0
        } else {
            bottomright.0
        }) && (if (b.0).1 >= topleft.1 { (b.0).1 } else { topleft.1 }) <= (if (b.1).1
            <= bottomright.1 {
            (b.1).1
        } else {
            bottomright.1
        })) ==> !accepted,
            (forall|b: BBox| old(self).bboxes@.contains(b) ==> (bottomright.0 < (b.0).0 || (b.1).0 < topleft.0 || bottomright.1 < (b.0).1 || (b.1).1 < topleft.1)) ==> accepted,
    {
        let n = self.bboxes.len();
        let mut k: usize = 0;
        while k < n
            invariant
                n == self.bboxes@.len(),
                k <= n,
                forall|i: int|
                    0 <= i < k ==> !intersects(#[trigger] self.bboxes@[i], topleft, bottomright),
            decreases n - k,
        {
            let bbox = self.bboxes[k];
            // x axis
            if bottomright.0 < (bbox.0).0 {
                k = k + 1;
                continue ;
            }
            if topleft.0 > (bbox.1).0 {
                k = k + 1;
                continue ;
            }
            // y axis
            if bottomright.1 < (bbox.0).1 {
                k = k + 1;
                continue ;
            }
            if topleft.1 > (bbox.1).1 {
                k = k + 1;
                continue ;
            }
            assert(self.bboxes@[k as int] == bbox);
            assert(self.bboxes@.contains(bbox));
            return false;
        }
        let ghost before = self.bboxes@;
        self.bboxes.push((topleft, bottomright));
        proof {
            let after = self.bboxes@;
            assert forall|i: int, j: int|
                0 <= i < after.len() && 0 <= j < after.len() && i != j
                    && pairwise_disjoint(before) implies !intersects(
                #[trigger] after[i],
                (#[trigger] after[j]).0,
                after[j].1,
            ) by {
                if i < before.len() && j < before.len() {
                    assert(after[i] == before[i] && after[j] == before[j]);
                } else if i < before.len() {
                    assert(!intersects(before[i], topleft, bottomright));
                } else {
                    assert(!intersects(before[j], topleft, bottomright));
                }
            }
            assert forall|b: BBox| before.contains(b) implies !((if (b.0).0 >= topleft.0 { (b.0).0 } else { topleft.0 }) <= (if (b.1).0 <= bottomright.0 {
                    (b.1).0
                } else {
                    bottomright.0
                }) && (if (b.0).1 >= topleft.1 { (b.0).1 } else { topleft.1 }) <= (if (b.1).1
                    <= bottomright.1 {
                    (b.1).1
                } else {
                    bottomright.1
                })) by {
                let i = choose|i: int| 0 <= i < before.len() && before[i] == b;
                assert(!intersects(before[i], topleft, bottomright));
                if (if (b.0).0 >= topleft.0 { (b.0).0 } else { topleft.0 }) <= (if (b.1).0 <= bottomright.0 {
                    (b.1).0
                } else {
                    bottomright.0
                }) && (if (b.0).1 >= topleft.1 { (b.0).1 } else { topleft.1 }) <= (if (b.1).1
                    <= bottomright.1 {
                    (b.1).1
                } else {
                    bottomright.1
                }) {
                    lemma_overlapping_ranges_intersect(b, topleft, bottomright);
                }
            }
        }
        true
    }
}

/// Intersection is symmetric: a box intersects another exactly when the
/// other intersects it.
pub proof fn lemma_intersects_symmetric(a: BBox, b: BBox)
    ensures
        intersects(a, b.0, b.1) == intersects(b, a.0, a.1),
{
}

/// A box whose top-left corner is not below or right of its bottom-right
/// corner, once accepted, is refused when it is offered again, and every
/// box that intersects it is refused from then on.
pub proof fn lemma_accepted_box_blocks(boxes: Seq<BBox>, topleft: Point, bottomright: Point, other: BBox)
    requires
        topleft.0 <= bottomright.0,
        topleft.1 <= bottomright.1,
        intersects((topleft, bottomright), other.0, other.1),
    ensures
        intersects(boxes.push((topleft, bottomright))[boxes.len() as int], topleft, bottomright),
        exists|i: int|
            0 <= i < boxes.push((topleft, bottomright)).len() && intersects(
                #[trigger] boxes.push((topleft, bottomright))[i],
                other.0,
                other.1,
            ),
{
    assert(boxes.push((topleft, bottomright))[boxes.len() as int] == (topleft, bottomright));
}

} // verus!
