//! The order of rectangles by size: by area first, by perimeter among
//! rectangles of equal area.

use crate::tree2d::BoundingBox;
use std::cmp::Ordering;
use vstd::prelude::*;

verus! {

impl BoundingBox {
    /// How `self` compares with `other`: the smaller area comes first, and
    /// among equal areas the smaller perimeter. Position plays no part, so
    /// two different rectangles can compare `Equal`.
    pub open spec fn order(self, other: BoundingBox) -> Ordering {
        if self.spec_area() < other.spec_area() {
            Ordering::Less
        } else if self.spec_area() > other.spec_area() {
            Ordering::Greater
        } else if self.spec_perimeter() < other.spec_perimeter() {
            Ordering::Less
        } else if self.spec_perimeter() > other.spec_perimeter() {
            Ordering::Greater
        } else {
            Ordering::Equal
        }
    }

    /// Compares two rectangles by area, then by perimeter.
    pub fn cmp(&self, other: &BoundingBox) -> (o: Ordering)
        ensures
            o == self.order(*other),
    {
        let a = self.area();
        let b = other.area();
        if a < b {
            Ordering::Less
        } else if a > b {
            Ordering::Greater
        } else {
            let p = self.perimeter();
            let q = other.perimeter();
            if p < q {
                Ordering::Less
            } else if p > q {
                Ordering::Greater
            } else {
                Ordering::Equal
            }
        }
    }
}

impl PartialOrd for BoundingBox {
    fn partial_cmp(&self, other: &BoundingBox) -> (o: Option<Ordering>) {
        Some(self.cmp(other))
    }
}

impl vstd::std_specs::cmp::PartialOrdSpecImpl for BoundingBox {
    open spec fn obeys_partial_cmp_spec() -> bool {
        true
    }

    open spec fn partial_cmp_spec(&self, other: &BoundingBox) -> Option<Ordering> {
        Some(self.order(*other))
    }
}

/// The order is antisymmetric: swapping the two sides swaps `Less` and
/// `Greater`.
pub proof fn lemma_order_antisymmetric(a: BoundingBox, b: BoundingBox)
    ensures
        a.order(b) == Ordering::Less <==> b.order(a) == Ordering::Greater,
        a.order(b) == Ordering::Equal <==> b.order(a) == Ordering::Equal,
{
}

/// The order is transitive.
pub proof fn lemma_order_transitive(a: BoundingBox, b: BoundingBox, c: BoundingBox)
    requires
        a.order(b) != Ordering::Greater,
        b.order(c) != Ordering::Greater,
    ensures
        a.order(c) != Ordering::Greater,
{
}

} // verus!
