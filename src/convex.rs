//! Convex shapes, by their support points.

use vstd::prelude::*;
use crate::math::{P2, V2};
use crate::rect::Rect;

verus! {

/// A convex shape that can name its furthest point in a direction.
pub trait Convex {
    fn furthest_along(&self, direction: V2) -> P2;
}

impl Convex for Rect {
    /// The corner furthest along `direction`; on a tie, the larger
    /// coordinate.
    fn furthest_along(&self, direction: V2) -> (r: P2)
        ensures
            r.x == if direction.x < 0 { self.mins.x } else { self.maxs.x },
            r.y == if direction.y < 0 { self.mins.y } else { self.maxs.y },
    {
        let x = if direction.x < 0 { self.mins.x } else { self.maxs.x };
        let y = if direction.y < 0 { self.mins.y } else { self.maxs.y };
        V2 { x, y }
    }
}

} // verus!
