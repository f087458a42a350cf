//! Growing and shrinking a shape by a margin or by another shape.

use vstd::prelude::*;

verus! {

/// Minkowski growth (`expand`) and its inverse (`contract`) by a value of
/// type `By`.
pub trait Dilate<By> {
    type Output;

    /// `expand` may be called with `by`.
    spec fn can_expand(&self, by: By) -> bool;

    /// `contract` may be called with `by`.
    spec fn can_contract(&self, by: By) -> bool;

    fn expand(&self, by: By) -> (r: Self::Output)
        requires
            self.can_expand(by),
    ;

    fn contract(&self, by: By) -> (r: Self::Output)
        requires
            self.can_contract(by),
    ;
}

} // verus!
