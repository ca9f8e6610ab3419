//! The associative combiner that the range recursion uses to put the two
//! child results back together: numeric addition when counting, tree
//! joining when rebuilding.

use vstd::prelude::*;

use crate::normal::NormalPiratesTree;
use crate::pirates_tree::PiratesTree;

verus! {

/// A type whose values can be combined pairwise, with a spec-level
/// description of when the combination is defined and what it yields.
pub trait Append: Sized {
    /// When `self.append(other)` may be called.
    spec fn append_ok(self, other: Self) -> bool;

    /// What `self.append(other)` returns, as a relation between the two
    /// inputs and the result.
    spec fn append_post(self, other: Self, r: Self) -> bool;

    /// Combines two values.
    fn append(self, other: Self) -> (r: Self)
        requires
            self.append_ok(other),
        ensures
            self.append_post(other, r),
    ;
}

impl Append for usize {
    /// Defined as long as the sum fits.
    open spec fn append_ok(self, other: usize) -> bool {
        self + other <= usize::MAX
    }

    /// Combining counts is adding them.
    open spec fn append_post(self, other: usize, r: usize) -> bool {
        r == self + other
    }

    fn append(self, other: usize) -> (r: usize) {
        self + other
    }
}

impl Append for PiratesTree {
    /// Defined for well-formed trees whose combined length fits.
    open spec fn append_ok(self, other: PiratesTree) -> bool {
        self.wf() && other.wf() && self.bits().len() + other.bits().len() <= usize::MAX
    }

    /// Combining trees is joining them: the result is a direct join whose
    /// children are the two inputs, over their concatenated sequences.
    open spec fn append_post(self, other: PiratesTree, r: PiratesTree) -> bool {
        &&& r.wf()
        &&& r.bits() == self.bits() + other.bits()
        &&& !r.is_flipped()
        &&& r.normal_of() matches NormalPiratesTree::Join { left: l, right: rr, .. } && l == self
            && rr == other
    }

    fn append(self, other: PiratesTree) -> (r: PiratesTree) {
        PiratesTree::join(self, other)
    }
}

} // verus!
