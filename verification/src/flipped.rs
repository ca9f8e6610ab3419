//! The lazy-negation wrapper: it holds one direct tree and presents the
//! complemented sequence without touching it. Negating the wrapper gives
//! back the very tree it was built from, so negation stays constant-time
//! and wrappers never nest.

use vstd::prelude::*;

use crate::bitseq::{count_ones, flip_bits, lemma_count_ones_flip, lemma_count_ones_le_len};
use crate::normal::NormalPiratesTree;
use crate::pirates_tree::{PiratesTree, PiratesTreeInner};

verus! {

/// A direct tree seen through a complement: every barbary reads as a
/// bucaneer and the other way round. By construction it can only wrap a
/// direct tree, never another view, so negation cannot pile up wrappers.
pub struct FlippedPiratesTree(pub NormalPiratesTree);

impl FlippedPiratesTree {
    /// The bit sequence this view presents: the wrapped tree's sequence,
    /// complemented pointwise.
    pub open spec fn bits(self) -> Seq<bool>
        decreases self,
    {
        flip_bits(self.0.bits())
    }

    /// Well-formedness of the wrapped tree.
    pub open spec fn wf(self) -> bool
        decreases self,
    {
        self.0.wf()
    }

    /// Wraps a direct tree in the complemented view. Constant time: the
    /// tree itself is left untouched.
    pub fn flip(normal: NormalPiratesTree) -> (r: FlippedPiratesTree)
        ensures
            r == FlippedPiratesTree(normal),
    {
        FlippedPiratesTree(normal)
    }

    /// The view is as long as the tree it wraps.
    pub fn len(&self) -> (r: usize)
        requires
            self.wf(),
        ensures
            r == self.bits().len(),
    {
        self.0.len()
    }

    /// Bucaneers of the view are the wrapped tree's barbaries: length
    /// minus the wrapped count.
    pub fn num_bucaneers(&self) -> (r: usize)
        requires
            self.wf(),
        ensures
            r == count_ones(self.bits()),
    {
        proof {
            lemma_count_ones_flip(self.0.bits());
            lemma_count_ones_le_len(self.0.bits());
        }
        self.0.len() - self.0.num_bucaneers()
    }

    /// Hands out the wrapped join's children with the complement pushed
    /// one level down: each child re-wrapped in the opposite orientation,
    /// nothing copied. The view of a single pirate has no children.
    pub fn unpack(&self) -> (r: Option<(PiratesTree, PiratesTree)>)
        ensures
            (r is Some) == (self.0.children() is Some),
            r matches Some((a, b)) ==> self.0.children() matches Some((l, rr)) && a.is_flipped()
                == !l.is_flipped() && a.normal_of() == l.normal_of() && b.is_flipped()
                == !rr.is_flipped() && b.normal_of() == rr.normal_of(),
    {
        match self.0.unpack() {
            None => None,
            Some((left, right)) => Some((left.flipped(), right.flipped())),
        }
    }

    /// Takes the complement wrapper off again: a new handle around the
    /// very tree this view wraps, read directly.
    pub fn flipped(&self) -> (r: PiratesTree)
        ensures
            !r.is_flipped(),
            r.normal_of() == self.0,
    {
        PiratesTree::new(PiratesTreeInner::Normal(self.0.clone()))
    }
}

} // verus!
