//! The persistent tree proper: a single pirate at a leaf, or a join of two
//! subtrees carrying their combined size and bucaneer count, cached at
//! construction and never recomputed.

use vstd::prelude::*;

use crate::bitseq::{count_ones, lemma_count_ones_app, lemma_count_ones_singleton};
use crate::flipped::FlippedPiratesTree;
use crate::pirate::Pirate;
use crate::pirates_tree::{PiratesTree, PiratesTreeInner};

verus! {

/// A direct (un-negated) tree over a non-empty bit sequence.
pub enum NormalPiratesTree {
    SinglePirate(Pirate),
    Join { left: PiratesTree, right: PiratesTree, size: usize, num_bucaneers: usize },
}

impl NormalPiratesTree {
    /// The bit sequence this tree stands for, in leaf order.
    pub open spec fn bits(self) -> Seq<bool>
        decreases self,
    {
        match self {
            NormalPiratesTree::SinglePirate(p) => seq![p.is_bucaneer()],
            NormalPiratesTree::Join { left, right, .. } => left.bits() + right.bits(),
        }
    }

    /// Well-formedness: every join's cached `size` and `num_bucaneers` are
    /// the length and population count of the sequence it stands for, all
    /// the way down.
    pub open spec fn wf(self) -> bool
        decreases self,
    {
        match self {
            NormalPiratesTree::SinglePirate(_) => true,
            NormalPiratesTree::Join { left, right, size, num_bucaneers } => {
                &&& left.wf()
                &&& right.wf()
                &&& size == left.bits().len() + right.bits().len()
                &&& num_bucaneers == count_ones(left.bits()) + count_ones(right.bits())
            },
        }
    }

    /// The two child handles of a join, or nothing at a leaf.
    pub open spec fn children(self) -> Option<(PiratesTree, PiratesTree)> {
        match self {
            NormalPiratesTree::SinglePirate(_) => None,
            NormalPiratesTree::Join { left, right, .. } => Some((left, right)),
        }
    }

    /// How many joins the deepest path from the root passes: zero at a
    /// leaf. The range recursion descends one level per step, so this
    /// bounds its depth.
    pub open spec fn depth(self) -> nat
        decreases self,
    {
        match self {
            NormalPiratesTree::SinglePirate(_) => 0,
            NormalPiratesTree::Join { left, right, .. } => 1 + if left.depth() >= right.depth() {
                left.depth()
            } else {
                right.depth()
            },
        }
    }

    /// How many pirates the tree holds.
    pub fn len(&self) -> (r: usize)
        requires
            self.wf(),
        ensures
            r == self.bits().len(),
    {
        match self {
            NormalPiratesTree::SinglePirate(_) => 1,
            NormalPiratesTree::Join { size, .. } => *size,
        }
    }

    /// How many bucaneers (one bits) the tree holds.
    pub fn num_bucaneers(&self) -> (r: usize)
        requires
            self.wf(),
        ensures
            r == count_ones(self.bits()),
    {
        match self {
            NormalPiratesTree::SinglePirate(p) => {
                proof {
                    lemma_count_ones_singleton(p.is_bucaneer());
                }
                match p {
                    Pirate::Bucaneer => 1,
                    Pirate::Barbary => 0,
                }
            },
            NormalPiratesTree::Join { left, right, num_bucaneers, .. } => {
                proof {
                    lemma_count_ones_app(left.bits(), right.bits());
                }
                *num_bucaneers
            },
        }
    }

    /// Hands out the two children of a join, as they are; a leaf has none.
    pub fn unpack(&self) -> (r: Option<(PiratesTree, PiratesTree)>)
        ensures
            r == self.children(),
    {
        match self {
            NormalPiratesTree::SinglePirate(_) => None,
            NormalPiratesTree::Join { left, right, .. } => Some((left.clone(), right.clone())),
        }
    }

    /// Presents this tree complemented: a new handle around a complemented
    /// view of this very tree, sharing all its nodes.
    pub fn flipped(&self) -> (r: PiratesTree)
        ensures
            r.is_flipped(),
            r.normal_of() == *self,
    {
        PiratesTree::new(PiratesTreeInner::Flipped(FlippedPiratesTree::flip(self.clone())))
    }
}

impl Clone for NormalPiratesTree {
    /// Copies the node, sharing both children: the copy stands for the
    /// same sequence and is the same tree value.
    fn clone(&self) -> (r: Self)
        ensures
            r == *self,
    {
        match self {
            NormalPiratesTree::SinglePirate(p) => NormalPiratesTree::SinglePirate(*p),
            NormalPiratesTree::Join { left, right, size, num_bucaneers } => NormalPiratesTree::Join {
                left: left.clone(),
                right: right.clone(),
                size: *size,
                num_bucaneers: *num_bucaneers,
            },
        }
    }
}

} // verus!
