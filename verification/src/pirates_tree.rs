//! The public handle over the two tree representations. A handle is a
//! reference-counted pointer to either a direct tree or a complemented
//! view of one; copying a handle shares the nodes, and no operation ever
//! mutates a node, so old handles keep observing the sequence they were
//! built over.

use std::rc::Rc;

use vstd::prelude::*;

use crate::bitseq::{
    assign_bits, count_ones, flip_bits, lemma_count_ones_app, lemma_count_ones_le_len,
    lemma_flip_bits_app, lemma_flip_bits_involution, lemma_repeat_bits_len, lemma_repeat_singleton,
    repeat_bits, toggle_bits, uniform_bits,
};
use crate::append::Append;
use crate::flipped::FlippedPiratesTree;
use crate::normal::NormalPiratesTree;
use crate::pirate::Pirate;

verus! {

/// The two representations a handle can point at.
pub enum PiratesTreeInner {
    Normal(NormalPiratesTree),
    Flipped(FlippedPiratesTree),
}

impl PiratesTreeInner {
    /// The bit sequence the representation stands for.
    pub open spec fn bits(self) -> Seq<bool>
        decreases self,
    {
        match self {
            PiratesTreeInner::Normal(tree) => tree.bits(),
            PiratesTreeInner::Flipped(tree) => tree.bits(),
        }
    }

    /// Well-formedness of the representation.
    pub open spec fn wf(self) -> bool
        decreases self,
    {
        match self {
            PiratesTreeInner::Normal(tree) => tree.wf(),
            PiratesTreeInner::Flipped(tree) => tree.wf(),
        }
    }

    /// Whether this representation reads its tree through a complement.
    pub open spec fn is_flipped(self) -> bool {
        self matches PiratesTreeInner::Flipped(_)
    }

    /// The direct tree under the (possible) complement wrapper.
    pub open spec fn normal_of(self) -> NormalPiratesTree {
        match self {
            PiratesTreeInner::Normal(tree) => tree,
            PiratesTreeInner::Flipped(tree) => tree.0,
        }
    }

    /// How many pirates the representation holds.
    fn len(&self) -> (r: usize)
        requires
            self.wf(),
        ensures
            r == self.bits().len(),
    {
        match self {
            PiratesTreeInner::Normal(tree) => tree.len(),
            PiratesTreeInner::Flipped(tree) => tree.len(),
        }
    }

    /// How many bucaneers the representation holds.
    fn num_bucaneers(&self) -> (r: usize)
        requires
            self.wf(),
        ensures
            r == count_ones(self.bits()),
    {
        match self {
            PiratesTreeInner::Normal(tree) => tree.num_bucaneers(),
            PiratesTreeInner::Flipped(tree) => tree.num_bucaneers(),
        }
    }
}

/// A shared, immutable handle to a tree. Cloning it is constant time and
/// every operation that "changes" the sequence returns a fresh handle,
/// leaving this one untouched.
pub struct PiratesTree(pub Rc<PiratesTreeInner>);

impl PiratesTree {
    /// The bit sequence the handle stands for.
    pub open spec fn bits(self) -> Seq<bool>
        decreases self,
    {
        (*self.0).bits()
    }

    /// Well-formedness of the pointed-at tree.
    pub open spec fn wf(self) -> bool
        decreases self,
    {
        (*self.0).wf()
    }

    /// Whether the handle reads its tree through a complement wrapper.
    pub open spec fn is_flipped(self) -> bool {
        (*self.0).is_flipped()
    }

    /// The direct tree under the handle's (possible) complement wrapper.
    pub open spec fn normal_of(self) -> NormalPiratesTree {
        (*self.0).normal_of()
    }

    /// How many joins the deepest path from the root passes. Complement
    /// wrappers do not count: the range recursion steps over them for
    /// free.
    pub open spec fn depth(self) -> nat
        decreases self,
    {
        self.normal_of().depth()
    }

    /// Whether the inclusive range `start..=end` aligns with this tree's
    /// shape. Orientation plays no part: a complemented view aligns the
    /// same ranges as the tree it wraps.
    pub open spec fn supports(self, start: int, end: int) -> bool {
        supports_range(self.normal_of(), start, end)
    }

    /// How many pirates the sequence holds.
    pub fn len(&self) -> (r: usize)
        requires
            self.wf(),
        ensures
            r == self.bits().len(),
    {
        (&*self.0).len()
    }

    /// How many bucaneers (one bits) the sequence holds.
    pub fn num_bucaneers(&self) -> (r: usize)
        requires
            self.wf(),
        ensures
            r == count_ones(self.bits()),
    {
        (&*self.0).num_bucaneers()
    }

    /// Joins two trees into one whose sequence is the first followed by
    /// the second. The sole tree-growth primitive: constant work beyond
    /// reading the two cached sizes and counts, and both inputs are
    /// shared, not copied.
    pub fn join(left_pirates: PiratesTree, right_pirates: PiratesTree) -> (r: Self)
        requires
            left_pirates.wf(),
            right_pirates.wf(),
            left_pirates.bits().len() + right_pirates.bits().len() <= usize::MAX,
        ensures
            r.wf(),
            r.bits() == left_pirates.bits() + right_pirates.bits(),
            !r.is_flipped(),
            r.normal_of() matches NormalPiratesTree::Join { left: l, right: rr, .. } && l
                == left_pirates && rr == right_pirates,
    {
        proof {
            lemma_count_ones_le_len(left_pirates.bits());
            lemma_count_ones_le_len(right_pirates.bits());
            lemma_count_ones_app(left_pirates.bits(), right_pirates.bits());
        }
        let size = left_pirates.len() + right_pirates.len();
        let num_bucaneers = left_pirates.num_bucaneers() + right_pirates.num_bucaneers();
        Self::new(
            PiratesTreeInner::Normal(
                NormalPiratesTree::Join { left: left_pirates, right: right_pirates, size, num_bucaneers },
            ),
        )
    }

    /// Builds a balanced tree over a run of '0' and '1' characters by
    /// splitting the run at its midpoint and joining the two halves; a
    /// run of length one becomes a single pirate. The run must be
    /// non-empty and hold no other characters.
    pub fn from_string(string: &str) -> (r: Self)
        requires
            string@.len() >= 1,
            forall|i: int| 0 <= i < string@.len() ==> string@[i] == '0' || string@[i] == '1',
        ensures
            r.wf(),
            r.bits() == run_bits(string@),
    {
        proof {
            assert(vstd::string::is_ascii(string));
            vstd::string::is_ascii_spec_bytes(string);
        }
        let bytes = string.as_bytes();
        let len = bytes.len();
        let r = Self::from_bytes_range(bytes, 0, len);
        proof {
            assert(r.bits() =~= run_bits(string@));
        }
        r
    }

    /// Builds the balanced tree over the run's bytes at `start..end`.
    fn from_bytes_range(bytes: &[u8], start: usize, end: usize) -> (r: Self)
        requires
            start < end,
            end <= bytes@.len(),
            forall|i: int| start <= i < end ==> bytes@[i] == 48 || bytes@[i] == 49,
        ensures
            r.wf(),
            r.bits() == Seq::new((end - start) as nat, |i: int| bytes@[start + i] == 49),
        decreases end - start,
    {
        if end - start == 1 {
            let b = bytes[start];
            let p = if b == 49 {
                Pirate::Bucaneer
            } else {
                Pirate::Barbary
            };
            let r = Self::single_pirate(p);
            proof {
                assert(r.bits() =~= Seq::new(1nat, |i: int| bytes@[start + i] == 49));
            }
            r
        } else {
            let mid = start + (end - start) / 2;
            let left = Self::from_bytes_range(bytes, start, mid);
            let right = Self::from_bytes_range(bytes, mid, end);
            let r = Self::join(left, right);
            proof {
                assert(r.bits() =~= Seq::new((end - start) as nat, |i: int| bytes@[start + i] == 49));
            }
            r
        }
    }

    /// Builds a tree standing for this tree's sequence repeated `n`
    /// times, by recursive doubling: the two halves are the same shared
    /// subtree, so `n`-fold replication allocates only logarithmically
    /// many new nodes.
    pub fn replicate(&self, n: usize) -> (r: Self)
        requires
            self.wf(),
            n >= 1,
            n * self.bits().len() <= usize::MAX,
        ensures
            r.wf(),
            r.bits() == repeat_bits(self.bits(), n as nat),
            n == 1 ==> r == *self,
        decreases n,
    {
        if n == 1 {
            proof {
                assert(repeat_bits(self.bits(), 0) + self.bits() =~= self.bits());
            }
            self.clone()
        } else {
            let half: usize = n / 2;
            proof {
                lemma_repeat_bits_len(self.bits(), half as nat);
                lemma_repeat_bits_len(self.bits(), (half + 1) as nat);
                assert(half * self.bits().len() + (n - half) * self.bits().len() == n
                    * self.bits().len()) by (nonlinear_arith);
                assert((half + 1) * self.bits().len() == half * self.bits().len()
                    + self.bits().len()) by (nonlinear_arith);
            }
            let left = self.replicate(half);
            let mut right = left.clone();
            if n % 2 == 1 {
                right = Self::join(right, self.clone());
            }
            let r = Self::join(left, right);
            proof {
                crate::bitseq::lemma_repeat_bits_add(self.bits(), half as nat, (n - half) as nat);
            }
            r
        }
    }

    /// Combines pre-built trees, in order, into one tree over their
    /// concatenated sequences, splitting the list at its midpoint and
    /// joining the two halves. A single-element list gives back that very
    /// element, unchanged. The list must not be empty.
    pub fn from_sections(sections: Vec<PiratesTree>) -> (r: Self)
        requires
            sections@.len() >= 1,
            forall|i: int| 0 <= i < sections@.len() ==> (#[trigger] sections@[i]).wf(),
            joined_bits(sections@).len() <= usize::MAX,
        ensures
            r.wf(),
            r.bits() == joined_bits(sections@),
            sections@.len() == 1 ==> r == sections@[0],
    {
        let end = sections.len();
        proof {
            assert(sections@.subrange(0, end as int) =~= sections@);
        }
        Self::from_sections_range(&sections, 0, end)
    }

    /// Builds the tree over the sections at positions `start..end`.
    fn from_sections_range(sections: &Vec<PiratesTree>, start: usize, end: usize) -> (r: Self)
        requires
            start < end,
            end <= sections@.len(),
            forall|i: int| 0 <= i < sections@.len() ==> (#[trigger] sections@[i]).wf(),
            joined_bits(sections@.subrange(start as int, end as int)).len() <= usize::MAX,
        ensures
            r.wf(),
            r.bits() == joined_bits(sections@.subrange(start as int, end as int)),
            end - start == 1 ==> r == sections@[start as int],
        decreases end - start,
    {
        if end - start == 1 {
            let r = sections[start].clone();
            proof {
                let one = sections@.subrange(start as int, end as int);
                assert(one.drop_first() =~= Seq::<PiratesTree>::empty());
                assert(r.bits() + joined_bits(one.drop_first()) =~= r.bits());
            }
            r
        } else {
            let mid = start + (end - start) / 2;
            proof {
                lemma_joined_bits_split(sections@, start as int, mid as int, end as int);
            }
            let left = Self::from_sections_range(sections, start, mid);
            let right = Self::from_sections_range(sections, mid, end);
            Self::join(left, right)
        }
    }

    /// Presents this tree complemented, in constant time. A direct tree
    /// gains the complement wrapper; a wrapped one loses it again, giving
    /// back the direct tree the wrapper was built from — wrappers never
    /// nest.
    pub fn flipped(&self) -> (r: Self)
        ensures
            r.is_flipped() == !self.is_flipped(),
            r.normal_of() == self.normal_of(),
            r.wf() == self.wf(),
            r.depth() == self.depth(),
            r.bits() == flip_bits(self.bits()),
    {
        let r = match &*self.0 {
            PiratesTreeInner::Normal(tree) => tree.flipped(),
            PiratesTreeInner::Flipped(tree) => tree.flipped(),
        };
        proof {
            lemma_tree_parts(*self);
            lemma_tree_parts(r);
            if self.is_flipped() {
                lemma_flip_bits_involution(self.normal_of().bits());
            }
        }
        r
    }

    /// Counts the bucaneers in the inclusive range `start..=end`, which
    /// must align with the tree's shape. Work happens only at the
    /// boundary-touching nodes: a child wholly inside the range is
    /// answered from its cached count, one wholly outside contributes
    /// nothing.
    pub fn count_bucaneers(&self, start: usize, end: usize) -> (r: usize)
        requires
            self.wf(),
            self.supports(start as int, end as int),
        ensures
            r == count_ones(self.bits().subrange(start as int, end as int + 1)),
        decreases self.depth(),
    {
        let len = self.len();
        if start == 0 && end == len - 1 {
            proof {
                assert(self.bits().subrange(0, end as int + 1) =~= self.bits());
            }
            self.num_bucaneers()
        } else {
            let (left, right) = self.unpack().unwrap();
            let left_len = left.len();
            let ghost s_all: Seq<bool> = self.bits();
            let ghost va: Seq<bool> = left.bits();
            let ghost vb: Seq<bool> = right.bits();
            let ghost ll: int = va.len() as int;
            let ghost s: int = start as int;
            let ghost e: int = end as int;
            let left_result = if start < left_len {
                let e2 = if end < left_len - 1 {
                    end
                } else {
                    left_len - 1
                };
                left.count_bucaneers(start, e2)
            } else {
                0
            };
            let right_result = if end >= left_len {
                let s2 = if start >= left_len {
                    start - left_len
                } else {
                    0
                };
                right.count_bucaneers(s2, end - left_len)
            } else {
                0
            };
            proof {
                if s < ll {
                    let e2: int = if e < ll - 1 {
                        e
                    } else {
                        ll - 1
                    };
                    lemma_count_ones_le_len(va.subrange(s, e2 + 1));
                }
                if e >= ll {
                    let s2: int = if s >= ll {
                        s - ll
                    } else {
                        0
                    };
                    lemma_count_ones_le_len(vb.subrange(s2, e - ll + 1));
                }
                if s < ll && e >= ll {
                    assert(s_all.subrange(s, e + 1) =~= va.subrange(s, ll) + vb.subrange(
                        0,
                        e - ll + 1,
                    ));
                    lemma_count_ones_app(va.subrange(s, ll), vb.subrange(0, e - ll + 1));
                } else if s < ll {
                    assert(s_all.subrange(s, e + 1) =~= va.subrange(s, e + 1));
                } else {
                    assert(s_all.subrange(s, e + 1) =~= vb.subrange(s - ll, e - ll + 1));
                }
            }
            left_result.append(right_result)
        }
    }

    /// Returns a new tree with every pirate in the inclusive range
    /// `start..=end` replaced by `pirate_type`; the range must align with
    /// the tree's shape. This tree is untouched and keeps answering for
    /// the old sequence; untouched subtrees are shared between the two.
    #[must_use]
    pub fn set(&self, start: usize, end: usize, pirate_type: Pirate) -> (r: Self)
        requires
            self.wf(),
            self.supports(start as int, end as int),
        ensures
            r.wf(),
            r.bits() == assign_bits(self.bits(), start as int, end as int, pirate_type.is_bucaneer()),
        decreases self.depth(),
    {
        let len = self.len();
        if start == 0 && end == len - 1 {
            proof {
                assert(len * 1 == len) by (nonlinear_arith);
            }
            let r = Self::single_pirate(pirate_type).replicate(len);
            proof {
                lemma_repeat_singleton(pirate_type.is_bucaneer(), len as nat);
                assert(uniform_bits(pirate_type.is_bucaneer(), len as nat) =~= assign_bits(
                    self.bits(),
                    0,
                    end as int,
                    pirate_type.is_bucaneer(),
                ));
            }
            r
        } else {
            let (left, right) = self.unpack().unwrap();
            let left_len = left.len();
            let ghost s_all: Seq<bool> = self.bits();
            let ghost va: Seq<bool> = left.bits();
            let ghost vb: Seq<bool> = right.bits();
            let ghost ll: int = va.len() as int;
            let ghost s: int = start as int;
            let ghost e: int = end as int;
            let ghost b: bool = pirate_type.is_bucaneer();
            let left_result = if start < left_len {
                let e2 = if end < left_len - 1 {
                    end
                } else {
                    left_len - 1
                };
                left.set(start, e2, pirate_type)
            } else {
                left.clone()
            };
            let right_result = if end >= left_len {
                let s2 = if start >= left_len {
                    start - left_len
                } else {
                    0
                };
                right.set(s2, end - left_len, pirate_type)
            } else {
                right.clone()
            };
            let r = left_result.append(right_result);
            proof {
                assert(r.bits() =~= assign_bits(s_all, s, e, b));
            }
            r
        }
    }

    /// Returns a new tree with every pirate in the inclusive range
    /// `start..=end` complemented; the range must align with the tree's
    /// shape. Whole covered subtrees are merely re-oriented, never
    /// copied — over the full range the result is exactly this tree's
    /// lazy complement wrapper — and the new tree keeps the old one's
    /// shape, so it aligns the same ranges.
    pub fn toggle(&self, start: usize, end: usize) -> (r: PiratesTree)
        requires
            self.wf(),
            self.supports(start as int, end as int),
        ensures
            r.wf(),
            r.bits() == toggle_bits(self.bits(), start as int, end as int),
            same_shape(r.normal_of(), self.normal_of()),
            start == 0 && end + 1 == self.bits().len() ==> r.is_flipped() == !self.is_flipped()
                && r.normal_of() == self.normal_of(),
        decreases self.depth(),
    {
        let len = self.len();
        if start == 0 && end == len - 1 {
            let r = self.flipped();
            proof {
                lemma_same_shape_refl(self.normal_of());
                assert(r.bits() =~= toggle_bits(self.bits(), 0, end as int));
            }
            r
        } else {
            let (left, right) = self.unpack().unwrap();
            let left_len = left.len();
            let ghost s_all: Seq<bool> = self.bits();
            let ghost va: Seq<bool> = left.bits();
            let ghost ll: int = va.len() as int;
            let ghost s: int = start as int;
            let ghost e: int = end as int;
            let left_result = if start < left_len {
                let e2 = if end < left_len - 1 {
                    end
                } else {
                    left_len - 1
                };
                left.toggle(start, e2)
            } else {
                proof {
                    lemma_same_shape_refl(left.normal_of());
                }
                left.clone()
            };
            let right_result = if end >= left_len {
                let s2 = if start >= left_len {
                    start - left_len
                } else {
                    0
                };
                right.toggle(s2, end - left_len)
            } else {
                proof {
                    lemma_same_shape_refl(right.normal_of());
                }
                right.clone()
            };
            let r = left_result.append(right_result);
            proof {
                assert(r.bits() =~= toggle_bits(s_all, s, e));
                assert(same_shape(r.normal_of(), self.normal_of()));
            }
            r
        }
    }

    /// Hands out a consistently oriented two-child decomposition: the
    /// children of a join as they are, or, under a complement wrapper,
    /// each child re-wrapped so that the complement is pushed one level
    /// down without copying anything. A single pirate has no children.
    fn unpack(&self) -> (r: Option<(PiratesTree, PiratesTree)>)
        requires
            self.wf(),
        ensures
            (r is Some) == (self.normal_of() matches NormalPiratesTree::Join { .. }),
            (match (r, self.normal_of().children()) {
                (Some((a, b)), Some((l, rr))) => {
                    &&& a.wf()
                    &&& b.wf()
                    &&& a.normal_of() == l.normal_of()
                    &&& b.normal_of() == rr.normal_of()
                    &&& a.depth() < self.depth()
                    &&& b.depth() < self.depth()
                    &&& a.bits().len() == l.bits().len()
                    &&& b.bits().len() == rr.bits().len()
                    &&& self.bits() == a.bits() + b.bits()
                },
                (None, None) => true,
                _ => false,
            }),
    {
        match &*self.0 {
            PiratesTreeInner::Normal(tree) => {
                let r = tree.unpack();
                proof {
                    match &r {
                        Some((a, b)) => {
                            assert(self.depth() == tree.depth());
                            assert(self.bits() == a.bits() + b.bits());
                        },
                        None => {},
                    }
                }
                r
            },
            PiratesTreeInner::Flipped(tree) => {
                let r = tree.unpack();
                proof {
                    match &r {
                        Some((a, b)) => {
                            match tree.0.children() {
                                Some((l, rr)) => {
                                    lemma_tree_parts(*a);
                                    lemma_tree_parts(*b);
                                    lemma_tree_parts(l);
                                    lemma_tree_parts(rr);
                                    lemma_flip_pair_bits(*a, l);
                                    lemma_flip_pair_bits(*b, rr);
                                    lemma_flip_bits_app(l.bits(), rr.bits());
                                    assert(tree.0.wf());
                                    assert(l.wf() && rr.wf());
                                    assert(a.wf() && b.wf());
                                    assert(tree.0.bits() == l.bits() + rr.bits());
                                    assert(self.depth() == tree.0.depth());
                                },
                                None => {
                                    assert(false);
                                },
                            }
                        },
                        None => {},
                    }
                }
                r
            },
        }
    }

    /// Wraps a single pirate as a size-one direct tree.
    fn single_pirate(pirate: Pirate) -> (r: PiratesTree)
        ensures
            r.wf(),
            r.bits() == seq![pirate.is_bucaneer()],
            !r.is_flipped(),
            r.depth() == 0,
    {
        PiratesTree(Rc::new(PiratesTreeInner::Normal(NormalPiratesTree::SinglePirate(pirate))))
    }

    /// Wraps a representation in a fresh handle.
    pub(crate) fn new(t: PiratesTreeInner) -> (r: PiratesTree)
        ensures
            *r.0 == t,
    {
        PiratesTree(Rc::new(t))
    }
}

/// Whether the inclusive range `start..=end` aligns with boundaries of
/// the tree's shape, mirroring the range recursion step by step: either
/// the range covers the whole tree, or the tree is a join and each side
/// of the range that touches a child, clipped at the join's boundary,
/// aligns with that child in turn. Because the clipping happens at every
/// join, the narrowing always ends in exact coverage of some node: the
/// predicate holds of every in-bounds range
/// (`lemma_supports_range_iff_bounds`), and the structural form is kept
/// because it is what the recursion's termination and correctness follow.
pub open spec fn supports_range(n: NormalPiratesTree, start: int, end: int) -> bool
    decreases n,
{
    let len = n.bits().len() as int;
    &&& 0 <= start
    &&& start <= end
    &&& end < len
    &&& ((start == 0 && end == len - 1) || (match n {
        NormalPiratesTree::SinglePirate(_) => false,
        NormalPiratesTree::Join { left, right, .. } => {
            let ll = left.bits().len() as int;
            &&& (start < ll ==> supports_range(
                left.normal_of(),
                start,
                if end < ll - 1 {
                    end
                } else {
                    ll - 1
                },
            ))
            &&& (end >= ll ==> supports_range(
                right.normal_of(),
                if start >= ll {
                    start - ll
                } else {
                    0
                },
                end - ll,
            ))
        },
    }))
}

/// The narrowing discipline never fails in bounds: clipping at each join
/// boundary always ends in exact coverage of some node, so a range
/// aligns exactly when it is in bounds. In particular the recursion's
/// "unsupported range" failure is unreachable for in-bounds ranges.
pub proof fn lemma_supports_range_iff_bounds(n: NormalPiratesTree, start: int, end: int)
    ensures
        supports_range(n, start, end) == (0 <= start <= end < n.bits().len()),
    decreases n,
{
    if 0 <= start && start <= end && end < n.bits().len() {
        match n {
            NormalPiratesTree::SinglePirate(_) => {},
            NormalPiratesTree::Join { left, right, .. } => {
                let ll = left.bits().len() as int;
                lemma_tree_parts(left);
                lemma_tree_parts(right);
                if start < ll {
                    lemma_supports_range_iff_bounds(
                        left.normal_of(),
                        start,
                        if end < ll - 1 {
                            end
                        } else {
                            ll - 1
                        },
                    );
                }
                if end >= ll {
                    lemma_supports_range_iff_bounds(
                        right.normal_of(),
                        if start >= ll {
                            start - ll
                        } else {
                            0
                        },
                        end - ll,
                    );
                }
            },
        }
    }
}

/// A handle aligns exactly the in-bounds ranges.
pub proof fn lemma_supports_iff_bounds(t: PiratesTree, start: int, end: int)
    ensures
        t.supports(start, end) == (0 <= start <= end < t.bits().len()),
{
    lemma_supports_range_iff_bounds(t.normal_of(), start, end);
    lemma_tree_parts(t);
}

/// Whether two direct trees have the same shape: the same nesting of
/// joins over the same child lengths, whatever the pirates at the leaves
/// and the orientation of the handles in between.
pub open spec fn same_shape(a: NormalPiratesTree, b: NormalPiratesTree) -> bool
    decreases a,
{
    match (a, b) {
        (NormalPiratesTree::SinglePirate(_), NormalPiratesTree::SinglePirate(_)) => true,
        (
            NormalPiratesTree::Join { left: al, right: ar, .. },
            NormalPiratesTree::Join { left: bl, right: br, .. },
        ) => {
            &&& al.bits().len() == bl.bits().len()
            &&& ar.bits().len() == br.bits().len()
            &&& same_shape(al.normal_of(), bl.normal_of())
            &&& same_shape(ar.normal_of(), br.normal_of())
        },
        _ => false,
    }
}

/// Every tree has its own shape.
pub proof fn lemma_same_shape_refl(n: NormalPiratesTree)
    ensures
        same_shape(n, n),
    decreases n,
{
    match n {
        NormalPiratesTree::SinglePirate(_) => {},
        NormalPiratesTree::Join { left, right, .. } => {
            lemma_same_shape_refl(left.normal_of());
            lemma_same_shape_refl(right.normal_of());
        },
    }
}

/// Trees of the same shape hold equally many pirates.
pub proof fn lemma_same_shape_len(a: NormalPiratesTree, b: NormalPiratesTree)
    requires
        same_shape(a, b),
    ensures
        a.bits().len() == b.bits().len(),
{
}

/// Trees of the same shape align exactly the same ranges.
pub proof fn lemma_same_shape_supports(a: NormalPiratesTree, b: NormalPiratesTree, start: int, end: int)
    requires
        same_shape(a, b),
    ensures
        supports_range(a, start, end) == supports_range(b, start, end),
    decreases a,
{
    lemma_same_shape_len(a, b);
    match (a, b) {
        (
            NormalPiratesTree::Join { left: al, right: ar, .. },
            NormalPiratesTree::Join { left: bl, right: br, .. },
        ) => {
            let ll = al.bits().len() as int;
            lemma_same_shape_supports(
                al.normal_of(),
                bl.normal_of(),
                start,
                if end < ll - 1 {
                    end
                } else {
                    ll - 1
                },
            );
            lemma_same_shape_supports(
                ar.normal_of(),
                br.normal_of(),
                if start >= ll {
                    start - ll
                } else {
                    0
                },
                end - ll,
            );
        },
        _ => {},
    }
}

/// The bit sequence a run of characters stands for: `true` where the
/// character is '1'.
pub open spec fn run_bits(s: Seq<char>) -> Seq<bool> {
    Seq::new(s.len(), |i: int| s[i] == '1')
}

/// The concatenation of the sequences of a list of trees, in order.
pub open spec fn joined_bits(ts: Seq<PiratesTree>) -> Seq<bool>
    decreases ts.len(),
{
    if ts.len() == 0 {
        Seq::empty()
    } else {
        ts[0].bits() + joined_bits(ts.drop_first())
    }
}

/// Tree-sequence concatenation distributes over list concatenation.
pub proof fn lemma_joined_bits_app(a: Seq<PiratesTree>, b: Seq<PiratesTree>)
    ensures
        joined_bits(a + b) == joined_bits(a) + joined_bits(b),
    decreases a.len(),
{
    if a.len() == 0 {
        assert(a + b =~= b);
        assert(joined_bits(a) + joined_bits(b) =~= joined_bits(b));
    } else {
        lemma_joined_bits_app(a.drop_first(), b);
        assert((a + b).drop_first() =~= a.drop_first() + b);
        assert((a + b)[0] == a[0]);
        assert(a[0].bits() + (joined_bits(a.drop_first()) + joined_bits(b)) =~= (a[0].bits()
            + joined_bits(a.drop_first())) + joined_bits(b));
    }
}

/// Splitting a stretch of the list at any midpoint splits its joined
/// sequence there too.
pub proof fn lemma_joined_bits_split(ts: Seq<PiratesTree>, start: int, mid: int, end: int)
    requires
        0 <= start <= mid <= end <= ts.len(),
    ensures
        joined_bits(ts.subrange(start, end)) == joined_bits(ts.subrange(start, mid))
            + joined_bits(ts.subrange(mid, end)),
{
    assert(ts.subrange(start, end) =~= ts.subrange(start, mid) + ts.subrange(mid, end));
    lemma_joined_bits_app(ts.subrange(start, mid), ts.subrange(mid, end));
}

/// A handle's well-formedness, depth and length are those of the direct
/// tree under its (possible) complement wrapper, and its sequence is that
/// tree's sequence, complemented when the wrapper is there.
pub proof fn lemma_tree_parts(t: PiratesTree)
    ensures
        t.wf() == t.normal_of().wf(),
        t.depth() == t.normal_of().depth(),
        t.bits().len() == t.normal_of().bits().len(),
        !t.is_flipped() ==> t.bits() == t.normal_of().bits(),
        t.is_flipped() ==> t.bits() == flip_bits(t.normal_of().bits()),
{
}

/// A handle that stands over the same direct tree as another but with the
/// opposite orientation presents the complemented sequence.
pub proof fn lemma_flip_pair_bits(a: PiratesTree, l: PiratesTree)
    requires
        a.is_flipped() == !l.is_flipped(),
        a.normal_of() == l.normal_of(),
    ensures
        a.bits() == flip_bits(l.bits()),
{
    lemma_tree_parts(a);
    lemma_tree_parts(l);
    if l.is_flipped() {
        lemma_flip_bits_involution(l.normal_of().bits());
    }
}

/// Every tree stands for at least one pirate.
pub proof fn lemma_normal_bits_nonempty(n: NormalPiratesTree)
    ensures
        n.bits().len() >= 1,
    decreases n,
{
    match n {
        NormalPiratesTree::SinglePirate(_) => {},
        NormalPiratesTree::Join { left, right, .. } => {
            lemma_normal_bits_nonempty(left.normal_of());
            lemma_tree_parts(left);
        },
    }
}

/// Every handle stands for at least one pirate.
pub proof fn lemma_tree_bits_nonempty(t: PiratesTree)
    ensures
        t.bits().len() >= 1,
{
    lemma_normal_bits_nonempty(t.normal_of());
    lemma_tree_parts(t);
}

/// Size and popcount consistency: in a well-formed join, the cached size
/// and bucaneer count equal the sums over its two children, and so do
/// the length and population count of the sequence it stands for. The
/// well-formedness predicate carries this through every reachable
/// subtree, and since no operation ever rewrites a node, it holds at all
/// times.
pub proof fn lemma_join_consistency(n: NormalPiratesTree)
    requires
        n.wf(),
    ensures
        n matches NormalPiratesTree::Join { left, right, size, num_bucaneers } ==> {
            &&& size == left.bits().len() + right.bits().len()
            &&& num_bucaneers == count_ones(left.bits()) + count_ones(right.bits())
            &&& n.bits().len() == left.bits().len() + right.bits().len()
            &&& count_ones(n.bits()) == count_ones(left.bits()) + count_ones(right.bits())
        },
{
    match n {
        NormalPiratesTree::Join { left, right, .. } => {
            lemma_count_ones_app(left.bits(), right.bits());
        },
        NormalPiratesTree::SinglePirate(_) => {},
    }
}

/// Double negation cancels: complementing twice gives back the very
/// handle value it started from — the same direct tree in the same
/// orientation, not merely an equal sequence. The hypotheses are exactly
/// what two successive calls of `flipped` ensure.
pub proof fn lemma_double_flip(t: PiratesTree, once: PiratesTree, twice: PiratesTree)
    requires
        once.is_flipped() == !t.is_flipped(),
        once.normal_of() == t.normal_of(),
        twice.is_flipped() == !once.is_flipped(),
        twice.normal_of() == once.normal_of(),
    ensures
        twice == t,
{
    lemma_eq_from_parts(twice, t);
}

/// Persistence: assignment builds a new tree and never touches the old
/// handle, which keeps standing for its old sequence; and outside the
/// assigned range the new tree counts exactly as the old one. The
/// hypothesis is what `set` ensures of its result.
pub proof fn lemma_assign_preserves_outside(
    t: PiratesTree,
    r: PiratesTree,
    start: int,
    end: int,
    b: bool,
)
    requires
        r.bits() == assign_bits(t.bits(), start, end, b),
    ensures
        forall|lo: int, hi: int|
            0 <= lo <= hi <= t.bits().len() && (hi <= start || lo > end)
                ==> count_ones(r.bits().subrange(lo, hi)) == count_ones(
                t.bits().subrange(lo, hi),
            ),
{
    assert forall|lo: int, hi: int|
        0 <= lo <= hi <= t.bits().len() && (hi <= start || lo > end) implies count_ones(
        r.bits().subrange(lo, hi),
    ) == count_ones(t.bits().subrange(lo, hi)) by {
        assert(r.bits().subrange(lo, hi) =~= t.bits().subrange(lo, hi));
    }
}

/// Toggling the same range twice gives a tree over exactly the original
/// sequence, so every subrange counts the same bucaneers as before. The
/// hypotheses are what two successive calls of `toggle` ensure.
pub proof fn lemma_toggle_twice_counts(
    t: PiratesTree,
    once: PiratesTree,
    twice: PiratesTree,
    start: int,
    end: int,
)
    requires
        once.bits() == toggle_bits(t.bits(), start, end),
        twice.bits() == toggle_bits(once.bits(), start, end),
    ensures
        twice.bits() == t.bits(),
        forall|lo: int, hi: int|
            0 <= lo <= hi <= t.bits().len() ==> count_ones(twice.bits().subrange(lo, hi))
                == count_ones(t.bits().subrange(lo, hi)),
{
    crate::bitseq::lemma_toggle_bits_twice(t.bits(), start, end);
}

/// Counting over the exact left half of a join is answered at the join
/// itself: the range aligns whatever the two halves hold inside, because
/// the left child is covered whole and the right child is untouched, so
/// the recursion never descends past the first level.
pub proof fn lemma_left_half_supported(n: NormalPiratesTree)
    ensures
        n matches NormalPiratesTree::Join { left, right, .. } ==> supports_range(
            n,
            0,
            left.bits().len() - 1,
        ),
{
    match n {
        NormalPiratesTree::Join { left, right, .. } => {
            lemma_tree_bits_nonempty(left);
            lemma_tree_bits_nonempty(right);
            lemma_tree_parts(left);
            let ll = left.bits().len() as int;
            assert(supports_range(left.normal_of(), 0, ll - 1));
        },
        NormalPiratesTree::SinglePirate(_) => {},
    }
}

/// The whole extent of any tree is an aligned range.
pub proof fn lemma_full_range_supported(t: PiratesTree)
    ensures
        t.bits().len() >= 1 ==> t.supports(0, t.bits().len() - 1),
{
    lemma_tree_parts(t);
}

/// Two handles with the same orientation around the same direct tree are
/// the same handle value.
pub proof fn lemma_eq_from_parts(a: PiratesTree, b: PiratesTree)
    requires
        a.is_flipped() == b.is_flipped(),
        a.normal_of() == b.normal_of(),
    ensures
        a == b,
{
    match *a.0 {
        PiratesTreeInner::Normal(n1) => {
            match *b.0 {
                PiratesTreeInner::Normal(n2) => {
                    assert(*a.0 == *b.0);
                },
                PiratesTreeInner::Flipped(_) => {
                    assert(false);
                },
            }
        },
        PiratesTreeInner::Flipped(f1) => {
            match *b.0 {
                PiratesTreeInner::Normal(_) => {
                    assert(false);
                },
                PiratesTreeInner::Flipped(f2) => {
                    assert(f1 == FlippedPiratesTree(f1.0));
                    assert(f2 == FlippedPiratesTree(f2.0));
                    assert(*a.0 == *b.0);
                },
            }
        },
    }
}

impl Clone for PiratesTree {
    /// Copies the handle, not the tree: the clone shares every node with
    /// the original and stands for the same sequence.
    fn clone(&self) -> (r: Self)
        ensures
            r == *self,
    {
        PiratesTree(self.0.clone())
    }
}

} // verus!

