//! A deduplicated collection of points with set semantics.

use vstd::prelude::*;

use crate::geometry::point::Point;

verus! {

/// A finite set of points, stored without duplicates. This is the result
/// type for computations that accumulate cells (field of view, the cells of
/// a rectangle), where the same cell can be produced many times but must be
/// reported once.
pub struct PointSet {
    items: Vec<Point>,
}

impl View for PointSet {
    type V = Set<Point>;

    closed spec fn view(&self) -> Set<Point> {
        self.items@.to_set()
    }
}

impl PointSet {
    /// The stored order of the points; an implementation detail, exposed
    /// for contracts that need the sequence behind the set.
    pub closed spec fn seq(&self) -> Seq<Point> {
        self.items@
    }

    /// Well-formed: no point is stored twice.
    pub closed spec fn wf(&self) -> bool {
        self.items@.no_duplicates()
    }

    /// Creates an empty set.
    pub fn new() -> (s: PointSet)
        ensures
            s@ == Set::<Point>::empty(),
            s.wf(),
    {
        let s = PointSet { items: Vec::new() };
        proof {
            assert(s.items@.to_set() =~= Set::<Point>::empty());
        }
        s
    }

    /// Whether the set contains `p`.
    pub fn contains(&self, p: Point) -> (r: bool)
        ensures
            r == self@.contains(p),
    {
        let n = self.items.len();
        let mut i: usize = 0;
        while i < n
            invariant
                n == self.items@.len(),
                0 <= i <= n,
                forall|j: int| 0 <= j < i ==> self.items@[j] != p,
            decreases n - i,
        {
            if self.items[i] == p {
                proof {
                    assert(self.items@.contains(p));
                }
                return true;
            }
            i += 1;
        }
        proof {
            assert(!self.items@.contains(p));
        }
        false
    }

    /// Inserts `p`; a no-op if it is already present.
    pub fn insert(&mut self, p: Point)
        requires
            old(self).wf(),
        ensures
            final(self).wf(),
            final(self)@ == old(self)@.insert(p),
    {
        if !self.contains(p) {
            let ghost before = self.items@;
            self.items.push(p);
            proof {
                assert(self.items@ =~= before + seq![p]);
                Seq::<Point>::lemma_to_set_insert_commutes(before, p);
            }
        } else {
            proof {
                assert(old(self)@.insert(p) =~= old(self)@);
            }
        }
    }

    /// The number of distinct points in the set.
    pub fn len(&self) -> (n: usize)
        requires
            self.wf(),
        ensures
            n == self@.len(),
    {
        proof {
            self.items@.unique_seq_to_set();
        }
        self.items.len()
    }

    /// Consumes the set, returning its points as a vector without
    /// duplicates.
    pub fn into_vec(self) -> (v: Vec<Point>)
        ensures
            v@ == self.seq(),
            v@.to_set() == self@,
            self.wf() ==> v@.no_duplicates(),
    {
        self.items
    }

    /// Borrows the points as a slice-backed vector without duplicates.
    pub fn as_vec(&self) -> (v: &Vec<Point>)
        ensures
            v@ == self.seq(),
            v@.to_set() == self@,
            self.wf() ==> v@.no_duplicates(),
    {
        &self.items
    }
}

} // verus!
