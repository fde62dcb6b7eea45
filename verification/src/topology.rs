//! Points, open sets, and the capability contracts a space must offer.
//!
//! An open set is a finite set of points, stored in one canonical shape: a
//! strictly increasing vector.  Canonicity makes structural equality of two
//! well-formed open sets coincide with equality of the point sets they hold.

use vstd::prelude::*;

verus! {

/// A sequence of points that goes strictly upward; the canonical shape of an
/// open set's storage.
pub open spec fn strictly_increasing(s: Seq<usize>) -> bool {
    forall|i: int, j: int| 0 <= i < j < s.len() ==> s[i] < s[j]
}

/// A finite set of points, the domain type that sections are defined over.
///
/// The point vector is public so that specifications can speak about it, but
/// every operation expects and maintains the canonical, strictly increasing
/// shape stated by [`OpenSet::wf`].  Build values with the provided
/// operations rather than by hand.
#[derive(Debug)]
pub struct OpenSet {
    /// The points of the set, strictly increasing.
    pub items: Vec<usize>,
}

impl View for OpenSet {
    type V = Set<usize>;

    open spec fn view(&self) -> Set<usize> {
        self.items@.to_set()
    }
}

/// A strictly increasing sequence never repeats an element.
pub proof fn lemma_strictly_increasing_no_duplicates(s: Seq<usize>)
    requires
        strictly_increasing(s),
    ensures
        s.no_duplicates(),
{
}

/// Two strictly increasing sequences that hold the same set of points are the
/// same sequence: the canonical shape is unique.
pub proof fn lemma_strictly_increasing_unique(a: Seq<usize>, b: Seq<usize>)
    requires
        strictly_increasing(a),
        strictly_increasing(b),
        a.to_set() == b.to_set(),
    ensures
        a == b,
    decreases a.len(),
{
    if a.len() == 0 {
        if b.len() > 0 {
            assert(b.to_set().contains(b[0]));
            assert(a.contains(b[0]));
        }
        assert(a =~= b);
    } else if b.len() == 0 {
        assert(a.to_set().contains(a[0]));
        assert(b.contains(a[0]));
    } else {
        assert(a.to_set().contains(a[0]));
        assert(b.to_set().contains(b[0]));
        let ja = choose|j: int| 0 <= j < b.len() && b[j] == a[0];
        let jb = choose|j: int| 0 <= j < a.len() && a[j] == b[0];
        assert(b[0] <= b[ja]);
        assert(a[0] <= a[jb]);
        assert(a[0] == b[0]);
        let at = a.drop_first();
        let bt = b.drop_first();
        assert(strictly_increasing(at));
        assert(strictly_increasing(bt));
        assert(at.to_set() =~= a.to_set().remove(a[0])) by {
            assert forall|x: usize| at.to_set().contains(x) implies a.to_set().remove(
                a[0],
            ).contains(x) by {
                let k = choose|k: int| 0 <= k < at.len() && at[k] == x;
                assert(a[k + 1] == x);
            }
            assert forall|x: usize| a.to_set().remove(a[0]).contains(x) implies at.to_set().contains(
                x,
            ) by {
                let k = choose|k: int| 0 <= k < a.len() && a[k] == x;
                assert(k != 0);
                assert(at[k - 1] == x);
            }
        }
        assert(bt.to_set() =~= b.to_set().remove(b[0])) by {
            assert forall|x: usize| bt.to_set().contains(x) implies b.to_set().remove(
                b[0],
            ).contains(x) by {
                let k = choose|k: int| 0 <= k < bt.len() && bt[k] == x;
                assert(b[k + 1] == x);
            }
            assert forall|x: usize| b.to_set().remove(b[0]).contains(x) implies bt.to_set().contains(
                x,
            ) by {
                let k = choose|k: int| 0 <= k < b.len() && b[k] == x;
                assert(k != 0);
                assert(bt[k - 1] == x);
            }
        }
        assert(at.to_set() == bt.to_set());
        lemma_strictly_increasing_unique(at, bt);
        assert(at == bt);
        assert(a =~= b) by {
            assert(a.len() == at.len() + 1);
            assert(b.len() == bt.len() + 1);
            assert(a.len() == b.len());
            assert forall|k: int| 0 <= k < a.len() implies a[k] == b[k] by {
                if k > 0 {
                    assert(at[k - 1] == bt[k - 1]);
                }
            }
        }
    }
}

/// The point sets of open sets obey the standard set-algebra laws:
/// intersection and union are commutative, associative and idempotent.
pub proof fn lemma_set_algebra(a: Set<usize>, b: Set<usize>, c: Set<usize>)
    ensures
        a.intersect(b) == b.intersect(a),
        a.union(b) == b.union(a),
        a.intersect(a) == a,
        a.union(a) == a,
        a.intersect(b).intersect(c) == a.intersect(b.intersect(c)),
        a.union(b).union(c) == a.union(b.union(c)),
{
    assert(a.intersect(b) =~= b.intersect(a));
    assert(a.union(b) =~= b.union(a));
    assert(a.intersect(a) =~= a);
    assert(a.union(a) =~= a);
    assert(a.intersect(b).intersect(c) =~= a.intersect(b.intersect(c)));
    assert(a.union(b).union(c) =~= a.union(b.union(c)));
}

/// Two well-formed open sets with the same points have the same storage, so
/// `==` on them returns true.
pub proof fn lemma_openset_canonical(a: OpenSet, b: OpenSet)
    requires
        a.wf(),
        b.wf(),
        a@ == b@,
    ensures
        a.items@ == b.items@,
{
    lemma_strictly_increasing_unique(a.items@, b.items@);
}

/// Copies a vector of plain values element by element.
pub(crate) fn copy_vec<T: Copy>(v: &Vec<T>) -> (r: Vec<T>)
    ensures
        r@ == v@,
{
    let mut out: Vec<T> = Vec::new();
    let mut i: usize = 0;
    while i < v.len()
        invariant
            0 <= i <= v@.len(),
            out@ == v@.take(i as int),
        decreases v@.len() - i,
    {
        out.push(v[i]);
        assert(v@.take(i + 1) =~= v@.take(i as int).push(v@[i as int]));
        i = i + 1;
    }
    assert(v@.take(v@.len() as int) =~= v@);
    out
}

impl OpenSet {
    /// The canonical-storage invariant: points appear once, in increasing
    /// order.
    pub open spec fn wf(&self) -> bool {
        strictly_increasing(self.items@)
    }

    /// The empty set of points.
    pub fn new() -> (r: OpenSet)
        ensures
            r.wf(),
            r@ == Set::<usize>::empty(),
    {
        let r = OpenSet { items: Vec::new() };
        proof {
            assert(r.items@.to_set() =~= Set::<usize>::empty());
        }
        r
    }

    /// Builds the open set holding exactly the given points.
    pub fn from_vec(points: Vec<usize>) -> (r: OpenSet)
        ensures
            r.wf(),
            r@ == points@.to_set(),
    {
        let mut out = OpenSet::new();
        let mut i: usize = 0;
        while i < points.len()
            invariant
                0 <= i <= points@.len(),
                out.wf(),
                out@ == points@.take(i as int).to_set(),
            decreases points@.len() - i,
        {
            out.insert(points[i]);
            proof {
                assert(points@.take(i + 1) =~= points@.take(i as int) + seq![points@[i as int]]);
                Seq::<usize>::lemma_to_set_insert_commutes(points@.take(i as int), points@[i as int]);
            }
            i = i + 1;
        }
        assert(points@.take(points@.len() as int) =~= points@);
        out
    }

    /// How many points the set holds.
    pub fn len(&self) -> (r: usize)
        ensures
            r == self.items@.len(),
            self.wf() ==> r == self@.len(),
    {
        proof {
            if self.wf() {
                lemma_strictly_increasing_no_duplicates(self.items@);
                self.items@.unique_seq_to_set();
            }
        }
        self.items.len()
    }

    /// Whether the set holds no point at all.
    pub fn is_empty(&self) -> (r: bool)
        ensures
            r == (self.items@.len() == 0),
            self.wf() ==> r == self@.is_empty(),
    {
        proof {
            if self.wf() {
                if self.items@.len() > 0 {
                    assert(self@.contains(self.items@[0]));
                }
                if self@.is_empty() == false && self.items@.len() == 0 {
                    let x = choose|x: usize| self@.contains(x);
                    assert(self.items@.contains(x));
                }
            }
        }
        self.items.len() == 0
    }

    /// The point at a given position of the canonical order.
    pub fn point_at(&self, i: usize) -> (r: usize)
        requires
            i < self.items@.len(),
        ensures
            r == self.items@[i as int],
            self@.contains(r),
    {
        proof {
            assert(self.items@.contains(self.items@[i as int]));
        }
        self.items[i]
    }

    /// Whether the set holds the given point.
    pub fn contains(&self, p: usize) -> (r: bool)
        ensures
            r == self.items@.contains(p),
            self.wf() ==> r == self@.contains(p),
    {
        let mut i: usize = 0;
        while i < self.items.len()
            invariant
                0 <= i <= self.items@.len(),
                forall|k: int| 0 <= k < i ==> self.items@[k] != p,
            decreases self.items@.len() - i,
        {
            if self.items[i] == p {
                return true;
            }
            i = i + 1;
        }
        false
    }

    /// Adds one point, keeping the canonical shape.
    pub fn insert(&mut self, p: usize)
        requires
            old(self).wf(),
        ensures
            final(self).wf(),
            final(self)@ == old(self)@.insert(p),
    {
        let ghost orig = self.items@;
        let mut i: usize = 0;
        while i < self.items.len() && self.items[i] < p
            invariant
                0 <= i <= self.items@.len(),
                self.items@ == orig,
                forall|k: int| 0 <= k < i ==> self.items@[k] < p,
            decreases self.items@.len() - i,
        {
            i = i + 1;
        }
        if i < self.items.len() && self.items[i] == p {
            proof {
                assert(self.items@.contains(p));
                assert(self@.insert(p) =~= self@);
            }
            return ;
        }
        self.items.insert(i, p);
        proof {
            let new_s = self.items@;
            assert(new_s == orig.insert(i as int, p));
            assert forall|k: int, l: int| 0 <= k < l < new_s.len() implies new_s[k] < new_s[l] by {
                if l < i {
                    assert(new_s[k] == orig[k] && new_s[l] == orig[l]);
                } else if k > i {
                    assert(new_s[k] == orig[k - 1] && new_s[l] == orig[l - 1]);
                } else if k < i && l == i {
                    assert(new_s[k] == orig[k]);
                } else if k == i && l > i {
                    assert(new_s[l] == orig[l - 1]);
                    assert(orig[l - 1] >= p);
                    assert(orig[l - 1] != p);
                } else if k < i && l > i {
                    assert(new_s[k] == orig[k] && new_s[l] == orig[l - 1]);
                    assert(orig[l - 1] >= p);
                }
            }
            assert(new_s.to_set() =~= orig.to_set().insert(p)) by {
                assert forall|x: usize| new_s.to_set().contains(x) implies orig.to_set().insert(
                    p,
                ).contains(x) by {
                    let k = choose|k: int| 0 <= k < new_s.len() && new_s[k] == x;
                    if k < i {
                        assert(orig[k] == x);
                    } else if k > i {
                        assert(orig[k - 1] == x);
                    }
                }
                assert forall|x: usize| orig.to_set().insert(p).contains(x) implies new_s.to_set().contains(
                    x,
                ) by {
                    if x == p {
                        assert(new_s[i as int] == p);
                    } else {
                        let k = choose|k: int| 0 <= k < orig.len() && orig[k] == x;
                        if k < i {
                            assert(new_s[k] == x);
                        } else {
                            assert(new_s[k + 1] == x);
                        }
                    }
                }
            }
        }
    }

    /// The set of points lying in both sets.
    pub fn intersect(&self, other: &OpenSet) -> (r: OpenSet)
        requires
            self.wf(),
            other.wf(),
        ensures
            r.wf(),
            r@ == self@.intersect(other@),
    {
        let mut out = OpenSet::new();
        let mut i: usize = 0;
        while i < self.items.len()
            invariant
                0 <= i <= self.items@.len(),
                self.wf(),
                other.wf(),
                out.wf(),
                out@ == self.items@.take(i as int).to_set().intersect(other@),
            decreases self.items@.len() - i,
        {
            let p = self.items[i];
            proof {
                assert(self.items@.take(i + 1) =~= self.items@.take(i as int) + seq![self.items@[i as int]]);
                Seq::<usize>::lemma_to_set_insert_commutes(
                    self.items@.take(i as int),
                    self.items@[i as int],
                );
            }
            if other.contains(p) {
                out.insert(p);
                proof {
                    assert(self.items@.take(i + 1).to_set().intersect(other@) =~= out@);
                }
            } else {
                proof {
                    assert(self.items@.take(i + 1).to_set().intersect(other@) =~= out@);
                }
            }
            i = i + 1;
        }
        proof {
            assert(self.items@.take(self.items@.len() as int) =~= self.items@);
        }
        out
    }

    /// The set of points lying in either set.
    pub fn union(&self, other: &OpenSet) -> (r: OpenSet)
        requires
            self.wf(),
            other.wf(),
        ensures
            r.wf(),
            r@ == self@.union(other@),
    {
        let mut out = OpenSet { items: copy_vec(&self.items) };
        let mut i: usize = 0;
        while i < other.items.len()
            invariant
                0 <= i <= other.items@.len(),
                other.wf(),
                out.wf(),
                out@ == self@.union(other.items@.take(i as int).to_set()),
            decreases other.items@.len() - i,
        {
            let p = other.items[i];
            out.insert(p);
            proof {
                assert(other.items@.take(i + 1) =~= other.items@.take(i as int) + seq![other.items@[i as int]]);
                Seq::<usize>::lemma_to_set_insert_commutes(
                    other.items@.take(i as int),
                    other.items@[i as int],
                );
                assert(self@.union(other.items@.take(i + 1).to_set()) =~= out@);
            }
            i = i + 1;
        }
        proof {
            assert(other.items@.take(other.items@.len() as int) =~= other.items@);
            assert(self@.union(other.items@.to_set()) =~= out@);
        }
        out
    }
}

impl Clone for OpenSet {
    /// An element-for-element copy.
    fn clone(&self) -> (r: OpenSet)
        ensures
            r.items@ == self.items@,
            r@ == self@,
            r.wf() == self.wf(),
    {
        OpenSet { items: copy_vec(&self.items) }
    }
}

impl PartialEq for OpenSet {
    /// Structural equality of the stored point vectors.  On well-formed sets
    /// this coincides with equality of the point sets.
    fn eq(&self, other: &OpenSet) -> (r: bool)
        ensures
            r == (self.items@ == other.items@),
    {
        if self.items.len() != other.items.len() {
            return false;
        }
        let mut i: usize = 0;
        while i < self.items.len()
            invariant
                0 <= i <= self.items@.len(),
                self.items@.len() == other.items@.len(),
                forall|k: int| 0 <= k < i ==> self.items@[k] == other.items@[k],
            decreases self.items@.len() - i,
        {
            if self.items[i] != other.items[i] {
                return false;
            }
            i = i + 1;
        }
        proof {
            assert(self.items@ =~= other.items@);
        }
        true
    }
}

impl vstd::std_specs::cmp::PartialEqSpecImpl for OpenSet {
    open spec fn obeys_eq_spec() -> bool {
        true
    }

    open spec fn eq_spec(&self, other: &OpenSet) -> bool {
        self.items@ == other.items@
    }
}

/// What a model of a space must provide: its point set, a neighborhood
/// around each point, and a notion of openness for sets of points.  Concrete
/// spaces expose executable counterparts whose contracts are stated over
/// these functions.
pub trait TopologicalSpace {
    /// The identifier type for points of this space.
    type Point;

    /// Every point of the space.
    spec fn space_points(&self) -> Set<Self::Point>;

    /// The points the model counts as adjacent to `p`.
    spec fn space_neighborhood(&self, p: Self::Point) -> Set<Self::Point>;

    /// The model's openness policy for a set of points.
    spec fn space_is_open(&self, s: Set<Self::Point>) -> bool;
}

/// A space that in addition measures how far apart two points lie; `None`
/// stands for "unreachable".
pub trait MetricSpace: TopologicalSpace {
    /// Whether `d` is the distance from `a` to `b` under this space's metric.
    spec fn is_distance(&self, a: Self::Point, b: Self::Point, d: Option<usize>) -> bool;
}

} // verus!
