//! Partial value assignments over an open set, with restriction,
//! compatibility, and gluing.
//!
//! A section pairs an explicit domain with a point-keyed assignment.  The
//! assignment is stored canonically — pairs strictly increasing by key — so
//! that two well-formed sections with the same domain and the same
//! assignment are structurally equal.

use vstd::prelude::*;
use vstd::pervasive::VecAdditionalExecFns;

use crate::topology::OpenSet;
use crate::topology::copy_vec;
use crate::topology::lemma_openset_canonical;
use crate::topology::lemma_strictly_increasing_no_duplicates;
use crate::topology::lemma_strictly_increasing_unique;
use crate::topology::strictly_increasing;

verus! {

/// The value a section attaches to a point: one closed, concrete value kind.
#[derive(Clone, Copy, Debug, PartialEq, Eq, Structural, Hash)]
pub struct Data(pub i64);

/// The keys of a pair list, in storage order.
pub open spec fn keys_of(vals: Seq<(usize, Data)>) -> Seq<usize> {
    vals.map_values(|kv: (usize, Data)| kv.0)
}

/// Canonical storage for an assignment: pairs strictly increasing by key.
pub open spec fn canonical_pairs(vals: Seq<(usize, Data)>) -> bool {
    strictly_increasing(keys_of(vals))
}

/// The assignment a pair list stands for.
pub open spec fn pairs_map(vals: Seq<(usize, Data)>) -> Map<usize, Data>
    decreases vals.len(),
{
    if vals.len() == 0 {
        Map::empty()
    } else {
        pairs_map(vals.drop_last()).insert(vals.last().0, vals.last().1)
    }
}

/// The assignment's keys are exactly the stored keys.
pub proof fn lemma_pairs_map_dom(vals: Seq<(usize, Data)>)
    ensures
        pairs_map(vals).dom() == keys_of(vals).to_set(),
    decreases vals.len(),
{
    if vals.len() == 0 {
        assert(pairs_map(vals).dom() =~= keys_of(vals).to_set());
    } else {
        lemma_pairs_map_dom(vals.drop_last());
        assert(pairs_map(vals).dom() =~= keys_of(vals).to_set()) by {
            assert forall|k: usize| keys_of(vals).to_set().contains(k) implies pairs_map(
                vals,
            ).dom().contains(k) by {
                let i = choose|i: int| 0 <= i < keys_of(vals).len() && keys_of(vals)[i] == k;
                if i < vals.len() - 1 {
                    assert(keys_of(vals.drop_last())[i] == k);
                    assert(keys_of(vals.drop_last()).to_set().contains(k));
                }
            }
            assert forall|k: usize| pairs_map(vals).dom().contains(k) implies keys_of(
                vals,
            ).to_set().contains(k) by {
                if k != vals.last().0 {
                    assert(keys_of(vals.drop_last()).to_set().contains(k));
                    let i = choose|i: int|
                        0 <= i < keys_of(vals.drop_last()).len() && keys_of(vals.drop_last())[i]
                            == k;
                    assert(keys_of(vals)[i] == k);
                } else {
                    assert(keys_of(vals)[vals.len() - 1] == k);
                }
            }
        }
    }
}

/// With no repeated keys, each stored pair is what the assignment returns.
pub proof fn lemma_pairs_map_index(vals: Seq<(usize, Data)>, i: int)
    requires
        keys_of(vals).no_duplicates(),
        0 <= i < vals.len(),
    ensures
        pairs_map(vals).dom().contains(vals[i].0),
        pairs_map(vals)[vals[i].0] == vals[i].1,
    decreases vals.len(),
{
    lemma_pairs_map_dom(vals);
    assert(keys_of(vals)[i] == vals[i].0);
    assert(keys_of(vals).to_set().contains(vals[i].0));
    if i == vals.len() - 1 {
    } else {
        assert forall|k: int, l: int|
            0 <= k < keys_of(vals.drop_last()).len() && 0 <= l < keys_of(
                vals.drop_last(),
            ).len() && k != l implies keys_of(vals.drop_last())[k] != keys_of(
            vals.drop_last(),
        )[l] by {
            assert(keys_of(vals)[k] == keys_of(vals.drop_last())[k]);
            assert(keys_of(vals)[l] == keys_of(vals.drop_last())[l]);
        }
        lemma_pairs_map_index(vals.drop_last(), i);
        assert(keys_of(vals)[i] == vals[i].0);
        assert(keys_of(vals)[vals.len() - 1] == vals.last().0);
        assert(vals[i].0 != vals.last().0);
    }
}

/// Two canonical pair lists that stand for the same assignment are the same
/// list.
pub proof fn lemma_canonical_pairs_unique(a: Seq<(usize, Data)>, b: Seq<(usize, Data)>)
    requires
        canonical_pairs(a),
        canonical_pairs(b),
        pairs_map(a) == pairs_map(b),
    ensures
        a == b,
{
    lemma_pairs_map_dom(a);
    lemma_pairs_map_dom(b);
    assert(keys_of(a).to_set() == keys_of(b).to_set());
    lemma_strictly_increasing_unique(keys_of(a), keys_of(b));
    assert(keys_of(a).len() == a.len());
    assert(keys_of(b).len() == b.len());
    assert(a.len() == b.len());
    lemma_strictly_increasing_no_duplicates(keys_of(a));
    lemma_strictly_increasing_no_duplicates(keys_of(b));
    assert(a =~= b) by {
        assert forall|i: int| 0 <= i < a.len() implies a[i] == b[i] by {
            lemma_pairs_map_index(a, i);
            lemma_pairs_map_index(b, i);
            assert(a[i].0 == keys_of(a)[i]);
            assert(b[i].0 == keys_of(b)[i]);
            assert(a[i].0 == b[i].0);
            assert(a[i].1 == pairs_map(a)[a[i].0]);
            assert(b[i].1 == pairs_map(b)[b[i].0]);
        }
    }
}

/// Restricting after one more binding either keeps or drops that binding,
/// depending on whether its key lies in the kept set.
proof fn lemma_restrict_insert(m: Map<usize, Data>, d: Set<usize>, k: usize, v: Data)
    ensures
        d.contains(k) ==> m.insert(k, v).restrict(d) == m.restrict(d).insert(k, v),
        !d.contains(k) ==> m.insert(k, v).restrict(d) == m.restrict(d),
{
    if d.contains(k) {
        assert(m.insert(k, v).restrict(d) =~= m.restrict(d).insert(k, v));
    } else {
        assert(m.insert(k, v).restrict(d) =~= m.restrict(d));
    }
}

/// Overriding with one more binding on the right is one insertion into the
/// combined assignment.
proof fn lemma_union_insert_right(m1: Map<usize, Data>, m2: Map<usize, Data>, k: usize, v: Data)
    ensures
        m1.union_prefer_right(m2.insert(k, v)) == m1.union_prefer_right(m2).insert(k, v),
{
    assert(m1.union_prefer_right(m2.insert(k, v)) =~= m1.union_prefer_right(m2).insert(k, v));
}

/// Puts one binding into a canonical pair list, keeping it canonical.
fn vals_insert(vals: &mut Vec<(usize, Data)>, p: usize, v: Data)
    requires
        canonical_pairs(old(vals)@),
    ensures
        canonical_pairs(final(vals)@),
        pairs_map(final(vals)@) == pairs_map(old(vals)@).insert(p, v),
{
    let ghost orig = vals@;
    let mut i: usize = 0;
    while i < vals.len() && vals[i].0 < p
        invariant
            0 <= i <= vals@.len(),
            vals@ == orig,
            forall|k: int| 0 <= k < i ==> vals@[k].0 < p,
        decreases vals@.len() - i,
    {
        i = i + 1;
    }
    proof {
        lemma_strictly_increasing_no_duplicates(keys_of(orig));
    }
    if i < vals.len() && vals[i].0 == p {
        vals.set(i, (p, v));
        proof {
            let new_s = vals@;
            assert(new_s == orig.update(i as int, (p, v)));
            assert(canonical_pairs(new_s)) by {
                assert forall|k: int, l: int|
                    0 <= k < l < new_s.len() implies keys_of(new_s)[k] < keys_of(new_s)[l] by {
                    assert(keys_of(new_s)[k] == new_s[k].0);
                    assert(keys_of(new_s)[l] == new_s[l].0);
                    assert(keys_of(orig)[k] == orig[k].0);
                    assert(keys_of(orig)[l] == orig[l].0);
                }
            }
            lemma_pairs_map_update(orig, i as int, p, v);
        }
    } else {
        vals.insert(i, (p, v));
        proof {
            let new_s = vals@;
            assert(new_s == orig.insert(i as int, (p, v)));
            assert forall|l: int| i <= l < orig.len() implies keys_of(orig)[l] > p by {
                assert(keys_of(orig)[i as int] == orig[i as int].0);
                if l > i {
                    assert(keys_of(orig)[i as int] < keys_of(orig)[l]);
                }
            }
            assert forall|k: int| 0 <= k < orig.len() implies orig[k].0 != p by {
                assert(keys_of(orig)[k] == orig[k].0);
            }
            assert(canonical_pairs(new_s)) by {
                assert forall|k: int, l: int|
                    0 <= k < l < new_s.len() implies keys_of(new_s)[k] < keys_of(new_s)[l] by {
                    assert(keys_of(new_s)[k] == new_s[k].0);
                    assert(keys_of(new_s)[l] == new_s[l].0);
                    if l < i {
                        assert(new_s[k] == orig[k] && new_s[l] == orig[l]);
                        assert(orig[k].0 == keys_of(orig)[k] && orig[l].0 == keys_of(orig)[l]);
                    } else if k > i {
                        assert(new_s[k] == orig[k - 1] && new_s[l] == orig[l - 1]);
                        assert(orig[k - 1].0 == keys_of(orig)[k - 1] && orig[l - 1].0 == keys_of(
                            orig,
                        )[l - 1]);
                    } else if k < i && l == i {
                        assert(new_s[k] == orig[k]);
                        assert(orig[k].0 == keys_of(orig)[k]);
                    } else if k == i && l > i {
                        assert(new_s[l] == orig[l - 1]);
                        assert(orig[l - 1].0 == keys_of(orig)[l - 1]);
                        assert(keys_of(orig)[l - 1] >= p);
                    } else if k < i && l > i {
                        assert(new_s[k] == orig[k] && new_s[l] == orig[l - 1]);
                        assert(orig[k].0 == keys_of(orig)[k]);
                        assert(orig[l - 1].0 == keys_of(orig)[l - 1]);
                        assert(keys_of(orig)[l - 1] >= p);
                    }
                }
            }
            lemma_pairs_map_insert(orig, i as int, p, v);
        }
    }
}

/// Updating the pair that already holds a key is one insertion into the
/// assignment.
proof fn lemma_pairs_map_update(vals: Seq<(usize, Data)>, i: int, p: usize, v: Data)
    requires
        keys_of(vals).no_duplicates(),
        0 <= i < vals.len(),
        vals[i].0 == p,
    ensures
        pairs_map(vals.update(i, (p, v))) == pairs_map(vals).insert(p, v),
    decreases vals.len(),
{
    let upd = vals.update(i, (p, v));
    if i == vals.len() - 1 {
        assert(upd.drop_last() =~= vals.drop_last());
        assert(upd.last() == (p, v));
        assert(pairs_map(upd) == pairs_map(vals.drop_last()).insert(p, v));
        assert(pairs_map(vals.drop_last()).insert(p, v) =~= pairs_map(vals).insert(p, v));
    } else {
        assert forall|k: int, l: int|
            0 <= k < keys_of(vals.drop_last()).len() && 0 <= l < keys_of(
                vals.drop_last(),
            ).len() && k != l implies keys_of(vals.drop_last())[k] != keys_of(
            vals.drop_last(),
        )[l] by {
            assert(keys_of(vals)[k] == keys_of(vals.drop_last())[k]);
            assert(keys_of(vals)[l] == keys_of(vals.drop_last())[l]);
        }
        assert(upd.drop_last() =~= vals.drop_last().update(i, (p, v)));
        assert(vals.drop_last()[i].0 == p);
        lemma_pairs_map_update(vals.drop_last(), i, p, v);
        assert(upd.last() == vals.last());
        assert(vals.last().0 != p) by {
            assert(keys_of(vals)[vals.len() - 1] == vals.last().0);
            assert(keys_of(vals)[i] == p);
        }
        assert(pairs_map(upd) == pairs_map(vals.drop_last()).insert(p, v).insert(
            vals.last().0,
            vals.last().1,
        ));
        assert(pairs_map(vals.drop_last()).insert(p, v).insert(vals.last().0, vals.last().1)
            =~= pairs_map(vals).insert(p, v));
    }
}

/// Inserting a pair whose key is fresh is one insertion into the assignment.
proof fn lemma_pairs_map_insert(vals: Seq<(usize, Data)>, i: int, p: usize, v: Data)
    requires
        0 <= i <= vals.len(),
        forall|k: int| 0 <= k < vals.len() ==> vals[k].0 != p,
    ensures
        pairs_map(vals.insert(i, (p, v))) == pairs_map(vals).insert(p, v),
    decreases vals.len(),
{
    let ins = vals.insert(i, (p, v));
    if i == vals.len() {
        assert(ins.drop_last() =~= vals);
        assert(ins.last() == (p, v));
    } else {
        assert(ins.drop_last() =~= vals.drop_last().insert(i, (p, v)));
        lemma_pairs_map_insert(vals.drop_last(), i, p, v);
        assert(ins.last() == vals.last());
        assert(vals.last().0 != p);
        assert(pairs_map(ins) == pairs_map(vals.drop_last()).insert(p, v).insert(
            vals.last().0,
            vals.last().1,
        ));
        assert(pairs_map(vals.drop_last()).insert(p, v).insert(vals.last().0, vals.last().1)
            =~= pairs_map(vals).insert(p, v));
    }
}

/// A partial value assignment over one open set.
///
/// Both fields are public so that specifications can speak about them;
/// every operation expects and maintains [`Section::wf`].  A section is
/// built once — [`Section::new`] and [`Section::insert`] — and then treated
/// as an immutable value: the remaining operations return new sections.
#[derive(Debug)]
pub struct Section {
    /// The open set this section is defined over.
    pub domain: OpenSet,
    /// The assignment, canonically stored: pairs strictly increasing by key.
    pub vals: Vec<(usize, Data)>,
}

/// What `==` on sections compares: the stored domain vector and pair vector.
pub open spec fn sec_eq(a: Section, b: Section) -> bool {
    a.domain.items@ == b.domain.items@ && a.vals@ == b.vals@
}

/// Two sections agree on a domain: their assignments, restricted to it, are
/// the same, and they cover the same part of it.
pub open spec fn compat_on(a: Section, b: Section, d: Set<usize>) -> bool {
    a.dom().intersect(d) == b.dom().intersect(d) && a.vmap().restrict(d) == b.vmap().restrict(d)
}

/// `r` is the restriction of `s` to `d`: the domain shrinks to the
/// intersection and the assignment keeps exactly the keys inside `d`.
pub open spec fn restricts(s: Section, d: OpenSet, r: Section) -> bool {
    &&& r.wf()
    &&& r.dom() == s.dom().intersect(d@)
    &&& r.vmap() == s.vmap().restrict(d@)
}

impl Section {
    /// The points this section is defined over.
    pub open spec fn dom(&self) -> Set<usize> {
        self.domain@
    }

    /// The assignment this section stands for.
    pub open spec fn vmap(&self) -> Map<usize, Data> {
        pairs_map(self.vals@)
    }

    /// Well-formedness: canonical domain, canonical pairs, and every keyed
    /// point lying inside the domain.
    pub open spec fn wf(&self) -> bool {
        &&& self.domain.wf()
        &&& canonical_pairs(self.vals@)
        &&& keys_of(self.vals@).to_set().subset_of(self.dom())
    }

    /// A section over the given domain with no values assigned yet.
    pub fn new(domain: OpenSet) -> (r: Section)
        requires
            domain.wf(),
        ensures
            r.wf(),
            r.domain.items@ == domain.items@,
            r.dom() == domain@,
            r.vmap() == Map::<usize, Data>::empty(),
    {
        let r = Section { domain, vals: Vec::new() };
        proof {
            assert(keys_of(r.vals@).to_set() =~= Set::<usize>::empty());
        }
        r
    }

    /// Assigns a value to a point, growing the domain if the point is new.
    pub fn insert(&mut self, p: usize, v: Data)
        requires
            old(self).wf(),
        ensures
            final(self).wf(),
            final(self).dom() == old(self).dom().insert(p),
            final(self).vmap() == old(self).vmap().insert(p, v),
    {
        self.domain.insert(p);
        vals_insert(&mut self.vals, p, v);
        proof {
            lemma_pairs_map_dom(self.vals@);
            assert(pairs_map(self.vals@).dom() == old(self).vmap().insert(p, v).dom());
            assert(old(self).vmap().insert(p, v).dom() =~= old(self).vmap().dom().insert(p));
            lemma_pairs_map_dom(old(self).vals@);
        }
    }

    /// The value at a point, if the section assigns one.
    pub fn get(&self, p: usize) -> (r: Option<Data>)
        requires
            self.wf(),
        ensures
            self.vmap().dom().contains(p) ==> r == Some(self.vmap()[p]),
            !self.vmap().dom().contains(p) ==> r == Option::<Data>::None,
    {
        proof {
            lemma_pairs_map_dom(self.vals@);
            lemma_strictly_increasing_no_duplicates(keys_of(self.vals@));
        }
        let mut i: usize = 0;
        while i < self.vals.len()
            invariant
                0 <= i <= self.vals@.len(),
                self.wf(),
                keys_of(self.vals@).no_duplicates(),
                pairs_map(self.vals@).dom() == keys_of(self.vals@).to_set(),
                forall|k: int| 0 <= k < i ==> self.vals@[k].0 != p,
            decreases self.vals@.len() - i,
        {
            let kv = self.vals[i];
            if kv.0 == p {
                proof {
                    lemma_pairs_map_index(self.vals@, i as int);
                    assert(keys_of(self.vals@)[i as int] == p);
                }
                return Some(kv.1);
            }
            i = i + 1;
        }
        proof {
            if self.vmap().dom().contains(p) {
                let k = choose|k: int| 0 <= k < keys_of(self.vals@).len() && keys_of(self.vals@)[k] == p;
                assert(self.vals@[k].0 == p);
            }
        }
        None
    }

    /// The sub-assignment of this section limited to `domain`: the result's
    /// domain is the intersection, and points of `domain` the section does
    /// not cover are simply left out.  Restricting to a superset of the
    /// domain — in particular to the domain itself — returns the section
    /// unchanged.
    pub fn restrict(&self, domain: &OpenSet) -> (r: Section)
        requires
            self.wf(),
            domain.wf(),
        ensures
            restricts(*self, *domain, r),
            r.wf(),
            r.dom() == self.dom().intersect(domain@),
            r.vmap() == self.vmap().restrict(domain@),
            self.dom().subset_of(domain@) ==> sec_eq(r, *self),
    {
        let new_domain = self.domain.intersect(domain);
        let mut new_vals: Vec<(usize, Data)> = Vec::new();
        let mut i: usize = 0;
        proof {
            assert(pairs_map(new_vals@) =~= pairs_map(self.vals@.take(0)).restrict(domain@));
        }
        while i < self.vals.len()
            invariant
                0 <= i <= self.vals@.len(),
                self.wf(),
                domain.wf(),
                canonical_pairs(new_vals@),
                pairs_map(new_vals@) == pairs_map(self.vals@.take(i as int)).restrict(domain@),
            decreases self.vals@.len() - i,
        {
            let kv = self.vals[i];
            proof {
                assert(self.vals@.take(i + 1).drop_last() =~= self.vals@.take(i as int));
                assert(self.vals@.take(i + 1).last() == kv);
                lemma_restrict_insert(pairs_map(self.vals@.take(i as int)), domain@, kv.0, kv.1);
            }
            if domain.contains(kv.0) {
                vals_insert(&mut new_vals, kv.0, kv.1);
            }
            i = i + 1;
        }
        proof {
            assert(self.vals@.take(self.vals@.len() as int) =~= self.vals@);
        }
        let r = Section { domain: new_domain, vals: new_vals };
        proof {
            lemma_pairs_map_dom(r.vals@);
            lemma_pairs_map_dom(self.vals@);
            assert(r.vmap().dom() =~= self.vmap().dom().intersect(domain@));
            assert(keys_of(r.vals@).to_set().subset_of(r.dom()));
            if self.dom().subset_of(domain@) {
                assert(r.dom() =~= self.dom());
                assert(r.vmap() =~= self.vmap());
                lemma_section_canonical(r, *self);
            }
        }
        r
    }

    /// Whether this section and `other` agree on `domain`: their
    /// restrictions to it are equal.  Agreement is symmetric in the two
    /// sections.
    pub fn is_compatible(&self, domain: &OpenSet, other: &Section) -> (r: bool)
        requires
            self.wf(),
            other.wf(),
            domain.wf(),
        ensures
            r == compat_on(*self, *other, domain@),
    {
        let ra = self.restrict(domain);
        let rb = other.restrict(domain);
        let r = ra == rb;
        proof {
            if r {
                assert(ra.domain.items@.to_set() == rb.domain.items@.to_set());
                assert(compat_on(*self, *other, domain@));
            }
            if compat_on(*self, *other, domain@) {
                lemma_section_canonical(ra, rb);
            }
        }
        r
    }

    /// A pure merge: the result equals this section outside `domain` and
    /// takes `other`'s values on the points of `domain` that `other`
    /// covers.  No compatibility check happens here; callers are expected
    /// to have verified agreement on `domain` beforehand.
    pub fn glue(&self, domain: &OpenSet, other: &Section) -> (r: Section)
        requires
            self.wf(),
            other.wf(),
            domain.wf(),
        ensures
            r.wf(),
            r.dom() == self.dom().union(domain@.intersect(other.dom())),
            r.vmap() == self.vmap().union_prefer_right(other.vmap().restrict(domain@)),
    {
        let new_domain = self.domain.union(&domain.intersect(&other.domain));
        let mut new_vals: Vec<(usize, Data)> = copy_vec(&self.vals);
        let mut j: usize = 0;
        proof {
            assert(pairs_map(new_vals@) =~= self.vmap().union_prefer_right(
                pairs_map(other.vals@.take(0)).restrict(domain@),
            ));
        }
        while j < other.vals.len()
            invariant
                0 <= j <= other.vals@.len(),
                self.wf(),
                other.wf(),
                domain.wf(),
                canonical_pairs(new_vals@),
                pairs_map(new_vals@) == self.vmap().union_prefer_right(
                    pairs_map(other.vals@.take(j as int)).restrict(domain@),
                ),
            decreases other.vals@.len() - j,
        {
            let kv = other.vals[j];
            proof {
                assert(other.vals@.take(j + 1).drop_last() =~= other.vals@.take(j as int));
                assert(other.vals@.take(j + 1).last() == kv);
                lemma_restrict_insert(pairs_map(other.vals@.take(j as int)), domain@, kv.0, kv.1);
                if domain@.contains(kv.0) {
                    lemma_union_insert_right(
                        self.vmap(),
                        pairs_map(other.vals@.take(j as int)).restrict(domain@),
                        kv.0,
                        kv.1,
                    );
                }
            }
            if domain.contains(kv.0) {
                vals_insert(&mut new_vals, kv.0, kv.1);
            }
            j = j + 1;
        }
        proof {
            assert(other.vals@.take(other.vals@.len() as int) =~= other.vals@);
        }
        let r = Section { domain: new_domain, vals: new_vals };
        proof {
            lemma_pairs_map_dom(r.vals@);
            lemma_pairs_map_dom(self.vals@);
            lemma_pairs_map_dom(other.vals@);
            assert(r.vmap().dom() =~= self.vmap().dom().union(
                other.vmap().dom().intersect(domain@),
            ));
            assert(keys_of(r.vals@).to_set().subset_of(r.dom()));
        }
        r
    }
}

impl Clone for Section {
    /// An element-for-element copy.
    fn clone(&self) -> (r: Section)
        ensures
            sec_eq(r, *self),
            r.wf() == self.wf(),
    {
        Section { domain: self.domain.clone(), vals: copy_vec(&self.vals) }
    }
}

impl PartialEq for Section {
    /// Structural equality of domain storage and assignment storage.  On
    /// well-formed sections this coincides with equality of domain set and
    /// assignment.
    fn eq(&self, other: &Section) -> (r: bool)
        ensures
            r == sec_eq(*self, *other),
    {
        if !(self.domain == other.domain) {
            return false;
        }
        if self.vals.len() != other.vals.len() {
            return false;
        }
        let mut i: usize = 0;
        while i < self.vals.len()
            invariant
                0 <= i <= self.vals@.len(),
                self.vals@.len() == other.vals@.len(),
                forall|k: int| 0 <= k < i ==> self.vals@[k] == other.vals@[k],
            decreases self.vals@.len() - i,
        {
            let a = self.vals[i];
            let b = other.vals[i];
            if a.0 != b.0 || a.1 != b.1 {
                return false;
            }
            i = i + 1;
        }
        proof {
            assert(self.vals@ =~= other.vals@);
        }
        true
    }
}

impl vstd::std_specs::cmp::PartialEqSpecImpl for Section {
    open spec fn obeys_eq_spec() -> bool {
        true
    }

    open spec fn eq_spec(&self, other: &Section) -> bool {
        sec_eq(*self, *other)
    }
}

/// Two well-formed sections with the same domain and the same assignment
/// are structurally equal: the canonical storage is unique.
pub proof fn lemma_section_canonical(a: Section, b: Section)
    requires
        a.wf(),
        b.wf(),
        a.dom() == b.dom(),
        a.vmap() == b.vmap(),
    ensures
        sec_eq(a, b),
{
    lemma_openset_canonical(a.domain, b.domain);
    lemma_canonical_pairs_unique(a.vals@, b.vals@);
}

/// Restriction is transitive: restricting to a domain `d2`, then to a
/// smaller `d1`, gives the same section as restricting to `d1` at once.
pub proof fn lemma_restrict_transitive(
    s: Section,
    d1: OpenSet,
    d2: OpenSet,
    r2: Section,
    r21: Section,
    r1: Section,
)
    requires
        s.wf(),
        d1.wf(),
        d2.wf(),
        d1@.subset_of(d2@),
        d2@.subset_of(s.dom()),
        restricts(s, d2, r2),
        restricts(r2, d1, r21),
        restricts(s, d1, r1),
    ensures
        sec_eq(r21, r1),
{
    assert(r21.dom() =~= r1.dom());
    assert(r21.vmap() =~= r1.vmap());
    lemma_section_canonical(r21, r1);
}

/// Agreement of two sections on a domain does not depend on their order.
pub proof fn lemma_compatible_symmetric(a: Section, b: Section, d: Set<usize>)
    ensures
        compat_on(a, b, d) == compat_on(b, a, d),
{
}

} // verus!
