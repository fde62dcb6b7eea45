//! The sheaf core: checking a cover for pairwise agreement and folding it
//! into one global section.

use vstd::prelude::*;

use crate::section::Data;
use crate::section::Section;
use crate::section::compat_on;
use crate::section::sec_eq;
use crate::topology::OpenSet;

verus! {

/// Why a cover cannot be glued.
#[derive(Clone, Copy, Debug, PartialEq, Eq, Structural)]
pub enum GluingError {
    /// The sections at the two given cover positions disagree on the
    /// overlap of their cover domains.
    IncompatibleCover(usize, usize),
}

/// Every entry of a cover is well formed.
pub open spec fn cover_wf(c: Seq<(OpenSet, Section)>) -> bool {
    forall|i: int| 0 <= i < c.len() ==> (#[trigger] c[i]).0.wf() && c[i].1.wf()
}

/// The sections at positions `i` and `j` agree on the overlap of their
/// cover domains.
pub open spec fn pair_ok(c: Seq<(OpenSet, Section)>, i: int, j: int) -> bool {
    compat_on(c[i].1, c[j].1, c[i].0@.intersect(c[j].0@))
}

/// Every unordered pair of the cover agrees on its overlap.
pub open spec fn all_pairs_ok(c: Seq<(OpenSet, Section)>) -> bool {
    forall|i: int, j: int| 0 <= i < j < c.len() ==> #[trigger] pair_ok(c, i, j)
}

/// `(i, j)` is the first disagreeing pair in the order the engine checks:
/// position by position, each against every later one.
pub open spec fn first_bad_pair(c: Seq<(OpenSet, Section)>, i: int, j: int) -> bool {
    &&& 0 <= i < j < c.len()
    &&& !pair_ok(c, i, j)
    &&& forall|i2: int, j2: int|
        0 <= i2 < j2 < c.len() && (i2 < i || (i2 == i && j2 < j)) ==> #[trigger] pair_ok(c, i2, j2)
}

/// The domain of the fold of the first `k` cover entries.
pub open spec fn glued_dom(c: Seq<(OpenSet, Section)>, k: int) -> Set<usize>
    decreases k,
{
    if k <= 1 {
        c[0].1.dom()
    } else {
        glued_dom(c, k - 1).union(c[k - 1].0@.intersect(c[k - 1].1.dom()))
    }
}

/// The assignment of the fold of the first `k` cover entries: later entries
/// override earlier ones on the part of their cover domain they cover.
pub open spec fn glued_map(c: Seq<(OpenSet, Section)>, k: int) -> Map<usize, Data>
    decreases k,
{
    if k <= 1 {
        c[0].1.vmap()
    } else {
        glued_map(c, k - 1).union_prefer_right(c[k - 1].1.vmap().restrict(c[k - 1].0@))
    }
}

/// Everything [`GluingEngine::gluing`] promises about its result:
/// - an empty cover yields an explicit empty result, never an error;
/// - the fold fails exactly when some pair disagrees on its overlap, and
///   the error names the first such pair;
/// - otherwise the fold succeeds, and the global section's domain and
///   assignment are the left-to-right fold of the cover;
/// - a cover of one entry yields that section unchanged.
pub open spec fn gluing_post(
    c: Seq<(OpenSet, Section)>,
    r: Result<Option<Section>, GluingError>,
) -> bool {
    &&& (c.len() == 0 ==> r == Ok::<Option<Section>, GluingError>(None))
    &&& (r is Err <==> !all_pairs_ok(c))
    &&& (r matches Err(GluingError::IncompatibleCover(i, j)) ==> first_bad_pair(
        c,
        i as int,
        j as int,
    ))
    &&& (c.len() > 0 && all_pairs_ok(c) ==> (r matches Ok(s) && s matches Some(g) && g.wf()
        && g.dom() == glued_dom(c, c.len() as int) && g.vmap() == glued_map(c, c.len() as int)))
    &&& (c.len() == 1 ==> (r matches Ok(s) && s matches Some(g) && sec_eq(g, c[0].1)))
}

/// The gluing engine.  It holds no state: validating and folding a cover is
/// a pure function of the cover, so its operations are associated
/// functions.
pub struct GluingEngine {}

impl GluingEngine {
    /// Checks every unordered pair of the cover for agreement on the
    /// overlap of its cover domains and, if all pairs agree, folds the
    /// cover left to right into one global section.
    ///
    /// Only pairwise agreement is checked.  For covers with three or more
    /// mutually overlapping regions this is a necessary but not sufficient
    /// condition for a mathematically valid global section; no higher-order
    /// overlap is examined here.
    pub fn gluing(cover: &Vec<(OpenSet, Section)>) -> (r: Result<Option<Section>, GluingError>)
        requires
            cover_wf(cover@),
        ensures
            gluing_post(cover@, r),
    {
        let ghost c = cover@;
        let n = cover.len();
        let mut i: usize = 0;
        while i < n
            invariant
                0 <= i <= n,
                n == c.len(),
                c == cover@,
                cover_wf(c),
                forall|i2: int, j2: int| 0 <= i2 < j2 < c.len() && i2 < i ==> #[trigger] pair_ok(c, i2, j2),
            decreases n - i,
        {
            let mut j: usize = i + 1;
            while j < n
                invariant
                    0 <= i < j <= n,
                    n == c.len(),
                    c == cover@,
                    cover_wf(c),
                    forall|i2: int, j2: int| 0 <= i2 < j2 < c.len() && i2 < i ==> #[trigger] pair_ok(c, i2, j2),
                    forall|j2: int| i < j2 < j ==> #[trigger] pair_ok(c, i as int, j2),
                decreases n - j,
            {
                let overlap = cover[i].0.intersect(&cover[j].0);
                if !cover[i].1.is_compatible(&overlap, &cover[j].1) {
                    proof {
                        assert(!pair_ok(c, i as int, j as int));
                        assert(!all_pairs_ok(c));
                        assert(first_bad_pair(c, i as int, j as int));
                    }
                    return Err(GluingError::IncompatibleCover(i, j));
                }
                proof {
                    assert(pair_ok(c, i as int, j as int));
                }
                j = j + 1;
            }
            i = i + 1;
        }
        proof {
            assert(all_pairs_ok(c));
        }
        if n == 0 {
            return Ok(None);
        }
        let mut acc = cover[0].1.clone();
        proof {
            assert(acc.dom() == c[0].1.dom());
            assert(acc.vmap() == c[0].1.vmap());
        }
        let mut k: usize = 1;
        while k < n
            invariant
                1 <= k <= n,
                n == c.len(),
                c == cover@,
                cover_wf(c),
                all_pairs_ok(c),
                acc.wf(),
                acc.dom() == glued_dom(c, k as int),
                acc.vmap() == glued_map(c, k as int),
                n == 1 ==> sec_eq(acc, c[0].1),
            decreases n - k,
        {
            acc = acc.glue(&cover[k].0, &cover[k].1);
            k = k + 1;
        }
        Ok(Some(acc))
    }

    /// Whether two candidate sections agree once both are restricted to
    /// `domain`; used to detect under-determined gluings.
    pub fn is_locally_equal(domain: &OpenSet, a: &Section, b: &Section) -> (r: bool)
        requires
            domain.wf(),
            a.wf(),
            b.wf(),
        ensures
            r == compat_on(*a, *b, domain@),
    {
        a.is_compatible(domain, b)
    }

    /// True when no listed triple of a domain and two candidate sections
    /// agrees on that domain: every pair of candidates differs somewhere on
    /// its domain.
    pub fn uniqueness(sections: &Vec<(OpenSet, Section, Section)>) -> (r: bool)
        requires
            forall|k: int|
                0 <= k < sections@.len() ==> (#[trigger] sections@[k]).0.wf()
                    && sections@[k].1.wf() && sections@[k].2.wf(),
        ensures
            r == (forall|k: int|
                0 <= k < sections@.len() ==> !compat_on(
                    (#[trigger] sections@[k]).1,
                    sections@[k].2,
                    sections@[k].0@,
                )),
    {
        let mut k: usize = 0;
        while k < sections.len()
            invariant
                0 <= k <= sections@.len(),
                forall|m: int|
                    0 <= m < sections@.len() ==> (#[trigger] sections@[m]).0.wf()
                        && sections@[m].1.wf() && sections@[m].2.wf(),
                forall|m: int|
                    0 <= m < k ==> !compat_on(
                        (#[trigger] sections@[m]).1,
                        sections@[m].2,
                        sections@[m].0@,
                    ),
            decreases sections@.len() - k,
        {
            let entry = &sections[k];
            if GluingEngine::is_locally_equal(&entry.0, &entry.1, &entry.2) {
                return false;
            }
            k = k + 1;
        }
        true
    }
}

/// A cover of two sections, each given over its own domain, that agree on
/// the overlap of those domains glues successfully, and the glued section's
/// domain is the union of the two domains.
pub proof fn lemma_pair_cover_glues(
    c: Seq<(OpenSet, Section)>,
    r: Result<Option<Section>, GluingError>,
)
    requires
        c.len() == 2,
        cover_wf(c),
        c[0].1.dom() == c[0].0@,
        c[1].1.dom() == c[1].0@,
        compat_on(c[0].1, c[1].1, c[0].0@.intersect(c[1].0@)),
        gluing_post(c, r),
    ensures
        r matches Ok(s) && s matches Some(g) && g.dom() == c[0].0@.union(c[1].0@),
{
    assert(all_pairs_ok(c)) by {
        assert forall|i: int, j: int| 0 <= i < j < c.len() implies #[trigger] pair_ok(c, i, j) by {
            assert(i == 0 && j == 1);
        }
    }
    assert(glued_dom(c, 1) == c[0].1.dom());
    assert(glued_dom(c, 2) == glued_dom(c, 1).union(c[1].0@.intersect(c[1].1.dom())));
    assert(c[0].1.dom().union(c[1].0@.intersect(c[1].1.dom())) =~= c[0].0@.union(c[1].0@));
}

/// A cover of two sections that disagree on the overlap of their cover
/// domains is rejected, and the error names that pair.
pub proof fn lemma_pair_cover_incompatible(
    c: Seq<(OpenSet, Section)>,
    r: Result<Option<Section>, GluingError>,
)
    requires
        c.len() == 2,
        !compat_on(c[0].1, c[1].1, c[0].0@.intersect(c[1].0@)),
        gluing_post(c, r),
    ensures
        r == Err::<Option<Section>, GluingError>(GluingError::IncompatibleCover(0, 1)),
{
    assert(!pair_ok(c, 0, 1));
    assert(!all_pairs_ok(c));
    assert(r is Err);
    match r {
        Result::Err(e) => {
            match e {
                GluingError::IncompatibleCover(x, y) => {
                    assert(first_bad_pair(c, x as int, y as int));
                    assert(x == 0 && y == 1);
                },
            }
        },
        Result::Ok(_) => {
            assert(false);
        },
    }
}

} // verus!
