//! A cell complex as a concrete space: dimension-stratified cells with a
//! symmetric attachment relation, and a per-skeleton openness policy.

use vstd::prelude::*;

use crate::topology::TopologicalSpace;

verus! {

/// Why assembling a complex fails.
#[derive(Clone, Copy, Debug, PartialEq, Eq, Structural)]
pub enum ConstructionError {
    /// The cell's dimension exceeds the complex's maximum dimension.
    DimensionExceedsComplex,
    /// A cell with the same id already exists at that dimension.
    DuplicateCellId,
}

/// One cell of a complex: an id, unique within the cell's dimension, and
/// the ids of the cells attached to it.
#[derive(Debug)]
pub struct Cell {
    /// The cell's identifier.
    pub id: String,
    /// The dimension the cell lives in.
    pub dim: usize,
    /// The ids of the cells attached to this one.  Public so that
    /// specifications can speak about it; record attachments through the
    /// complex rather than by hand.
    pub attachments: Vec<String>,
}

impl Cell {
    /// The attachment ids, as character sequences.
    pub open spec fn atts(&self) -> Seq<Seq<char>> {
        self.attachments@.map_values(|s: String| s@)
    }

    /// A fresh cell with no attachments.
    pub fn new(id: &str, dim: usize) -> (r: Cell)
        ensures
            r.id@ == id@,
            r.dim == dim,
            r.atts() == Seq::<Seq<char>>::empty(),
    {
        let r = Cell { id: id.to_owned(), dim, attachments: Vec::new() };
        proof {
            assert(r.atts() =~= Seq::<Seq<char>>::empty());
        }
        r
    }

    /// The ids of the cells attached to this one.
    pub fn get_attachments(&self) -> (r: &Vec<String>)
        ensures
            r@.map_values(|s: String| s@) == self.atts(),
    {
        &self.attachments
    }
}

/// A finite set of cell ids.  The vector is public so that specifications
/// can speak about it; every operation expects and maintains the no-repeat
/// invariant stated by [`CellSet::wf`].
#[derive(Debug)]
pub struct CellSet {
    /// The ids, no two spelling the same characters.
    pub ids: Vec<String>,
}

impl CellSet {
    /// The stored ids as character sequences, in storage order.
    pub open spec fn views(&self) -> Seq<Seq<char>> {
        self.ids@.map_values(|s: String| s@)
    }

    /// The set of ids this value stands for.
    pub open spec fn id_set(&self) -> Set<Seq<char>> {
        self.views().to_set()
    }

    /// No two stored ids spell the same characters.
    pub open spec fn wf(&self) -> bool {
        self.views().no_duplicates()
    }

    /// The empty id set.
    pub fn new() -> (r: CellSet)
        ensures
            r.wf(),
            r.id_set() == Set::<Seq<char>>::empty(),
    {
        let r = CellSet { ids: Vec::new() };
        proof {
            assert(r.views() =~= Seq::<Seq<char>>::empty());
            assert(r.id_set() =~= Set::<Seq<char>>::empty());
        }
        r
    }

    /// How many ids the set holds.
    pub fn len(&self) -> (r: usize)
        ensures
            r == self.ids@.len(),
            self.wf() ==> r == self.id_set().len(),
    {
        proof {
            if self.wf() {
                self.views().unique_seq_to_set();
            }
        }
        self.ids.len()
    }

    /// Whether the set holds an id spelling these characters.
    pub fn contains(&self, id: &str) -> (r: bool)
        ensures
            r == self.id_set().contains(id@),
    {
        let key: String = id.to_owned();
        let mut k: usize = 0;
        while k < self.ids.len()
            invariant
                0 <= k <= self.ids@.len(),
                key@ == id@,
                forall|m: int| 0 <= m < k ==> self.views()[m] != id@,
            decreases self.ids@.len() - k,
        {
            if self.ids[k] == key {
                proof {
                    assert(self.views()[k as int] == id@);
                    assert(self.views().contains(id@));
                }
                return true;
            }
            proof {
                assert(self.views()[k as int] == self.ids@[k as int]@);
            }
            k = k + 1;
        }
        proof {
            if self.id_set().contains(id@) {
                let m = choose|m: int| 0 <= m < self.views().len() && self.views()[m] == id@;
            }
        }
        false
    }

    /// Adds an id, unless an equal spelling is already present.
    pub fn insert(&mut self, id: &str)
        requires
            old(self).wf(),
        ensures
            final(self).wf(),
            final(self).id_set() == old(self).id_set().insert(id@),
    {
        if self.contains(id) {
            proof {
                assert(self.id_set().insert(id@) =~= self.id_set());
            }
            return ;
        }
        let ghost prev = self.views();
        self.ids.push(id.to_owned());
        proof {
            assert(self.views() =~= prev.push(id@));
            assert(self.wf());
            assert(self.id_set() =~= prev.to_set().insert(id@)) by {
                assert forall|x: Seq<char>| self.id_set().contains(x) implies prev.to_set().insert(
                    id@,
                ).contains(x) by {
                    let m = choose|m: int| 0 <= m < self.views().len() && self.views()[m] == x;
                    if m < prev.len() {
                        assert(prev[m] == x);
                    }
                }
                assert forall|x: Seq<char>| prev.to_set().insert(id@).contains(x) implies self.id_set().contains(
                    x,
                ) by {
                    if x == id@ {
                        assert(self.views()[prev.len() as int] == id@);
                    } else {
                        let m = choose|m: int| 0 <= m < prev.len() && prev[m] == x;
                        assert(self.views()[m] == x);
                    }
                }
            }
        }
    }

    /// Whether this set and `other` hold exactly the same ids.
    pub fn same_elements(&self, other: &CellSet) -> (r: bool)
        requires
            self.wf(),
            other.wf(),
        ensures
            r == (self.id_set() == other.id_set()),
    {
        proof {
            self.views().unique_seq_to_set();
            other.views().unique_seq_to_set();
        }
        if self.ids.len() != other.ids.len() {
            proof {
                assert(self.id_set() != other.id_set());
            }
            return false;
        }
        let mut k: usize = 0;
        while k < self.ids.len()
            invariant
                0 <= k <= self.ids@.len(),
                self.wf(),
                other.wf(),
                self.id_set().len() == self.views().len(),
                other.id_set().len() == other.views().len(),
                self.ids@.len() == other.ids@.len(),
                forall|m: int| 0 <= m < k ==> other.id_set().contains(#[trigger] self.views()[m]),
            decreases self.ids@.len() - k,
        {
            let here = &self.ids[k];
            if !other.contains(here.as_str()) {
                proof {
                    assert(self.views()[k as int] == here@);
                    assert(self.views().contains(here@));
                    assert(self.id_set().contains(here@));
                    assert(self.id_set() != other.id_set());
                }
                return false;
            }
            proof {
                assert(self.views()[k as int] == here@);
            }
            k = k + 1;
        }
        proof {
            assert(self.id_set().subset_of(other.id_set())) by {
                assert forall|x: Seq<char>| self.id_set().contains(x) implies other.id_set().contains(
                    x,
                ) by {
                    let m = choose|m: int| 0 <= m < self.views().len() && self.views()[m] == x;
                }
            }
            assert(self.id_set() =~= other.id_set()) by {
                if exists|x: Seq<char>| other.id_set().contains(x) && !self.id_set().contains(x) {
                    let x = choose|x: Seq<char>|
                        other.id_set().contains(x) && !self.id_set().contains(x);
                    assert(self.id_set().subset_of(other.id_set().remove(x)));
                    vstd::seq_lib::seq_to_set_is_finite::<Seq<char>>(other.views());
                    vstd::set_lib::lemma_len_subset(self.id_set(), other.id_set().remove(x));
                    assert(other.id_set().remove(x).len() == other.id_set().len() - 1);
                }
                assert forall|x: Seq<char>| other.id_set().contains(x) implies self.id_set().contains(
                    x,
                ) by {
                }
            }
        }
        true
    }
}

/// A cell complex of maximum dimension `N`: one skeleton — a registry of
/// cells — for each dimension `0 ..= N`.  The complex is assembled by one
/// builder (`new`, `add_cell`, `attach_cells`) and then queried as a space.
#[derive(Debug)]
pub struct CellComplex<const N: usize> {
    /// The skeletons, one per dimension.  Public so that specifications can
    /// speak about them; build the complex through `add_cell` and
    /// `attach_cells`.
    pub skeletons: Vec<Vec<Cell>>,
}

impl<const N: usize> CellComplex<N> {
    /// The cells of dimension `d`, in registration order.
    pub open spec fn skeleton(&self, d: int) -> Seq<Cell> {
        self.skeletons@[d]@
    }

    /// Well-formedness: one skeleton per dimension up to `N`, every cell
    /// registered at its own dimension, and no id repeated within one
    /// skeleton.
    pub open spec fn wf(&self) -> bool {
        &&& self.skeletons@.len() == N + 1
        &&& forall|d: int, k: int|
            0 <= d <= N && 0 <= k < self.skeleton(d).len() ==> (#[trigger] self.skeleton(d)[k]).dim
                == d
        &&& forall|d: int, k: int, l: int|
            #![trigger self.skeleton(d)[k], self.skeleton(d)[l]]
            0 <= d <= N && 0 <= k < l < self.skeleton(d).len() ==> self.skeleton(d)[k].id@
                != self.skeleton(d)[l].id@
    }

    /// Whether a cell with this id is registered at dimension `d`.
    pub open spec fn has_cell(&self, d: int, id: Seq<char>) -> bool {
        0 <= d <= N && exists|k: int|
            0 <= k < self.skeleton(d).len() && (#[trigger] self.skeleton(d)[k]).id@ == id
    }

    /// An empty complex: every skeleton present, none holding a cell.
    pub fn new() -> (r: Self)
        ensures
            r.wf(),
            forall|d: int| 0 <= d <= N ==> #[trigger] r.skeleton(d) == Seq::<Cell>::empty(),
    {
        let mut skeletons: Vec<Vec<Cell>> = Vec::new();
        while skeletons.len() <= N
            invariant
                skeletons@.len() <= N + 1,
                forall|d: int| 0 <= d < skeletons@.len() ==> (#[trigger] skeletons@[d])@.len() == 0,
            decreases N + 1 - skeletons@.len(),
        {
            skeletons.push(Vec::new());
        }
        let r = CellComplex { skeletons };
        proof {
            assert forall|d: int| 0 <= d <= N implies #[trigger] r.skeleton(d)
                == Seq::<Cell>::empty() by {
                assert(r.skeleton(d) =~= Seq::<Cell>::empty());
            }
        }
        r
    }

    /// The complex's maximum dimension.
    pub fn dim(&self) -> (r: usize)
        ensures
            r == N,
    {
        N
    }

    /// Registers a cell at its dimension.  A cell whose dimension exceeds
    /// the maximum, or whose id is already taken at that dimension, is
    /// rejected and the complex is left unchanged — never silently
    /// overwritten.
    pub fn add_cell(&mut self, cell: Cell) -> (r: Result<(), ConstructionError>)
        requires
            old(self).wf(),
        ensures
            final(self).wf(),
            cell.dim > N ==> r == Err::<(), ConstructionError>(
                ConstructionError::DimensionExceedsComplex,
            ) && *final(self) == *old(self),
            cell.dim <= N && old(self).has_cell(cell.dim as int, cell.id@) ==> r == Err::<
                (),
                ConstructionError,
            >(ConstructionError::DuplicateCellId) && *final(self) == *old(self),
            cell.dim <= N && !old(self).has_cell(cell.dim as int, cell.id@) ==> r == Ok::<
                (),
                ConstructionError,
            >(()) && final(self).skeleton(cell.dim as int) == old(self).skeleton(
                cell.dim as int,
            ).push(cell) && (forall|d: int|
                0 <= d <= N && d != cell.dim ==> #[trigger] final(self).skeleton(d) == old(
                    self,
                ).skeleton(d)),
    {
        if cell.dim > N {
            return Err(ConstructionError::DimensionExceedsComplex);
        }
        let d = cell.dim;
        let mut k: usize = 0;
        while k < self.skeletons[d].len()
            invariant
                *self == *old(self),
                self.wf(),
                d == cell.dim,
                d <= N,
                0 <= k <= self.skeleton(d as int).len(),
                forall|m: int|
                    0 <= m < k ==> (#[trigger] self.skeleton(d as int)[m]).id@ != cell.id@,
            decreases self.skeleton(d as int).len() - k,
        {
            if self.skeletons[d][k].id == cell.id {
                proof {
                    assert(self.skeleton(cell.dim as int)[k as int].id@ == cell.id@);
                }
                return Err(ConstructionError::DuplicateCellId);
            }
            k = k + 1;
        }
        proof {
            if old(self).has_cell(cell.dim as int, cell.id@) {
                let m = choose|m: int|
                    0 <= m < self.skeleton(d as int).len() && (#[trigger] self.skeleton(
                        d as int,
                    )[m]).id@ == cell.id@;
            }
        }
        let ghost prev = self.skeletons@;
        let mut row = self.skeletons.remove(d);
        let ghost cellg = cell;
        row.push(cell);
        self.skeletons.insert(d, row);
        proof {
            assert(self.skeletons@ =~= prev.update(d as int, row));
            assert(self.skeleton(d as int) == prev[d as int]@.push(cellg));
            assert forall|dd: int| 0 <= dd <= N && dd != d implies #[trigger] self.skeleton(dd)
                == old(self).skeleton(dd) by {
                assert(self.skeletons@[dd] == prev[dd]);
            }
            assert(self.wf()) by {
                assert forall|dd: int, kk: int|
                    0 <= dd <= N && 0 <= kk < self.skeleton(dd).len() implies (
                #[trigger] self.skeleton(dd)[kk]).dim == dd by {
                    if dd == d && kk == self.skeleton(dd).len() - 1 {
                    } else {
                        assert(self.skeleton(dd)[kk] == old(self).skeleton(dd)[kk]);
                    }
                }
                assert forall|dd: int, kk: int, ll: int|
                    #![trigger self.skeleton(dd)[kk], self.skeleton(dd)[ll]]
                    0 <= dd <= N && 0 <= kk < ll < self.skeleton(dd).len() implies self.skeleton(
                    dd,
                )[kk].id@ != self.skeleton(dd)[ll].id@ by {
                    if dd == d && ll == self.skeleton(dd).len() - 1 {
                        assert(self.skeleton(dd)[kk] == old(self).skeleton(dd)[kk]);
                        assert(!old(self).has_cell(d as int, cellg.id@));
                    } else {
                        assert(self.skeleton(dd)[kk] == old(self).skeleton(dd)[kk]);
                        assert(self.skeleton(dd)[ll] == old(self).skeleton(dd)[ll]);
                    }
                }
            }
        }
        Ok(())
    }

    /// The registered cell with this id at dimension `d`, if any.
    pub fn get_cell(&self, d: usize, id: &str) -> (r: Option<&Cell>)
        requires
            self.wf(),
        ensures
            r matches Some(c) ==> self.has_cell(d as int, id@) && c.id@ == id@ && c.dim == d
                && exists|k: int|
                0 <= k < self.skeleton(d as int).len() && #[trigger] self.skeleton(d as int)[k]
                    == *c,
            r is None ==> !self.has_cell(d as int, id@),
    {
        if d > N {
            return None;
        }
        let key: String = id.to_owned();
        let row = &self.skeletons[d];
        let mut k: usize = 0;
        while k < row.len()
            invariant
                0 <= k <= row@.len(),
                self.wf(),
                d <= N,
                key@ == id@,
                row@ == self.skeletons@[d as int]@,
                forall|m: int| 0 <= m < k ==> (#[trigger] row@[m]).id@ != id@,
            decreases row@.len() - k,
        {
            if row[k].id == key {
                proof {
                    assert(self.skeleton(d as int)[k as int].id@ == id@);
                }
                return Some(&row[k]);
            }
            k = k + 1;
        }
        proof {
            if self.has_cell(d as int, id@) {
                let m = choose|m: int|
                    0 <= m < self.skeleton(d as int).len() && (#[trigger] self.skeleton(
                        d as int,
                    )[m]).id@ == id@;
            }
        }
        None
    }

    /// The position of the cell with this id at dimension `d`, if any.
    fn find_cell_index(&self, d: usize, id: &str) -> (r: Option<usize>)
        requires
            self.wf(),
        ensures
            r matches Some(k) ==> d <= N && k < self.skeleton(d as int).len() && self.skeleton(
                d as int,
            )[k as int].id@ == id@,
            r is None ==> !self.has_cell(d as int, id@),
    {
        if d > N {
            return None;
        }
        let key: String = id.to_owned();
        let mut k: usize = 0;
        while k < self.skeletons[d].len()
            invariant
                0 <= k <= self.skeleton(d as int).len(),
                self.wf(),
                d <= N,
                key@ == id@,
                forall|m: int| 0 <= m < k ==> (#[trigger] self.skeleton(d as int)[m]).id@ != id@,
            decreases self.skeleton(d as int).len() - k,
        {
            if self.skeletons[d][k].id == key {
                return Some(k);
            }
            k = k + 1;
        }
        proof {
            if self.has_cell(d as int, id@) {
                let m = choose|m: int|
                    0 <= m < self.skeleton(d as int).len() && (#[trigger] self.skeleton(
                        d as int,
                    )[m]).id@ == id@;
            }
        }
        None
    }

    /// Appends one id to the attachment list of the cell at position `k`
    /// of the skeleton of dimension `d`; everything else stays as it was.
    fn push_attachment(&mut self, d: usize, k: usize, id: &str)
        requires
            old(self).wf(),
            d <= N,
            k < old(self).skeleton(d as int).len(),
        ensures
            final(self).wf(),
            forall|dd: int|
                0 <= dd <= N ==> #[trigger] final(self).skeleton(dd).len() == old(self).skeleton(
                    dd,
                ).len(),
            forall|dd: int, kk: int|
                #![trigger final(self).skeleton(dd)[kk]]
                0 <= dd <= N && 0 <= kk < old(self).skeleton(dd).len() && !(dd == d && kk == k)
                    ==> final(self).skeleton(dd)[kk] == old(self).skeleton(dd)[kk],
            final(self).skeleton(d as int)[k as int].id@ == old(self).skeleton(
                d as int,
            )[k as int].id@,
            final(self).skeleton(d as int)[k as int].dim == old(self).skeleton(
                d as int,
            )[k as int].dim,
            final(self).skeleton(d as int)[k as int].atts() == old(self).skeleton(
                d as int,
            )[k as int].atts().push(id@),
    {
        let ghost prev = self.skeletons@;
        let mut row = self.skeletons.remove(d);
        let ghost prev_row = row@;
        let mut c = row.remove(k);
        let ghost prev_c = c;
        c.attachments.push(id.to_owned());
        proof {
            assert(c.atts() =~= prev_c.atts().push(id@));
        }
        row.insert(k, c);
        self.skeletons.insert(d, row);
        proof {
            assert(self.skeletons@ =~= prev.update(d as int, row));
            assert(row@ =~= prev_row.update(k as int, c));
            assert forall|dd: int| 0 <= dd <= N implies #[trigger] self.skeleton(dd).len() == old(
                self,
            ).skeleton(dd).len() by {
                if dd != d {
                    assert(self.skeletons@[dd] == prev[dd]);
                }
            }
            assert forall|dd: int, kk: int|
                #![trigger self.skeleton(dd)[kk]]
                0 <= dd <= N && 0 <= kk < old(self).skeleton(dd).len() && !(dd == d && kk
                    == k) implies self.skeleton(dd)[kk] == old(self).skeleton(dd)[kk] by {
                if dd != d {
                    assert(self.skeletons@[dd] == prev[dd]);
                }
            }
            assert(self.wf()) by {
                assert forall|dd: int, kk: int|
                    0 <= dd <= N && 0 <= kk < self.skeleton(dd).len() implies (
                #[trigger] self.skeleton(dd)[kk]).dim == dd by {
                    if !(dd == d && kk == k) {
                        assert(self.skeleton(dd)[kk] == old(self).skeleton(dd)[kk]);
                    }
                }
                assert forall|dd: int, kk: int, ll: int|
                    #![trigger self.skeleton(dd)[kk], self.skeleton(dd)[ll]]
                    0 <= dd <= N && 0 <= kk < ll < self.skeleton(dd).len() implies self.skeleton(
                    dd,
                )[kk].id@ != self.skeleton(dd)[ll].id@ by {
                    assert(self.skeleton(dd)[kk].id@ == old(self).skeleton(dd)[kk].id@);
                    assert(self.skeleton(dd)[ll].id@ == old(self).skeleton(dd)[ll].id@);
                }
            }
        }
    }

    /// After an attachment of cell `a` to cell `b`, every cell keeps its id
    /// and dimension, and exactly the two named cells gain one entry: `a`'s
    /// list gains `b`'s id and `b`'s list gains `a`'s id (a cell attached
    /// to itself gains both entries, in that order).
    pub open spec fn attach_post(
        prev: Self,
        cur: Self,
        dim_a: usize,
        id_a: Seq<char>,
        dim_b: usize,
        id_b: Seq<char>,
    ) -> bool {
        &&& forall|d: int|
            0 <= d <= N ==> #[trigger] cur.skeleton(d).len() == prev.skeleton(d).len()
        &&& forall|d: int, k: int|
            #![trigger cur.skeleton(d)[k]]
            0 <= d <= N && 0 <= k < prev.skeleton(d).len() ==> cur.skeleton(d)[k].id@
                == prev.skeleton(d)[k].id@ && cur.skeleton(d)[k].dim == prev.skeleton(d)[k].dim
                && cur.skeleton(d)[k].atts() == prev.skeleton(d)[k].atts() + (if d == dim_a
                && prev.skeleton(d)[k].id@ == id_a {
                seq![id_b]
            } else {
                Seq::<Seq<char>>::empty()
            }) + (if d == dim_b && prev.skeleton(d)[k].id@ == id_b {
                seq![id_a]
            } else {
                Seq::<Seq<char>>::empty()
            })
    }

    /// Records the symmetric attachment between the two named cells: each
    /// one's attachment list gains the other's id.  The relation does not
    /// require the dimensions to differ by one; it is a simplified
    /// symmetric adjacency.  When either cell is missing, nothing changes
    /// and `false` comes back.
    pub fn attach_cells(&mut self, dim_a: usize, id_a: &str, dim_b: usize, id_b: &str) -> (r: bool)
        requires
            old(self).wf(),
        ensures
            final(self).wf(),
            r == (old(self).has_cell(dim_a as int, id_a@) && old(self).has_cell(
                dim_b as int,
                id_b@,
            )),
            !r ==> *final(self) == *old(self),
            r ==> Self::attach_post(*old(self), *final(self), dim_a, id_a@, dim_b, id_b@),
    {
        let ka = match self.find_cell_index(dim_a, id_a) {
            Some(k) => k,
            None => {
                return false;
            },
        };
        let kb = match self.find_cell_index(dim_b, id_b) {
            Some(k) => k,
            None => {
                return false;
            },
        };
        proof {
            assert(old(self).has_cell(dim_a as int, id_a@));
            assert(old(self).has_cell(dim_b as int, id_b@));
        }
        self.push_attachment(dim_a, ka, id_b);
        let ghost mid = *self;
        self.push_attachment(dim_b, kb, id_a);
        proof {
            lemma_strictly_unique_ids::<N>(*old(self), dim_a as int, ka as int, id_a@);
            lemma_strictly_unique_ids::<N>(mid, dim_b as int, kb as int, id_b@);
            assert forall|d: int, k: int|
                #![trigger self.skeleton(d)[k]]
                0 <= d <= N && 0 <= k < old(self).skeleton(d).len() implies self.skeleton(d)[k].id@
                == old(self).skeleton(d)[k].id@ && self.skeleton(d)[k].dim == old(self).skeleton(
                d,
            )[k].dim && self.skeleton(d)[k].atts() == old(self).skeleton(d)[k].atts() + (if d
                == dim_a && old(self).skeleton(d)[k].id@ == id_a@ {
                seq![id_b@]
            } else {
                Seq::<Seq<char>>::empty()
            }) + (if d == dim_b && old(self).skeleton(d)[k].id@ == id_b@ {
                seq![id_a@]
            } else {
                Seq::<Seq<char>>::empty()
            }) by {
                let base = old(self).skeleton(d)[k].atts();
                let first = (if d == dim_a && old(self).skeleton(d)[k].id@ == id_a@ {
                    seq![id_b@]
                } else {
                    Seq::<Seq<char>>::empty()
                });
                let second = (if d == dim_b && old(self).skeleton(d)[k].id@ == id_b@ {
                    seq![id_a@]
                } else {
                    Seq::<Seq<char>>::empty()
                });
                if d == dim_a && k == ka {
                    assert(mid.skeleton(d)[k].atts() == base.push(id_b@));
                    assert(base.push(id_b@) =~= base + first);
                } else {
                    assert(mid.skeleton(d)[k] == old(self).skeleton(d)[k]);
                    assert(mid.skeleton(d)[k].atts() =~= base + first);
                }
                if d == dim_b && k == kb {
                    assert(self.skeleton(d)[k].atts() == mid.skeleton(d)[k].atts().push(id_a@));
                    assert(mid.skeleton(d)[k].atts().push(id_a@) =~= (base + first) + second);
                } else {
                    assert(self.skeleton(d)[k] == mid.skeleton(d)[k]);
                    assert(self.skeleton(d)[k].atts() =~= (base + first) + second);
                }
            }
        }
        true
    }
}

impl<const N: usize> CellComplex<N> {
    /// Whether some cell of the complex, at any dimension, spells this id.
    pub open spec fn is_cell_id(&self, s: Seq<char>) -> bool {
        exists|d: int| 0 <= d <= N && #[trigger] self.has_cell(d, s)
    }

    /// The ids of the cells registered at dimension `d`.
    pub open spec fn skel_ids(&self, d: int) -> Set<Seq<char>> {
        Set::new(
            |s: Seq<char>|
                exists|k: int|
                    0 <= k < self.skeleton(d).len() && (#[trigger] self.skeleton(d)[k]).id@ == s,
        )
    }

    /// Whether the cell spelling `s` lists `id` on its attachment list.
    pub open spec fn attached_to(&self, id: Seq<char>, s: Seq<char>) -> bool {
        exists|d: int, k: int|
            #![trigger self.skeleton(d)[k]]
            0 <= d <= N && 0 <= k < self.skeleton(d).len() && self.skeleton(d)[k].id@ == s
                && cell_lists(self.skeleton(d)[k], id)
    }

    /// The openness policy of this complex: for every skeleton, the part of
    /// the set lying in that skeleton is either nothing or the whole set.
    /// This is a coarse per-skeleton approximation chosen for this model,
    /// not the classical weak-topology condition.
    pub open spec fn spec_is_open(&self, ids: Set<Seq<char>>) -> bool {
        forall|d: int|
            0 <= d <= N ==> (ids.intersect(#[trigger] self.skel_ids(d)).is_empty()
                || ids.intersect(self.skel_ids(d)) == ids)
    }

    /// Every registered cell id, across all dimensions.
    pub fn elements(&self) -> (r: CellSet)
        requires
            self.wf(),
        ensures
            r.wf(),
            forall|s: Seq<char>| r.id_set().contains(s) == self.is_cell_id(s),
    {
        let mut out = CellSet::new();
        let mut d: usize = 0;
        while d < self.skeletons.len()
            invariant
                self.wf(),
                0 <= d <= N + 1,
                out.wf(),
                forall|s: Seq<char>|
                    out.id_set().contains(s) == exists|d2: int|
                        0 <= d2 < d && #[trigger] self.has_cell(d2, s),
            decreases N + 1 - d,
        {
            let mut k: usize = 0;
            while k < self.skeletons[d].len()
                invariant
                    self.wf(),
                    0 <= d <= N,
                    0 <= k <= self.skeleton(d as int).len(),
                    out.wf(),
                    forall|s: Seq<char>|
                        out.id_set().contains(s) == ((exists|d2: int|
                            0 <= d2 < d && #[trigger] self.has_cell(d2, s)) || exists|k2: int|
                            0 <= k2 < k && (#[trigger] self.skeleton(d as int)[k2]).id@ == s),
                decreases self.skeleton(d as int).len() - k,
            {
                let ghost prev = out.id_set();
                out.insert(self.skeletons[d][k].id.as_str());
                proof {
                    let sk = self.skeleton(d as int)[k as int].id@;
                    assert forall|s: Seq<char>|
                        out.id_set().contains(s) == ((exists|d2: int|
                            0 <= d2 < d && #[trigger] self.has_cell(d2, s)) || exists|k2: int|
                            0 <= k2 < k + 1 && (#[trigger] self.skeleton(d as int)[k2]).id@
                                == s) by {
                        if out.id_set().contains(s) {
                            if prev.contains(s) {
                            } else {
                                assert(s == sk);
                                assert(self.skeleton(d as int)[k as int].id@ == s);
                            }
                        }
                        if exists|k2: int|
                            0 <= k2 < k + 1 && (#[trigger] self.skeleton(d as int)[k2]).id@ == s {
                            let k2 = choose|k2: int|
                                0 <= k2 < k + 1 && (#[trigger] self.skeleton(d as int)[k2]).id@
                                    == s;
                            if k2 < k {
                                assert(prev.contains(s));
                            } else {
                                assert(s == sk);
                            }
                            assert(out.id_set().contains(s));
                        }
                    }
                }
                k = k + 1;
            }
            proof {
                assert forall|s: Seq<char>|
                    out.id_set().contains(s) == exists|d2: int|
                        0 <= d2 < d + 1 && #[trigger] self.has_cell(d2, s) by {
                    if out.id_set().contains(s) {
                        if exists|k2: int|
                            0 <= k2 < self.skeleton(d as int).len() && (#[trigger] self.skeleton(
                                d as int,
                            )[k2]).id@ == s {
                            assert(self.has_cell(d as int, s));
                        }
                    }
                    if exists|d2: int| 0 <= d2 < d + 1 && #[trigger] self.has_cell(d2, s) {
                        let d2 = choose|d2: int| 0 <= d2 < d + 1 && #[trigger] self.has_cell(d2, s);
                        assert(out.id_set().contains(s));
                    }
                }
            }
            d = d + 1;
        }
        proof {
            assert forall|s: Seq<char>| out.id_set().contains(s) == self.is_cell_id(s) by {
                if self.is_cell_id(s) {
                    let d2 = choose|d2: int| 0 <= d2 <= N && #[trigger] self.has_cell(d2, s);
                }
            }
        }
        out
    }

    /// All cells, of any dimension, whose attachment list holds `id`.
    pub fn neighborhood(&self, id: &str) -> (r: CellSet)
        requires
            self.wf(),
        ensures
            r.wf(),
            forall|s: Seq<char>| r.id_set().contains(s) == self.attached_to(id@, s),
    {
        let mut out = CellSet::new();
        let mut d: usize = 0;
        while d < self.skeletons.len()
            invariant
                self.wf(),
                0 <= d <= N + 1,
                out.wf(),
                forall|s: Seq<char>|
                    out.id_set().contains(s) == exists|d2: int, k2: int|
                        #![trigger self.skeleton(d2)[k2]]
                        0 <= d2 < d && 0 <= k2 < self.skeleton(d2).len() && self.skeleton(
                            d2,
                        )[k2].id@ == s && cell_lists(self.skeleton(d2)[k2], id@),
            decreases N + 1 - d,
        {
            let mut k: usize = 0;
            while k < self.skeletons[d].len()
                invariant
                    self.wf(),
                    0 <= d <= N,
                    0 <= k <= self.skeleton(d as int).len(),
                    out.wf(),
                    forall|s: Seq<char>|
                        out.id_set().contains(s) == ((exists|d2: int, k2: int|
                            #![trigger self.skeleton(d2)[k2]]
                            0 <= d2 < d && 0 <= k2 < self.skeleton(d2).len() && self.skeleton(
                                d2,
                            )[k2].id@ == s && cell_lists(self.skeleton(d2)[k2], id@)) || exists|
                            k2: int,
                        |
                            0 <= k2 < k && (#[trigger] self.skeleton(d as int)[k2]).id@ == s
                                && cell_lists(self.skeleton(d as int)[k2], id@)),
                decreases self.skeleton(d as int).len() - k,
            {
                let ghost prev = out.id_set();
                let ghost cg = self.skeleton(d as int)[k as int];
                let listed = cell_lists_id(&self.skeletons[d][k], id);
                if listed {
                    out.insert(self.skeletons[d][k].id.as_str());
                }
                proof {
                    assert forall|s: Seq<char>|
                        out.id_set().contains(s) == ((exists|d2: int, k2: int|
                            #![trigger self.skeleton(d2)[k2]]
                            0 <= d2 < d && 0 <= k2 < self.skeleton(d2).len() && self.skeleton(
                                d2,
                            )[k2].id@ == s && cell_lists(self.skeleton(d2)[k2], id@)) || exists|
                            k2: int,
                        |
                            0 <= k2 < k + 1 && (#[trigger] self.skeleton(d as int)[k2]).id@ == s
                                && cell_lists(self.skeleton(d as int)[k2], id@)) by {
                        if out.id_set().contains(s) {
                            if prev.contains(s) {
                            } else {
                                assert(listed && s == cg.id@);
                                assert((#[trigger] self.skeleton(d as int)[k as int]).id@ == s
                                    && cell_lists(self.skeleton(d as int)[k as int], id@));
                            }
                        }
                        if exists|k2: int|
                            0 <= k2 < k + 1 && (#[trigger] self.skeleton(d as int)[k2]).id@ == s
                                && cell_lists(self.skeleton(d as int)[k2], id@) {
                            let k2 = choose|k2: int|
                                0 <= k2 < k + 1 && (#[trigger] self.skeleton(d as int)[k2]).id@
                                    == s && cell_lists(self.skeleton(d as int)[k2], id@);
                            if k2 < k {
                                assert(prev.contains(s));
                            } else {
                                assert(s == cg.id@ && listed);
                            }
                            assert(out.id_set().contains(s));
                        }
                    }
                }
                k = k + 1;
            }
            d = d + 1;
        }
        proof {
            assert forall|s: Seq<char>| out.id_set().contains(s) == self.attached_to(id@, s) by {
                if self.attached_to(id@, s) {
                    let (d2, k2) = choose|d2: int, k2: int|
                        #![trigger self.skeleton(d2)[k2]]
                        0 <= d2 <= N && 0 <= k2 < self.skeleton(d2).len() && self.skeleton(
                            d2,
                        )[k2].id@ == s && cell_lists(self.skeleton(d2)[k2], id@);
                }
            }
        }
        out
    }

    /// Whether the set is open under this complex's per-skeleton policy:
    /// each skeleton's slice of the set is empty or the whole set.
    pub fn is_open(&self, set: &CellSet) -> (r: bool)
        requires
            self.wf(),
            set.wf(),
        ensures
            r == self.spec_is_open(set.id_set()),
    {
        let mut d: usize = 0;
        while d < self.skeletons.len()
            invariant
                self.wf(),
                set.wf(),
                0 <= d <= N + 1,
                forall|d2: int|
                    0 <= d2 < d ==> (set.id_set().intersect(
                        #[trigger] self.skel_ids(d2),
                    ).is_empty() || set.id_set().intersect(self.skel_ids(d2)) == set.id_set()),
            decreases N + 1 - d,
        {
            let mut inter = CellSet::new();
            let mut k: usize = 0;
            while k < self.skeletons[d].len()
                invariant
                    self.wf(),
                    set.wf(),
                    0 <= d <= N,
                    0 <= k <= self.skeleton(d as int).len(),
                    inter.wf(),
                    forall|s: Seq<char>|
                        inter.id_set().contains(s) == (set.id_set().contains(s) && exists|k2: int|
                            0 <= k2 < k && (#[trigger] self.skeleton(d as int)[k2]).id@ == s),
                decreases self.skeleton(d as int).len() - k,
            {
                let ghost prev = inter.id_set();
                let ghost cg = self.skeleton(d as int)[k as int];
                let in_set = set.contains(self.skeletons[d][k].id.as_str());
                if in_set {
                    inter.insert(self.skeletons[d][k].id.as_str());
                }
                proof {
                    assert forall|s: Seq<char>|
                        inter.id_set().contains(s) == (set.id_set().contains(s) && exists|k2: int|
                            0 <= k2 < k + 1 && (#[trigger] self.skeleton(d as int)[k2]).id@
                                == s) by {
                        if inter.id_set().contains(s) {
                            if prev.contains(s) {
                            } else {
                                assert(s == cg.id@ && in_set);
                                assert((#[trigger] self.skeleton(d as int)[k as int]).id@ == s);
                            }
                        }
                        if set.id_set().contains(s) && exists|k2: int|
                            0 <= k2 < k + 1 && (#[trigger] self.skeleton(d as int)[k2]).id@ == s {
                            let k2 = choose|k2: int|
                                0 <= k2 < k + 1 && (#[trigger] self.skeleton(d as int)[k2]).id@
                                    == s;
                            if k2 < k {
                                assert(prev.contains(s));
                            } else {
                                assert(s == cg.id@);
                            }
                            assert(inter.id_set().contains(s));
                        }
                    }
                }
                k = k + 1;
            }
            proof {
                assert(inter.id_set() =~= set.id_set().intersect(self.skel_ids(d as int)));
            }
            let n_inter = inter.len();
            if n_inter > 0 {
                let same = inter.same_elements(set);
                if !same {
                    proof {
                        inter.views().unique_seq_to_set();
                        assert(inter.id_set().len() > 0);
                        if inter.id_set().is_empty() {
                            assert(inter.id_set() =~= Set::<Seq<char>>::empty());
                        }
                        assert(!(set.id_set().intersect(self.skel_ids(d as int)).is_empty()
                            || set.id_set().intersect(self.skel_ids(d as int)) == set.id_set()));
                        assert(!self.spec_is_open(set.id_set()));
                    }
                    return false;
                }
            } else {
                proof {
                    assert(inter.id_set().len() == 0) by {
                        inter.views().unique_seq_to_set();
                    }
                    vstd::seq_lib::seq_to_set_is_finite::<Seq<char>>(inter.views());
                    inter.id_set().lemma_len0_is_empty();
                    assert(inter.id_set().is_empty());
                }
            }
            d = d + 1;
        }
        true
    }
}

/// Whether a cell lists `id` on its attachment list.
pub open spec fn cell_lists(c: Cell, id: Seq<char>) -> bool {
    exists|m: int| 0 <= m < c.atts().len() && c.atts()[m] == id
}

/// Whether this cell lists `id` on its attachment list.
fn cell_lists_id(c: &Cell, id: &str) -> (r: bool)
    ensures
        r == cell_lists(*c, id@),
{
    let key: String = id.to_owned();
    let mut m: usize = 0;
    while m < c.attachments.len()
        invariant
            0 <= m <= c.attachments@.len(),
            key@ == id@,
            forall|t: int| 0 <= t < m ==> c.atts()[t] != id@,
        decreases c.attachments@.len() - m,
    {
        if c.attachments[m] == key {
            proof {
                assert(c.atts()[m as int] == id@);
            }
            return true;
        }
        proof {
            assert(c.atts()[m as int] == c.attachments@[m as int]@);
        }
        m = m + 1;
    }
    proof {
        if cell_lists(*c, id@) {
            let t = choose|t: int| 0 <= t < c.atts().len() && c.atts()[t] == id@;
        }
    }
    false
}

impl<const N: usize> TopologicalSpace for CellComplex<N> {
    type Point = Seq<char>;

    open spec fn space_points(&self) -> Set<Seq<char>> {
        Set::new(|s: Seq<char>| self.is_cell_id(s))
    }

    open spec fn space_neighborhood(&self, p: Seq<char>) -> Set<Seq<char>> {
        Set::new(|s: Seq<char>| self.attached_to(p, s))
    }

    open spec fn space_is_open(&self, s: Set<Seq<char>>) -> bool {
        self.spec_is_open(s)
    }
}

/// Within one skeleton of a well-formed complex, an id picks out a single
/// position: any cell spelling the id of position `k` is position `k`.
proof fn lemma_strictly_unique_ids<const N: usize>(c: CellComplex<N>, d: int, k: int, id: Seq<char>)
    requires
        c.wf(),
        0 <= d <= N,
        0 <= k < c.skeleton(d).len(),
        c.skeleton(d)[k].id@ == id,
    ensures
        forall|l: int|
            0 <= l < c.skeleton(d).len() && (#[trigger] c.skeleton(d)[l]).id@ == id ==> l == k,
{
}

} // verus!
