//! The sites of a square lattice and whether each is open, stored row after
//! row.

use vstd::prelude::*;
use crate::error::PercolationError;
use crate::lattice::{lemma_site_coord, lemma_site_index, site_col, site_index, site_row, Lattice};
use crate::universe::{site_record, site_records, GridPoint};

verus! {

/// An `n` by `n` lattice of sites, each closed until it is opened.
pub struct Grid {
    n: usize,
    sites: Vec<bool>,
}

impl View for Grid {
    type V = Lattice;

    /// The side of the lattice and the set of its open sites.
    closed spec fn view(&self) -> Lattice {
        Lattice {
            n: self.n as int,
            open: Set::new(
                |p: (int, int)|
                    0 <= p.0 < self.n && 0 <= p.1 < self.n && self.sites@[site_index(
                        self.n as int,
                        p.0,
                        p.1,
                    )],
            ),
        }
    }
}

impl Grid {
    /// The side is at least one and there is one stored flag per site.
    pub closed spec fn wf(&self) -> bool {
        &&& 1 <= self.n <= isize::MAX
        &&& self.sites@.len() == self.n * self.n
        &&& self@.open.finite()
    }

    /// A well-formed grid stands for a well-formed lattice whose side and
    /// number of sites fit the machine.
    pub proof fn lemma_view_wf(&self)
        requires
            self.wf(),
        ensures
            self@.wf(),
            self@.n <= isize::MAX,
            self@.n * self@.n <= usize::MAX,
    {
        assert(self.sites@.len() == self.sites.len());
    }

    /// The lattice of side `n` with every site closed, or `InvalidSize` when
    /// `n` is less than one.
    pub fn new(n: isize) -> (r: Result<Grid, PercolationError>)
        requires
            n >= 1 ==> n * n <= usize::MAX,
        ensures
            match r {
                Ok(grid) => n >= 1 && grid.wf() && grid@ == Lattice::closed(n as int),
                Err(e) => n < 1 && e == PercolationError::InvalidSize,
            },
    {
        if n < 1 {
            return Err(PercolationError::InvalidSize);
        }
        let side = n as usize;
        let total = side * side;
        let mut sites: Vec<bool> = Vec::new();
        let mut i: usize = 0;
        while i < total
            invariant
                i <= total,
                sites@.len() == i,
                forall|j: int| 0 <= j < i ==> !sites@[j],
            decreases total - i,
        {
            sites.push(false);
            i = i + 1;
        }
        let grid = Grid { n: side, sites };
        proof {
            assert forall|p: (int, int)| !grid@.open.contains(p) by {
                if 0 <= p.0 < n && 0 <= p.1 < n {
                    lemma_site_index(n as int, p.0, p.1);
                }
            }
            assert(grid@.open =~= Set::empty());
        }
        Ok(grid)
    }

    /// The side of the lattice.
    pub fn size(&self) -> (n: usize)
        requires
            self.wf(),
        ensures
            n == self@.n,
    {
        self.n
    }

    /// The place of the site `(row, col)` in the row-after-row order, or
    /// `OutOfBounds` when the lattice has no such site.
    pub fn to_index(&self, row: isize, col: isize) -> (r: Result<usize, PercolationError>)
        requires
            self.wf(),
        ensures
            match r {
                Ok(index) => self@.in_bounds(row as int, col as int) && index == site_index(
                    self@.n,
                    row as int,
                    col as int,
                ) && index < self@.n * self@.n,
                Err(e) => !self@.in_bounds(row as int, col as int) && e
                    == PercolationError::OutOfBounds,
            },
    {
        if row < 0 || col < 0 {
            return Err(PercolationError::OutOfBounds);
        }
        let r = row as usize;
        let c = col as usize;
        if r >= self.n || c >= self.n {
            return Err(PercolationError::OutOfBounds);
        }
        proof {
            lemma_site_index(self.n as int, r as int, c as int);
            assert(self.sites@.len() == self.sites.len());
        }
        Ok(r * self.n + c)
    }

    /// The row and column of the site at place `index`, or `OutOfBounds` when
    /// the lattice has fewer sites.
    pub fn to_coord(&self, index: usize) -> (r: Result<(isize, isize), PercolationError>)
        requires
            self.wf(),
        ensures
            match r {
                Ok(site) => index < self@.n * self@.n && site.0 == site_row(self@.n, index as int)
                    && site.1 == site_col(self@.n, index as int),
                Err(e) => index >= self@.n * self@.n && e == PercolationError::OutOfBounds,
            },
    {
        if index >= self.sites.len() {
            return Err(PercolationError::OutOfBounds);
        }
        proof {
            lemma_site_coord(self.n as int, index as int);
        }
        Ok(((index / self.n) as isize, (index % self.n) as isize))
    }

    /// Whether the site `(row, col)` is open, or `OutOfBounds` when the
    /// lattice has no such site.
    pub fn is_open(&self, row: isize, col: isize) -> (r: Result<bool, PercolationError>)
        requires
            self.wf(),
        ensures
            match r {
                Ok(open) => self@.in_bounds(row as int, col as int) && open == self@.is_open(
                    row as int,
                    col as int,
                ),
                Err(e) => !self@.in_bounds(row as int, col as int) && e
                    == PercolationError::OutOfBounds,
            },
    {
        match self.to_index(row, col) {
            Ok(index) => Ok(self.sites[index]),
            Err(e) => Err(e),
        }
    }

    /// Opens the site `(row, col)`; an open site stays open. Nothing changes
    /// when the lattice has no such site, which is reported as `OutOfBounds`.
    pub fn set_open(&mut self, row: isize, col: isize) -> (r: Result<(), PercolationError>)
        requires
            old(self).wf(),
        ensures
            final(self).wf(),
            match r {
                Ok(()) => old(self)@.in_bounds(row as int, col as int) && final(self)@ == old(
                    self,
                )@.opened(row as int, col as int),
                Err(e) => !old(self)@.in_bounds(row as int, col as int) && e
                    == PercolationError::OutOfBounds && *final(self) == *old(self),
            },
    {
        match self.to_index(row, col) {
            Ok(index) => {
                self.sites.set(index, true);
                proof {
                    let n = self.n as int;
                    let before = old(self)@.open;
                    assert forall|p: (int, int)|
                        self@.open.contains(p) == before.insert((row as int, col as int)).contains(
                            p,
                        ) by {
                        if 0 <= p.0 < n && 0 <= p.1 < n {
                            lemma_site_index(n, p.0, p.1);
                            lemma_site_index(n, row as int, col as int);
                        }
                    }
                    assert(self@.open =~= before.insert((row as int, col as int)));
                }
                Ok(())
            },
            Err(e) => Err(e),
        }
    }

    /// The records of all sites, row after row.
    pub fn all_sites(&self) -> (points: Vec<GridPoint>)
        requires
            self.wf(),
        ensures
            points@ == site_records(self@),
    {
        let mut points: Vec<GridPoint> = Vec::new();
        let mut i: usize = 0;
        while i < self.sites.len()
            invariant
                self.wf(),
                i <= self.sites@.len(),
                points@.len() == i,
                forall|j: int| 0 <= j < i ==> points@[j] == site_record(self@, j),
            decreases self.sites@.len() - i,
        {
            proof {
                lemma_site_coord(self.n as int, i as int);
            }
            let mut point = GridPoint::new((i % self.n) as isize, (i / self.n) as isize);
            point.occupied = self.sites[i];
            points.push(point);
            i = i + 1;
        }
        points
    }
}

} // verus!
