//! The lattice as a host sees it: one record per site, row after row.

use vstd::prelude::*;
use crate::lattice::{site_col, site_row, Lattice};

verus! {

/// One site of the lattice: its column `x`, its row `y`, and whether it is
/// open.
#[derive(Clone, Copy, Debug, PartialEq, Eq, Structural)]
pub struct GridPoint {
    pub x: isize,
    pub y: isize,
    pub occupied: bool,
}

impl GridPoint {
    /// The closed site in column `x` of row `y`.
    pub fn new(x: isize, y: isize) -> (point: GridPoint)
        ensures
            point == (GridPoint { x, y, occupied: false }),
    {
        GridPoint { x: x, y: y, occupied: false }
    }
}

/// The record of the site at place `index` of the lattice `v`.
pub open spec fn site_record(v: Lattice, index: int) -> GridPoint {
    GridPoint {
        x: site_col(v.n, index) as isize,
        y: site_row(v.n, index) as isize,
        occupied: v.is_open(site_row(v.n, index), site_col(v.n, index)),
    }
}

/// The records of all sites of the lattice `v`: the first row from left to
/// right, then the second, and so on.
pub open spec fn site_records(v: Lattice) -> Seq<GridPoint> {
    Seq::new((v.n * v.n) as nat, |index: int| site_record(v, index))
}

/// The records of all sites of a lattice, taken at one moment.
pub struct Universe {
    points: Vec<GridPoint>,
}

impl View for Universe {
    type V = Seq<GridPoint>;

    closed spec fn view(&self) -> Seq<GridPoint> {
        self.points@
    }
}

impl Universe {
    /// Keeps the records `points` as they are.
    pub fn new(points: Vec<GridPoint>) -> (universe: Universe)
        ensures
            universe@ == points@,
    {
        Universe { points }
    }

    /// The records, in the order in which they were taken.
    pub fn all_points(&self) -> (points: &Vec<GridPoint>)
        ensures
            points@ == self@,
    {
        &self.points
    }
}

} // verus!
