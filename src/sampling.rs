use vstd::prelude::*;
use crate::field::{GridModel, HeightMap};

verus! {

/// Where a point falls on the grid: the rows and columns just below and just
/// above it, and in which half of the cell it lies along each axis (`true`
/// for the upper half, a fractional offset of one half or more).
#[derive(Debug, Clone, Copy, PartialEq, Eq, Structural)]
pub struct GridCell {
    pub lon_floor: usize,
    pub lon_ceil: usize,
    pub lat_floor: usize,
    pub lat_ceil: usize,
    pub lon_upper: bool,
    pub lat_upper: bool,
}

/// The four samples around a grid cell.
#[derive(Debug, Clone, Copy, PartialEq, Eq, Structural)]
pub struct Neighbors {
    pub bottom_left: i16,
    pub bottom_right: i16,
    pub top_left: i16,
    pub top_right: i16,
}

/// The samples that a grid holds around `cell`.
pub open spec fn neighbors_of(m: GridModel, cell: GridCell) -> Neighbors {
    Neighbors {
        bottom_left: m.sample(cell.lat_floor as int, cell.lon_floor as int),
        bottom_right: m.sample(cell.lat_floor as int, cell.lon_ceil as int),
        top_left: m.sample(cell.lat_ceil as int, cell.lon_floor as int),
        top_right: m.sample(cell.lat_ceil as int, cell.lon_ceil as int),
    }
}

impl Neighbors {
    /// The corner of the quadrant that holds the point.
    pub open spec fn nearest_spec(self, lat_upper: bool, lon_upper: bool) -> i16 {
        if lat_upper {
            if lon_upper {
                self.top_right
            } else {
                self.top_left
            }
        } else {
            if lon_upper {
                self.bottom_right
            } else {
                self.bottom_left
            }
        }
    }

    /// Nearest-neighbour selection: the bottom pair below the middle of the
    /// cell, the top pair from it on, then left or right the same way.
    pub fn nearest(&self, lat_upper: bool, lon_upper: bool) -> (r: i16)
        ensures
            r == self.nearest_spec(lat_upper, lon_upper),
    {
        if !lat_upper {
            Self::nearest_horizontal(self.bottom_left, self.bottom_right, lon_upper)
        } else {
            Self::nearest_horizontal(self.top_left, self.top_right, lon_upper)
        }
    }

    fn nearest_horizontal(left: i16, right: i16, lon_upper: bool) -> (r: i16)
        ensures
            r == if lon_upper {
                right
            } else {
                left
            },
    {
        if !lon_upper {
            left
        } else {
            right
        }
    }
}

impl HeightMap {
    /// The four samples around `cell`.
    pub fn get_neighbors(&self, cell: &GridCell) -> (r: Neighbors)
        ensures
            r == neighbors_of(self@, *cell),
    {
        Neighbors {
            bottom_left: self.height_at(cell.lat_floor, cell.lon_floor),
            bottom_right: self.height_at(cell.lat_floor, cell.lon_ceil),
            top_left: self.height_at(cell.lat_ceil, cell.lon_floor),
            top_right: self.height_at(cell.lat_ceil, cell.lon_ceil),
        }
    }

    /// The raw sample that nearest-neighbour sampling picks for `cell`.
    pub fn nearest_at(&self, cell: &GridCell) -> (r: i16)
        ensures
            r == neighbors_of(self@, *cell).nearest_spec(cell.lat_upper, cell.lon_upper),
    {
        self.get_neighbors(cell).nearest(cell.lat_upper, cell.lon_upper)
    }
}

/// At a point that lies exactly on a grid sample all four neighbours are that
/// sample, so nearest-neighbour sampling returns it whatever the halves say.
pub proof fn lemma_grid_point_exact(m: GridModel, cell: GridCell)
    requires
        cell.lon_floor == cell.lon_ceil,
        cell.lat_floor == cell.lat_ceil,
    ensures
        ({
            let n = neighbors_of(m, cell);
            let s = m.sample(cell.lat_floor as int, cell.lon_floor as int);
            &&& n.bottom_left == s
            &&& n.bottom_right == s
            &&& n.top_left == s
            &&& n.top_right == s
            &&& n.nearest_spec(cell.lat_upper, cell.lon_upper) == s
        }),
{
}

} // verus!
