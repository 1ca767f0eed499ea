//! The neighbourhood of a cell and the moves ("openings") a path can make.

use vstd::prelude::*;

use super::cell::{Cell, spec_cell, valid_dim};

verus! {

/// A move to the cell at offset `cell`, of cost `cost`, possible when every
/// offset of `needs` is free.
pub struct Opening {
    pub cell: Cell,
    pub needs: Vec<Cell>,
    pub cost: isize,
}

pub struct OpeningModel {
    pub cell: Cell,
    pub needs: Seq<Cell>,
    pub cost: int,
}

impl Opening {
    pub open spec fn model(&self) -> OpeningModel {
        OpeningModel { cell: self.cell, needs: self.needs@, cost: self.cost as int }
    }
}

pub open spec fn openings_model(v: Seq<Opening>) -> Seq<OpeningModel> {
    v.map_values(|o: Opening| o.model())
}

/// Offsets of the cells sharing a face with a cell.
pub open spec fn spec_neighbours(dim: nat) -> Seq<Cell> {
    if dim == 2 {
        seq![spec_cell(-1, 0, 0), spec_cell(1, 0, 0), spec_cell(0, -1, 0), spec_cell(0, 1, 0)]
    } else {
        seq![
            spec_cell(-1, 0, 0),
            spec_cell(1, 0, 0),
            spec_cell(0, -1, 0),
            spec_cell(0, 1, 0),
            spec_cell(0, 0, -1),
            spec_cell(0, 0, 1),
        ]
    }
}

/// The offsets of the moves, in the order they are tried.
pub open spec fn spec_offsets(dim: nat) -> Seq<Cell> {
    if dim == 2 {
        seq![
            spec_cell(-1, 0, 0),
            spec_cell(1, 0, 0),
            spec_cell(0, -1, 0),
            spec_cell(0, 1, 0),
            spec_cell(-1, -1, 0),
            spec_cell(-1, 1, 0),
            spec_cell(1, -1, 0),
            spec_cell(1, 1, 0),
        ]
    } else {
        seq![
            spec_cell(-1, 0, 0),
            spec_cell(1, 0, 0),
            spec_cell(0, -1, 0),
            spec_cell(0, 1, 0),
            spec_cell(0, 0, -1),
            spec_cell(0, 0, 1),
            spec_cell(-1, -1, 0),
            spec_cell(-1, 1, 0),
            spec_cell(1, -1, 0),
            spec_cell(1, 1, 0),
            spec_cell(0, -1, -1),
            spec_cell(0, -1, 1),
            spec_cell(0, 1, -1),
            spec_cell(0, 1, 1),
            spec_cell(-1, 0, -1),
            spec_cell(-1, 0, 1),
            spec_cell(1, 0, -1),
            spec_cell(1, 0, 1),
            spec_cell(-1, -1, -1),
            spec_cell(1, 1, 1),
            spec_cell(-1, -1, 1),
            spec_cell(-1, 1, -1),
            spec_cell(1, -1, -1),
            spec_cell(-1, 1, 1),
            spec_cell(1, 1, -1),
            spec_cell(1, -1, 1),
        ]
    }
}

pub open spec fn nonzero(v: isize) -> int {
    if v != 0 {
        1
    } else {
        0
    }
}

/// Number of coordinates of an offset that are not 0.
pub open spec fn moved_axes(d: Cell) -> int {
    nonzero(d.x) + nonzero(d.y) + nonzero(d.z)
}

/// The move to offset `d`: a straight move (cost 10) needs its target free;
/// a move along two axes (cost 15) needs the two straight moves it combines
/// and its target; a move along three axes (cost 17) needs the moves along
/// x, y, x+y, x+z, y+z and its target (listed twice).
pub open spec fn opening_model(d: Cell) -> OpeningModel {
    let ux = spec_cell(d.x as int, 0, 0);
    let uy = spec_cell(0, d.y as int, 0);
    let uz = spec_cell(0, 0, d.z as int);
    if moved_axes(d) == 1 {
        OpeningModel { cell: d, needs: seq![d], cost: 10 }
    } else if moved_axes(d) == 2 {
        let units = if d.x == 0 {
            seq![uy, uz]
        } else if d.y == 0 {
            seq![ux, uz]
        } else {
            seq![ux, uy]
        };
        OpeningModel { cell: d, needs: units.push(d), cost: 15 }
    } else {
        OpeningModel {
            cell: d,
            needs: seq![
                ux,
                uy,
                spec_cell(d.x as int, d.y as int, 0),
                spec_cell(d.x as int, 0, d.z as int),
                spec_cell(0, d.y as int, d.z as int),
                d,
                d,
            ],
            cost: 17,
        }
    }
}

/// What a move to offset `d` needs free: its target, the straight move
/// along x when it changes x, and the straight move along y when it
/// changes y.
proof fn lemma_opening_needs(d: Cell)
    ensures
        opening_model(d).cell == d,
        opening_model(d).needs.contains(d),
        d.x != 0 ==> opening_model(d).needs.contains(spec_cell(d.x as int, 0, 0)),
        d.y != 0 ==> opening_model(d).needs.contains(spec_cell(0, d.y as int, 0)),
{
    let o = opening_model(d);
    let ux = spec_cell(d.x as int, 0, 0);
    let uy = spec_cell(0, d.y as int, 0);
    let uz = spec_cell(0, 0, d.z as int);
    if moved_axes(d) == 1 {
        assert(o.needs[0] == d);
        if d.x != 0 {
            assert(d == ux);
        }
        if d.y != 0 {
            assert(d == uy);
        }
    } else if moved_axes(d) == 2 {
        assert(o.needs[2] == d);
        if d.x == 0 {
            assert(o.needs[0] == uy);
        } else if d.y == 0 {
            assert(o.needs[0] == ux);
        } else {
            assert(o.needs[0] == ux);
            assert(o.needs[1] == uy);
        }
    } else {
        assert(o.needs[0] == ux);
        assert(o.needs[1] == uy);
        assert(o.needs[5] == d);
    }
}

/// The moves of a maze of dimension `dim`.
pub open spec fn spec_openings(dim: nat) -> Seq<OpeningModel> {
    spec_offsets(dim).map_values(|d: Cell| opening_model(d))
}

pub fn neighbour_offsets(dim: usize) -> (v: Vec<Cell>)
    requires
        valid_dim(dim as nat),
    ensures
        v@ == spec_neighbours(dim as nat),
{
    let mut v: Vec<Cell> = Vec::new();
    v.push(Cell::new(-1, 0, 0));
    v.push(Cell::new(1, 0, 0));
    v.push(Cell::new(0, -1, 0));
    v.push(Cell::new(0, 1, 0));
    if dim == 3 {
        v.push(Cell::new(0, 0, -1));
        v.push(Cell::new(0, 0, 1));
    }
    proof {
        assert(v@ =~= spec_neighbours(dim as nat));
    }
    v
}

fn move_offsets(dim: usize) -> (v: Vec<Cell>)
    requires
        valid_dim(dim as nat),
    ensures
        v@ == spec_offsets(dim as nat),
{
    let mut v: Vec<Cell> = Vec::new();
    if dim == 2 {
        v.push(Cell::new(-1, 0, 0));
        v.push(Cell::new(1, 0, 0));
        v.push(Cell::new(0, -1, 0));
        v.push(Cell::new(0, 1, 0));
        v.push(Cell::new(-1, -1, 0));
        v.push(Cell::new(-1, 1, 0));
        v.push(Cell::new(1, -1, 0));
        v.push(Cell::new(1, 1, 0));
    } else {
        v.push(Cell::new(-1, 0, 0));
        v.push(Cell::new(1, 0, 0));
        v.push(Cell::new(0, -1, 0));
        v.push(Cell::new(0, 1, 0));
        v.push(Cell::new(0, 0, -1));
        v.push(Cell::new(0, 0, 1));
        v.push(Cell::new(-1, -1, 0));
        v.push(Cell::new(-1, 1, 0));
        v.push(Cell::new(1, -1, 0));
        v.push(Cell::new(1, 1, 0));
        v.push(Cell::new(0, -1, -1));
        v.push(Cell::new(0, -1, 1));
        v.push(Cell::new(0, 1, -1));
        v.push(Cell::new(0, 1, 1));
        v.push(Cell::new(-1, 0, -1));
        v.push(Cell::new(-1, 0, 1));
        v.push(Cell::new(1, 0, -1));
        v.push(Cell::new(1, 0, 1));
        v.push(Cell::new(-1, -1, -1));
        v.push(Cell::new(1, 1, 1));
        v.push(Cell::new(-1, -1, 1));
        v.push(Cell::new(-1, 1, -1));
        v.push(Cell::new(1, -1, -1));
        v.push(Cell::new(-1, 1, 1));
        v.push(Cell::new(1, 1, -1));
        v.push(Cell::new(1, -1, 1));
    }
    proof {
        assert(v@ =~= spec_offsets(dim as nat));
    }
    v
}

fn make_opening(d: Cell) -> (o: Opening)
    requires
        -1 <= d.x <= 1,
        -1 <= d.y <= 1,
        -1 <= d.z <= 1,
        moved_axes(d) >= 1,
    ensures
        o.model() == opening_model(d),
{
    let axes = (if d.x != 0 {
        1usize
    } else {
        0
    }) + (if d.y != 0 {
        1usize
    } else {
        0
    }) + (if d.z != 0 {
        1usize
    } else {
        0
    });
    let ux = Cell::new(d.x, 0, 0);
    let uy = Cell::new(0, d.y, 0);
    let uz = Cell::new(0, 0, d.z);
    let mut needs: Vec<Cell> = Vec::new();
    if axes == 1 {
        needs.push(d);
        proof {
            assert(needs@ =~= opening_model(d).needs);
        }
        Opening { cell: d, needs, cost: 10 }
    } else if axes == 2 {
        if d.x == 0 {
            needs.push(uy);
            needs.push(uz);
        } else if d.y == 0 {
            needs.push(ux);
            needs.push(uz);
        } else {
            needs.push(ux);
            needs.push(uy);
        }
        needs.push(d);
        proof {
            assert(needs@ =~= opening_model(d).needs);
        }
        Opening { cell: d, needs, cost: 15 }
    } else {
        needs.push(ux);
        needs.push(uy);
        needs.push(Cell::new(d.x, d.y, 0));
        needs.push(Cell::new(d.x, 0, d.z));
        needs.push(Cell::new(0, d.y, d.z));
        needs.push(d);
        needs.push(d);
        proof {
            assert(needs@ =~= opening_model(d).needs);
        }
        Opening { cell: d, needs, cost: 17 }
    }
}

pub fn opening_moves(dim: usize) -> (v: Vec<Opening>)
    requires
        valid_dim(dim as nat),
    ensures
        openings_model(v@) == spec_openings(dim as nat),
{
    let offsets = move_offsets(dim);
    let mut v: Vec<Opening> = Vec::new();
    let mut i: usize = 0;
    while i < offsets.len()
        invariant
            offsets@ == spec_offsets(dim as nat),
            valid_dim(dim as nat),
            i <= offsets.len(),
            v@.len() == i,
            forall|j: int| 0 <= j < i ==> #[trigger] v@[j].model() == opening_model(offsets@[j]),
        decreases offsets.len() - i,
    {
        let d = offsets[i];
        proof {
            assert(-1 <= d.x <= 1 && -1 <= d.y <= 1 && -1 <= d.z <= 1 && moved_axes(d) >= 1);
        }
        v.push(make_opening(d));
        i = i + 1;
    }
    proof {
        assert(openings_model(v@) =~= spec_openings(dim as nat));
    }
    v
}

/// Every move needs its target free; a move that changes x needs the
/// straight move along x free too, and one that changes y the straight
/// move along y: a diagonal move never cuts past a wall on those faces.
pub proof fn lemma_moves_need_straight(dim: nat, k: int)
    requires
        valid_dim(dim),
        0 <= k < spec_openings(dim).len(),
    ensures
        spec_openings(dim)[k].needs.contains(spec_openings(dim)[k].cell),
        spec_openings(dim)[k].cell.x != 0 ==> spec_openings(dim)[k].needs.contains(
            spec_cell(spec_openings(dim)[k].cell.x as int, 0, 0),
        ),
        spec_openings(dim)[k].cell.y != 0 ==> spec_openings(dim)[k].needs.contains(
            spec_cell(0, spec_openings(dim)[k].cell.y as int, 0),
        ),
{
    lemma_opening_needs(spec_offsets(dim)[k]);
}

} // verus!
