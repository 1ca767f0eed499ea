//! The walls of a three dimensional maze, as the faces to draw: each face
//! of a wall that looks at a cell that is no wall. A face takes the color
//! of the cell it looks at, when that cell has one, and then a draw group
//! of its own; otherwise it shares a group with the faces of its
//! orientation on the same plane.

use vstd::prelude::*;

use crate::maze::{Maze, MazeModel, U3, add_cell};
use crate::maze::cell::{Cell, area_cells, cell_count, valid_dim, coord};
use crate::maze::moves::spec_neighbours;
use crate::graphics::colors::Color;
use crate::graphics::primitives::{
    Primitive, GroupCounter, groups_from, counter_plus, usize_range, lemma_counter_plus,
};

verus! {

/// A face to draw: the face of wall `cell` toward `cell + offset`.
pub struct WallFace {
    pub cell: Cell,
    pub offset: Cell,
    pub color: Option<Color>,
    pub groups: Vec<u16>,
}

/// The faces of wall `c` toward the first `j` neighbours that are no
/// walls: `(c, offset)`.
pub open spec fn cell_faces(m: MazeModel, c: Cell, j: nat) -> Seq<(Cell, Cell)>
    decreases j,
{
    if j == 0 {
        seq![]
    } else {
        let dl = spec_neighbours(3)[j - 1];
        cell_faces(m, c, (j - 1) as nat) + if !m.walls.contains(add_cell(c, dl)) {
            seq![(c, dl)]
        } else {
            seq![]
        }
    }
}

/// The faces of the walls among the first `k` cells of the area.
pub open spec fn faces_upto(m: MazeModel, k: nat) -> Seq<(Cell, Cell)>
    decreases k,
{
    if k == 0 {
        seq![]
    } else {
        let c = area_cells(m.size, 3)[k - 1];
        faces_upto(m, (k - 1) as nat) + if m.walls.contains(c) {
            cell_faces(m, c, 6)
        } else {
            seq![]
        }
    }
}

/// The faces of the walls of the maze: the walls in the order of the area,
/// the faces of a wall in the order of the neighbours.
pub open spec fn wall_faces(m: MazeModel) -> Seq<(Cell, Cell)> {
    faces_upto(m, cell_count(m.size, 3) as nat)
}

/// The color of `c`: the first one given for it, if any.
pub open spec fn color_at(colors: Seq<(Cell, Color)>, c: Cell) -> Option<Color>
    decreases colors.len(),
{
    if colors.len() == 0 {
        None
    } else if colors[0].0 == c {
        Some(colors[0].1)
    } else {
        color_at(colors.drop_first(), c)
    }
}

/// The number of faces of `fs` that look at a colored cell.
pub open spec fn colored_count(colors: Seq<(Cell, Color)>, fs: Seq<(Cell, Cell)>) -> nat
    decreases fs.len(),
{
    if fs.len() == 0 {
        0
    } else {
        colored_count(colors, fs.drop_last()) + if color_at(
            colors,
            add_cell(fs.last().0, fs.last().1),
        ) is Some {
            1nat
        } else {
            0nat
        }
    }
}

/// The axis of an offset: the first coordinate that is not zero.
pub open spec fn orientation(dl: Cell) -> int {
    if dl.x != 0 {
        0
    } else if dl.y != 0 {
        1
    } else {
        2
    }
}

/// The shared group of the faces of orientation `o` on the plane of `c`.
pub open spec fn shared_index(c: Cell, o: int) -> int {
    if o == 0 {
        c.x * 3
    } else if o == 1 {
        c.y * 3 + 1
    } else {
        c.z * 3 + 2
    }
}

/// Faces share a group exactly when they have the same orientation and
/// their cells lie on the same plane across that orientation's axis: the
/// shared slot of orientation `o` depends on the cell's coordinate along
/// axis `o` alone, and slots of different orientations never meet.
pub proof fn lemma_shared_slots(c: Cell, d: Cell, o: int, p: int)
    requires
        0 <= o < 3,
        0 <= p < 3,
    ensures
        shared_index(c, o) == shared_index(d, p) <==> (o == p && coord(c, o) == coord(d, o)),
{
}

/// The axis of a neighbour offset is the axis it moves along.
pub proof fn lemma_orientation_of_neighbours(k: int)
    requires
        0 <= k < 6,
    ensures
        orientation(spec_neighbours(3)[k]) == k / 2,
        coord(spec_neighbours(3)[k], k / 2) != 0,
{
}

/// The number of shared groups: three per plane along the longest side.
pub open spec fn shared_count(size: Cell) -> int {
    let mx = if size.x >= size.y && size.x >= size.z {
        size.x
    } else if size.y >= size.z {
        size.y
    } else {
        size.z
    };
    mx * 3 + 3
}

/// The first color given for `c`.
fn find_color(colors: &Vec<(Cell, Color)>, c: &Cell) -> (r: Option<Color>)
    ensures
        r == color_at(colors@, *c),
{
    let mut i: usize = 0;
    assert(colors@.skip(0) =~= colors@);
    while i < colors.len()
        invariant
            i <= colors@.len(),
            color_at(colors@, *c) == color_at(colors@.skip(i as int), *c),
        decreases colors.len() - i,
    {
        if colors[i].0 == *c {
            return Some(colors[i].1);
        }
        assert(colors@.skip(i as int).drop_first() =~= colors@.skip(i + 1));
        i = i + 1;
    }
    None
}

/// `dl` moves by at most one on each axis.
pub open spec fn unit(dl: Cell) -> bool {
    -1 <= dl.x <= 1 && -1 <= dl.y <= 1 && -1 <= dl.z <= 1
}

/// The faces of the walls of the maze.
fn faces_of(maze: &Maze<U3>) -> (v: Vec<(Cell, Cell)>)
    requires
        maze.wf(),
    ensures
        v@ == wall_faces(maze@),
        forall|i: int| 0 <= i < v@.len() ==> maze@.walls.contains(#[trigger] v@[i].0),
        forall|i: int| 0 <= i < v@.len() ==> unit(#[trigger] v@[i].1),
{
    let ghost m = maze@;
    proof {
        maze.lemma_count_fits();
        maze.lemma_walls_inside();
    }
    let cells = maze.iterate_maze();
    let nbs = Maze::<U3>::neighbours();
    let mut v: Vec<(Cell, Cell)> = Vec::new();
    let mut k: usize = 0;
    while k < cells.len()
        invariant
            maze.wf(),
            m == maze@,
            cells@ == area_cells(m.size, 3),
            nbs@ == spec_neighbours(3),
            forall|c: Cell| #[trigger] m.walls.contains(c) ==> crate::maze::inside(m, 3, c),
            k <= cells@.len(),
            v@ == faces_upto(m, k as nat),
            forall|i: int| 0 <= i < v@.len() ==> m.walls.contains(#[trigger] v@[i].0),
            forall|i: int| 0 <= i < v@.len() ==> unit(#[trigger] v@[i].1),
        decreases cells.len() - k,
    {
        let c = cells[k];
        let ghost before = v@;
        if maze.contains(&c) {
            let mut j: usize = 0;
            while j < nbs.len()
                invariant
                    maze.wf(),
                    m == maze@,
                    nbs@ == spec_neighbours(3),
                    m.walls.contains(c),
                    crate::maze::inside(m, 3, c),
                    j <= 6,
                    v@ == before + cell_faces(m, c, j as nat),
                    forall|i: int| 0 <= i < before.len() ==> m.walls.contains(#[trigger] before[i].0),
                    forall|i: int| 0 <= i < v@.len() ==> m.walls.contains(#[trigger] v@[i].0),
                    forall|i: int| 0 <= i < v@.len() ==> unit(#[trigger] v@[i].1),
                decreases nbs.len() - j,
            {
                let dl = nbs[j];
                let n = c.add(&dl);
                assert(n == add_cell(c, dl));
                if !maze.contains(&n) {
                    v.push((c, dl));
                }
                assert(v@ =~= before + cell_faces(m, c, (j + 1) as nat));
                j = j + 1;
            }
        }
        assert(v@ =~= faces_upto(m, (k + 1) as nat));
        k = k + 1;
    }
    proof {
        assert(k == cell_count(m.size, 3));
    }
    v
}

/// The faces to draw for the walls of the maze, with their colors and
/// groups. First come the shared groups, three per plane along the longest
/// side of the maze; then each face that looks at a colored cell takes a
/// group of its own, in the order of the faces.
pub fn create_3d_maze_walls(colors: &Vec<(Cell, Color)>, maze: &Maze<U3>, counter: &mut GroupCounter) -> (v: Vec<WallFace>)
    requires
        maze.wf(),
        0 <= old(counter).value() < usize_range(),
        0 < shared_count(maze@.size) <= usize::MAX,
    ensures
        v@.len() == wall_faces(maze@).len(),
        forall|i: int| 0 <= i < v@.len() ==> {
            let f = wall_faces(maze@)[i];
            let color = color_at(colors@, add_cell(f.0, f.1));
            &&& (#[trigger] v@[i]).cell == f.0
            &&& v@[i].offset == f.1
            &&& v@[i].color == color
            &&& v@[i].groups@ == if color is Some {
                groups_from(
                    counter_plus(
                        old(counter).value(),
                        shared_count(maze@.size) + colored_count(colors@, wall_faces(maze@).take(i)),
                    ),
                    1,
                )
            } else {
                groups_from(counter_plus(old(counter).value(), shared_index(f.0, orientation(f.1))), 1)
            }
        },
        final(counter).value() == counter_plus(
            old(counter).value(),
            shared_count(maze@.size) + colored_count(colors@, wall_faces(maze@)),
        ),
        0 <= final(counter).value() < usize_range(),
        forall|i: int, j: int|
            0 <= i < v@.len() && 0 <= j < v@.len() && (#[trigger] v@[i]).color is None && (#[trigger] v@[j]).color
                is None && orientation(v@[i].offset) == orientation(v@[j].offset) && coord(
                v@[i].cell,
                orientation(v@[i].offset),
            ) == coord(v@[j].cell, orientation(v@[i].offset)) ==> v@[i].groups@ == v@[j].groups@,
{
    let ghost m = maze@;
    let ghost c0 = counter.value();
    let size = maze.size();
    let mx = if size.x >= size.y && size.x >= size.z {
        size.x
    } else if size.y >= size.z {
        size.y
    } else {
        size.z
    };
    let shared_n = (mx as usize) * 3 + 3;
    let shared = Primitive::Plane.reserve(counter, shared_n);
    let fs = faces_of(maze);
    proof {
        maze.lemma_walls_inside();
        maze.lemma_count_fits();
    }
    let mut v: Vec<WallFace> = Vec::new();
    let mut i: usize = 0;
    assert(fs@.take(0) =~= Seq::<(Cell, Cell)>::empty());
    while i < fs.len()
        invariant
            m == maze@,
            fs@ == wall_faces(m),
            forall|j: int| 0 <= j < fs@.len() ==> m.walls.contains(#[trigger] fs@[j].0),
            forall|j: int| 0 <= j < fs@.len() ==> unit(#[trigger] fs@[j].1),
            forall|c: Cell| #[trigger] m.walls.contains(c) ==> crate::maze::inside(m, 3, c),
            shared_n == shared_count(m.size),
            shared@.len() == shared_n,
            forall|j: int| 0 <= j < shared_n ==> (#[trigger] shared@[j])@ == groups_from(counter_plus(c0, j * 1), 1),
            0 <= c0 < usize_range(),
            0 <= counter.value() < usize_range(),
            counter.value() == counter_plus(c0, shared_n + colored_count(colors@, fs@.take(i as int))),
            i <= fs@.len(),
            v@.len() == i,
            forall|j: int| 0 <= j < i ==> {
                let f = fs@[j];
                let color = color_at(colors@, add_cell(f.0, f.1));
                &&& (#[trigger] v@[j]).cell == f.0
                &&& v@[j].offset == f.1
                &&& v@[j].color == color
                &&& v@[j].groups@ == if color is Some {
                    groups_from(counter_plus(c0, shared_n + colored_count(colors@, fs@.take(j))), 1)
                } else {
                    groups_from(counter_plus(c0, shared_index(f.0, orientation(f.1))), 1)
                }
            },
        decreases fs.len() - i,
    {
        let (cell, dl) = fs[i];
        assert(crate::maze::inside(m, 3, cell));
        assert(unit(fs@[i as int].1));
        let n = cell.add(&dl);
        let color = find_color(colors, &n);
        let ghost before = counter.value();
        proof {
            assert(fs@.take(i + 1).drop_last() =~= fs@.take(i as int));
        }
        let groups = match color {
            Some(_) => {
                let mut g = Primitive::Plane.reserve(counter, 1);
                let one = g.pop().unwrap();
                proof {
                    lemma_counter_plus(c0, shared_n + colored_count(colors@, fs@.take(i as int)), 1);
                    assert(one@ == groups_from(counter_plus(before, 0int * 1), 1));
                    vstd::arithmetic::div_mod::lemma_small_mod(before as nat, usize_range() as nat);
                }
                one
            },
            None => {
                let o: usize = if dl.x != 0 {
                    0
                } else if dl.y != 0 {
                    1
                } else {
                    2
                };
                let k: usize = if o == 0 {
                    (cell.x as usize) * 3
                } else if o == 1 {
                    (cell.y as usize) * 3 + 1
                } else {
                    (cell.z as usize) * 3 + 2
                };
                proof {
                    assert(k == shared_index(cell, orientation(dl)));
                }
                let s = &shared[k];
                s.clone()
            },
        };
        v.push(WallFace { cell, offset: dl, color, groups });
        i = i + 1;
    }
    proof {
        assert(fs@.take(fs@.len() as int) =~= fs@);
        assert forall|i: int, j: int|
            0 <= i < v@.len() && 0 <= j < v@.len() && (#[trigger] v@[i]).color is None && (#[trigger] v@[j]).color
                is None && orientation(v@[i].offset) == orientation(v@[j].offset) && coord(
                v@[i].cell,
                orientation(v@[i].offset),
            ) == coord(v@[j].cell, orientation(v@[i].offset)) implies v@[i].groups@ == v@[j].groups@ by {
            let o = orientation(v@[i].offset);
            lemma_shared_slots(v@[i].cell, v@[j].cell, o, o);
        }
    }
    v
}

} // verus!
