//! Grid mazes in two or three dimensions.
//!
//! A maze is an area `[0, size)` of cells, some of which are walls. Cells
//! outside the area are never walls.

pub mod cell;
pub mod moves;
pub mod zones;
pub mod fill;
pub mod search;
pub mod kruskal;

use vstd::prelude::*;
use core::marker::PhantomData;

pub use self::cell::{Cell, Dimension, U2, U3};
use self::cell::{
    in_area, cell_index, cell_count, index_cell, area_cells, valid_dim, spec_cell, extent,
    lemma_cell_index, lemma_index_cell, count_cells, index_of_cell, cell_of_index,
};
use self::moves::{
    Opening, spec_neighbours, spec_openings, openings_model, neighbour_offsets, opening_moves,
};

verus! {

/// What a maze is: its size and its set of walls.
pub struct MazeModel {
    pub size: Cell,
    pub walls: Set<Cell>,
}

/// A maze of dimension `D`.
pub struct Maze<D> {
    size: Cell,
    grid: Vec<bool>,
    openings: Vec<Opening>,
    neighbours: Vec<Cell>,
    marker: PhantomData<D>,
}

impl<D: Dimension> View for Maze<D> {
    type V = MazeModel;

    closed spec fn view(&self) -> MazeModel {
        MazeModel {
            size: self.size,
            walls: Set::new(
                |c: Cell|
                    in_area(self.size, D::spec_dim(), c) && self.grid@[cell_index(
                        self.size,
                        D::spec_dim(),
                        c,
                    )],
            ),
        }
    }
}

/// `c` is a cell of the area of `m`.
pub open spec fn inside(m: MazeModel, dim: nat, c: Cell) -> bool {
    in_area(m.size, dim, c)
}

/// `c` is a cell of the area of `m` that is not a wall.
pub open spec fn free(m: MazeModel, dim: nat, c: Cell) -> bool {
    inside(m, dim, c) && !m.walls.contains(c)
}

/// `c` has a coordinate on the first or the last row of the area.
pub open spec fn on_border(size: Cell, dim: nat, c: Cell) -> bool {
    ||| c.x == 0
    ||| c.x == size.x - 1
    ||| c.y == 0
    ||| c.y == size.y - 1
    ||| (dim == 3 && (c.z == 0 || c.z == size.z - 1))
}

/// Every cell on the border of the area is a wall.
pub open spec fn circled(m: MazeModel, dim: nat) -> bool {
    forall|c: Cell| inside(m, dim, c) && on_border(m.size, dim, c) ==> #[trigger] m.walls.contains(c)
}

/// `a < b` on every coordinate of the dimension.
pub open spec fn lt_dims(a: Cell, b: Cell, dim: nat) -> bool {
    a.x < b.x && a.y < b.y && (dim == 3 ==> a.z < b.z)
}

/// The vector `(s, s)` or `(s, s, s)`.
pub open spec fn diagonal(s: int, dim: nat) -> Cell {
    spec_cell(s, s, if dim == 3 { s } else { 0 })
}

pub open spec fn sub_cell(a: Cell, b: Cell) -> Cell {
    spec_cell(a.x - b.x, a.y - b.y, a.z - b.z)
}

pub open spec fn add_cell(a: Cell, b: Cell) -> Cell {
    spec_cell(a.x + b.x, a.y + b.y, a.z + b.z)
}

/// `a <= b` on every coordinate of the dimension.
pub open spec fn le_dims(a: Cell, b: Cell, dim: nat) -> bool {
    a.x <= b.x && a.y <= b.y && (dim == 3 ==> a.z <= b.z)
}

/// `r` is `m` shrunk by `size` cells on every side: the outer ring of
/// width `size` is cut off, and the walls inside it, from `(size, ..)` up
/// to below `m.size - (size, ..)`, are kept, moved by `-(size, ..)`.
pub open spec fn reduced(m: MazeModel, r: MazeModel, dim: nat, size: int) -> bool {
    &&& r.size == sub_cell(m.size, diagonal(2 * size, dim))
    &&& forall|c: Cell| #[trigger]
        r.walls.contains(c) <==> exists|w: Cell|
            {
                &&& #[trigger] m.walls.contains(w)
                &&& le_dims(diagonal(size, dim), w, dim)
                &&& lt_dims(w, sub_cell(m.size, diagonal(size, dim)), dim)
                &&& c == sub_cell(w, diagonal(size, dim))
            }
}

/// `k` is `m` with every cell on the border of the area made a wall.
pub open spec fn circled_from(m: MazeModel, k: MazeModel, dim: nat) -> bool {
    &&& k.size == m.size
    &&& forall|c: Cell| #[trigger]
        k.walls.contains(c) <==> (m.walls.contains(c) || (inside(m, dim, c) && on_border(m.size, dim, c)))
}

/// Reducing by one cell forgets the border: a maze and the same maze
/// circled reduce to the same maze.
pub proof fn lemma_reduce_forgets_circle(m: MazeModel, k: MazeModel, r1: MazeModel, r2: MazeModel, dim: nat)
    requires
        valid_dim(dim),
        circled_from(m, k, dim),
        reduced(m, r1, dim, 1),
        reduced(k, r2, dim, 1),
    ensures
        r1.size == r2.size,
        r1.walls == r2.walls,
{
    let d = diagonal(1, dim);
    assert forall|c: Cell| r1.walls.contains(c) <==> r2.walls.contains(c) by {
        if r1.walls.contains(c) {
            let w = choose|w: Cell|
                {
                    &&& #[trigger] m.walls.contains(w)
                    &&& le_dims(d, w, dim)
                    &&& lt_dims(w, sub_cell(m.size, d), dim)
                    &&& c == sub_cell(w, d)
                };
            assert(k.walls.contains(w));
        }
        if r2.walls.contains(c) {
            let w = choose|w: Cell|
                {
                    &&& #[trigger] k.walls.contains(w)
                    &&& le_dims(d, w, dim)
                    &&& lt_dims(w, sub_cell(k.size, d), dim)
                    &&& c == sub_cell(w, d)
                };
            assert(!on_border(m.size, dim, w));
            assert(m.walls.contains(w));
        }
    }
    assert(r1.walls =~= r2.walls);
}

impl<D: Dimension> Maze<D> {
    /// The maze's own consistency.
    pub closed spec fn wf(&self) -> bool {
        &&& self.grid@.len() == cell_count(self.size, D::spec_dim())
        &&& cell_count(self.size, D::spec_dim()) <= usize::MAX
        &&& self.neighbours@ == spec_neighbours(D::spec_dim())
        &&& openings_model(self.openings@) == spec_openings(D::spec_dim())
    }

    proof fn lemma_walls(&self, c: Cell)
        requires
            self.wf(),
        ensures
            valid_dim(D::spec_dim()),
            self@.walls.contains(c) <==> (in_area(self.size, D::spec_dim(), c)
                && self.grid@[cell_index(self.size, D::spec_dim(), c)]),
            self@.size == self.size,
            in_area(self.size, D::spec_dim(), c) ==> 0 <= cell_index(self.size, D::spec_dim(), c)
                < self.grid@.len(),
    {
        D::lemma_dim();
        if in_area(self.size, D::spec_dim(), c) {
            lemma_cell_index(self.size, D::spec_dim(), c);
        }
    }

    /// Coordinates of cells of the area are far from the integer limits.
    proof fn lemma_size_bounds(&self, c: Cell)
        requires
            self.wf(),
            inside(self@, D::spec_dim(), c),
        ensures
            isize::MIN < c.x < isize::MAX,
            isize::MIN < c.y < isize::MAX,
            isize::MIN < c.z < isize::MAX,
    {
        D::lemma_dim();
        self.lemma_walls(c);
    }

    proof fn lemma_openings(&self)
        requires
            self.wf(),
        ensures
            self.openings@.len() == spec_openings(D::spec_dim()).len(),
            forall|j: int|
                0 <= j < self.openings@.len() ==> #[trigger] self.openings@[j].model()
                    == spec_openings(D::spec_dim())[j],
    {
        assert forall|j: int| 0 <= j < self.openings@.len() implies #[trigger] self.openings@[j].model()
            == spec_openings(D::spec_dim())[j] by {
            assert(openings_model(self.openings@)[j] == self.openings@[j].model());
        }
    }

    /// The cells of a maze fit in memory.
    pub proof fn lemma_count_fits(&self)
        requires
            self.wf(),
        ensures
            cell_count(self@.size, D::spec_dim()) <= usize::MAX,
            valid_dim(D::spec_dim()),
    {
        D::lemma_dim();
    }

    /// Only cells of the area are walls.
    pub proof fn lemma_walls_inside(&self)
        requires
            self.wf(),
        ensures
            forall|c: Cell| #[trigger] self@.walls.contains(c) ==> inside(self@, D::spec_dim(), c),
    {
    }

    /// Number of cells of the area.
    fn grid_len(&self) -> (n: usize)
        requires
            self.wf(),
        ensures
            n == cell_count(self@.size, D::spec_dim()),
    {
        self.grid.len()
    }

    /// A maze whose walls are the cells of the area whose number is marked
    /// in `grid`.
    pub(crate) fn from_grid(size: Cell, grid: Vec<bool>) -> (m: Self)
        requires
            grid@.len() == cell_count(size, D::spec_dim()),
            cell_count(size, D::spec_dim()) <= usize::MAX,
        ensures
            m.wf(),
            m@.size == size,
            m@.walls == Set::new(
                |c: Cell| in_area(size, D::spec_dim(), c) && grid@[cell_index(size, D::spec_dim(), c)],
            ),
    {
        Maze {
            size,
            grid,
            openings: Self::openings(),
            neighbours: Self::neighbours(),
            marker: PhantomData,
        }
    }

    /// A maze of the given size whose walls are the given cells that lie in
    /// its area.
    pub fn with_walls(size: Cell, walls: &Vec<Cell>) -> (m: Self)
        requires
            cell_count(size, D::spec_dim()) <= usize::MAX,
        ensures
            m.wf(),
            m@.size == size,
            forall|c: Cell| #[trigger]
                m@.walls.contains(c) <==> (in_area(size, D::spec_dim(), c) && walls@.contains(c)),
    {
        proof {
            D::lemma_dim();
        }
        let dim = D::dim();
        let count = match count_cells(&size, dim) {
            Some(n) => n,
            None => 0,
        };
        let mut grid: Vec<bool> = Vec::new();
        let mut k: usize = 0;
        while k < count
            invariant
                valid_dim(dim as nat),
                dim as nat == D::spec_dim(),
                count == cell_count(size, dim as nat),
                k <= count,
                grid@.len() == k,
                forall|j: int| 0 <= j < k ==> grid@[j] == false,
            decreases count - k,
        {
            grid.push(false);
            k = k + 1;
        }
        let mut m = Maze {
            size,
            grid,
            openings: Self::openings(),
            neighbours: Self::neighbours(),
            marker: PhantomData,
        };
        proof {
            assert forall|c: Cell| !m@.walls.contains(c) by {
                m.lemma_walls(c);
            }
        }
        let mut i: usize = 0;
        while i < walls.len()
            invariant
                m.wf(),
                m.size == size,
                valid_dim(dim as nat),
                dim as nat == D::spec_dim(),
                count == cell_count(size, dim as nat),
                i <= walls.len(),
                forall|c: Cell| #[trigger]
                    m@.walls.contains(c) <==> (in_area(size, D::spec_dim(), c) && exists|j: int|
                        0 <= j < i && #[trigger] walls@[j] == c),
            decreases walls.len() - i,
        {
            let c = walls[i];
            if m.in_maze(&c) {
                m.set_wall(&c, true);
            }
            proof {
                assert forall|d: Cell| #[trigger]
                    m@.walls.contains(d) <==> (in_area(size, D::spec_dim(), d) && exists|j: int|
                        0 <= j < i + 1 && #[trigger] walls@[j] == d) by {
                    if d == c {
                        assert(walls@[i as int] == d);
                    }
                }
            }
            i = i + 1;
        }
        proof {
            assert forall|c: Cell| #[trigger]
                m@.walls.contains(c) <==> (in_area(size, D::spec_dim(), c) && walls@.contains(c)) by {
                if walls@.contains(c) {
                    let j = choose|j: int| 0 <= j < walls@.len() && walls@[j] == c;
                    assert(walls@[j] == c);
                }
            }
        }
        m
    }

    /// The size of the maze.
    pub fn size(&self) -> (s: Cell)
        ensures
            s == self@.size,
    {
        self.size
    }

    /// `c` lies in the area of the maze.
    pub fn in_maze(&self, c: &Cell) -> (b: bool)
        requires
            self.wf(),
        ensures
            b == inside(self@, D::spec_dim(), *c),
    {
        proof {
            D::lemma_dim();
        }
        if D::dim() == 3 {
            0 <= c.x && c.x < self.size.x && 0 <= c.y && c.y < self.size.y && 0 <= c.z && c.z
                < self.size.z
        } else {
            0 <= c.x && c.x < self.size.x && 0 <= c.y && c.y < self.size.y && c.z == 0
        }
    }

    /// `c` is a wall of the maze.
    pub fn contains(&self, c: &Cell) -> (b: bool)
        requires
            self.wf(),
        ensures
            b == self@.walls.contains(*c),
    {
        proof {
            self.lemma_walls(*c);
        }
        if self.in_maze(c) {
            let k = index_of_cell(&self.size, D::dim(), self.grid.len(), c);
            self.grid[k]
        } else {
            false
        }
    }

    /// Makes `c` a wall (`wall == true`) or a free cell.
    pub fn set_wall(&mut self, c: &Cell, wall: bool)
        requires
            old(self).wf(),
            inside(old(self)@, D::spec_dim(), *c),
        ensures
            final(self).wf(),
            final(self)@.size == old(self)@.size,
            final(self)@.walls == (if wall {
                old(self)@.walls.insert(*c)
            } else {
                old(self)@.walls.remove(*c)
            }),
    {
        proof {
            self.lemma_walls(*c);
        }
        let k = index_of_cell(&self.size, D::dim(), self.grid.len(), c);
        self.grid.set(k, wall);
        proof {
            let dim = D::spec_dim();
            let new_walls = if wall {
                old(self)@.walls.insert(*c)
            } else {
                old(self)@.walls.remove(*c)
            };
            assert forall|d: Cell| #[trigger] self@.walls.contains(d) == new_walls.contains(d) by {
                old(self).lemma_walls(d);
                self.lemma_walls(d);
                if in_area(self.size, dim, d) && d != *c {
                    lemma_cell_index(self.size, dim, d);
                    lemma_cell_index(self.size, dim, *c);
                }
            }
            assert(self@.walls =~= new_walls);
        }
    }

    /// The walls of the maze, in the iteration order of its area.
    pub fn walls(&self) -> (v: Vec<Cell>)
        requires
            self.wf(),
        ensures
            v@.no_duplicates(),
            forall|c: Cell| #[trigger] v@.contains(c) <==> self@.walls.contains(c),
    {
        proof {
            D::lemma_dim();
        }
        let dim = D::dim();
        let count = self.grid.len();
        let mut v: Vec<Cell> = Vec::new();
        let mut k: usize = 0;
        while k < count
            invariant
                self.wf(),
                valid_dim(dim as nat),
                dim as nat == D::spec_dim(),
                count == self.grid@.len(),
                count == cell_count(self.size, dim as nat),
                k <= count,
                v@.no_duplicates(),
                forall|j: int|
                    0 <= j < v@.len() ==> #[trigger] cell_index(self.size, dim as nat, v@[j]) < k
                        && self@.walls.contains(v@[j]),
                forall|j: int|
                    0 <= j < k && self.grid@[j] ==> v@.contains(
                        #[trigger] index_cell(self.size, dim as nat, j),
                    ),
            decreases count - k,
        {
            let c = cell_of_index(&self.size, dim, count, k);
            proof {
                lemma_index_cell(self.size, dim as nat, k as int);
                self.lemma_walls(c);
            }
            if self.grid[k] {
                proof {
                    assert forall|j: int| 0 <= j < v@.len() implies v@[j] != c by {
                        assert(cell_index(self.size, dim as nat, v@[j]) < k);
                    }
                }
                let ghost old_v = v@;
                v.push(c);
                proof {
                    assert(cell_index(self.size, dim as nat, c) == k);
                    assert(self@.walls.contains(c));
                    assert forall|j: int|
                        0 <= j < v@.len() implies #[trigger] cell_index(self.size, dim as nat, v@[j]) < k + 1
                            && self@.walls.contains(v@[j]) by {
                        if j < old_v.len() {
                            assert(v@[j] == old_v[j]);
                        }
                    }
                    assert forall|j: int|
                        0 <= j < k + 1 && self.grid@[j] implies v@.contains(
                        #[trigger] index_cell(self.size, dim as nat, j),
                    ) by {
                        if j < k {
                            assert(old_v.contains(index_cell(self.size, dim as nat, j)));
                            let i = choose|i: int|
                                0 <= i < old_v.len() && old_v[i] == index_cell(
                                    self.size,
                                    dim as nat,
                                    j,
                                );
                            assert(v@[i] == old_v[i]);
                        } else {
                            assert(v@[v@.len() - 1] == c);
                        }
                    }
                }
            }
            k = k + 1;
        }
        proof {
            assert forall|c: Cell| #[trigger] v@.contains(c) <==> self@.walls.contains(c) by {
                self.lemma_walls(c);
                if self@.walls.contains(c) {
                    lemma_cell_index(self.size, dim as nat, c);
                    assert(self.grid@[cell_index(self.size, dim as nat, c)]);
                }
            }
        }
        v
    }

    /// Checks that the maze is a square (or a cube); panics otherwise.
    pub fn assert_square(&self)
        requires
            self@.size.y == self@.size.x,
            D::spec_dim() == 3 ==> self@.size.z == self@.size.x,
    {
    }

    /// Checks that every wall lies below the size of the maze.
    pub fn check(&self)
        requires
            self.wf(),
        ensures
            forall|c: Cell|
                self@.walls.contains(c) ==> lt_dims(c, self@.size, D::spec_dim()),
    {
        proof {
            assert forall|c: Cell| self@.walls.contains(c) implies lt_dims(
                c,
                self@.size,
                D::spec_dim(),
            ) by {
                self.lemma_walls(c);
            }
        }
    }

    /// The two dimensional cell `(x, y)`.
    pub fn new_vec2(x: isize, y: isize) -> (c: Cell)
        ensures
            c == (Cell { x, y, z: 0 }),
    {
        Cell { x, y, z: 0 }
    }

    /// The three dimensional cell `(x, y, z)`.
    pub fn new_vec3(x: isize, y: isize, z: isize) -> (c: Cell)
        ensures
            c == (Cell { x, y, z }),
    {
        Cell { x, y, z }
    }

    /// The offsets of the cells adjacent to a cell.
    pub fn neighbours() -> (v: Vec<Cell>)
        ensures
            v@ == spec_neighbours(D::spec_dim()),
    {
        proof {
            D::lemma_dim();
        }
        if D::dim() == 2 {
            neighbour_offsets(2)
        } else {
            neighbour_offsets(3)
        }
    }

    /// The moves a path can make from a cell, with the cells they need free.
    pub fn openings() -> (v: Vec<Opening>)
        ensures
            openings_model(v@) == spec_openings(D::spec_dim()),
    {
        proof {
            D::lemma_dim();
        }
        if D::dim() == 2 {
            opening_moves(2)
        } else {
            opening_moves(3)
        }
    }

    /// All cells of the area `[0, size)`, x slowest and z fastest.
    pub fn iterate_area(size: &Cell) -> (v: Vec<Cell>)
        requires
            cell_count(*size, D::spec_dim()) <= usize::MAX,
        ensures
            v@ == area_cells(*size, D::spec_dim()),
    {
        proof {
            D::lemma_dim();
        }
        let dim = D::dim();
        let count = match count_cells(size, dim) {
            Some(n) => n,
            None => 0,
        };
        let mut v: Vec<Cell> = Vec::new();
        let mut k: usize = 0;
        while k < count
            invariant
                valid_dim(dim as nat),
                dim as nat == D::spec_dim(),
                count == cell_count(*size, dim as nat),
                k <= count,
                v@ == area_cells(*size, dim as nat).take(k as int),
            decreases count - k,
        {
            let c = cell_of_index(size, dim, count, k);
            v.push(c);
            k = k + 1;
            proof {
                assert(v@ =~= area_cells(*size, dim as nat).take(k as int));
            }
        }
        proof {
            assert(v@ =~= area_cells(*size, dim as nat));
        }
        v
    }

    /// All cells of the maze's area, in iteration order.
    pub fn iterate_maze(&self) -> (v: Vec<Cell>)
        requires
            self.wf(),
        ensures
            v@ == area_cells(self@.size, D::spec_dim()),
    {
        Self::iterate_area(&self.size)
    }

    /// Makes every cell on the border of the area a wall.
    pub fn circle(&mut self)
        requires
            old(self).wf(),
        ensures
            final(self).wf(),
            final(self)@.size == old(self)@.size,
            circled_from(old(self)@, final(self)@, D::spec_dim()),
            circled(final(self)@, D::spec_dim()),
    {
        proof {
            D::lemma_dim();
        }
        let dim = D::dim();
        let count = self.grid.len();
        let ghost old_grid = self.grid@;
        let mut k: usize = 0;
        while k < count
            invariant
                self.wf(),
                self.size == old(self).size,
                valid_dim(dim as nat),
                dim as nat == D::spec_dim(),
                count == self.grid@.len(),
                count == cell_count(self.size, dim as nat),
                old_grid == old(self).grid@,
                k <= count,
                forall|j: int|
                    0 <= j < count ==> #[trigger] self.grid@[j] == (old_grid[j] || (j < k
                        && on_border(self.size, dim as nat, index_cell(self.size, dim as nat, j)))),
            decreases count - k,
        {
            let c = cell_of_index(&self.size, dim, count, k);
            let border = c.x == 0 || c.x == self.size.x - 1 || c.y == 0 || c.y == self.size.y - 1
                || (dim == 3 && (c.z == 0 || c.z == self.size.z - 1));
            if border {
                self.grid.set(k, true);
            }
            k = k + 1;
        }
        proof {
            assert forall|c: Cell| #[trigger]
                self@.walls.contains(c) <==> (old(self)@.walls.contains(c) || (inside(
                    old(self)@,
                    D::spec_dim(),
                    c,
                ) && on_border(old(self)@.size, D::spec_dim(), c))) by {
                self.lemma_walls(c);
                old(self).lemma_walls(c);
                if in_area(self.size, dim as nat, c) {
                    lemma_cell_index(self.size, dim as nat, c);
                }
            }
        }
    }

    /// Removes the circle of the maze: shrinks it by `size` cells on every
    /// side; the walls of the outer ring of width `size` are dropped, the
    /// others are kept and moved by `-(size, ..)`.
    pub fn reduce(&mut self, size: isize)
        requires
            old(self).wf(),
            size > 0,
            2 * size <= isize::MAX,
            old(self)@.size.x - 2 * size >= isize::MIN,
            old(self)@.size.y - 2 * size >= isize::MIN,
            D::spec_dim() == 3 ==> old(self)@.size.z - 2 * size >= isize::MIN,
        ensures
            final(self).wf(),
            reduced(old(self)@, final(self)@, D::spec_dim(), size as int),
    {
        proof {
            D::lemma_dim();
        }
        let dim = D::dim();
        let dz: isize = if dim == 3 {
            size
        } else {
            0
        };
        let dl = Cell { x: size, y: size, z: dz };
        let new_size = Cell {
            x: self.size.x - 2 * size,
            y: self.size.y - 2 * size,
            z: self.size.z - 2 * dz,
        };
        proof {
            lemma_cell_count_shrinks(self.size, new_size, dim as nat);
        }
        let new_count = match count_cells(&new_size, dim) {
            Some(n) => n,
            None => 0,
        };
        let old_count = self.grid.len();
        let mut new_grid: Vec<bool> = Vec::new();
        let mut k: usize = 0;
        while k < new_count
            invariant
                self.wf(),
                valid_dim(dim as nat),
                dim as nat == D::spec_dim(),
                new_count == cell_count(new_size, dim as nat),
                old_count == self.grid@.len(),
                old_count == cell_count(self.size, dim as nat),
                dl == diagonal(size as int, dim as nat),
                dl.x == size && dl.y == size && dl.z == (if dim == 3 { size } else { 0 }),
                new_size.x == self.size.x - 2 * size,
                new_size.y == self.size.y - 2 * size,
                new_size.z == self.size.z - 2 * dl.z,
                size > 0,
                2 * size <= isize::MAX,
                k <= new_count,
                new_grid@.len() == k,
                forall|j: int|
                    0 <= j < k ==> #[trigger] new_grid@[j] == self@.walls.contains(
                        add_cell(index_cell(new_size, dim as nat, j), dl),
                    ),
            decreases new_count - k,
        {
            let c = cell_of_index(&new_size, dim, new_count, k);
            let w = c.add(&dl);
            let v = self.contains(&w);
            new_grid.push(v);
            k = k + 1;
        }
        let ghost old_self = *self;
        self.size = new_size;
        self.grid = new_grid;
        proof {
            assert(new_size == sub_cell(old_self.size, diagonal(2 * size, dim as nat)));
            assert forall|c: Cell| #[trigger]
                self@.walls.contains(c) <==> exists|w: Cell|
                    {
                        &&& #[trigger] old_self@.walls.contains(w)
                        &&& le_dims(dl, w, dim as nat)
                        &&& lt_dims(w, sub_cell(old_self@.size, dl), dim as nat)
                        &&& c == sub_cell(w, dl)
                    } by {
                self.lemma_walls(c);
                if in_area(new_size, dim as nat, c) {
                    let w = add_cell(c, dl);
                    old_self.lemma_walls(w);
                    lemma_cell_index(new_size, dim as nat, c);
                    let j = cell_index(new_size, dim as nat, c);
                    assert(index_cell(new_size, dim as nat, j) == c);
                    assert(w.x == c.x + size && w.y == c.y + size && w.z == c.z + dl.z);
                    assert(self.grid@[j] == old_self@.walls.contains(w));
                    assert(c == sub_cell(w, dl));
                }
                if exists|w: Cell|
                    {
                        &&& #[trigger] old_self@.walls.contains(w)
                        &&& le_dims(dl, w, dim as nat)
                        &&& lt_dims(w, sub_cell(old_self@.size, dl), dim as nat)
                        &&& c == sub_cell(w, dl)
                    } {
                    let w = choose|w: Cell|
                        {
                            &&& #[trigger] old_self@.walls.contains(w)
                            &&& le_dims(dl, w, dim as nat)
                            &&& lt_dims(w, sub_cell(old_self@.size, dl), dim as nat)
                            &&& c == sub_cell(w, dl)
                        };
                    old_self.lemma_walls(w);
                    assert(in_area(old_self.size, dim as nat, w));
                    assert(c.x == w.x - size && c.y == w.y - size && c.z == w.z - dl.z);
                    assert(in_area(new_size, dim as nat, c));
                    assert(add_cell(c, dl) == w);
                }
            }
        }
    }
}

/// Shrinking every coordinate of a size does not grow its number of cells.
proof fn lemma_cell_count_shrinks(big: Cell, small: Cell, dim: nat)
    requires
        valid_dim(dim),
        small.x <= big.x,
        small.y <= big.y,
        dim == 3 ==> small.z <= big.z,
    ensures
        cell_count(small, dim) <= cell_count(big, dim),
{
    let a = extent(small, dim, 0);
    let b = extent(small, dim, 1);
    let c = extent(small, dim, 2);
    let x = extent(big, dim, 0);
    let y = extent(big, dim, 1);
    let z = extent(big, dim, 2);
    assert(a * b * c <= x * y * z) by (nonlinear_arith)
        requires
            0 <= a <= x,
            0 <= b <= y,
            0 <= c <= z,
    ;
}

/// Row `y` of the picture of a two dimensional maze: `#` for a wall, a
/// space for a free cell, over the first `n` columns.
pub open spec fn row_text(m: MazeModel, y: int, n: nat) -> Seq<char>
    decreases n,
{
    if n == 0 {
        seq![]
    } else {
        row_text(m, y, (n - 1) as nat).push(
            if m.walls.contains(spec_cell(n - 1, y, 0)) {
                '#'
            } else {
                ' '
            },
        )
    }
}

/// The first `n` rows of the picture, each ended by a newline.
pub open spec fn rows_text(m: MazeModel, w: nat, n: nat) -> Seq<char>
    decreases n,
{
    if n == 0 {
        seq![]
    } else {
        rows_text(m, w, (n - 1) as nat) + row_text(m, n - 1, w).push('\n')
    }
}

/// The picture of a two dimensional maze, between two newlines.
pub open spec fn maze_text(m: MazeModel) -> Seq<char> {
    let w = if m.size.x > 0 {
        m.size.x as nat
    } else {
        0
    };
    let h = if m.size.y > 0 {
        m.size.y as nat
    } else {
        0
    };
    seq!['\n'] + rows_text(m, w, h) + seq!['\n']
}

impl Maze<U2> {
    /// The picture of the maze: a newline, then one line per row `y`, with
    /// `#` for walls and spaces for free cells, then a newline.
    pub fn render(&self) -> (s: String)
        requires
            self.wf(),
        ensures
            s@ == maze_text(self@),
    {
        let nl = "\n";
        let wall = "#";
        let space = " ";
        proof {
            reveal_strlit("\n");
            reveal_strlit("#");
            reveal_strlit(" ");
        }
        let mut s = String::new();
        s.append(nl);
        let ghost m = self@;
        let ghost w: nat = if m.size.x > 0 { m.size.x as nat } else { 0 };
        let mut y: isize = 0;
        while y < self.size.y
            invariant
                self.wf(),
                m == self@,
                nl@ == seq!['\n'],
                wall@ == seq!['#'],
                space@ == seq![' '],
                w == (if m.size.x > 0 { m.size.x as nat } else { 0 }),
                0 <= y <= (if m.size.y > 0 { m.size.y } else { 0 }),
                s@ == seq!['\n'] + rows_text(m, w, y as nat),
            decreases self.size.y - y,
        {
            let ghost before = s@;
            let mut x: isize = 0;
            while x < self.size.x
                invariant
                    self.wf(),
                    m == self@,
                    wall@ == seq!['#'],
                    space@ == seq![' '],
                    0 <= y < m.size.y,
                    0 <= x <= (if m.size.x > 0 { m.size.x } else { 0 }),
                    s@ == before + row_text(m, y as int, x as nat),
                decreases self.size.x - x,
            {
                if self.wall(x, y) {
                    s.append(wall);
                } else {
                    s.append(space);
                }
                proof {
                    assert(spec_cell(x as int, y as int, 0) == (Cell { x, y, z: 0 }));
                    assert(s@ =~= before + row_text(m, y as int, (x + 1) as nat));
                }
                x = x + 1;
            }
            s.append(nl);
            proof {
                assert(x as nat == w);
                assert(s@ =~= seq!['\n'] + rows_text(m, w, (y + 1) as nat));
            }
            y = y + 1;
        }
        s.append(nl);
        s
    }

    /// `(x, y)` is a wall.
    pub fn wall(&self, x: isize, y: isize) -> (b: bool)
        requires
            self.wf(),
        ensures
            b == self@.walls.contains(Cell { x, y, z: 0 }),
    {
        self.contains(&Cell { x, y, z: 0 })
    }
}

impl Maze<U3> {
    /// `(x, y, z)` is a wall.
    pub fn wall(&self, x: isize, y: isize, z: isize) -> (b: bool)
        requires
            self.wf(),
        ensures
            b == self@.walls.contains(Cell { x, y, z }),
    {
        self.contains(&Cell { x, y, z })
    }
}

} // verus!
