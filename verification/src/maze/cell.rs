//! Cells of a maze grid, the dimension markers, and the numbering of the
//! cells of an area (x slowest, then y, then z).

use vstd::prelude::*;
use vstd::arithmetic::div_mod::lemma_fundamental_div_mod_converse;
use vstd::arithmetic::div_mod::lemma_fundamental_div_mod;

verus! {

/// A cell position. In a two dimensional maze `z` is always 0.
#[derive(Clone, Copy, Debug, PartialEq, Eq, Hash, Structural)]
pub struct Cell {
    pub x: isize,
    pub y: isize,
    pub z: isize,
}

/// The dimension of a maze: 2 or 3.
pub trait Dimension {
    spec fn spec_dim() -> nat;

    proof fn lemma_dim()
        ensures
            Self::spec_dim() == 2 || Self::spec_dim() == 3,
    ;

    fn dim() -> (d: usize)
        ensures
            d as nat == Self::spec_dim(),
    ;
}

/// Two dimensional mazes.
pub struct U2;

/// Three dimensional mazes.
pub struct U3;

impl Dimension for U2 {
    open spec fn spec_dim() -> nat {
        2
    }

    proof fn lemma_dim() {
    }

    fn dim() -> (d: usize) {
        2
    }
}

impl Dimension for U3 {
    open spec fn spec_dim() -> nat {
        3
    }

    proof fn lemma_dim() {
    }

    fn dim() -> (d: usize) {
        3
    }
}

/// The `i`-th coordinate of a cell.
pub open spec fn coord(c: Cell, i: int) -> int {
    if i == 0 {
        c.x as int
    } else if i == 1 {
        c.y as int
    } else {
        c.z as int
    }
}

pub open spec fn spec_cell(x: int, y: int, z: int) -> Cell {
    Cell { x: x as isize, y: y as isize, z: z as isize }
}

/// Number of values a coordinate takes in an area of the given size.
pub open spec fn extent(size: Cell, dim: nat, i: int) -> int {
    if i == 2 && dim != 3 {
        1
    } else if coord(size, i) > 0 {
        coord(size, i)
    } else {
        0
    }
}

/// `c` lies in the area `[0, size)`; in two dimensions `c.z == 0`.
pub open spec fn in_area(size: Cell, dim: nat, c: Cell) -> bool {
    &&& 0 <= c.x < size.x
    &&& 0 <= c.y < size.y
    &&& if dim == 3 {
        0 <= c.z < size.z
    } else {
        c.z == 0
    }
}

/// Number of cells of the area.
pub open spec fn cell_count(size: Cell, dim: nat) -> int {
    extent(size, dim, 0) * extent(size, dim, 1) * extent(size, dim, 2)
}

/// Position of a cell in the iteration order of its area.
pub open spec fn cell_index(size: Cell, dim: nat, c: Cell) -> int {
    (c.x * extent(size, dim, 1) + c.y) * extent(size, dim, 2) + c.z
}

/// The cell at a position of the iteration order of an area.
pub open spec fn index_cell(size: Cell, dim: nat, k: int) -> Cell {
    let nz = extent(size, dim, 2);
    let ny = extent(size, dim, 1);
    spec_cell((k / nz) / ny, (k / nz) % ny, k % nz)
}

/// All cells of an area, in iteration order.
pub open spec fn area_cells(size: Cell, dim: nat) -> Seq<Cell> {
    Seq::new(cell_count(size, dim) as nat, |k: int| index_cell(size, dim, k))
}

pub open spec fn valid_dim(dim: nat) -> bool {
    dim == 2 || dim == 3
}

proof fn lemma_pair_encode(a: int, b: int, na: int, nb: int)
    requires
        0 <= a < na,
        0 <= b < nb,
    ensures
        0 <= a * nb + b < na * nb,
        (a * nb + b) / nb == a,
        (a * nb + b) % nb == b,
{
    assert(0 <= a * nb) by (nonlinear_arith)
        requires
            0 <= a,
            0 <= nb,
    ;
    assert(a * nb + b < na * nb) by (nonlinear_arith)
        requires
            0 <= a < na,
            0 <= b < nb,
    ;
    lemma_fundamental_div_mod_converse(a * nb + b, nb, a, b);
}

proof fn lemma_pair_decode(k: int, na: int, nb: int)
    requires
        0 <= k < na * nb,
        0 < nb,
    ensures
        0 <= k / nb < na,
        0 <= k % nb < nb,
        k == (k / nb) * nb + k % nb,
{
    lemma_fundamental_div_mod(k, nb);
    assert(k == nb * (k / nb) + k % nb);
    assert(0 <= k % nb < nb);
    assert((k / nb) * nb == nb * (k / nb)) by (nonlinear_arith);
    assert(0 <= k / nb) by {
        if k / nb < 0 {
            assert((k / nb) * nb <= -nb) by (nonlinear_arith)
                requires
                    k / nb < 0,
                    0 < nb,
            ;
        }
    }
    assert(k / nb < na) by {
        if k / nb >= na {
            assert((k / nb) * nb >= na * nb) by (nonlinear_arith)
                requires
                    k / nb >= na,
                    0 < nb,
            ;
        }
    }
}

/// The numbering of an area is a bijection between its cells and `[0, count)`.
pub proof fn lemma_cell_index(size: Cell, dim: nat, c: Cell)
    requires
        valid_dim(dim),
        in_area(size, dim, c),
    ensures
        0 <= cell_index(size, dim, c) < cell_count(size, dim),
        index_cell(size, dim, cell_index(size, dim, c)) == c,
{
    let nx = extent(size, dim, 0);
    let ny = extent(size, dim, 1);
    let nz = extent(size, dim, 2);
    lemma_pair_encode(c.x as int, c.y as int, nx, ny);
    let i2 = c.x * ny + c.y;
    lemma_pair_encode(i2, c.z as int, nx * ny, nz);
    assert(nx * ny * nz == (nx * ny) * nz);
}

pub proof fn lemma_index_cell(size: Cell, dim: nat, k: int)
    requires
        valid_dim(dim),
        0 <= k < cell_count(size, dim),
    ensures
        in_area(size, dim, index_cell(size, dim, k)),
        cell_index(size, dim, index_cell(size, dim, k)) == k,
{
    let nx = extent(size, dim, 0);
    let ny = extent(size, dim, 1);
    let nz = extent(size, dim, 2);
    assert(nz > 0) by {
        if nz <= 0 {
            assert(nx * ny * nz <= 0) by (nonlinear_arith)
                requires
                    nz <= 0,
                    nx >= 0,
                    ny >= 0,
            ;
        }
    }
    assert(ny > 0) by {
        if ny <= 0 {
            assert(nx * ny * nz <= 0) by (nonlinear_arith)
                requires
                    ny <= 0,
                    nx >= 0,
                    nz >= 0,
            ;
        }
    }
    lemma_pair_decode(k, nx * ny, nz);
    let i2 = k / nz;
    lemma_pair_decode(i2, nx, ny);
}

/// Cells of an area with different numbers are different.
pub proof fn lemma_index_cell_injective(size: Cell, dim: nat, k1: int, k2: int)
    requires
        valid_dim(dim),
        0 <= k1 < cell_count(size, dim),
        0 <= k2 < cell_count(size, dim),
        k1 != k2,
    ensures
        index_cell(size, dim, k1) != index_cell(size, dim, k2),
{
    lemma_index_cell(size, dim, k1);
    lemma_index_cell(size, dim, k2);
}

impl Cell {
    pub fn new(x: isize, y: isize, z: isize) -> (c: Cell)
        ensures
            c == (Cell { x, y, z }),
    {
        Cell { x, y, z }
    }

    /// The `i`-th coordinate.
    pub fn get(&self, i: usize) -> (v: isize)
        requires
            i < 3,
        ensures
            v == coord(*self, i as int),
    {
        if i == 0 {
            self.x
        } else if i == 1 {
            self.y
        } else {
            self.z
        }
    }

    /// Componentwise sum.
    pub fn add(&self, o: &Cell) -> (c: Cell)
        requires
            isize::MIN <= self.x + o.x <= isize::MAX,
            isize::MIN <= self.y + o.y <= isize::MAX,
            isize::MIN <= self.z + o.z <= isize::MAX,
        ensures
            c.x == self.x + o.x,
            c.y == self.y + o.y,
            c.z == self.z + o.z,
    {
        Cell { x: self.x + o.x, y: self.y + o.y, z: self.z + o.z }
    }
}

/// The number of values of the `i`-th coordinate in an area.
pub fn extent_of(size: &Cell, dim: usize, i: usize) -> (n: usize)
    requires
        valid_dim(dim as nat),
        i < 3,
    ensures
        n as int == extent(*size, dim as nat, i as int),
{
    if i == 2 && dim != 3 {
        1
    } else {
        let v = size.get(i);
        if v > 0 {
            v as usize
        } else {
            0
        }
    }
}

/// The number of cells of an area, when it fits in a `usize`.
pub fn count_cells(size: &Cell, dim: usize) -> (n: Option<usize>)
    requires
        valid_dim(dim as nat),
    ensures
        match n {
            Some(n) => n as int == cell_count(*size, dim as nat),
            None => cell_count(*size, dim as nat) > usize::MAX,
        },
{
    let nx = extent_of(size, dim, 0);
    let ny = extent_of(size, dim, 1);
    let nz = extent_of(size, dim, 2);
    match nx.checked_mul(ny) {
        Some(nxy) => match nxy.checked_mul(nz) {
            Some(n) => Some(n),
            None => None,
        },
        None => {
            if nz == 0 {
                Some(0)
            } else {
                assert(nx * ny * nz >= nx * ny) by (nonlinear_arith)
                    requires
                        nz >= 1,
                        nx * ny >= 0,
                ;
                None
            }
        },
    }
}

/// The number of a cell of an area.
pub fn index_of_cell(size: &Cell, dim: usize, count: usize, c: &Cell) -> (k: usize)
    requires
        valid_dim(dim as nat),
        count == cell_count(*size, dim as nat),
        in_area(*size, dim as nat, *c),
    ensures
        k as int == cell_index(*size, dim as nat, *c),
        k < count,
{
    proof {
        lemma_cell_index(*size, dim as nat, *c);
        let nx = extent(*size, dim as nat, 0);
        let ny = extent(*size, dim as nat, 1);
        let nz = extent(*size, dim as nat, 2);
        lemma_pair_encode(c.x as int, c.y as int, nx, ny);
        assert(nx * ny * nz == (nx * ny) * nz);
        assert((nx * ny) * nz >= nx * ny) by (nonlinear_arith)
            requires
                nz >= 1,
                nx * ny >= 0,
        ;
        assert((c.x * ny + c.y) * nz <= (c.x * ny + c.y) * nz + c.z);
    }
    let ny = extent_of(size, dim, 1);
    let nz = extent_of(size, dim, 2);
    let a = c.x as usize * ny;
    let b = a + c.y as usize;
    let d = b * nz;
    d + c.z as usize
}

/// The cell with number `k` in an area.
pub fn cell_of_index(size: &Cell, dim: usize, count: usize, k: usize) -> (c: Cell)
    requires
        valid_dim(dim as nat),
        count == cell_count(*size, dim as nat),
        k < count,
    ensures
        c == index_cell(*size, dim as nat, k as int),
        in_area(*size, dim as nat, c),
{
    proof {
        lemma_index_cell(*size, dim as nat, k as int);
    }
    let ny = extent_of(size, dim, 1);
    let nz = extent_of(size, dim, 2);
    let i2 = k / nz;
    let x = i2 / ny;
    let y = i2 % ny;
    let z = k % nz;
    Cell { x: x as isize, y: y as isize, z: z as isize }
}

} // verus!
