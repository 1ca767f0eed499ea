//! Looking for free cells: around a square, at random, and paths between
//! cells.

use vstd::prelude::*;

use crate::random::random_below;
use super::cell::{
    Cell, Dimension, in_area, cell_index, cell_count, index_cell, area_cells, valid_dim, spec_cell,
    coord, lemma_cell_index, lemma_index_cell, cell_of_index,
};
use super::moves::{OpeningModel, spec_openings, spec_offsets, opening_model, lemma_moves_need_straight};
use super::zones::{opening_open, lemma_opening_offsets};
use super::{Maze, MazeModel, free, inside, add_cell};

verus! {

/// The predicate "is a free cell of `m`".
pub open spec fn free_pred(m: MazeModel, dim: nat) -> spec_fn(Cell) -> bool {
    |c: Cell| free(m, dim, c)
}

/// `max(c - r, 0)`
pub open spec fn clip_lo(c: int, r: int) -> int {
    if c - r > 0 {
        c - r
    } else {
        0
    }
}

/// `min(c + r, s - 1)`
pub open spec fn clip_hi(c: int, r: int, s: int) -> int {
    if c + r < s - 1 {
        c + r
    } else {
        s - 1
    }
}

/// Number of integers in `[a, b]`.
pub open spec fn span(a: int, b: int) -> nat {
    if b >= a {
        (b - a + 1) as nat
    } else {
        0
    }
}

/// `c` with its `i`-th coordinate set to `v`.
pub open spec fn with_coord(c: Cell, i: int, v: int) -> Cell {
    if i == 0 {
        spec_cell(v, c.y as int, c.z as int)
    } else if i == 1 {
        spec_cell(c.x as int, v, c.z as int)
    } else {
        spec_cell(c.x as int, c.y as int, v)
    }
}

/// The two cells of `base` with coordinate `ax` set to `v` and coordinate
/// `px` set to `lo`, then to `hi`.
pub open spec fn pair_at(base: Cell, ax: int, px: int, v: int, lo: int, hi: int) -> Seq<Cell> {
    seq![with_coord(with_coord(base, ax, v), px, lo), with_coord(with_coord(base, ax, v), px, hi)]
}

/// `pair_at(.., v, ..)` for `v` from `a` to `a + n - 1`.
pub open spec fn pair_line(base: Cell, ax: int, px: int, a: int, n: nat, lo: int, hi: int) -> Seq<Cell>
    decreases n,
{
    if n == 0 {
        seq![]
    } else {
        pair_line(base, ax, px, a, (n - 1) as nat, lo, hi) + pair_at(base, ax, px, a + n - 1, lo, hi)
    }
}

/// `pair_line` over `[b_lo, b_hi]` for each value `u` from `a` to
/// `a + n - 1` of the coordinate `out`.
pub open spec fn pair_plane(
    out: int,
    a: int,
    n: nat,
    ax: int,
    px: int,
    b_lo: int,
    b_hi: int,
    lo: int,
    hi: int,
) -> Seq<Cell>
    decreases n,
{
    if n == 0 {
        seq![]
    } else {
        pair_plane(out, a, (n - 1) as nat, ax, px, b_lo, b_hi, lo, hi) + pair_line(
            with_coord(spec_cell(0, 0, 0), out, a + n - 1),
            ax,
            px,
            b_lo,
            span(b_lo, b_hi),
            lo,
            hi,
        )
    }
}

/// The cells of the border of the box `[lo, hi]`, in the order they are
/// visited: in two dimensions the columns `lo.x` and `hi.x` row by row,
/// then the rows `lo.y` and `hi.y` column by column; in three dimensions
/// the faces `z = lo.z, hi.z`, then `x = lo.x, hi.x`, then `y = lo.y, hi.y`.
/// Cells on an edge are visited once per face they lie on.
pub open spec fn square_border(lo: Cell, hi: Cell, dim: nat) -> Seq<Cell> {
    if dim == 2 {
        pair_line(spec_cell(0, 0, 0), 1, 0, lo.y as int, span(lo.y as int, hi.y as int), lo.x as int, hi.x as int)
            + pair_line(spec_cell(0, 0, 0), 0, 1, lo.x as int, span(lo.x as int, hi.x as int), lo.y as int, hi.y as int)
    } else {
        pair_plane(0, lo.x as int, span(lo.x as int, hi.x as int), 1, 2, lo.y as int, hi.y as int, lo.z as int, hi.z as int)
            + pair_plane(1, lo.y as int, span(lo.y as int, hi.y as int), 2, 0, lo.z as int, hi.z as int, lo.x as int, hi.x as int)
            + pair_plane(0, lo.x as int, span(lo.x as int, hi.x as int), 2, 1, lo.z as int, hi.z as int, lo.y as int, hi.y as int)
    }
}

/// `c` lies in the box `[lo, hi]` (in two dimensions, with `z` zero).
pub open spec fn in_box(lo: Cell, hi: Cell, dim: nat, c: Cell) -> bool {
    &&& lo.x <= c.x <= hi.x
    &&& lo.y <= c.y <= hi.y
    &&& if dim == 3 {
        lo.z <= c.z <= hi.z
    } else {
        c.z == 0
    }
}

/// `c` lies on the border of the box `[lo, hi]`: in the box, with some
/// coordinate at the box's low or high bound.
pub open spec fn on_box_border(lo: Cell, hi: Cell, dim: nat, c: Cell) -> bool {
    &&& in_box(lo, hi, dim, c)
    &&& {
        ||| c.x == lo.x
        ||| c.x == hi.x
        ||| c.y == lo.y
        ||| c.y == hi.y
        ||| (dim == 3 && (c.z == lo.z || c.z == hi.z))
    }
}

/// The cell of `pair_at` with coordinate `ax` at `v` and `px` at `e`.
pub open spec fn line_cell(base: Cell, ax: int, px: int, v: int, e: int) -> Cell {
    with_coord(with_coord(base, ax, v), px, e)
}

proof fn lemma_contains_concat(s1: Seq<Cell>, s2: Seq<Cell>, c: Cell)
    ensures
        (s1 + s2).contains(c) <==> s1.contains(c) || s2.contains(c),
{
    if (s1 + s2).contains(c) {
        let i = choose|i: int| 0 <= i < (s1 + s2).len() && (s1 + s2)[i] == c;
        if i < s1.len() {
            assert(s1[i] == c);
        } else {
            assert(s2[i - s1.len()] == c);
        }
    }
    if s1.contains(c) {
        let i = choose|i: int| 0 <= i < s1.len() && s1[i] == c;
        assert((s1 + s2)[i] == c);
    }
    if s2.contains(c) {
        let i = choose|i: int| 0 <= i < s2.len() && s2[i] == c;
        assert((s1 + s2)[s1.len() + i] == c);
    }
}

/// `c` is a cell of `pair_line(base, ax, px, a, n, lo, hi)`, by its
/// coordinates.
pub open spec fn on_pair_line(base: Cell, ax: int, px: int, a: int, n: nat, lo: int, hi: int, c: Cell) -> bool {
    exists|v: int, e: int| a <= v < a + n && (e == lo || e == hi) && c == #[trigger] line_cell(base, ax, px, v, e)
}

proof fn lemma_pair_line_contains(base: Cell, ax: int, px: int, a: int, n: nat, lo: int, hi: int, c: Cell)
    ensures
        pair_line(base, ax, px, a, n, lo, hi).contains(c) <==> on_pair_line(base, ax, px, a, n, lo, hi, c),
    decreases n,
{
    if n > 0 {
        let n1 = (n - 1) as nat;
        lemma_pair_line_contains(base, ax, px, a, n1, lo, hi, c);
        let prev = pair_line(base, ax, px, a, n1, lo, hi);
        let p = pair_at(base, ax, px, a + n1, lo, hi);
        lemma_contains_concat(prev, p, c);
        assert(pair_line(base, ax, px, a, n, lo, hi) == prev + p);
        if prev.contains(c) {
            let (v, e) = choose|v: int, e: int|
                a <= v < a + n1 && (e == lo || e == hi) && c == #[trigger] line_cell(base, ax, px, v, e);
            assert(c == line_cell(base, ax, px, v, e));
        }
        if p.contains(c) {
            let i = choose|i: int| 0 <= i < p.len() && p[i] == c;
            if i == 0 {
                assert(c == line_cell(base, ax, px, a + n1, lo));
            } else {
                assert(c == line_cell(base, ax, px, a + n1, hi));
            }
        }
        if on_pair_line(base, ax, px, a, n, lo, hi, c) {
            let (v, e) = choose|v: int, e: int|
                a <= v < a + n && (e == lo || e == hi) && c == #[trigger] line_cell(base, ax, px, v, e);
            if v == a + n1 {
                if e == lo {
                    assert(p[0] == c);
                } else {
                    assert(p[1] == c);
                }
                assert(p.contains(c));
            } else {
                assert(on_pair_line(base, ax, px, a, n1, lo, hi, c));
            }
        }
    } else {
        assert(pair_line(base, ax, px, a, n, lo, hi) =~= Seq::<Cell>::empty());
    }
}

/// The cell of `pair_plane` with coordinate `out` at `u`, `ax` at `v` and
/// `px` at `e`.
pub open spec fn plane_cell(out: int, ax: int, px: int, u: int, v: int, e: int) -> Cell {
    line_cell(with_coord(spec_cell(0, 0, 0), out, u), ax, px, v, e)
}

/// `c` is a cell of `pair_plane(out, a, n, ax, px, b_lo, b_hi, lo, hi)`,
/// by its coordinates.
pub open spec fn on_pair_plane(
    out: int,
    a: int,
    n: nat,
    ax: int,
    px: int,
    b_lo: int,
    b_hi: int,
    lo: int,
    hi: int,
    c: Cell,
) -> bool {
    exists|u: int, v: int, e: int|
        a <= u < a + n && b_lo <= v <= b_hi && (e == lo || e == hi) && c == #[trigger] plane_cell(out, ax, px, u, v, e)
}

proof fn lemma_pair_plane_contains(
    out: int,
    a: int,
    n: nat,
    ax: int,
    px: int,
    b_lo: int,
    b_hi: int,
    lo: int,
    hi: int,
    c: Cell,
)
    ensures
        pair_plane(out, a, n, ax, px, b_lo, b_hi, lo, hi).contains(c) <==> on_pair_plane(
            out,
            a,
            n,
            ax,
            px,
            b_lo,
            b_hi,
            lo,
            hi,
            c,
        ),
    decreases n,
{
    if n > 0 {
        let n1 = (n - 1) as nat;
        lemma_pair_plane_contains(out, a, n1, ax, px, b_lo, b_hi, lo, hi, c);
        let base = with_coord(spec_cell(0, 0, 0), out, a + n1);
        let prev = pair_plane(out, a, n1, ax, px, b_lo, b_hi, lo, hi);
        let l = pair_line(base, ax, px, b_lo, span(b_lo, b_hi), lo, hi);
        assert(pair_plane(out, a, n, ax, px, b_lo, b_hi, lo, hi) == prev + l);
        lemma_contains_concat(prev, l, c);
        lemma_pair_line_contains(base, ax, px, b_lo, span(b_lo, b_hi), lo, hi, c);
        if prev.contains(c) {
            let (u, v, e) = choose|u: int, v: int, e: int|
                a <= u < a + n1 && b_lo <= v <= b_hi && (e == lo || e == hi) && c == #[trigger] plane_cell(
                    out,
                    ax,
                    px,
                    u,
                    v,
                    e,
                );
            assert(c == plane_cell(out, ax, px, u, v, e));
        }
        if l.contains(c) {
            let (v, e) = choose|v: int, e: int|
                b_lo <= v < b_lo + span(b_lo, b_hi) && (e == lo || e == hi) && c == #[trigger] line_cell(
                    base,
                    ax,
                    px,
                    v,
                    e,
                );
            assert(c == plane_cell(out, ax, px, a + n1, v, e));
        }
        if on_pair_plane(out, a, n, ax, px, b_lo, b_hi, lo, hi, c) {
            let (u, v, e) = choose|u: int, v: int, e: int|
                a <= u < a + n && b_lo <= v <= b_hi && (e == lo || e == hi) && c == #[trigger] plane_cell(
                    out,
                    ax,
                    px,
                    u,
                    v,
                    e,
                );
            if u == a + n1 {
                assert(c == line_cell(base, ax, px, v, e));
                assert(on_pair_line(base, ax, px, b_lo, span(b_lo, b_hi), lo, hi, c));
            } else {
                assert(on_pair_plane(out, a, n1, ax, px, b_lo, b_hi, lo, hi, c));
            }
        }
    } else {
        assert(pair_plane(out, a, n, ax, px, b_lo, b_hi, lo, hi) =~= Seq::<Cell>::empty());
    }
}

/// The border visit holds exactly the cells on the border of the box:
/// every cell of the box with a coordinate at a bound of the box is
/// visited, and nothing else is.
pub proof fn lemma_square_border_cells(lo: Cell, hi: Cell, dim: nat, c: Cell)
    requires
        valid_dim(dim),
        lo.x <= hi.x,
        lo.y <= hi.y,
        dim == 3 ==> lo.z <= hi.z,
    ensures
        square_border(lo, hi, dim).contains(c) <==> on_box_border(lo, hi, dim, c),
{
    let o = spec_cell(0, 0, 0);
    if dim == 2 {
        let l1 = pair_line(o, 1, 0, lo.y as int, span(lo.y as int, hi.y as int), lo.x as int, hi.x as int);
        let l2 = pair_line(o, 0, 1, lo.x as int, span(lo.x as int, hi.x as int), lo.y as int, hi.y as int);
        lemma_contains_concat(l1, l2, c);
        lemma_pair_line_contains(o, 1, 0, lo.y as int, span(lo.y as int, hi.y as int), lo.x as int, hi.x as int, c);
        lemma_pair_line_contains(o, 0, 1, lo.x as int, span(lo.x as int, hi.x as int), lo.y as int, hi.y as int, c);
        if on_box_border(lo, hi, dim, c) {
            if c.x == lo.x {
                assert(c == line_cell(o, 1, 0, c.y as int, lo.x as int));
            } else if c.x == hi.x {
                assert(c == line_cell(o, 1, 0, c.y as int, hi.x as int));
            } else if c.y == lo.y {
                assert(c == line_cell(o, 0, 1, c.x as int, lo.y as int));
            } else {
                assert(c == line_cell(o, 0, 1, c.x as int, hi.y as int));
            }
        }
    } else {
        let p1 = pair_plane(0, lo.x as int, span(lo.x as int, hi.x as int), 1, 2, lo.y as int, hi.y as int, lo.z as int, hi.z as int);
        let p2 = pair_plane(1, lo.y as int, span(lo.y as int, hi.y as int), 2, 0, lo.z as int, hi.z as int, lo.x as int, hi.x as int);
        let p3 = pair_plane(0, lo.x as int, span(lo.x as int, hi.x as int), 2, 1, lo.z as int, hi.z as int, lo.y as int, hi.y as int);
        lemma_contains_concat(p1, p2, c);
        lemma_contains_concat(p1 + p2, p3, c);
        lemma_pair_plane_contains(0, lo.x as int, span(lo.x as int, hi.x as int), 1, 2, lo.y as int, hi.y as int, lo.z as int, hi.z as int, c);
        lemma_pair_plane_contains(1, lo.y as int, span(lo.y as int, hi.y as int), 2, 0, lo.z as int, hi.z as int, lo.x as int, hi.x as int, c);
        lemma_pair_plane_contains(0, lo.x as int, span(lo.x as int, hi.x as int), 2, 1, lo.z as int, hi.z as int, lo.y as int, hi.y as int, c);
        if on_box_border(lo, hi, dim, c) {
            if c.z == lo.z || c.z == hi.z {
                assert(c == plane_cell(0, 1, 2, c.x as int, c.y as int, c.z as int));
            } else if c.x == lo.x || c.x == hi.x {
                assert(c == plane_cell(1, 2, 0, c.y as int, c.z as int, c.x as int));
            } else {
                assert(c == plane_cell(0, 2, 1, c.x as int, c.z as int, c.y as int));
            }
        }
    }
}

/// The free cells kept from the border visit are the free cells on the
/// border of the box.
pub proof fn lemma_free_border_cells(m: MazeModel, dim: nat, lo: Cell, hi: Cell, c: Cell)
    requires
        valid_dim(dim),
        lo.x <= hi.x,
        lo.y <= hi.y,
        dim == 3 ==> lo.z <= hi.z,
    ensures
        square_border(lo, hi, dim).filter(free_pred(m, dim)).contains(c) <==> (free(m, dim, c) && on_box_border(
            lo,
            hi,
            dim,
            c,
        )),
{
    broadcast use vstd::seq_lib::group_filter_ensures;
    let sb = square_border(lo, hi, dim);
    let p = free_pred(m, dim);
    lemma_square_border_cells(lo, hi, dim, c);
    if sb.filter(p).contains(c) {
        let i = choose|i: int| 0 <= i < sb.filter(p).len() && sb.filter(p)[i] == c;
        assert(p(sb.filter(p)[i]));
        sb.lemma_filter_contains_rev(p, c);
    }
    if free(m, dim, c) && on_box_border(lo, hi, dim, c) {
        let i = choose|i: int| 0 <= i < sb.len() && sb[i] == c;
        assert(p(sb[i]));
    }
}

/// The box `[max(center - radius, 0), min(center + radius, size - 1)]`.
pub open spec fn clipped_box(size: Cell, center: Cell, radius: int) -> (Cell, Cell) {
    (
        spec_cell(
            clip_lo(center.x as int, radius),
            clip_lo(center.y as int, radius),
            clip_lo(center.z as int, radius),
        ),
        spec_cell(
            clip_hi(center.x as int, radius, size.x as int),
            clip_hi(center.y as int, radius, size.y as int),
            clip_hi(center.z as int, radius, size.z as int),
        ),
    )
}

/// The free cells of the area, in iteration order.
pub open spec fn free_list(m: MazeModel, dim: nat) -> Seq<Cell> {
    area_cells(m.size, dim).filter(free_pred(m, dim))
}

/// `b` is reached from `a` by one of the moves: the path goes to the move's
/// offset itself (not to `a` plus the offset) when every cell the move
/// needs, taken relative to `a`, is free.
pub open spec fn step(m: MazeModel, dim: nat, a: Cell, b: Cell) -> bool {
    exists|k: int|
        0 <= k < spec_openings(dim).len() && #[trigger] spec_openings(dim)[k].cell == b
            && opening_open(m, a, spec_openings(dim)[k])
}

/// A step from `a` to `b` passes no wall: the cell at offset `b` from
/// `a` is free, and so are the cells at the straight offsets along x and
/// along y that the move combines.
pub proof fn lemma_step_passes_free_cells(m: MazeModel, dim: nat, a: Cell, b: Cell)
    requires
        valid_dim(dim),
        step(m, dim, a, b),
    ensures
        !m.walls.contains(add_cell(a, b)),
        b.x != 0 ==> !m.walls.contains(add_cell(a, spec_cell(b.x as int, 0, 0))),
        b.y != 0 ==> !m.walls.contains(add_cell(a, spec_cell(0, b.y as int, 0))),
{
    let k = choose|k: int|
        0 <= k < spec_openings(dim).len() && #[trigger] spec_openings(dim)[k].cell == b && opening_open(
            m,
            a,
            spec_openings(dim)[k],
        );
    let o = spec_openings(dim)[k];
    lemma_moves_need_straight(dim, k);
    let i = choose|i: int| 0 <= i < o.needs.len() && o.needs[i] == b;
    assert(!m.walls.contains(add_cell(a, o.needs[i])));
    if b.x != 0 {
        let j = choose|j: int| 0 <= j < o.needs.len() && o.needs[j] == spec_cell(b.x as int, 0, 0);
        assert(!m.walls.contains(add_cell(a, o.needs[j])));
    }
    if b.y != 0 {
        let j = choose|j: int| 0 <= j < o.needs.len() && o.needs[j] == spec_cell(0, b.y as int, 0);
        assert(!m.walls.contains(add_cell(a, o.needs[j])));
    }
}

/// `p` goes from `start` to `goal` by steps.
pub open spec fn valid_path(m: MazeModel, dim: nat, start: Cell, goal: Cell, p: Seq<Cell>) -> bool {
    &&& p.len() >= 1
    &&& p[0] == start
    &&& p.last() == goal
    &&& forall|i: int| 0 <= i < p.len() - 1 ==> step(m, dim, #[trigger] p[i], p[i + 1])
}

/// `b` is the first component of an entry of `v`.
pub open spec fn listed(v: Seq<(Cell, isize)>, b: Cell) -> bool {
    exists|q: int| 0 <= q < v.len() && #[trigger] v[q].0 == b
}

/// `b` is the offset of one of the first `i` moves that is open from `c`.
pub open spec fn open_upto(m: MazeModel, c: Cell, ops: Seq<OpeningModel>, i: int, b: Cell) -> bool {
    exists|j: int| 0 <= j < i && #[trigger] ops[j].cell == b && opening_open(m, c, ops[j])
}

/// The moves among the first `i` of `ops` that are open from `c`, as
/// (offset, cost) pairs, in order.
pub open spec fn open_list(m: MazeModel, c: Cell, ops: Seq<OpeningModel>, i: nat) -> Seq<(Cell, isize)>
    decreases i,
{
    if i == 0 {
        seq![]
    } else {
        open_list(m, c, ops, (i - 1) as nat) + if opening_open(m, c, ops[i - 1]) {
            seq![(ops[i - 1].cell, ops[i - 1].cost as isize)]
        } else {
            seq![]
        }
    }
}

/// The moves open from `c`, as (offset, cost) pairs in the order of the
/// moves.
pub open spec fn successor_list(m: MazeModel, dim: nat, c: Cell) -> Seq<(Cell, isize)> {
    open_list(m, c, spec_openings(dim), spec_openings(dim).len())
}

/// Coordinates small enough for the path search's arithmetic.
pub open spec fn small(c: Cell) -> bool {
    -0x400_0000 <= c.x <= 0x400_0000 && -0x400_0000 <= c.y <= 0x400_0000
        && -0x400_0000 <= c.z <= 0x400_0000
}

pub open spec fn abs(v: int) -> int {
    if v < 0 {
        -v
    } else {
        v
    }
}

/// Ten times the smallest distance to the goal along one axis.
pub open spec fn heuristic_spec(dim: nat, c: Cell, goal: Cell) -> int {
    let dx = abs(c.x - goal.x);
    let dy = abs(c.y - goal.y);
    let dz = abs(c.z - goal.z);
    let m2 = if dy < dx {
        dy
    } else {
        dx
    };
    let m3 = if dim == 3 && dz < m2 {
        dz
    } else {
        m2
    };
    m3 * 10
}

/// Estimate of the cost from `c` to `goal` used by the path search.
pub fn heuristic<D: Dimension>(c: &Cell, goal: &Cell) -> (h: isize)
    requires
        small(*c),
        small(*goal),
    ensures
        h == heuristic_spec(D::spec_dim(), *c, *goal),
{
    proof {
        D::lemma_dim();
    }
    let dx = if c.x < goal.x {
        goal.x - c.x
    } else {
        c.x - goal.x
    };
    let dy = if c.y < goal.y {
        goal.y - c.y
    } else {
        c.y - goal.y
    };
    let dz = if c.z < goal.z {
        goal.z - c.z
    } else {
        c.z - goal.z
    };
    let mut min = dx;
    if dy < min {
        min = dy;
    }
    if D::dim() == 3 && dz < min {
        min = dz;
    }
    min * 10
}

/// The search is over once `c` is the goal.
pub fn reached(c: &Cell, goal: &Cell) -> (b: bool)
    ensures
        b == (*c == *goal),
{
    *c == *goal
}

/// The path the A* search of the `pathfinding` crate finds in the maze
/// `m` of dimension `dim` from `start` to `goal`, over the successors and
/// the heuristic of this module (`None` when it finds none). The search
/// uses a fixed hasher and a binary heap, so its result depends on these
/// arguments alone.
pub uninterp spec fn astar_result(m: MazeModel, dim: nat, start: Cell, goal: Cell) -> Option<Seq<Cell>>;

/// The path of an optional path.
pub open spec fn path_view(r: Option<Vec<Cell>>) -> Option<Seq<Cell>> {
    match r {
        Some(p) => Some(p@),
        None => None,
    }
}

/// The path found by the A* search of the `pathfinding` crate from `start`
/// to `goal`, over `Maze::successors`, with `heuristic` as estimate.
///
/// Calls `pathfinding::prelude::astar` and keeps the path. The contract
/// names the result `astar_result`, and claims what the crate's source
/// shows for the positive move costs `Maze::successors` hands it: a
/// returned path comprises the start and the goal and follows the
/// successors, with no node twice; `None` is returned only when no node
/// for which the goal test holds can be reached. Since the heuristic is not always below the real
/// cost here, nothing is claimed of the path's cost.
#[verifier::external_body]
fn astar_path<D: Dimension>(maze: &Maze<D>, start: Cell, goal: Cell) -> (r: Option<Vec<Cell>>)
    requires
        maze.wf(),
        small(start),
        small(goal),
    ensures
        path_view(r) == astar_result(maze@, D::spec_dim(), start, goal),
        r matches Some(p) ==> valid_path(maze@, D::spec_dim(), start, goal, p@) && p@.no_duplicates(),
        r is None ==> forall|p: Seq<Cell>| !#[trigger] valid_path(maze@, D::spec_dim(), start, goal, p),
{
    pathfinding::prelude::astar(
        &start,
        |c| maze.successors(c),
        |c| heuristic::<D>(c, &goal),
        |c| reached(c, &goal),
    ).map(|found| found.0)
}

/// The filter of a pair is the filter of its two cells.
proof fn lemma_filter_pair(c1: Cell, c2: Cell, p: spec_fn(Cell) -> bool)
    ensures
        seq![c1, c2].filter(p) == (if p(c1) { seq![c1] } else { Seq::<Cell>::empty() }) + (if p(c2) {
            seq![c2]
        } else {
            Seq::<Cell>::empty()
        }),
{
    reveal_with_fuel(Seq::filter, 3);
    let e = Seq::<Cell>::empty();
    assert(e.filter(p) =~= e);
    e.lemma_filter_push(c1, p);
    assert(e.push(c1) =~= seq![c1]);
    seq![c1].lemma_filter_push(c2, p);
    assert(seq![c1].push(c2) =~= seq![c1, c2]);
    assert(seq![c1, c2].filter(p) =~= (if p(c1) { seq![c1] } else { Seq::<Cell>::empty() }) + (if p(c2) {
        seq![c2]
    } else {
        Seq::<Cell>::empty()
    }));
}

/// `c` with its `i`-th coordinate set to `v`.
pub fn set_coord(c: Cell, i: usize, v: isize) -> (r: Cell)
    requires
        i < 3,
    ensures
        r == with_coord(c, i as int, v as int),
{
    if i == 0 {
        Cell { x: v, y: c.y, z: c.z }
    } else if i == 1 {
        Cell { x: c.x, y: v, z: c.z }
    } else {
        Cell { x: c.x, y: c.y, z: v }
    }
}

impl<D: Dimension> Maze<D> {
    /// The free cells of the maze, in iteration order.
    pub fn free_cells(&self) -> (v: Vec<Cell>)
        requires
            self.wf(),
        ensures
            v@ == free_list(self@, D::spec_dim()),
    {
        proof {
            D::lemma_dim();
        }
        let dim = D::dim();
        let ghost p = free_pred(self@, dim as nat);
        let ghost cells = area_cells(self@.size, dim as nat);
        let count = self.grid_len();
        let mut v: Vec<Cell> = Vec::new();
        let mut k: usize = 0;
        while k < count
            invariant
                self.wf(),
                valid_dim(dim as nat),
                dim as nat == D::spec_dim(),
                p == free_pred(self@, dim as nat),
                cells == area_cells(self@.size, dim as nat),
                count == cell_count(self@.size, dim as nat),
                k <= count,
                v@ == cells.take(k as int).filter(p),
            decreases count - k,
        {
            let c = cell_of_index(&self.size, dim, count, k);
            proof {
                assert(cells.take(k + 1) =~= cells.take(k as int).push(c));
                cells.take(k as int).lemma_filter_push(c, p);
            }
            if !self.contains(&c) {
                v.push(c);
            }
            k = k + 1;
        }
        proof {
            assert(cells.take(count as int) =~= cells);
        }
        v
    }

    /// Appends `c` to `res` when it is a free cell.
    fn push_if_free(&self, res: &mut Vec<Cell>, c: Cell)
        requires
            self.wf(),
        ensures
            final(res)@ == old(res)@ + (if free(self@, D::spec_dim(), c) {
                seq![c]
            } else {
                Seq::<Cell>::empty()
            }),
    {
        if self.in_maze(&c) && !self.contains(&c) {
            res.push(c);
            proof {
                assert(res@ =~= old(res)@ + seq![c]);
            }
        } else {
            proof {
                assert(res@ =~= old(res)@ + Seq::<Cell>::empty());
            }
        }
    }

    /// Appends the free cells of `pair_line(base, ax, px, a, span(a, b), lo, hi)`.
    fn push_pair_line(
        &self,
        res: &mut Vec<Cell>,
        base: Cell,
        ax: usize,
        px: usize,
        a: isize,
        b: isize,
        lo: isize,
        hi: isize,
    )
        requires
            self.wf(),
            ax < 3,
            px < 3,
            b < isize::MAX,
        ensures
            final(res)@ == old(res)@ + pair_line(base, ax as int, px as int, a as int, span(a as int, b as int), lo as int, hi as int).filter(
                free_pred(self@, D::spec_dim()),
            ),
    {
        let ghost p = free_pred(self@, D::spec_dim());
        let ghost res0 = res@;
        if a > b {
            proof {
                assert(pair_line(base, ax as int, px as int, a as int, 0, lo as int, hi as int) =~= Seq::<Cell>::empty());
                reveal_with_fuel(Seq::filter, 1);
                assert(Seq::<Cell>::empty().filter(p) =~= Seq::<Cell>::empty());
                assert(res@ =~= res0 + Seq::<Cell>::empty());
            }
            return;
        }
        let mut v: isize = a;
        proof {
            reveal_with_fuel(Seq::filter, 1);
            assert(Seq::<Cell>::empty().filter(p) =~= Seq::<Cell>::empty());
            assert(res@ =~= res0 + pair_line(base, ax as int, px as int, a as int, 0, lo as int, hi as int).filter(p));
        }
        while v <= b
            invariant
                self.wf(),
                p == free_pred(self@, D::spec_dim()),
                ax < 3,
                px < 3,
                a <= v <= b + 1,
                b < isize::MAX,
                res@ == res0 + pair_line(base, ax as int, px as int, a as int, (v - a) as nat, lo as int, hi as int).filter(p),
            decreases b + 1 - v,
        {
            let c1 = set_coord(set_coord(base, ax, v), px, lo);
            let c2 = set_coord(set_coord(base, ax, v), px, hi);
            let ghost before = res@;
            self.push_if_free(res, c1);
            self.push_if_free(res, c2);
            proof {
                let n = (v - a) as nat;
                let pl = pair_line(base, ax as int, px as int, a as int, n, lo as int, hi as int);
                let pa = pair_at(base, ax as int, px as int, v as int, lo as int, hi as int);
                assert(pair_line(base, ax as int, px as int, a as int, n + 1, lo as int, hi as int) == pl + pa);
                Seq::filter_distributes_over_add(pl, pa, p);
                lemma_filter_pair(c1, c2, p);
                assert(pa == seq![c1, c2]);
                assert(res@ =~= res0 + (pl + pa).filter(p));
            }
            v = v + 1;
        }
    }

    /// Appends the free cells of `pair_plane(out, a, span(a, b), ..)`.
    fn push_pair_plane(
        &self,
        res: &mut Vec<Cell>,
        out: usize,
        a: isize,
        b: isize,
        ax: usize,
        px: usize,
        b_lo: isize,
        b_hi: isize,
        lo: isize,
        hi: isize,
    )
        requires
            self.wf(),
            out < 3,
            ax < 3,
            px < 3,
            b < isize::MAX,
            b_hi < isize::MAX,
        ensures
            final(res)@ == old(res)@ + pair_plane(
                out as int,
                a as int,
                span(a as int, b as int),
                ax as int,
                px as int,
                b_lo as int,
                b_hi as int,
                lo as int,
                hi as int,
            ).filter(free_pred(self@, D::spec_dim())),
    {
        let ghost p = free_pred(self@, D::spec_dim());
        let ghost res0 = res@;
        proof {
            reveal_with_fuel(Seq::filter, 1);
            assert(Seq::<Cell>::empty().filter(p) =~= Seq::<Cell>::empty());
        }
        if a > b {
            proof {
                assert(res@ =~= res0 + Seq::<Cell>::empty());
            }
            return;
        }
        let mut u: isize = a;
        proof {
            assert(res@ =~= res0 + pair_plane(out as int, a as int, 0, ax as int, px as int, b_lo as int, b_hi as int, lo as int, hi as int).filter(p));
        }
        while u <= b
            invariant
                self.wf(),
                p == free_pred(self@, D::spec_dim()),
                out < 3,
                ax < 3,
                px < 3,
                a <= u <= b + 1,
                b < isize::MAX,
                b_hi < isize::MAX,
                res@ == res0 + pair_plane(
                    out as int,
                    a as int,
                    (u - a) as nat,
                    ax as int,
                    px as int,
                    b_lo as int,
                    b_hi as int,
                    lo as int,
                    hi as int,
                ).filter(p),
            decreases b + 1 - u,
        {
            let base = set_coord(Cell { x: 0, y: 0, z: 0 }, out, u);
            let ghost before = res@;
            self.push_pair_line(res, base, ax, px, b_lo, b_hi, lo, hi);
            proof {
                let n = (u - a) as nat;
                let pp = pair_plane(out as int, a as int, n, ax as int, px as int, b_lo as int, b_hi as int, lo as int, hi as int);
                let pl = pair_line(base, ax as int, px as int, b_lo as int, span(b_lo as int, b_hi as int), lo as int, hi as int);
                assert(base == with_coord(spec_cell(0, 0, 0), out as int, a + n));
                assert(pair_plane(out as int, a as int, n + 1, ax as int, px as int, b_lo as int, b_hi as int, lo as int, hi as int) == pp + pl);
                Seq::filter_distributes_over_add(pp, pl, p);
                assert(res@ =~= res0 + (pp + pl).filter(p));
            }
            u = u + 1;
        }
    }

    /// The free cells on the border of the square (or cube) of the given
    /// radius around `center`, clipped to the maze; see `square_border`
    /// for their order.
    pub fn free_in_square(&self, center: Cell, radius: isize) -> (v: Vec<Cell>)
        requires
            self.wf(),
            isize::MIN <= center.x - radius <= isize::MAX,
            isize::MIN <= center.x + radius <= isize::MAX,
            isize::MIN <= center.y - radius <= isize::MAX,
            isize::MIN <= center.y + radius <= isize::MAX,
            D::spec_dim() == 3 ==> isize::MIN <= center.z - radius <= isize::MAX,
            D::spec_dim() == 3 ==> isize::MIN <= center.z + radius <= isize::MAX,
            self@.size.x > isize::MIN,
            self@.size.y > isize::MIN,
            D::spec_dim() == 3 ==> self@.size.z > isize::MIN,
        ensures
            v@ == square_border(
                clipped_box(self@.size, center, radius as int).0,
                clipped_box(self@.size, center, radius as int).1,
                D::spec_dim(),
            ).filter(free_pred(self@, D::spec_dim())),
            ({
                let (lo, hi) = clipped_box(self@.size, center, radius as int);
                lo.x <= hi.x && lo.y <= hi.y && (D::spec_dim() == 3 ==> lo.z <= hi.z) ==> forall|c: Cell|
                    #[trigger] v@.contains(c) <==> (free(self@, D::spec_dim(), c) && on_box_border(
                        lo,
                        hi,
                        D::spec_dim(),
                        c,
                    ))
            }),
    {
        proof {
            D::lemma_dim();
        }
        let ghost p = free_pred(self@, D::spec_dim());
        let dim = D::dim();
        let size = self.size;
        let lo_x = if center.x - radius > 0 { center.x - radius } else { 0 };
        let lo_y = if center.y - radius > 0 { center.y - radius } else { 0 };
        let hi_x = if center.x + radius < size.x - 1 { center.x + radius } else { size.x - 1 };
        let hi_y = if center.y + radius < size.y - 1 { center.y + radius } else { size.y - 1 };
        let mut res: Vec<Cell> = Vec::new();
        let ghost bx = clipped_box(self@.size, center, radius as int);
        if dim == 2 {
            self.push_pair_line(&mut res, Cell { x: 0, y: 0, z: 0 }, 1, 0, lo_y, hi_y, lo_x, hi_x);
            self.push_pair_line(&mut res, Cell { x: 0, y: 0, z: 0 }, 0, 1, lo_x, hi_x, lo_y, hi_y);
            proof {
                let l1 = pair_line(spec_cell(0, 0, 0), 1, 0, lo_y as int, span(lo_y as int, hi_y as int), lo_x as int, hi_x as int);
                let l2 = pair_line(spec_cell(0, 0, 0), 0, 1, lo_x as int, span(lo_x as int, hi_x as int), lo_y as int, hi_y as int);
                Seq::filter_distributes_over_add(l1, l2, p);
                assert(bx.0.x == lo_x && bx.0.y == lo_y && bx.1.x == hi_x && bx.1.y == hi_y);
                assert(res@ =~= (l1 + l2).filter(p));
            }
        } else {
            let lo_z = if center.z - radius > 0 { center.z - radius } else { 0 };
            let hi_z = if center.z + radius < size.z - 1 { center.z + radius } else { size.z - 1 };
            self.push_pair_plane(&mut res, 0, lo_x, hi_x, 1, 2, lo_y, hi_y, lo_z, hi_z);
            self.push_pair_plane(&mut res, 1, lo_y, hi_y, 2, 0, lo_z, hi_z, lo_x, hi_x);
            self.push_pair_plane(&mut res, 0, lo_x, hi_x, 2, 1, lo_z, hi_z, lo_y, hi_y);
            proof {
                let q1 = pair_plane(0, lo_x as int, span(lo_x as int, hi_x as int), 1, 2, lo_y as int, hi_y as int, lo_z as int, hi_z as int);
                let q2 = pair_plane(1, lo_y as int, span(lo_y as int, hi_y as int), 2, 0, lo_z as int, hi_z as int, lo_x as int, hi_x as int);
                let q3 = pair_plane(0, lo_x as int, span(lo_x as int, hi_x as int), 2, 1, lo_z as int, hi_z as int, lo_y as int, hi_y as int);
                Seq::filter_distributes_over_add(q1, q2, p);
                Seq::filter_distributes_over_add(q1 + q2, q3, p);
                assert(bx.0 == Cell { x: lo_x, y: lo_y, z: lo_z });
                assert(bx.1 == Cell { x: hi_x, y: hi_y, z: hi_z });
                assert(res@ =~= (q1 + q2 + q3).filter(p));
            }
        }
        proof {
            let (lo, hi) = clipped_box(self@.size, center, radius as int);
            if lo.x <= hi.x && lo.y <= hi.y && (D::spec_dim() == 3 ==> lo.z <= hi.z) {
                assert forall|c: Cell| #[trigger] res@.contains(c) <==> (free(self@, D::spec_dim(), c)
                    && on_box_border(lo, hi, D::spec_dim(), c)) by {
                    lemma_free_border_cells(self@, D::spec_dim(), lo, hi, c);
                }
            }
        }
        res
    }

    /// The `k`-th free cell of the maze in iteration order, if there are
    /// more than `k`.
    pub fn nth_free(&self, k: usize) -> (c: Option<Cell>)
        requires
            self.wf(),
        ensures
            c == (if k < free_list(self@, D::spec_dim()).len() {
                Some(free_list(self@, D::spec_dim())[k as int])
            } else {
                None
            }),
    {
        let v = self.free_cells();
        if k < v.len() {
            Some(v[k])
        } else {
            None
        }
    }

    /// A free cell chosen uniformly at random.
    pub fn random_free(&self) -> (c: Cell)
        requires
            self.wf(),
            exists|c: Cell| free(self@, D::spec_dim(), c),
        ensures
            free(self@, D::spec_dim(), c),
    {
        proof {
            D::lemma_dim();
            let d = choose|d: Cell| free(self@, D::spec_dim(), d);
            lemma_cell_index(self@.size, D::spec_dim(), d);
            let cells = area_cells(self@.size, D::spec_dim());
            let j = cell_index(self@.size, D::spec_dim(), d);
            assert(cells[j] == d);
            cells.lemma_filter_contains(free_pred(self@, D::spec_dim()), j);
        }
        let v = self.free_cells();
        proof {
            let d = choose|d: Cell| free(self@, D::spec_dim(), d);
            assert(free_list(self@, D::spec_dim()).contains(d));
            assert(v@.contains(d));
        }
        let k = random_below(v.len());
        proof {
            let cells = area_cells(self@.size, D::spec_dim());
            cells.lemma_filter_pred(free_pred(self@, D::spec_dim()), k as int);
        }
        v[k]
    }

    /// The moves open from `c`, as (offset, cost) pairs in the order of
    /// the moves.
    pub fn successors(&self, c: &Cell) -> (v: Vec<(Cell, isize)>)
        requires
            self.wf(),
            small(*c),
        ensures
            v@ == successor_list(self@, D::spec_dim(), *c),
            forall|b: Cell| #[trigger] listed(v@, b) <==> step(self@, D::spec_dim(), *c, b),
            forall|q: int| 0 <= q < v@.len() ==> (#[trigger] v@[q]).1 > 0,
    {
        proof {
            self.lemma_openings();
        }
        let ghost ops = spec_openings(D::spec_dim());
        let mut v: Vec<(Cell, isize)> = Vec::new();
        let mut i: usize = 0;
        while i < self.openings.len()
            invariant
                self.wf(),
                small(*c),
                ops == spec_openings(D::spec_dim()),
                self.openings@.len() == ops.len(),
                forall|j: int| 0 <= j < ops.len() ==> #[trigger] self.openings@[j].model() == ops[j],
                i <= ops.len(),
                forall|b: Cell| #[trigger] listed(v@, b) <==> open_upto(self@, *c, ops, i as int, b),
                v@ == open_list(self@, *c, ops, i as nat),
                forall|q: int| 0 <= q < v@.len() ==> (#[trigger] v@[q]).1 > 0,
            decreases self.openings.len() - i,
        {
            let o = &self.openings[i];
            let open = self.is_open(c, i);
            proof {
                assert(o.model() == ops[i as int]);
                assert(ops[i as int] == opening_model(spec_offsets(D::spec_dim())[i as int]));
                assert(o.cost >= 10);
            }
            let ghost v0 = v@;
            if open {
                v.push((o.cell, o.cost));
            }
            assert(v@ =~= open_list(self@, *c, ops, (i + 1) as nat));
            proof {
                assert forall|b: Cell| #[trigger] listed(v@, b) <==> open_upto(self@, *c, ops, i + 1, b) by {
                    if listed(v@, b) {
                        let q = choose|q: int| 0 <= q < v@.len() && #[trigger] v@[q].0 == b;
                        if q < v0.len() {
                            assert(v0[q] == v@[q]);
                            assert(v0[q].0 == b);
                            assert(listed(v0, b));
                        } else {
                            assert(ops[i as int].cell == b);
                            assert(open_upto(self@, *c, ops, i + 1, b));
                        }
                    }
                    if open_upto(self@, *c, ops, i + 1, b) {
                        let j = choose|j: int| 0 <= j < i + 1 && #[trigger] ops[j].cell == b && opening_open(self@, *c, ops[j]);
                        if j < i {
                            assert(open_upto(self@, *c, ops, i as int, b));
                            assert(listed(v0, b));
                            let q = choose|q: int| 0 <= q < v0.len() && #[trigger] v0[q].0 == b;
                            assert(v@[q] == v0[q]);
                            assert(v@[q].0 == b);
                            assert(listed(v@, b));
                        } else {
                            assert(open);
                            assert(v@[v0.len() as int].0 == b);
                            assert(listed(v@, b));
                        }
                    }
                }
            }
            i = i + 1;
        }
        proof {
            assert forall|b: Cell| #[trigger] listed(v@, b) <==> step(self@, D::spec_dim(), *c, b) by {
                if open_upto(self@, *c, ops, ops.len() as int, b) {
                    let j = choose|j: int| 0 <= j < ops.len() && #[trigger] ops[j].cell == b && opening_open(self@, *c, ops[j]);
                }
                if step(self@, D::spec_dim(), *c, b) {
                    let j = choose|j: int| 0 <= j < ops.len() && #[trigger] ops[j].cell == b && opening_open(self@, *c, ops[j]);
                    assert(open_upto(self@, *c, ops, ops.len() as int, b));
                }
            }
        }
        v
    }

    /// A path from `pos` to `goal` found by the A* search over the moves.
    /// Each step goes to a move's offset itself, not relative to the current
    /// cell.
    pub fn find_path(&self, pos: Cell, goal: Cell) -> (r: Option<Vec<Cell>>)
        requires
            self.wf(),
            small(pos),
            small(goal),
        ensures
            path_view(r) == astar_result(self@, D::spec_dim(), pos, goal),
            r matches Some(p) ==> valid_path(self@, D::spec_dim(), pos, goal, p@) && p@.no_duplicates(),
            r is None ==> forall|p: Seq<Cell>| !#[trigger] valid_path(self@, D::spec_dim(), pos, goal, p),
    {
        astar_path(self, pos, goal)
    }
}

} // verus!
