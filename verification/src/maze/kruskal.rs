//! Maze generation by a partial, reversed, randomized Kruskal algorithm:
//! wall segments centered on the cells of even coordinates are drawn in a
//! random order; a segment is built when its cells belong to more than two
//! different groups, and the groups of its cells are then merged.

use vstd::prelude::*;
use core::marker::PhantomData;

use crate::random::random_below;
use super::cell::{
    Cell, Dimension, in_area, cell_index, cell_count, index_cell, valid_dim, spec_cell,
    lemma_cell_index, lemma_index_cell, count_cells, index_of_cell,
};
use super::{Maze, MazeModel, add_cell};

verus! {

/// A wall segment centered on `c`, of orientation `orient`: in two
/// dimensions, three cells along y, or along x; in three dimensions, the
/// nine cells of the square orthogonal to x, to y, or to z.
pub open spec fn segment(dim: nat, orient: int, c: Cell) -> Seq<Cell> {
    if dim == 2 {
        if orient == 0 {
            seq![add_cell(c, spec_cell(0, -1, 0)), add_cell(c, spec_cell(0, 0, 0)), add_cell(c, spec_cell(0, 1, 0))]
        } else {
            seq![add_cell(c, spec_cell(-1, 0, 0)), add_cell(c, spec_cell(0, 0, 0)), add_cell(c, spec_cell(1, 0, 0))]
        }
    } else {
        Seq::new(
            9,
            |t: int|
                {
                    let i = t / 3 - 1;
                    let j = t % 3 - 1;
                    if orient == 0 {
                        add_cell(c, spec_cell(0, i, j))
                    } else if orient == 1 {
                        add_cell(c, spec_cell(i, 0, j))
                    } else {
                        add_cell(c, spec_cell(i, j, 0))
                    }
                },
        )
    }
}

/// The offset of the cell `(i, j)` of a square orthogonal to axis `o`.
pub open spec fn square_offset(o: int, i: int, j: int) -> Cell {
    if o == 0 {
        spec_cell(0, i, j)
    } else if o == 1 {
        spec_cell(i, 0, j)
    } else {
        spec_cell(i, j, 0)
    }
}

/// The offset of cell `i` of a line along y (`o` 0) or along x.
pub open spec fn line_offset(o: int, i: int) -> Cell {
    if o == 0 {
        spec_cell(0, i, 0)
    } else {
        spec_cell(i, 0, 0)
    }
}

/// `x` is a cell of the square of nine cells around `c` orthogonal to
/// axis `o`.
pub open spec fn in_square(o: int, c: Cell, x: Cell) -> bool {
    exists|i: int, j: int| -1 <= i <= 1 && -1 <= j <= 1 && x == add_cell(c, #[trigger] square_offset(o, i, j))
}

/// A cell that cannot wrap around when moved by one.
pub open spec fn roomy(c: Cell) -> bool {
    isize::MIN < c.x < isize::MAX && isize::MIN < c.y < isize::MAX && isize::MIN < c.z < isize::MAX
}

/// In three dimensions a wall segment is the whole square of nine cells
/// around its center, orthogonal to its axis: every cell of the square is
/// in it, and it holds nothing else. In two dimensions it is the three
/// cells around its center along y (`orient` 0) or along x.
pub proof fn lemma_segment_shape(orient: int, c: Cell)
    requires
        0 <= orient < 3,
        roomy(c),
    ensures
        segment(3, orient, c).len() == 9,
        forall|i: int, j: int|
            -1 <= i <= 1 && -1 <= j <= 1 ==> segment(3, orient, c).contains(
                #[trigger] add_cell(c, square_offset(orient, i, j)),
            ),
        forall|k: int| 0 <= k < 9 ==> in_square(orient, c, #[trigger] segment(3, orient, c)[k]),
        segment(3, orient, c).no_duplicates(),
        segment(2, orient, c).len() == 3,
        forall|i: int|
            -1 <= i <= 1 ==> segment(2, orient, c).contains(
                #[trigger] add_cell(c, line_offset(orient, i)),
            ),
{
    let w = segment(3, orient, c);
    assert forall|i: int, j: int|
        -1 <= i <= 1 && -1 <= j <= 1 implies w.contains(#[trigger] add_cell(c, square_offset(orient, i, j))) by {
        let t = (i + 1) * 3 + (j + 1);
        assert(t / 3 - 1 == i && t % 3 - 1 == j);
        assert(w[t] == add_cell(c, square_offset(orient, i, j)));
    }
    assert forall|k: int| 0 <= k < 9 implies in_square(orient, c, #[trigger] w[k]) by {
        let i = k / 3 - 1;
        let j = k % 3 - 1;
        assert(-1 <= i <= 1 && -1 <= j <= 1);
        assert(w[k] == add_cell(c, square_offset(orient, i, j)));
    }
    assert forall|a: int, b: int| 0 <= a < b < 9 implies w[a] != w[b] by {
        assert(w[a] == add_cell(c, square_offset(orient, a / 3 - 1, a % 3 - 1)));
        assert(w[b] == add_cell(c, square_offset(orient, b / 3 - 1, b % 3 - 1)));
        assert(a / 3 != b / 3 || a % 3 != b % 3);
    }
    let v = segment(2, orient, c);
    assert forall|i: int| -1 <= i <= 1 implies v.contains(
        #[trigger] add_cell(c, line_offset(orient, i)),
    ) by {
        assert(v[i + 1] == add_cell(c, line_offset(orient, i)));
    }
}

/// The segments centered on `(2x, 2y, 2z)`; `n` is half the size. A
/// segment is left out when it would reach the last row of the area.
pub open spec fn entries(dim: nat, n: Cell, x: int, y: int, z: int) -> Seq<Seq<Cell>> {
    let c = spec_cell(2 * x, 2 * y, 2 * z);
    if dim == 2 {
        (if y != n.y {
            seq![segment(2, 0, c)]
        } else {
            seq![]
        }) + (if x != n.x {
            seq![segment(2, 1, c)]
        } else {
            seq![]
        })
    } else {
        (if y != n.y && z != n.z {
            seq![segment(3, 0, c)]
        } else {
            seq![]
        }) + (if x != n.x && z != n.z {
            seq![segment(3, 1, c)]
        } else {
            seq![]
        }) + (if x != n.x && y != n.y {
            seq![segment(3, 2, c)]
        } else {
            seq![]
        })
    }
}

/// The entries for `z` from 1 to `k`.
pub open spec fn cand_zs(dim: nat, n: Cell, x: int, y: int, k: nat) -> Seq<Seq<Cell>>
    decreases k,
{
    if k == 0 {
        seq![]
    } else {
        cand_zs(dim, n, x, y, (k - 1) as nat) + entries(dim, n, x, y, k as int)
    }
}

/// The entries for `y` from 1 to `k` (and every `z`).
pub open spec fn cand_ys(dim: nat, n: Cell, x: int, k: nat) -> Seq<Seq<Cell>>
    decreases k,
{
    if k == 0 {
        seq![]
    } else {
        cand_ys(dim, n, x, (k - 1) as nat) + if dim == 2 {
            entries(dim, n, x, k as int, 0)
        } else {
            cand_zs(dim, n, x, k as int, n.z as nat)
        }
    }
}

/// The entries for `x` from 1 to `k` (and every `y` and `z`).
pub open spec fn cand_xs(dim: nat, n: Cell, k: nat) -> Seq<Seq<Cell>>
    decreases k,
{
    if k == 0 {
        seq![]
    } else {
        cand_xs(dim, n, (k - 1) as nat) + cand_ys(dim, n, k as int, n.y as nat)
    }
}

/// Half the size, rounded down (a coordinate that is not positive counts
/// as zero).
pub open spec fn half(size: Cell) -> Cell {
    spec_cell(
        if size.x > 0 { size.x / 2 } else { 0 },
        if size.y > 0 { size.y / 2 } else { 0 },
        if size.z > 0 { size.z / 2 } else { 0 },
    )
}

/// The wall segments a maze of the given size is built from, in the order
/// they are drawn from.
pub open spec fn candidates(size: Cell, dim: nat) -> Seq<Seq<Cell>> {
    cand_xs(dim, half(size), half(size).x as nat)
}

/// Every coordinate of the dimension is odd and positive.
pub open spec fn odd_size(size: Cell, dim: nat) -> bool {
    &&& size.x > 0 && size.x % 2 == 1
    &&& size.y > 0 && size.y % 2 == 1
    &&& dim == 3 ==> size.z > 0 && size.z % 2 == 1
}

/// The generation state: for each cell (by number), whether it is a wall,
/// and its group.
pub struct KState {
    pub wall: Seq<bool>,
    pub group: Seq<usize>,
}

/// The groups of the cells of `w`.
pub open spec fn seg_groups(size: Cell, dim: nat, group: Seq<usize>, w: Seq<Cell>) -> Set<usize> {
    Set::new(|g: usize| exists|k: int| 0 <= k < w.len() && #[trigger] group[cell_index(size, dim, w[k])] == g)
}

/// `j` is the number of a cell of `w`.
pub open spec fn in_segment(size: Cell, dim: nat, w: Seq<Cell>, j: int) -> bool {
    exists|k: int| 0 <= k < w.len() && #[trigger] cell_index(size, dim, w[k]) == j
}

/// One step: when the cells of `w` are in more than two groups, they
/// become walls and their groups merge into the group of `w[0]`.
pub open spec fn kstep(size: Cell, dim: nat, st: KState, w: Seq<Cell>) -> KState {
    let gs = seg_groups(size, dim, st.group, w);
    let one = st.group[cell_index(size, dim, w[0])];
    if gs.len() > 2 {
        KState {
            wall: Seq::new(st.wall.len(), |j: int| st.wall[j] || in_segment(size, dim, w, j)),
            group: Seq::new(
                st.group.len(),
                |j: int|
                    if gs.contains(st.group[j]) {
                        one
                    } else {
                        st.group[j]
                    },
            ),
        }
    } else {
        st
    }
}

/// The state after drawing the segments of `l` at positions `choices`,
/// each drawn segment being removed by moving the last one in its place.
pub open spec fn krun(size: Cell, dim: nat, l: Seq<Seq<Cell>>, st: KState, choices: Seq<usize>) -> KState
    decreases choices.len(),
{
    if choices.len() == 0 {
        st
    } else {
        let i = choices[0] as int;
        krun(
            size,
            dim,
            l.update(i, l.last()).drop_last(),
            kstep(size, dim, st, l[i]),
            choices.drop_first(),
        )
    }
}

/// `choices` draws a position among the `n - t` segments left at each
/// step `t`, until only `stop` are left.
pub open spec fn valid_choices(n: int, stop: int, choices: Seq<usize>) -> bool {
    &&& choices.len() == (if n > stop {
        n - stop
    } else {
        0
    })
    &&& forall|t: int| 0 <= t < choices.len() ==> #[trigger] choices[t] < n - t
}

/// The start: no wall, each cell in its own group.
pub open spec fn kstart(count: nat) -> KState {
    KState { wall: Seq::new(count, |j: int| false), group: Seq::new(count, |j: int| j as usize) }
}

/// The walls of the maze generated from `choices`.
pub open spec fn kruskal_walls(size: Cell, dim: nat, choices: Seq<usize>) -> Set<Cell> {
    let st = krun(
        size,
        dim,
        candidates(size, dim),
        kstart(cell_count(size, dim) as nat),
        choices,
    );
    Set::new(|c: Cell| in_area(size, dim, c) && st.wall[cell_index(size, dim, c)])
}

pub open spec fn segs_view(v: Seq<Vec<Cell>>) -> Seq<Seq<Cell>> {
    v.map_values(|w: Vec<Cell>| w@)
}

/// `w` is not empty and every cell of it lies in the area.
pub open spec fn seg_inside(size: Cell, dim: nat, w: Seq<Cell>) -> bool {
    &&& w.len() > 0
    &&& forall|k: int| 0 <= k < w.len() ==> #[trigger] in_area(size, dim, w[k])
}

/// The wall segment of orient `orient` centered on `c`.
fn make_segment(dim: usize, orient: usize, c: &Cell) -> (w: Vec<Cell>)
    requires
        valid_dim(dim as nat),
        orient < dim,
        isize::MIN < c.x < isize::MAX,
        isize::MIN < c.y < isize::MAX,
        isize::MIN < c.z < isize::MAX,
    ensures
        w@ == segment(dim as nat, orient as int, *c),
{
    let mut w: Vec<Cell> = Vec::new();
    if dim == 2 {
        if orient == 0 {
            w.push(Cell { x: c.x, y: c.y - 1, z: c.z });
            w.push(Cell { x: c.x, y: c.y, z: c.z });
            w.push(Cell { x: c.x, y: c.y + 1, z: c.z });
        } else {
            w.push(Cell { x: c.x - 1, y: c.y, z: c.z });
            w.push(Cell { x: c.x, y: c.y, z: c.z });
            w.push(Cell { x: c.x + 1, y: c.y, z: c.z });
        }
        assert(w@ =~= segment(dim as nat, orient as int, *c));
    } else {
        let mut t: isize = 0;
        while t < 9
            invariant
                0 <= t <= 9,
                dim == 3,
                orient < 3,
                isize::MIN < c.x < isize::MAX,
                isize::MIN < c.y < isize::MAX,
                isize::MIN < c.z < isize::MAX,
                w@ =~= segment(3, orient as int, *c).take(t as int),
            decreases 9 - t,
        {
            let i: isize = t / 3 - 1;
            let j: isize = t % 3 - 1;
            let e = if orient == 0 {
                Cell { x: c.x, y: c.y + i, z: c.z + j }
            } else if orient == 1 {
                Cell { x: c.x + i, y: c.y, z: c.z + j }
            } else {
                Cell { x: c.x + i, y: c.y + j, z: c.z }
            };
            w.push(e);
            assert(segment(3, orient as int, *c).take(t + 1) =~= segment(3, orient as int, *c).take(
                t as int,
            ).push(e));
            t = t + 1;
        }
        assert(w@ =~= segment(dim as nat, orient as int, *c));
    }
    w
}

/// The bounds of the loops that center segments on `(2x, 2y, 2z)`.
pub open spec fn center_range(size: Cell, dim: nat, x: int, y: int, z: int) -> bool {
    let n = half(size);
    &&& 1 <= x <= n.x
    &&& 1 <= y <= n.y
    &&& if dim == 3 {
        1 <= z <= n.z
    } else {
        z == 0
    }
}

/// A segment that `entries` keeps lies in the area.
proof fn lemma_segment_inside(size: Cell, dim: nat, orient: int, x: int, y: int, z: int)
    requires
        valid_dim(dim),
        odd_size(size, dim),
        center_range(size, dim, x, y, z),
        0 <= orient < dim,
        dim == 2 ==> (if orient == 0 {
            y != half(size).y
        } else {
            x != half(size).x
        }),
        dim == 3 ==> (if orient == 0 {
            y != half(size).y && z != half(size).z
        } else if orient == 1 {
            x != half(size).x && z != half(size).z
        } else {
            x != half(size).x && y != half(size).y
        }),
    ensures
        seg_inside(size, dim, segment(dim, orient, spec_cell(2 * x, 2 * y, 2 * z))),
{
    let w = segment(dim, orient, spec_cell(2 * x, 2 * y, 2 * z));
    assert forall|k: int| 0 <= k < w.len() implies #[trigger] in_area(size, dim, w[k]) by {
        if dim == 3 {
            assert(0 <= k / 3 <= 2);
            assert(0 <= k % 3 <= 2);
        }
    }
}

/// Appends the segments centered on `(2x, 2y, 2z)`.
fn push_entries(v: &mut Vec<Vec<Cell>>, size: &Cell, dim: usize, n: &Cell, x: isize, y: isize, z: isize)
    requires
        valid_dim(dim as nat),
        odd_size(*size, dim as nat),
        *n == half(*size),
        center_range(*size, dim as nat, x as int, y as int, z as int),
    ensures
        segs_view(final(v)@) == segs_view(old(v)@) + entries(dim as nat, *n, x as int, y as int, z as int),
        final(v)@.len() >= old(v)@.len(),
        final(v)@.subrange(0, old(v)@.len() as int) == old(v)@,
        forall|i: int| old(v)@.len() <= i < final(v)@.len() ==> seg_inside(*size, dim as nat, #[trigger] final(v)@[i]@),
{
    let ghost old_v = v@;
    let c = Cell { x: 2 * x, y: 2 * y, z: 2 * z };
    assert(c == spec_cell(2 * x, 2 * y, 2 * z));
    if dim == 2 {
        if y != n.y {
            proof { lemma_segment_inside(*size, 2, 0, x as int, y as int, z as int); }
            let w = make_segment(2, 0, &c);
            v.push(w);
        }
        let ghost v1 = v@;
        if x != n.x {
            proof { lemma_segment_inside(*size, 2, 1, x as int, y as int, z as int); }
            let w = make_segment(2, 1, &c);
            v.push(w);
        }
        assert(segs_view(v@) =~= segs_view(old_v) + entries(dim as nat, *n, x as int, y as int, z as int));
    } else {
        if y != n.y && z != n.z {
            proof { lemma_segment_inside(*size, 3, 0, x as int, y as int, z as int); }
            let w = make_segment(3, 0, &c);
            v.push(w);
        }
        if x != n.x && z != n.z {
            proof { lemma_segment_inside(*size, 3, 1, x as int, y as int, z as int); }
            let w = make_segment(3, 1, &c);
            v.push(w);
        }
        if x != n.x && y != n.y {
            proof { lemma_segment_inside(*size, 3, 2, x as int, y as int, z as int); }
            let w = make_segment(3, 2, &c);
            v.push(w);
        }
        assert(segs_view(v@) =~= segs_view(old_v) + entries(dim as nat, *n, x as int, y as int, z as int));
    }
    assert(v@.subrange(0, old_v.len() as int) =~= old_v);
}

/// The candidate wall segments of a maze of size `size`, in order.
fn build_candidates(size: &Cell, dim: usize) -> (v: Vec<Vec<Cell>>)
    requires
        valid_dim(dim as nat),
        odd_size(*size, dim as nat),
    ensures
        segs_view(v@) == candidates(*size, dim as nat),
        forall|i: int| 0 <= i < v@.len() ==> seg_inside(*size, dim as nat, #[trigger] v@[i]@),
{
    let n = Cell {
        x: size.x / 2,
        y: size.y / 2,
        z: if size.z > 0 { size.z / 2 } else { 0 },
    };
    let ghost sz = *size;
    let ghost d = dim as nat;
    let mut v: Vec<Vec<Cell>> = Vec::new();
    let mut x: isize = 1;
    assert(segs_view(v@) =~= cand_xs(d, n, 0));
    while x <= n.x
        invariant
            valid_dim(d),
            d == dim as nat,
            sz == *size,
            odd_size(sz, d),
            n == half(sz),
            1 <= x <= n.x + 1,
            segs_view(v@) == cand_xs(d, n, (x - 1) as nat),
            forall|i: int| 0 <= i < v@.len() ==> seg_inside(sz, d, #[trigger] v@[i]@),
        decreases n.x + 1 - x,
    {
        let mut y: isize = 1;
        assert(segs_view(v@) =~= cand_xs(d, n, (x - 1) as nat) + cand_ys(d, n, x as int, 0));
        while y <= n.y
            invariant
                valid_dim(d),
                d == dim as nat,
                sz == *size,
                odd_size(sz, d),
                n == half(sz),
                1 <= x <= n.x,
                1 <= y <= n.y + 1,
                segs_view(v@) == cand_xs(d, n, (x - 1) as nat) + cand_ys(d, n, x as int, (y - 1) as nat),
                forall|i: int| 0 <= i < v@.len() ==> seg_inside(sz, d, #[trigger] v@[i]@),
            decreases n.y + 1 - y,
        {
            let ghost before = segs_view(v@);
            let ghost bv = v@;
            if dim == 2 {
                push_entries(&mut v, size, dim, &n, x, y, 0);
                proof {
                    assert forall|i: int| 0 <= i < v@.len() implies seg_inside(sz, d, #[trigger] v@[i]@) by {
                        if i < bv.len() {
                            assert(v@.subrange(0, bv.len() as int)[i] == v@[i]);
                        }
                    }
                    assert(cand_ys(d, n, x as int, y as nat) == cand_ys(d, n, x as int, (y - 1) as nat)
                        + entries(d, n, x as int, y as int, 0));
                    assert(segs_view(v@) =~= cand_xs(d, n, (x - 1) as nat) + cand_ys(d, n, x as int, y as nat));
                }
            } else {
                let mut z: isize = 1;
                assert(segs_view(v@) =~= before + cand_zs(d, n, x as int, y as int, 0));
                while z <= n.z
                    invariant
                        valid_dim(d),
                        d == dim as nat,
                        d == 3,
                        sz == *size,
                        odd_size(sz, d),
                        n == half(sz),
                        1 <= x <= n.x,
                        1 <= y <= n.y,
                        1 <= z <= n.z + 1,
                        segs_view(v@) == before + cand_zs(d, n, x as int, y as int, (z - 1) as nat),
                        forall|i: int| 0 <= i < v@.len() ==> seg_inside(sz, d, #[trigger] v@[i]@),
                    decreases n.z + 1 - z,
                {
                    let ghost bz = v@;
                    push_entries(&mut v, size, dim, &n, x, y, z);
                    proof {
                        assert forall|i: int| 0 <= i < v@.len() implies seg_inside(sz, d, #[trigger] v@[i]@) by {
                            if i < bz.len() {
                                assert(v@.subrange(0, bz.len() as int)[i] == v@[i]);
                            }
                        }
                        assert(segs_view(v@) =~= before + cand_zs(d, n, x as int, y as int, z as nat));
                    }
                    z = z + 1;
                }
                proof {
                    assert(cand_ys(d, n, x as int, y as nat) == cand_ys(d, n, x as int, (y - 1) as nat)
                        + cand_zs(d, n, x as int, y as int, n.z as nat));
                    assert(segs_view(v@) =~= cand_xs(d, n, (x - 1) as nat) + cand_ys(d, n, x as int, y as nat));
                }
            }
            y = y + 1;
        }
        assert(segs_view(v@) =~= cand_xs(d, n, x as nat));
        x = x + 1;
    }
    v
}

/// `x` occurs in `v`.
fn has_group(v: &Vec<usize>, x: usize) -> (b: bool)
    ensures
        b == v@.contains(x),
{
    let mut i: usize = 0;
    while i < v.len()
        invariant
            i <= v@.len(),
            forall|j: int| 0 <= j < i ==> v@[j] != x,
        decreases v.len() - i,
    {
        if v[i] == x {
            return true;
        }
        i = i + 1;
    }
    false
}

/// One drawing step: `kstep` on the state held by `wall` and `group`.
fn apply_segment(
    wall: &mut Vec<bool>,
    group: &mut Vec<usize>,
    size: &Cell,
    dim: usize,
    count: usize,
    w: &Vec<Cell>,
)
    requires
        valid_dim(dim as nat),
        count == cell_count(*size, dim as nat),
        old(wall)@.len() == count,
        old(group)@.len() == count,
        seg_inside(*size, dim as nat, w@),
    ensures
        (KState { wall: final(wall)@, group: final(group)@ }) == kstep(
            *size,
            dim as nat,
            KState { wall: old(wall)@, group: old(group)@ },
            w@,
        ),
{
    let ghost sz = *size;
    let ghost d = dim as nat;
    let ghost g0 = group@;
    let ghost w0 = wall@;
    let mut gs: Vec<usize> = Vec::new();
    let mut k: usize = 0;
    while k < w.len()
        invariant
            valid_dim(d),
            d == dim as nat,
            sz == *size,
            count == cell_count(sz, d),
            group@ == g0,
            g0.len() == count,
            seg_inside(sz, d, w@),
            k <= w@.len(),
            gs@.no_duplicates(),
            forall|g: usize|
                gs@.contains(g) <==> exists|k2: int|
                    0 <= k2 < k && #[trigger] g0[cell_index(sz, d, w@[k2])] == g,
        decreases w.len() - k,
    {
        assert(in_area(sz, d, w@[k as int]));
        let idx = index_of_cell(size, dim, count, &w[k]);
        let g = group[idx];
        let ghost gs_old = gs@;
        if !has_group(&gs, g) {
            gs.push(g);
        }
        proof {
            assert(gs@ == gs_old || gs@ == gs_old.push(g));
            assert(g0[cell_index(sz, d, w@[k as int])] == g);
            assert forall|h: usize|
                gs@.contains(h) <==> exists|k2: int|
                    0 <= k2 < k + 1 && #[trigger] g0[cell_index(sz, d, w@[k2])] == h by {
                if h != g {
                    if gs@.contains(h) {
                        let i = choose|i: int| 0 <= i < gs@.len() && gs@[i] == h;
                        if i < gs_old.len() {
                            assert(gs_old[i] == h);
                        }
                        assert(gs_old.contains(h));
                    }
                    if gs_old.contains(h) {
                        let i = choose|i: int| 0 <= i < gs_old.len() && gs_old[i] == h;
                        assert(gs@[i] == h);
                    }
                    if exists|k2: int| 0 <= k2 < k + 1 && #[trigger] g0[cell_index(sz, d, w@[k2])] == h {
                        let k2 = choose|k2: int| 0 <= k2 < k + 1 && #[trigger] g0[cell_index(sz, d, w@[k2])] == h;
                        assert(k2 < k);
                    }
                } else {
                    if !gs_old.contains(h) {
                        assert(gs@[gs_old.len() as int] == h);
                    }
                }
            }
        }
        k = k + 1;
    }
    proof {
        assert(gs@.to_set() =~= seg_groups(sz, d, g0, w@));
        gs@.unique_seq_to_set();
        lemma_cell_index(sz, d, w@[0]);
    }
    let i0 = index_of_cell(size, dim, count, &w[0]);
    let one = group[i0];
    if gs.len() > 2 {
        let mut k: usize = 0;
        while k < w.len()
            invariant
                valid_dim(d),
                d == dim as nat,
                sz == *size,
                count == cell_count(sz, d),
                wall@.len() == count,
                w0.len() == count,
                seg_inside(sz, d, w@),
                k <= w@.len(),
                forall|j: int|
                    0 <= j < count ==> #[trigger] wall@[j] == (w0[j] || exists|k2: int|
                        0 <= k2 < k && #[trigger] cell_index(sz, d, w@[k2]) == j),
            decreases w.len() - k,
        {
            assert(in_area(sz, d, w@[k as int]));
            let idx = index_of_cell(size, dim, count, &w[k]);
            wall.set(idx, true);
            proof {
                assert forall|j: int| 0 <= j < count implies #[trigger] wall@[j] == (w0[j] || exists|k2: int|
                    0 <= k2 < k + 1 && #[trigger] cell_index(sz, d, w@[k2]) == j) by {
                    if j == idx {
                        assert(cell_index(sz, d, w@[k as int]) == j);
                    }
                }
            }
            k = k + 1;
        }
        let mut j: usize = 0;
        while j < count
            invariant
                group@.len() == count,
                g0.len() == count,
                j <= count,
                forall|i: int|
                    0 <= i < j ==> #[trigger] group@[i] == (if gs@.contains(g0[i]) {
                        one
                    } else {
                        g0[i]
                    }),
                forall|i: int| j <= i < count ==> #[trigger] group@[i] == g0[i],
            decreases count - j,
        {
            let gj = group[j];
            if has_group(&gs, gj) {
                group.set(j, one);
            }
            j = j + 1;
        }
        proof {
            let st = kstep(sz, d, KState { wall: w0, group: g0 }, w@);
            assert(wall@ =~= st.wall);
            assert(group@ =~= st.group);
        }
    }
}

impl<D: Dimension> Maze<D> {
    /// The number of candidate wall segments of a maze of size `size`.
    pub fn segment_count(size: &Cell) -> (n: usize)
        requires
            odd_size(*size, D::spec_dim()),
        ensures
            n == candidates(*size, D::spec_dim()).len(),
    {
        proof {
            D::lemma_dim();
        }
        let v = build_candidates(size, D::dim());
        v.len()
    }

    /// The maze that the generation builds when it draws the segments at
    /// the positions `choices`, until `stop` segments are left.
    pub fn kruskal_with_choices(size: Cell, stop: usize, choices: &Vec<usize>) -> (m: Self)
        requires
            odd_size(size, D::spec_dim()),
            cell_count(size, D::spec_dim()) <= usize::MAX,
            valid_choices(candidates(size, D::spec_dim()).len() as int, stop as int, choices@),
        ensures
            m.wf(),
            m@.size == size,
            m@.walls == kruskal_walls(size, D::spec_dim(), choices@),
            forall|c: Cell| #[trigger] m@.walls.contains(c) ==> exists|i: int|
                0 <= i < candidates(size, D::spec_dim()).len()
                    && #[trigger] candidates(size, D::spec_dim())[i].contains(c),
    {
        proof {
            D::lemma_dim();
        }
        let dim = D::dim();
        let ghost d = dim as nat;
        let ghost cands = candidates(size, d);
        let count = match count_cells(&size, dim) {
            Some(n) => n,
            None => 0,
        };
        let mut wall: Vec<bool> = Vec::new();
        let mut group: Vec<usize> = Vec::new();
        let mut j: usize = 0;
        while j < count
            invariant
                j <= count,
                wall@ =~= Seq::new(j as nat, |i: int| false),
                group@ =~= Seq::new(j as nat, |i: int| i as usize),
            decreases count - j,
        {
            wall.push(false);
            group.push(j);
            j = j + 1;
        }
        let mut segs = build_candidates(&size, dim);
        let n_segs = segs.len();
        let ghost n0 = n_segs as int;
        let ghost final_st = krun(size, d, cands, kstart(count as nat), choices@);
        let mut t: usize = 0;
        proof {
            assert(choices@.skip(0) =~= choices@);
            assert forall|i: int| 0 <= i < n0 implies seg_inside(size, d, #[trigger] cands[i]) by {
                assert(segs_view(segs@)[i] == segs@[i]@);
            }
            assert forall|i: int| 0 <= i < segs@.len() implies exists|i0: int|
                0 <= i0 < n0 && #[trigger] cands[i0] == #[trigger] segs@[i]@ by {
                assert(segs_view(segs@)[i] == segs@[i]@);
            }
        }
        while segs.len() > stop
            invariant
                valid_dim(d),
                d == dim as nat,
                d == D::spec_dim(),
                count == cell_count(size, d),
                n0 == cands.len(),
                valid_choices(n0, stop as int, choices@),
                segs@.len() == n0 - t,
                t <= n0,
                n0 <= usize::MAX,
                t <= choices@.len(),
                wall@.len() == count,
                group@.len() == count,
                krun(size, d, segs_view(segs@), KState { wall: wall@, group: group@ }, choices@.skip(t as int))
                    == final_st,
                forall|i: int| 0 <= i < n0 ==> seg_inside(size, d, #[trigger] cands[i]),
                forall|i: int| 0 <= i < segs@.len() ==> seg_inside(size, d, #[trigger] segs@[i]@),
                forall|i: int| 0 <= i < segs@.len() ==> exists|i0: int|
                    0 <= i0 < n0 && #[trigger] cands[i0] == #[trigger] segs@[i]@,
                forall|j: int| 0 <= j < count && #[trigger] wall@[j] ==> exists|i0: int, k: int|
                    0 <= i0 < n0 && 0 <= k < cands[i0].len() && #[trigger] cell_index(size, d, cands[i0][k]) == j,
            decreases segs@.len(),
        {
            let i = choices[t];
            let ghost l = segs_view(segs@);
            let ghost st = KState { wall: wall@, group: group@ };
            let ghost old_segs = segs@;
            let ghost w0 = wall@;
            let w = segs.swap_remove(i);
            apply_segment(&mut wall, &mut group, &size, dim, count, &w);
            proof {
                let cs = choices@.skip(t as int);
                assert(cs[0] == i);
                assert(cs.drop_first() =~= choices@.skip(t + 1));
                assert(segs_view(segs@) =~= l.update(i as int, l.last()).drop_last());
                assert(l[i as int] == w@);
                assert forall|i2: int| 0 <= i2 < segs@.len() implies exists|i0: int|
                    0 <= i0 < n0 && #[trigger] cands[i0] == #[trigger] segs@[i2]@ by {
                    if i2 == i {
                        assert(segs@[i2] == old_segs[old_segs.len() - 1]);
                    } else {
                        assert(segs@[i2] == old_segs[i2]);
                    }
                }
                assert forall|i2: int| 0 <= i2 < segs@.len() implies seg_inside(size, d, #[trigger] segs@[i2]@) by {
                    if i2 == i {
                        assert(segs@[i2] == old_segs[old_segs.len() - 1]);
                    } else {
                        assert(segs@[i2] == old_segs[i2]);
                    }
                }
                assert(exists|i0: int| 0 <= i0 < n0 && #[trigger] cands[i0] == old_segs[i as int]@);
                let i0 = choose|i0: int| 0 <= i0 < n0 && #[trigger] cands[i0] == old_segs[i as int]@;
                assert forall|j: int| 0 <= j < count && #[trigger] wall@[j] implies exists|i1: int, k: int|
                    0 <= i1 < n0 && 0 <= k < cands[i1].len() && #[trigger] cell_index(size, d, cands[i1][k]) == j by {
                    if !w0[j] {
                        assert(in_segment(size, d, w@, j));
                        let k = choose|k: int| 0 <= k < w@.len() && #[trigger] cell_index(size, d, w@[k]) == j;
                        assert(cell_index(size, d, cands[i0][k]) == j);
                    }
                }
            }
            t = t + 1;
        }
        proof {
            assert(choices@.skip(t as int).len() == 0);
        }
        let ghost wf = wall@;
        let m = Self::from_grid(size, wall);
        proof {
            assert(m@.walls =~= kruskal_walls(size, d, choices@));
            assert forall|c: Cell| #[trigger] m@.walls.contains(c) implies exists|i: int|
                0 <= i < cands.len() && #[trigger] cands[i].contains(c) by {
                let j = cell_index(size, d, c);
                lemma_cell_index(size, d, c);
                assert(wf[j]);
                let (i0, k) = choose|i0: int, k: int|
                    0 <= i0 < n0 && 0 <= k < cands[i0].len() && #[trigger] cell_index(size, d, cands[i0][k]) == j;
                assert(in_area(size, d, cands[i0][k]));
                lemma_cell_index(size, d, cands[i0][k]);
                assert(cands[i0][k] == c);
                assert(cands[i0].contains(c));
            }
        }
        m
    }

    /// A maze generated by drawing candidate wall segments at random, until
    /// `stop` of them are left.
    pub fn kruskal(size: Cell, stop: usize) -> (m: Self)
        requires
            odd_size(size, D::spec_dim()),
            cell_count(size, D::spec_dim()) <= usize::MAX,
        ensures
            m.wf(),
            m@.size == size,
            exists|choices: Seq<usize>|
                valid_choices(candidates(size, D::spec_dim()).len() as int, stop as int, choices)
                    && m@.walls == kruskal_walls(size, D::spec_dim(), choices),
            forall|c: Cell| #[trigger] m@.walls.contains(c) ==> exists|i: int|
                0 <= i < candidates(size, D::spec_dim()).len()
                    && #[trigger] candidates(size, D::spec_dim())[i].contains(c),
    {
        let n = Self::segment_count(&size);
        let mut choices: Vec<usize> = Vec::new();
        if n > stop {
            let mut t: usize = 0;
            while t < n - stop
                invariant
                    n > stop,
                    t <= n - stop,
                    choices@.len() == t,
                    forall|u: int| 0 <= u < t ==> #[trigger] choices@[u] < n - u,
                decreases n - stop - t,
            {
                let r = random_below(n - t);
                choices.push(r);
                t = t + 1;
            }
        }
        Self::kruskal_with_choices(size, stop, &choices)
    }
}

} // verus!
