//! The walls of a two dimensional maze, as the runs of wall faces to build:
//! along each line of cells, the faces of walls that look at a free cell
//! of the next line, merged while they follow each other.

use vstd::prelude::*;

use crate::maze::{Maze, MazeModel, U2};
use crate::maze::cell::{Cell, spec_cell, cell_count, extent};

verus! {

/// The lines a run follows: lines of constant `x` or of constant `y`.
#[derive(Clone, Copy, Debug, PartialEq, Eq, Structural)]
pub enum Axis {
    X,
    Y,
}

/// A run of wall faces: on line `line` of `axis`, from position `start` to
/// position `end`, the faces toward the previous line (`far` false) or
/// the next one (`far` true).
#[derive(Clone, Copy, Debug, PartialEq, Eq, Structural)]
pub struct WallSide {
    pub axis: Axis,
    pub far: bool,
    pub line: isize,
    pub start: isize,
    pub end: isize,
}

/// The cell at position `t` of line `line`.
pub open spec fn at(axis: Axis, line: int, t: int) -> Cell {
    match axis {
        Axis::X => spec_cell(line, t, 0),
        Axis::Y => spec_cell(t, line, 0),
    }
}

/// The line the faces look at.
pub open spec fn facing(far: bool, line: int) -> int {
    if far {
        line + 1
    } else {
        line - 1
    }
}

/// The cell at position `t` of the line is a wall that has a face toward
/// the line it looks at: the cell there is no wall.
pub open spec fn faces(m: MazeModel, axis: Axis, far: bool, line: int, t: int) -> bool {
    m.walls.contains(at(axis, line, t)) && !m.walls.contains(at(axis, facing(far, line), t))
}

/// Where the run of faces through position `t` starts.
pub open spec fn run_start(m: MazeModel, axis: Axis, far: bool, line: int, t: int) -> int
    decreases t,
{
    if t > 0 && faces(m, axis, far, line, t - 1) {
        run_start(m, axis, far, line, t - 1)
    } else {
        t
    }
}

pub open spec fn side(axis: Axis, far: bool, line: int, start: int, end: int) -> WallSide {
    WallSide { axis, far, line: line as isize, start: start as isize, end: end as isize }
}

/// The runs that end just before position `t`: the one toward the previous
/// line first.
pub open spec fn ends_at(m: MazeModel, axis: Axis, line: int, t: int) -> Seq<WallSide> {
    (if t > 0 && faces(m, axis, false, line, t - 1) && !faces(m, axis, false, line, t) {
        seq![side(axis, false, line, run_start(m, axis, false, line, t - 1), t - 1)]
    } else {
        seq![]
    }) + (if t > 0 && faces(m, axis, true, line, t - 1) && !faces(m, axis, true, line, t) {
        seq![side(axis, true, line, run_start(m, axis, true, line, t - 1), t - 1)]
    } else {
        seq![]
    })
}

/// The runs of line `line` that end before position `k`, in order.
pub open spec fn line_steps(m: MazeModel, axis: Axis, line: int, k: nat) -> Seq<WallSide>
    decreases k,
{
    if k == 0 {
        seq![]
    } else {
        line_steps(m, axis, line, (k - 1) as nat) + ends_at(m, axis, line, k - 1)
    }
}

/// The number of lines of a square maze along an axis.
pub open spec fn lines(m: MazeModel) -> nat {
    if m.size.x > 0 {
        m.size.x as nat
    } else {
        0
    }
}

/// The runs of the lines of `axis` before line `k`.
pub open spec fn axis_sides(m: MazeModel, axis: Axis, k: nat) -> Seq<WallSide>
    decreases k,
{
    if k == 0 {
        seq![]
    } else {
        axis_sides(m, axis, (k - 1) as nat) + line_steps(m, axis, k - 1, lines(m) + 1)
    }
}

/// All runs of wall faces of a square maze: those along the lines of
/// constant `x`, then those along the lines of constant `y`.
pub open spec fn maze_sides(m: MazeModel) -> Seq<WallSide> {
    axis_sides(m, Axis::X, lines(m)) + axis_sides(m, Axis::Y, lines(m))
}

/// `s` is a whole run of faces: every position from its start to its end
/// has a face, and the positions just before and just after have none.
pub open spec fn maximal_run(m: MazeModel, s: WallSide) -> bool {
    &&& s.start <= s.end
    &&& forall|t: int| s.start <= t <= s.end ==> #[trigger] faces(m, s.axis, s.far, s.line as int, t)
    &&& !faces(m, s.axis, s.far, s.line as int, s.start - 1)
    &&& !faces(m, s.axis, s.far, s.line as int, s.end + 1)
}

proof fn lemma_run_start(m: MazeModel, axis: Axis, far: bool, line: int, t: int)
    requires
        t >= 0,
        faces(m, axis, far, line, t),
    ensures
        0 <= run_start(m, axis, far, line, t) <= t,
        forall|u: int| run_start(m, axis, far, line, t) <= u <= t ==> #[trigger] faces(m, axis, far, line, u),
        run_start(m, axis, far, line, t) == 0 || !faces(m, axis, far, line, run_start(m, axis, far, line, t) - 1),
    decreases t,
{
    if t > 0 && faces(m, axis, far, line, t - 1) {
        lemma_run_start(m, axis, far, line, t - 1);
    }
}

/// `faces` on the maze.
fn faces_exec(maze: &Maze<U2>, axis: Axis, far: bool, line: isize, t: isize) -> (b: bool)
    requires
        maze.wf(),
        isize::MIN < line < isize::MAX,
    ensures
        b == faces(maze@, axis, far, line as int, t as int),
{
    let other = if far {
        line + 1
    } else {
        line - 1
    };
    match axis {
        Axis::X => {
            assert(at(axis, line as int, t as int) == (Cell { x: line, y: t, z: 0 }));
            assert(at(axis, facing(far, line as int), t as int) == (Cell { x: other, y: t, z: 0 }));
            maze.wall(line, t) && !maze.wall(other, t)
        },
        Axis::Y => {
            assert(at(axis, line as int, t as int) == (Cell { x: t, y: line, z: 0 }));
            assert(at(axis, facing(far, line as int), t as int) == (Cell { x: t, y: other, z: 0 }));
            maze.wall(t, line) && !maze.wall(t, other)
        },
    }
}

/// The run state of one kind of faces after position `t - 1`: the run
/// going on, if any.
pub open spec fn open_run(m: MazeModel, axis: Axis, far: bool, line: int, t: int) -> Option<(isize, isize)> {
    if t > 0 && faces(m, axis, far, line, t - 1) {
        Some((run_start(m, axis, far, line, t - 1) as isize, (t - 1) as isize))
    } else {
        None
    }
}

/// Looks at position `t` of line `line`: closes the runs that end before
/// it and opens or extends those through it.
fn line_step(
    maze: &Maze<U2>,
    axis: Axis,
    line: isize,
    t: isize,
    up: &mut Option<(isize, isize)>,
    down: &mut Option<(isize, isize)>,
    out: &mut Vec<WallSide>,
)
    requires
        maze.wf(),
        0 <= line < maze@.size.x,
        0 <= t,
        *old(up) == open_run(maze@, axis, false, line as int, t as int),
        *old(down) == open_run(maze@, axis, true, line as int, t as int),
        forall|k: int| 0 <= k < old(out)@.len() ==> maximal_run(maze@, #[trigger] old(out)@[k]),
    ensures
        final(out)@ == old(out)@ + ends_at(maze@, axis, line as int, t as int),
        *final(up) == open_run(maze@, axis, false, line as int, t + 1),
        *final(down) == open_run(maze@, axis, true, line as int, t + 1),
        forall|k: int| 0 <= k < final(out)@.len() ==> maximal_run(maze@, #[trigger] final(out)@[k]),
{
    let ghost m = maze@;
    let ghost before = out@;
    proof {
        maze.lemma_walls_inside();
        if t > 0 && faces(m, axis, false, line as int, t - 1) {
            lemma_run_start(m, axis, false, line as int, t - 1);
        }
        if t > 0 && faces(m, axis, true, line as int, t - 1) {
            lemma_run_start(m, axis, true, line as int, t - 1);
        }
        assert(!m.walls.contains(at(axis, line as int, -1)));
    }
    let side_up = faces_exec(maze, axis, false, line, t);
    let side_down = faces_exec(maze, axis, true, line, t);
    match *up {
        Some((s, _)) => {
            if side_up {
                *up = Some((s, t));
            } else {
                out.push(WallSide { axis, far: false, line, start: s, end: t - 1 });
                *up = None;
            }
        },
        None => {
            if side_up {
                *up = Some((t, t));
            }
        },
    }
    let ghost mid = out@;
    match *down {
        Some((s, _)) => {
            if side_down {
                *down = Some((s, t));
            } else {
                out.push(WallSide { axis, far: true, line, start: s, end: t - 1 });
                *down = None;
            }
        },
        None => {
            if side_down {
                *down = Some((t, t));
            }
        },
    }
    proof {
        assert(out@ =~= before + ends_at(m, axis, line as int, t as int));
        assert forall|k: int| 0 <= k < out@.len() implies maximal_run(m, #[trigger] out@[k]) by {
            if k >= mid.len() {
                assert(out@[k] == side(axis, true, line as int, run_start(m, axis, true, line as int, t - 1), t - 1));
                assert(!m.walls.contains(at(axis, line as int, run_start(m, axis, true, line as int, t - 1) - 1)) || run_start(m, axis, true, line as int, t - 1) > 0);
            } else if k >= before.len() {
                assert(out@[k] == mid[k]);
                assert(mid[k] == side(axis, false, line as int, run_start(m, axis, false, line as int, t - 1), t - 1));
            } else {
                assert(out@[k] == mid[k]);
                assert(mid[k] == before[k]);
            }
        }
    }
}

/// Appends the runs of line `line`.
fn push_line_sides(maze: &Maze<U2>, axis: Axis, line: isize, n: isize, out: &mut Vec<WallSide>)
    requires
        maze.wf(),
        n == maze@.size.x,
        0 <= line < n,
        forall|k: int| 0 <= k < old(out)@.len() ==> maximal_run(maze@, #[trigger] old(out)@[k]),
    ensures
        final(out)@ == old(out)@ + line_steps(maze@, axis, line as int, lines(maze@) + 1),
        forall|k: int| 0 <= k < final(out)@.len() ==> maximal_run(maze@, #[trigger] final(out)@[k]),
{
    let ghost m = maze@;
    let ghost out0 = out@;
    let mut up: Option<(isize, isize)> = None;
    let mut down: Option<(isize, isize)> = None;
    let mut t: isize = 0;
    assert(out@ =~= out0 + line_steps(m, axis, line as int, 0));
    while t < n
        invariant
            maze.wf(),
            m == maze@,
            n == m.size.x,
            0 <= line < n,
            0 <= t <= n,
            out@ == out0 + line_steps(m, axis, line as int, t as nat),
            up == open_run(m, axis, false, line as int, t as int),
            down == open_run(m, axis, true, line as int, t as int),
            forall|k: int| 0 <= k < out@.len() ==> maximal_run(m, #[trigger] out@[k]),
        decreases n - t,
    {
        line_step(maze, axis, line, t, &mut up, &mut down, out);
        assert(out@ =~= out0 + line_steps(m, axis, line as int, (t + 1) as nat));
        t = t + 1;
    }
    line_step(maze, axis, line, t, &mut up, &mut down, out);
    assert(out@ =~= out0 + line_steps(m, axis, line as int, (t + 1) as nat));
}

/// The runs of wall faces of a square maze: along the lines of constant
/// `x`, then along the lines of constant `y`; on each line in the order
/// they end, the faces toward the previous line first. Every run is a
/// whole run of faces.
pub fn create_maze_walls(maze: &Maze<U2>) -> (v: Vec<WallSide>)
    requires
        maze.wf(),
        maze@.size.x == maze@.size.y,
    ensures
        v@ == maze_sides(maze@),
        forall|k: int| 0 <= k < v@.len() ==> maximal_run(maze@, #[trigger] v@[k]),
{
    maze.assert_square();
    let ghost m = maze@;
    let size = maze.size();
    let n = size.x;
    let mut v: Vec<WallSide> = Vec::new();
    let mut x: isize = 0;
    while x < n
        invariant
            maze.wf(),
            m == maze@,
            n == m.size.x,
            0 <= x,
            x <= n || x == 0,
            v@ == axis_sides(m, Axis::X, x as nat),
            forall|k: int| 0 <= k < v@.len() ==> maximal_run(m, #[trigger] v@[k]),
        decreases n - x,
    {
        push_line_sides(maze, Axis::X, x, n, &mut v);
        assert(v@ =~= axis_sides(m, Axis::X, (x + 1) as nat));
        x = x + 1;
    }
    let ghost xs = v@;
    let mut y: isize = 0;
    assert(v@ =~= xs + axis_sides(m, Axis::Y, 0));
    while y < n
        invariant
            maze.wf(),
            m == maze@,
            n == m.size.x,
            0 <= y,
            y <= n || y == 0,
            v@ == xs + axis_sides(m, Axis::Y, y as nat),
            forall|k: int| 0 <= k < v@.len() ==> maximal_run(m, #[trigger] v@[k]),
        decreases n - y,
    {
        push_line_sides(maze, Axis::Y, y, n, &mut v);
        assert(v@ =~= xs + axis_sides(m, Axis::Y, (y + 1) as nat));
        y = y + 1;
    }
    proof {
        assert(x as nat == lines(m));
        assert(y as nat == lines(m));
    }
    v
}

} // verus!
