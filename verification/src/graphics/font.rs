//! The game's font: each glyph is a list of strokes, segments and quarter
//! arcs, between the points of a grid of five by five points.
//!
//! The points are numbered by column, from the top:
//!
//! ```text
//! 00--05--10--15--20
//! 01--06--11--16--21
//! 02--07--12--17--22
//! 03--08--13--18--23
//! 04--09--14--19--24
//! ```
//!
//! A point is given by its column and its height above the bottom row.
//! Arcs are quarters of circle in trigonometric orientation; segments go
//! from left to right, or down a column.

use vstd::prelude::*;
use vstd::string::StrSliceExecFns;

verus! {

/// The glyph drawn for a character that has none.
pub const DEFAULT_CHAR: char = '\u{2592}';

/// A stroke between two points `(column, height)` of the grid.
#[derive(Clone, Copy, Debug, PartialEq, Eq)]
pub enum Operation {
    Segment((usize, usize), (usize, usize)),
    Arc((usize, usize), (usize, usize)),
}

/// The coordinates `(column, height)` of point `p`.
pub open spec fn point_of(p: int) -> (usize, usize) {
    ((p / 5) as usize, (4 - p % 5) as usize)
}

pub open spec fn arc_op(p1: int, p2: int) -> Operation {
    Operation::Arc(point_of(p1), point_of(p2))
}

pub open spec fn seg_op(p1: int, p2: int) -> Operation {
    Operation::Segment(point_of(p1), point_of(p2))
}

pub open spec fn abs_diff(a: int, b: int) -> int {
    if a >= b {
        a - b
    } else {
        b - a
    }
}

/// An arc is a quarter of circle: its ends are as far apart horizontally
/// as vertically.
pub open spec fn arc_allowed(a: (usize, usize), b: (usize, usize)) -> bool {
    abs_diff(a.0 as int, b.0 as int) == abs_diff(a.1 as int, b.1 as int)
}

/// A segment goes from left to right, or down a column.
pub open spec fn segment_allowed(a: (usize, usize), b: (usize, usize)) -> bool {
    a.0 < b.0 || (a.0 == b.0 && a.1 > b.1)
}

pub open spec fn on_grid(a: (usize, usize)) -> bool {
    a.0 < 5 && a.1 < 5
}

/// A stroke that can be drawn: on the grid, a segment in its direction, an
/// arc between two different points as far apart on both axes.
pub open spec fn drawable(op: Operation) -> bool {
    match op {
        Operation::Segment(a, b) => on_grid(a) && on_grid(b) && segment_allowed(a, b),
        Operation::Arc(a, b) => on_grid(a) && on_grid(b) && arc_allowed(a, b) && a != b,
    }
}

/// The rightmost column a stroke reaches.
pub open spec fn op_size(op: Operation) -> nat {
    match op {
        Operation::Segment(a, b) => if a.0 >= b.0 {
            a.0 as nat
        } else {
            b.0 as nat
        },
        Operation::Arc(a, b) => if a.0 >= b.0 {
            a.0 as nat
        } else {
            b.0 as nat
        },
    }
}

/// The width of a glyph in columns: one more than the rightmost column its
/// strokes reach (zero without strokes).
pub open spec fn ops_width(ops: Seq<Operation>) -> nat
    decreases ops.len(),
{
    if ops.len() == 0 {
        0
    } else {
        let w = ops_width(ops.drop_last());
        let s = op_size(ops.last()) + 1;
        if w >= s {
            w
        } else {
            s
        }
    }
}

/// The characters that have a glyph, in the order of the table.
pub open spec fn glyph_chars() -> Seq<char> {
    seq!['A', 'B', 'C', 'D', 'E', 'F', 'G', 'H', 'I', 'J', 'K', 'L', 'M', 'N', 'O', 'P', 'Q', 'R', 'S', 'T', 'U', 'V', 'W', 'X', 'Y', 'Z', '0', '1', '2', '3', '4', '5', '6', '7', '8', '9', ':', '.', '-', '_', '\u{2592}']
}

/// The strokes of the glyph of `c` (none for a character without glyph).
pub open spec fn glyph_ops(c: char) -> Seq<Operation> {
    if c == 'A' {
        seq![arc_op(11, 5), arc_op(5, 1), seg_op(1, 4), seg_op(11, 14), seg_op(2, 12)]
    } else if c == 'B' {
        seq![seg_op(0, 4), seg_op(0, 5), seg_op(2, 7), seg_op(4, 9), arc_op(7, 11), arc_op(11, 5), arc_op(13, 7), arc_op(9, 13)]
    } else if c == 'C' {
        seq![arc_op(10, 2), arc_op(2, 14)]
    } else if c == 'D' {
        seq![arc_op(4, 12), arc_op(12, 0), seg_op(0, 4)]
    } else if c == 'E' {
        seq![seg_op(0, 4), seg_op(0, 10), seg_op(2, 12), seg_op(4, 14)]
    } else if c == 'F' {
        seq![seg_op(0, 4), seg_op(0, 10), seg_op(2, 12)]
    } else if c == 'G' {
        seq![arc_op(10, 2), arc_op(2, 14), arc_op(14, 22), seg_op(17, 22)]
    } else if c == 'H' {
        seq![seg_op(0, 4), seg_op(10, 14), seg_op(2, 12)]
    } else if c == 'I' {
        seq![seg_op(0, 4)]
    } else if c == 'J' {
        seq![seg_op(0, 10), seg_op(10, 12), arc_op(4, 12)]
    } else if c == 'K' {
        seq![seg_op(0, 4), seg_op(2, 10), seg_op(2, 14)]
    } else if c == 'L' {
        seq![seg_op(0, 4), seg_op(4, 14)]
    } else if c == 'M' {
        seq![seg_op(0, 4), seg_op(0, 12), seg_op(12, 20), seg_op(20, 24)]
    } else if c == 'N' {
        seq![seg_op(0, 4), seg_op(10, 14), seg_op(0, 14)]
    } else if c == 'O' {
        seq![arc_op(10, 2), arc_op(2, 14), arc_op(14, 22), arc_op(22, 10)]
    } else if c == 'P' {
        seq![seg_op(0, 4), seg_op(0, 5), seg_op(2, 7), arc_op(7, 11), arc_op(11, 5)]
    } else if c == 'Q' {
        seq![arc_op(10, 2), arc_op(2, 14), arc_op(14, 22), arc_op(22, 10), seg_op(18, 24)]
    } else if c == 'R' {
        seq![seg_op(0, 4), seg_op(0, 5), seg_op(2, 7), arc_op(7, 11), arc_op(11, 5), seg_op(2, 14)]
    } else if c == 'S' {
        seq![seg_op(5, 10), seg_op(4, 9), arc_op(5, 1), arc_op(1, 7), arc_op(13, 7), arc_op(9, 13)]
    } else if c == 'T' {
        seq![seg_op(5, 9), seg_op(0, 10)]
    } else if c == 'U' {
        seq![seg_op(0, 3), seg_op(10, 13), arc_op(3, 9), arc_op(9, 13)]
    } else if c == 'V' {
        seq![seg_op(0, 9), seg_op(9, 10)]
    } else if c == 'W' {
        seq![seg_op(0, 9), seg_op(9, 13), seg_op(13, 19), seg_op(19, 20)]
    } else if c == 'X' {
        seq![seg_op(0, 14), seg_op(4, 10)]
    } else if c == 'Y' {
        seq![seg_op(0, 7), seg_op(7, 10), seg_op(7, 9)]
    } else if c == 'Z' {
        seq![seg_op(0, 10), seg_op(4, 10), seg_op(4, 14)]
    } else if c == '0' {
        seq![arc_op(5, 1), arc_op(3, 9), arc_op(9, 13), arc_op(11, 5), seg_op(1, 3), seg_op(11, 13)]
    } else if c == '1' {
        seq![seg_op(2, 10), seg_op(10, 14), seg_op(9, 14)]
    } else if c == '2' {
        seq![seg_op(0, 5), arc_op(11, 5), seg_op(11, 12), seg_op(4, 12), seg_op(4, 14)]
    } else if c == '3' {
        seq![seg_op(0, 5), seg_op(4, 9), arc_op(9, 13), arc_op(13, 7), arc_op(7, 11), arc_op(11, 5)]
    } else if c == '4' {
        seq![seg_op(3, 10), seg_op(3, 13), seg_op(12, 14)]
    } else if c == '5' {
        seq![seg_op(0, 10), seg_op(0, 2), seg_op(2, 7), seg_op(4, 9), arc_op(9, 13), arc_op(13, 7)]
    } else if c == '6' {
        seq![seg_op(2, 3), arc_op(10, 2), arc_op(7, 3), arc_op(3, 9), arc_op(9, 13), arc_op(13, 7)]
    } else if c == '7' {
        seq![seg_op(4, 10), seg_op(0, 10)]
    } else if c == '8' {
        seq![arc_op(5, 1), arc_op(1, 7), arc_op(7, 11), arc_op(11, 5), arc_op(7, 3), arc_op(3, 9), arc_op(9, 13), arc_op(13, 7)]
    } else if c == '9' {
        seq![arc_op(7, 11), arc_op(11, 5), arc_op(5, 1), arc_op(1, 7), seg_op(11, 12), arc_op(4, 12)]
    } else if c == ':' {
        seq![seg_op(2, 7), seg_op(4, 9)]
    } else if c == '.' {
        seq![seg_op(4, 9)]
    } else if c == '-' {
        seq![seg_op(2, 7)]
    } else if c == '_' {
        seq![seg_op(4, 14)]
    } else if c == '\u{2592}' {
        seq![seg_op(0, 10), seg_op(1, 11), seg_op(2, 12), seg_op(3, 13), seg_op(4, 14), seg_op(0, 4), seg_op(5, 9), seg_op(10, 14)]
    } else {
        seq![]
    }
}

/// The number of columns a character takes in a text: one for a space,
/// the width of its glyph otherwise, or of the default glyph when it has
/// none.
pub open spec fn char_size(c: char) -> nat {
    if c == ' ' {
        1
    } else if glyph_chars().contains(c) {
        ops_width(glyph_ops(c))
    } else {
        ops_width(glyph_ops(DEFAULT_CHAR))
    }
}

/// The number of columns a text takes.
pub open spec fn text_size(s: Seq<char>) -> nat
    decreases s.len(),
{
    if s.len() == 0 {
        0
    } else {
        text_size(s.drop_last()) + char_size(s.last())
    }
}

/// The size of two texts one after the other is the sum of their sizes.
pub proof fn lemma_text_size_concat(s: Seq<char>, t: Seq<char>)
    ensures
        text_size(s + t) == text_size(s) + text_size(t),
    decreases t.len(),
{
    if t.len() == 0 {
        assert(s + t =~= s);
    } else {
        assert((s + t).drop_last() =~= s + t.drop_last());
        assert((s + t).last() == t.last());
        lemma_text_size_concat(s, t.drop_last());
    }
}

impl Operation {
    /// The rightmost column the stroke reaches.
    pub fn size(&self) -> (s: usize)
        ensures
            s == op_size(*self),
    {
        match *self {
            Operation::Segment(p1, p2) => if p1.0 >= p2.0 {
                p1.0
            } else {
                p2.0
            },
            Operation::Arc(p1, p2) => if p1.0 >= p2.0 {
                p1.0
            } else {
                p2.0
            },
        }
    }

    /// The coordinates of point `p` of the grid.
    pub fn point_coordinates(p: usize) -> (c: (usize, usize))
        requires
            p < 25,
        ensures
            c == point_of(p as int),
    {
        match p {
            0 => (0, 4),
            1 => (0, 3),
            2 => (0, 2),
            3 => (0, 1),
            4 => (0, 0),
            5 => (1, 4),
            6 => (1, 3),
            7 => (1, 2),
            8 => (1, 1),
            9 => (1, 0),
            10 => (2, 4),
            11 => (2, 3),
            12 => (2, 2),
            13 => (2, 1),
            14 => (2, 0),
            15 => (3, 4),
            16 => (3, 3),
            17 => (3, 2),
            18 => (3, 1),
            19 => (3, 0),
            20 => (4, 4),
            21 => (4, 3),
            22 => (4, 2),
            23 => (4, 1),
            _ => (4, 0),
        }
    }

    /// The quarter arc from point `p1` to point `p2`.
    pub fn arc(p1: usize, p2: usize) -> (op: Self)
        requires
            p1 < 25,
            p2 < 25,
            arc_allowed(point_of(p1 as int), point_of(p2 as int)),
        ensures
            op == arc_op(p1 as int, p2 as int),
            p1 != p2 ==> drawable(op),
    {
        let p1 = Self::point_coordinates(p1);
        let p2 = Self::point_coordinates(p2);
        Operation::Arc(p1, p2)
    }

    /// The segment from point `p1` to point `p2`.
    pub fn segment(p1: usize, p2: usize) -> (op: Self)
        requires
            p1 < 25,
            p2 < 25,
            segment_allowed(point_of(p1 as int), point_of(p2 as int)),
        ensures
            op == seg_op(p1 as int, p2 as int),
            drawable(op),
    {
        let p1 = Self::point_coordinates(p1);
        let p2 = Self::point_coordinates(p2);
        Operation::Segment(p1, p2)
    }
}

/// The strokes of the glyph of `c`, a character of the table.
fn glyph(c: char) -> (v: Vec<Operation>)
    requires
        glyph_chars().contains(c),
    ensures
        v@ == glyph_ops(c),
        v@.len() > 0,
        forall|k: int| 0 <= k < v@.len() ==> #[trigger] drawable(v@[k]),
{
    if c == 'A' {
        vec![Operation::arc(11, 5), Operation::arc(5, 1), Operation::segment(1, 4), Operation::segment(11, 14), Operation::segment(2, 12)]
    } else if c == 'B' {
        vec![Operation::segment(0, 4), Operation::segment(0, 5), Operation::segment(2, 7), Operation::segment(4, 9), Operation::arc(7, 11), Operation::arc(11, 5), Operation::arc(13, 7), Operation::arc(9, 13)]
    } else if c == 'C' {
        vec![Operation::arc(10, 2), Operation::arc(2, 14)]
    } else if c == 'D' {
        vec![Operation::arc(4, 12), Operation::arc(12, 0), Operation::segment(0, 4)]
    } else if c == 'E' {
        vec![Operation::segment(0, 4), Operation::segment(0, 10), Operation::segment(2, 12), Operation::segment(4, 14)]
    } else if c == 'F' {
        vec![Operation::segment(0, 4), Operation::segment(0, 10), Operation::segment(2, 12)]
    } else if c == 'G' {
        vec![Operation::arc(10, 2), Operation::arc(2, 14), Operation::arc(14, 22), Operation::segment(17, 22)]
    } else if c == 'H' {
        vec![Operation::segment(0, 4), Operation::segment(10, 14), Operation::segment(2, 12)]
    } else if c == 'I' {
        vec![Operation::segment(0, 4)]
    } else if c == 'J' {
        vec![Operation::segment(0, 10), Operation::segment(10, 12), Operation::arc(4, 12)]
    } else if c == 'K' {
        vec![Operation::segment(0, 4), Operation::segment(2, 10), Operation::segment(2, 14)]
    } else if c == 'L' {
        vec![Operation::segment(0, 4), Operation::segment(4, 14)]
    } else if c == 'M' {
        vec![Operation::segment(0, 4), Operation::segment(0, 12), Operation::segment(12, 20), Operation::segment(20, 24)]
    } else if c == 'N' {
        vec![Operation::segment(0, 4), Operation::segment(10, 14), Operation::segment(0, 14)]
    } else if c == 'O' {
        vec![Operation::arc(10, 2), Operation::arc(2, 14), Operation::arc(14, 22), Operation::arc(22, 10)]
    } else if c == 'P' {
        vec![Operation::segment(0, 4), Operation::segment(0, 5), Operation::segment(2, 7), Operation::arc(7, 11), Operation::arc(11, 5)]
    } else if c == 'Q' {
        vec![Operation::arc(10, 2), Operation::arc(2, 14), Operation::arc(14, 22), Operation::arc(22, 10), Operation::segment(18, 24)]
    } else if c == 'R' {
        vec![Operation::segment(0, 4), Operation::segment(0, 5), Operation::segment(2, 7), Operation::arc(7, 11), Operation::arc(11, 5), Operation::segment(2, 14)]
    } else if c == 'S' {
        vec![Operation::segment(5, 10), Operation::segment(4, 9), Operation::arc(5, 1), Operation::arc(1, 7), Operation::arc(13, 7), Operation::arc(9, 13)]
    } else if c == 'T' {
        vec![Operation::segment(5, 9), Operation::segment(0, 10)]
    } else if c == 'U' {
        vec![Operation::segment(0, 3), Operation::segment(10, 13), Operation::arc(3, 9), Operation::arc(9, 13)]
    } else if c == 'V' {
        vec![Operation::segment(0, 9), Operation::segment(9, 10)]
    } else if c == 'W' {
        vec![Operation::segment(0, 9), Operation::segment(9, 13), Operation::segment(13, 19), Operation::segment(19, 20)]
    } else if c == 'X' {
        vec![Operation::segment(0, 14), Operation::segment(4, 10)]
    } else if c == 'Y' {
        vec![Operation::segment(0, 7), Operation::segment(7, 10), Operation::segment(7, 9)]
    } else if c == 'Z' {
        vec![Operation::segment(0, 10), Operation::segment(4, 10), Operation::segment(4, 14)]
    } else if c == '0' {
        vec![Operation::arc(5, 1), Operation::arc(3, 9), Operation::arc(9, 13), Operation::arc(11, 5), Operation::segment(1, 3), Operation::segment(11, 13)]
    } else if c == '1' {
        vec![Operation::segment(2, 10), Operation::segment(10, 14), Operation::segment(9, 14)]
    } else if c == '2' {
        vec![Operation::segment(0, 5), Operation::arc(11, 5), Operation::segment(11, 12), Operation::segment(4, 12), Operation::segment(4, 14)]
    } else if c == '3' {
        vec![Operation::segment(0, 5), Operation::segment(4, 9), Operation::arc(9, 13), Operation::arc(13, 7), Operation::arc(7, 11), Operation::arc(11, 5)]
    } else if c == '4' {
        vec![Operation::segment(3, 10), Operation::segment(3, 13), Operation::segment(12, 14)]
    } else if c == '5' {
        vec![Operation::segment(0, 10), Operation::segment(0, 2), Operation::segment(2, 7), Operation::segment(4, 9), Operation::arc(9, 13), Operation::arc(13, 7)]
    } else if c == '6' {
        vec![Operation::segment(2, 3), Operation::arc(10, 2), Operation::arc(7, 3), Operation::arc(3, 9), Operation::arc(9, 13), Operation::arc(13, 7)]
    } else if c == '7' {
        vec![Operation::segment(4, 10), Operation::segment(0, 10)]
    } else if c == '8' {
        vec![Operation::arc(5, 1), Operation::arc(1, 7), Operation::arc(7, 11), Operation::arc(11, 5), Operation::arc(7, 3), Operation::arc(3, 9), Operation::arc(9, 13), Operation::arc(13, 7)]
    } else if c == '9' {
        vec![Operation::arc(7, 11), Operation::arc(11, 5), Operation::arc(5, 1), Operation::arc(1, 7), Operation::segment(11, 12), Operation::arc(4, 12)]
    } else if c == ':' {
        vec![Operation::segment(2, 7), Operation::segment(4, 9)]
    } else if c == '.' {
        vec![Operation::segment(4, 9)]
    } else if c == '-' {
        vec![Operation::segment(2, 7)]
    } else if c == '_' {
        vec![Operation::segment(4, 14)]
    } else if c == '\u{2592}' {
        vec![Operation::segment(0, 10), Operation::segment(1, 11), Operation::segment(2, 12), Operation::segment(3, 13), Operation::segment(4, 14), Operation::segment(0, 4), Operation::segment(5, 9), Operation::segment(10, 14)]
    } else {
        vec![]
    }
}

/// The characters that have a glyph.
fn glyph_char_list() -> (v: Vec<char>)
    ensures
        v@ == glyph_chars(),
{
    vec!['A', 'B', 'C', 'D', 'E', 'F', 'G', 'H', 'I', 'J', 'K', 'L', 'M', 'N', 'O', 'P', 'Q', 'R', 'S', 'T', 'U', 'V', 'W', 'X', 'Y', 'Z', '0', '1', '2', '3', '4', '5', '6', '7', '8', '9', ':', '.', '-', '_', '\u{2592}']
}

/// The glyph table: each character with the strokes of its glyph. Every
/// glyph has a stroke, and every stroke can be drawn.
pub fn operations() -> (v: Vec<(char, Vec<Operation>)>)
    ensures
        v@.len() == glyph_chars().len(),
        forall|i: int| 0 <= i < v@.len() ==> (#[trigger] v@[i]).0 == glyph_chars()[i] && v@[i].1@
            == glyph_ops(glyph_chars()[i]),
        forall|i: int| 0 <= i < v@.len() ==> (#[trigger] v@[i]).1@.len() > 0,
        forall|i: int, k: int|
            0 <= i < v@.len() && 0 <= k < v@[i].1@.len() ==> #[trigger] drawable(v@[i].1@[k]),
{
    let chars = glyph_char_list();
    let mut v: Vec<(char, Vec<Operation>)> = Vec::new();
    let mut i: usize = 0;
    while i < chars.len()
        invariant
            chars@ == glyph_chars(),
            i <= chars@.len(),
            v@.len() == i,
            forall|j: int| 0 <= j < i ==> (#[trigger] v@[j]).0 == glyph_chars()[j] && v@[j].1@
                == glyph_ops(glyph_chars()[j]),
            forall|j: int| 0 <= j < i ==> (#[trigger] v@[j]).1@.len() > 0,
            forall|j: int, k: int|
                0 <= j < i && 0 <= k < v@[j].1@.len() ==> #[trigger] drawable(v@[j].1@[k]),
        decreases chars.len() - i,
    {
        let c = chars[i];
        let ops = glyph(c);
        v.push((c, ops));
        i = i + 1;
    }
    v
}

/// The width of a glyph: one more than the rightmost column its strokes
/// reach.
pub fn glyph_width(ops: &Vec<Operation>) -> (w: usize)
    requires
        ops@.len() > 0,
        forall|k: int| 0 <= k < ops@.len() ==> #[trigger] drawable(ops@[k]),
    ensures
        w == ops_width(ops@),
        w <= 5,
{
    let mut w: usize = 0;
    let mut i: usize = 0;
    while i < ops.len()
        invariant
            i <= ops@.len(),
            w <= 5,
            w == ops_width(ops@.take(i as int)),
            forall|k: int| 0 <= k < ops@.len() ==> #[trigger] drawable(ops@[k]),
        decreases ops.len() - i,
    {
        assert(ops@.take(i + 1).drop_last() =~= ops@.take(i as int));
        assert(drawable(ops@[i as int]));
        let s = ops[i].size() + 1;
        if s > w {
            w = s;
        }
        i = i + 1;
    }
    assert(ops@.take(ops@.len() as int) =~= ops@);
    w
}

/// The position of the glyph of `c` in the table, if it has one.
fn find_glyph(table: &Vec<(char, Vec<Operation>)>, c: char) -> (k: Option<usize>)
    requires
        table@.len() == glyph_chars().len(),
        forall|i: int| 0 <= i < table@.len() ==> (#[trigger] table@[i]).0 == glyph_chars()[i],
    ensures
        match k {
            Some(k) => k < table@.len() && table@[k as int].0 == c,
            None => !glyph_chars().contains(c),
        },
{
    let mut i: usize = 0;
    while i < table.len()
        invariant
            i <= table@.len(),
            table@.len() == glyph_chars().len(),
            forall|j: int| 0 <= j < table@.len() ==> (#[trigger] table@[j]).0 == glyph_chars()[j],
            forall|j: int| 0 <= j < i ==> glyph_chars()[j] != c,
        decreases table.len() - i,
    {
        if table[i].0 == c {
            return Some(i);
        }
        i = i + 1;
    }
    None
}

proof fn lemma_text_size_prefix(s: Seq<char>, i: int)
    requires
        0 <= i <= s.len(),
    ensures
        text_size(s.take(i)) <= text_size(s),
    decreases s.len(),
{
    if i < s.len() {
        assert(s.drop_last().take(i) =~= s.take(i));
        lemma_text_size_prefix(s.drop_last(), i);
    } else {
        assert(s.take(i) =~= s);
    }
}

/// The number of columns `text` takes: one for a space, the width of its
/// glyph for another character, or of the default glyph when it has none.
pub fn _get_size(text: String) -> (size: usize)
    requires
        text_size(text@) <= usize::MAX,
    ensures
        size == text_size(text@),
{
    let table = operations();
    assert(glyph_chars()[40] == DEFAULT_CHAR);
    let default_width = match find_glyph(&table, DEFAULT_CHAR) {
        Some(k) => glyph_width(&table[k].1),
        None => 0,
    };
    let t = text.as_str();
    let n = t.unicode_len();
    let mut size: usize = 0;
    let mut i: usize = 0;
    while i < n
        invariant
            t@ == text@,
            n == text@.len(),
            i <= n,
            text_size(text@) <= usize::MAX,
            size == text_size(text@.take(i as int)),
            default_width == ops_width(glyph_ops(DEFAULT_CHAR)),
            table@.len() == glyph_chars().len(),
            forall|j: int| 0 <= j < table@.len() ==> (#[trigger] table@[j]).0 == glyph_chars()[j] && table@[j].1@
                == glyph_ops(glyph_chars()[j]),
            forall|j: int| 0 <= j < table@.len() ==> (#[trigger] table@[j]).1@.len() > 0,
            forall|j: int, k: int|
                0 <= j < table@.len() && 0 <= k < table@[j].1@.len() ==> #[trigger] drawable(table@[j].1@[k]),
        decreases n - i,
    {
        let c = t.get_char(i);
        proof {
            assert(text@.take(i + 1).drop_last() =~= text@.take(i as int));
            lemma_text_size_prefix(text@, i + 1);
        }
        let w = if c == ' ' {
            1
        } else {
            match find_glyph(&table, c) {
                Some(k) => glyph_width(&table[k].1),
                None => default_width,
            }
        };
        size = size + w;
        i = i + 1;
    }
    assert(text@.take(n as int) =~= text@);
    size
}

} // verus!
