//! The game's palette: each color names a slot of the color buffer. The
//! first slots hold fixed colors, then come two generated ranges of twenty
//! colors each, both after a black and a white.

use vstd::prelude::*;

verus! {

/// The number of generated colors in a range.
pub const MAX_DIVISION: usize = 20;

/// A color, by its slot in the color buffer.
#[derive(Clone, Copy, Debug, PartialEq, Eq, Structural)]
pub enum Color {
    Black,
    White,
    PaleBrown,
    Brown,
    PaleRed,
    Red,
    PaleBlue,
    Blue,
    PaleYellow,
    Yellow,
    PaleGreen,
    Green,
    PalePink,
    Pink,
    PalePurple,
    Purple,
    DarkBlue,
    GenPaleBlack,
    GenPaleWhite,
    GenPale0,
    GenPale1,
    GenPale2,
    GenPale3,
    GenPale4,
    GenPale5,
    GenPale6,
    GenPale7,
    GenPale8,
    GenPale9,
    GenPale10,
    GenPale11,
    GenPale12,
    GenPale13,
    GenPale14,
    GenPale15,
    GenPale16,
    GenPale17,
    GenPale18,
    GenPale19,
    GenBlack,
    GenWhite,
    Gen0,
    Gen1,
    Gen2,
    Gen3,
    Gen4,
    Gen5,
    Gen6,
    Gen7,
    Gen8,
    Gen9,
    Gen10,
    Gen11,
    Gen12,
    Gen13,
    Gen14,
    Gen15,
    Gen16,
    Gen17,
    Gen18,
    Gen19,
}

/// The slot of a color.
pub open spec fn color_slot(c: Color) -> nat {
    match c {
        Color::Black => 0,
        Color::White => 1,
        Color::PaleBrown => 2,
        Color::Brown => 3,
        Color::PaleRed => 4,
        Color::Red => 5,
        Color::PaleBlue => 6,
        Color::Blue => 7,
        Color::PaleYellow => 8,
        Color::Yellow => 9,
        Color::PaleGreen => 10,
        Color::Green => 11,
        Color::PalePink => 12,
        Color::Pink => 13,
        Color::PalePurple => 14,
        Color::Purple => 15,
        Color::DarkBlue => 16,
        Color::GenPaleBlack => 17,
        Color::GenPaleWhite => 18,
        Color::GenPale0 => 19,
        Color::GenPale1 => 20,
        Color::GenPale2 => 21,
        Color::GenPale3 => 22,
        Color::GenPale4 => 23,
        Color::GenPale5 => 24,
        Color::GenPale6 => 25,
        Color::GenPale7 => 26,
        Color::GenPale8 => 27,
        Color::GenPale9 => 28,
        Color::GenPale10 => 29,
        Color::GenPale11 => 30,
        Color::GenPale12 => 31,
        Color::GenPale13 => 32,
        Color::GenPale14 => 33,
        Color::GenPale15 => 34,
        Color::GenPale16 => 35,
        Color::GenPale17 => 36,
        Color::GenPale18 => 37,
        Color::GenPale19 => 38,
        Color::GenBlack => 39,
        Color::GenWhite => 40,
        Color::Gen0 => 41,
        Color::Gen1 => 42,
        Color::Gen2 => 43,
        Color::Gen3 => 44,
        Color::Gen4 => 45,
        Color::Gen5 => 46,
        Color::Gen6 => 47,
        Color::Gen7 => 48,
        Color::Gen8 => 49,
        Color::Gen9 => 50,
        Color::Gen10 => 51,
        Color::Gen11 => 52,
        Color::Gen12 => 53,
        Color::Gen13 => 54,
        Color::Gen14 => 55,
        Color::Gen15 => 56,
        Color::Gen16 => 57,
        Color::Gen17 => 58,
        Color::Gen18 => 59,
        Color::Gen19 => 60,
    }
}

/// The color of a slot (the last color for a slot past the end).
pub open spec fn slot_color(n: nat) -> Color {
    if n == 0 {
        Color::Black
    } else if n == 1 {
        Color::White
    } else if n == 2 {
        Color::PaleBrown
    } else if n == 3 {
        Color::Brown
    } else if n == 4 {
        Color::PaleRed
    } else if n == 5 {
        Color::Red
    } else if n == 6 {
        Color::PaleBlue
    } else if n == 7 {
        Color::Blue
    } else if n == 8 {
        Color::PaleYellow
    } else if n == 9 {
        Color::Yellow
    } else if n == 10 {
        Color::PaleGreen
    } else if n == 11 {
        Color::Green
    } else if n == 12 {
        Color::PalePink
    } else if n == 13 {
        Color::Pink
    } else if n == 14 {
        Color::PalePurple
    } else if n == 15 {
        Color::Purple
    } else if n == 16 {
        Color::DarkBlue
    } else if n == 17 {
        Color::GenPaleBlack
    } else if n == 18 {
        Color::GenPaleWhite
    } else if n == 19 {
        Color::GenPale0
    } else if n == 20 {
        Color::GenPale1
    } else if n == 21 {
        Color::GenPale2
    } else if n == 22 {
        Color::GenPale3
    } else if n == 23 {
        Color::GenPale4
    } else if n == 24 {
        Color::GenPale5
    } else if n == 25 {
        Color::GenPale6
    } else if n == 26 {
        Color::GenPale7
    } else if n == 27 {
        Color::GenPale8
    } else if n == 28 {
        Color::GenPale9
    } else if n == 29 {
        Color::GenPale10
    } else if n == 30 {
        Color::GenPale11
    } else if n == 31 {
        Color::GenPale12
    } else if n == 32 {
        Color::GenPale13
    } else if n == 33 {
        Color::GenPale14
    } else if n == 34 {
        Color::GenPale15
    } else if n == 35 {
        Color::GenPale16
    } else if n == 36 {
        Color::GenPale17
    } else if n == 37 {
        Color::GenPale18
    } else if n == 38 {
        Color::GenPale19
    } else if n == 39 {
        Color::GenBlack
    } else if n == 40 {
        Color::GenWhite
    } else if n == 41 {
        Color::Gen0
    } else if n == 42 {
        Color::Gen1
    } else if n == 43 {
        Color::Gen2
    } else if n == 44 {
        Color::Gen3
    } else if n == 45 {
        Color::Gen4
    } else if n == 46 {
        Color::Gen5
    } else if n == 47 {
        Color::Gen6
    } else if n == 48 {
        Color::Gen7
    } else if n == 49 {
        Color::Gen8
    } else if n == 50 {
        Color::Gen9
    } else if n == 51 {
        Color::Gen10
    } else if n == 52 {
        Color::Gen11
    } else if n == 53 {
        Color::Gen12
    } else if n == 54 {
        Color::Gen13
    } else if n == 55 {
        Color::Gen14
    } else if n == 56 {
        Color::Gen15
    } else if n == 57 {
        Color::Gen16
    } else if n == 58 {
        Color::Gen17
    } else if n == 59 {
        Color::Gen18
    } else {
        Color::Gen19
    }
}

/// Every color has its own slot, and the slots are those of the buffer:
/// the fixed colors, then a black, a white and the generated colors of
/// each range.
pub proof fn lemma_color_slots(c: Color)
    ensures
        slot_color(color_slot(c)) == c,
        color_slot(c) < 17 + 2 * (2 + MAX_DIVISION),
        color_slot(Color::GenPaleBlack) == 17,
        color_slot(Color::GenBlack) == 17 + 2 + MAX_DIVISION,
        color_slot(Color::Gen19) == 17 + 2 * (2 + MAX_DIVISION) - 1,
{
}

impl Color {
    /// The slot of the color in the color buffer.
    pub fn index(&self) -> (i: usize)
        ensures
            i == color_slot(*self),
    {
        match *self {
            Color::Black => 0,
            Color::White => 1,
            Color::PaleBrown => 2,
            Color::Brown => 3,
            Color::PaleRed => 4,
            Color::Red => 5,
            Color::PaleBlue => 6,
            Color::Blue => 7,
            Color::PaleYellow => 8,
            Color::Yellow => 9,
            Color::PaleGreen => 10,
            Color::Green => 11,
            Color::PalePink => 12,
            Color::Pink => 13,
            Color::PalePurple => 14,
            Color::Purple => 15,
            Color::DarkBlue => 16,
            Color::GenPaleBlack => 17,
            Color::GenPaleWhite => 18,
            Color::GenPale0 => 19,
            Color::GenPale1 => 20,
            Color::GenPale2 => 21,
            Color::GenPale3 => 22,
            Color::GenPale4 => 23,
            Color::GenPale5 => 24,
            Color::GenPale6 => 25,
            Color::GenPale7 => 26,
            Color::GenPale8 => 27,
            Color::GenPale9 => 28,
            Color::GenPale10 => 29,
            Color::GenPale11 => 30,
            Color::GenPale12 => 31,
            Color::GenPale13 => 32,
            Color::GenPale14 => 33,
            Color::GenPale15 => 34,
            Color::GenPale16 => 35,
            Color::GenPale17 => 36,
            Color::GenPale18 => 37,
            Color::GenPale19 => 38,
            Color::GenBlack => 39,
            Color::GenWhite => 40,
            Color::Gen0 => 41,
            Color::Gen1 => 42,
            Color::Gen2 => 43,
            Color::Gen3 => 44,
            Color::Gen4 => 45,
            Color::Gen5 => 46,
            Color::Gen6 => 47,
            Color::Gen7 => 48,
            Color::Gen8 => 49,
            Color::Gen9 => 50,
            Color::Gen10 => 51,
            Color::Gen11 => 52,
            Color::Gen12 => 53,
            Color::Gen13 => 54,
            Color::Gen14 => 55,
            Color::Gen15 => 56,
            Color::Gen16 => 57,
            Color::Gen17 => 58,
            Color::Gen18 => 59,
            Color::Gen19 => 60,
        }
    }
}

} // verus!
