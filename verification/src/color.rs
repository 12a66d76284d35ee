//! The color held by one board cell, and the random draw that produces it.

use vstd::prelude::*;
use rand::Rng;

verus! {

/// One cell of the board: four playable colors plus the `Empty` sentinel that
/// marks a cleared, not-yet-refilled cell. A random draw never produces
/// `Empty`.
#[derive(Copy, Clone, PartialEq, Eq, Structural, Debug)]
pub enum BoardColor {
    Red,
    Blue,
    Green,
    Yellow,
    Empty,
}

/// Relies on `rand::thread_rng` and `rand::Rng::gen_range`: on the non-empty
/// range `0..n` the draw returns a value of that range.
#[verifier::external_body]
fn random_below(n: u32) -> (r: u32)
    requires
        1 <= n,
    ensures
        r < n,
{
    rand::thread_rng().gen_range(0..n)
}

impl BoardColor {
    /// The hex code under which the presentation layer paints this color.
    pub open spec fn spec_hex(self) -> Seq<char> {
        match self {
            BoardColor::Red => "#FF0000"@,
            BoardColor::Blue => "#00AAFF"@,
            BoardColor::Green => "#00FF00"@,
            BoardColor::Yellow => "#FFFF00"@,
            BoardColor::Empty => "#000000"@,
        }
    }

    /// The single character under which this color is printed.
    pub open spec fn spec_glyph(self) -> char {
        match self {
            BoardColor::Red => 'R',
            BoardColor::Blue => 'B',
            BoardColor::Green => 'G',
            BoardColor::Yellow => 'Y',
            BoardColor::Empty => 'E',
        }
    }

    /// Draws one of the four playable colors; the `Empty` sentinel is outside
    /// the drawn range by construction.
    pub fn random() -> (r: BoardColor)
        ensures
            r != BoardColor::Empty,
    {
        let n = random_below(4);
        if n == 0 {
            BoardColor::Red
        } else if n == 1 {
            BoardColor::Blue
        } else if n == 2 {
            BoardColor::Green
        } else {
            BoardColor::Yellow
        }
    }

    pub fn get_color(&self) -> (r: &'static str)
        ensures
            r@ == self.spec_hex(),
    {
        match *self {
            BoardColor::Red => "#FF0000",
            BoardColor::Blue => "#00AAFF",
            BoardColor::Green => "#00FF00",
            BoardColor::Yellow => "#FFFF00",
            BoardColor::Empty => "#000000",
        }
    }

    pub fn get_glyph(&self) -> (r: char)
        ensures
            r == self.spec_glyph(),
    {
        match *self {
            BoardColor::Red => 'R',
            BoardColor::Blue => 'B',
            BoardColor::Green => 'G',
            BoardColor::Yellow => 'Y',
            BoardColor::Empty => 'E',
        }
    }
}

} // verus!
