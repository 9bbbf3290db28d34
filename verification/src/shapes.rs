//! A rectangle and the text that draws it.
//!
//! Drawing performs no output here: `render` returns the characters, and
//! the caller prints them.

use vstd::prelude::*;
use vstd::arithmetic::div_mod::lemma_fundamental_div_mod_converse_mod;

verus! {

/// A non-negative dimension: negative extents draw nothing.
pub open spec fn clamped(x: i32) -> int {
    if x < 0 {
        0
    } else {
        x as int
    }
}

/// The character at offset `i` of a drawn rectangle of width `w`: a `'#'`
/// cell, or the `'\n'` that ends each row of `w` cells.
pub open spec fn rect_char(w: int, i: int) -> char {
    if i % (w + 1) == w {
        '\n'
    } else {
        '#'
    }
}

pub struct Rectangle {
    pub width: i32,
    pub height: i32,
}

impl Rectangle {
    /// Builds a rectangle with the given extents.
    pub fn new(width: i32, height: i32) -> (r: Self)
        ensures
            r.width == width,
            r.height == height,
    {
        Rectangle { width, height }
    }

    /// The text that draws the rectangle: `height` rows, each `width`
    /// `'#'` cells closed by a newline.
    pub fn render(&self) -> (out: Vec<char>)
        ensures
            out@.len() == clamped(self.height) * (clamped(self.width) + 1),
            forall|i: int|
                0 <= i < out@.len() ==> out@[i] == rect_char(clamped(self.width), i),
    {
        let mut out: Vec<char> = Vec::new();
        let ghost cw: int = clamped(self.width);
        let ghost ch: int = clamped(self.height);
        let mut y: i32 = 0;
        while y < self.height
            invariant
                0 <= y <= ch,
                cw == clamped(self.width),
                ch == clamped(self.height),
                out@.len() == y * (cw + 1),
                forall|i: int| 0 <= i < out@.len() ==> out@[i] == rect_char(cw, i),
            decreases self.height - y,
        {
            let mut x: i32 = 0;
            while x < self.width
                invariant
                    0 <= x <= cw,
                    cw == clamped(self.width),
                    0 <= y,
                    out@.len() == y * (cw + 1) + x,
                    forall|i: int| 0 <= i < out@.len() ==> out@[i] == rect_char(cw, i),
                decreases self.width - x,
            {
                proof {
                    lemma_fundamental_div_mod_converse_mod(
                        y * (cw + 1) + x,
                        cw + 1,
                        y as int,
                        x as int,
                    );
                }
                out.push('#');
                x = x + 1;
            }
            proof {
                assert(x == cw);
                lemma_fundamental_div_mod_converse_mod(y * (cw + 1) + cw, cw + 1, y as int, cw);
                assert((y + 1) * (cw + 1) == y * (cw + 1) + (cw + 1)) by (nonlinear_arith);
            }
            out.push('\n');
            y = y + 1;
        }
        proof {
            assert(y == ch);
        }
        out
    }
}

} // verus!
