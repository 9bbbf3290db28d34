//! The text of one frame of the bouncing-ball window, and the ball's
//! motion rule.
//!
//! Rendering performs no output here: `render_window` returns the
//! characters of a frame and the caller prints them.  The caller's loop
//! (clearing the screen, sleeping between frames) advances the ball with
//! `ball_step`.

use vstd::prelude::*;
use vstd::arithmetic::div_mod::{
    lemma_fundamental_div_mod_converse_div, lemma_fundamental_div_mod_converse_mod,
};
use crate::shapes::clamped;

verus! {

/// The character at offset `i` of the body of a frame: `w` cells per row,
/// a `'|'` border and a `'\n'`; the ball's cell holds `'O'`.
pub open spec fn window_char(ball_x: int, ball_y: int, w: int, i: int) -> char {
    let x = i % (w + 2);
    let y = i / (w + 2);
    if x == w {
        '|'
    } else if x == w + 1 {
        '\n'
    } else if x == ball_x && y == ball_y {
        'O'
    } else {
        ' '
    }
}

/// The text of one frame: `height` rows of `width` cells each closed by
/// `"|\n"`, then a floor of `width` `'-'` characters.
pub fn render_window(ball_x: i32, ball_y: i32, width: i32, height: i32) -> (out: Vec<char>)
    ensures
        out@.len() == clamped(height) * (clamped(width) + 2) + clamped(width),
        forall|i: int|
            0 <= i < clamped(height) * (clamped(width) + 2) ==> out@[i] == window_char(
                ball_x as int,
                ball_y as int,
                clamped(width),
                i,
            ),
        forall|i: int|
            clamped(height) * (clamped(width) + 2) <= i < out@.len() ==> out@[i] == '-',
{
    let mut out: Vec<char> = Vec::new();
    let ghost cw: int = clamped(width);
    let ghost ch: int = clamped(height);
    let ghost bx: int = ball_x as int;
    let ghost by: int = ball_y as int;
    let mut y: i32 = 0;
    while y < height
        invariant
            0 <= y <= ch,
            cw == clamped(width),
            ch == clamped(height),
            bx == ball_x as int,
            by == ball_y as int,
            out@.len() == y * (cw + 2),
            forall|i: int| 0 <= i < out@.len() ==> out@[i] == window_char(bx, by, cw, i),
        decreases height - y,
    {
        let mut x: i32 = 0;
        while x < width
            invariant
                0 <= x <= cw,
                cw == clamped(width),
                bx == ball_x as int,
                by == ball_y as int,
                0 <= y,
                out@.len() == y * (cw + 2) + x,
                forall|i: int| 0 <= i < out@.len() ==> out@[i] == window_char(bx, by, cw, i),
            decreases width - x,
        {
            proof {
                lemma_fundamental_div_mod_converse_mod(
                    y * (cw + 2) + x,
                    cw + 2,
                    y as int,
                    x as int,
                );
                lemma_fundamental_div_mod_converse_div(
                    y * (cw + 2) + x,
                    cw + 2,
                    y as int,
                    x as int,
                );
            }
            let ghost prev: Seq<char> = out@;
            let c: char = if x == ball_x && y == ball_y {
                'O'
            } else {
                ' '
            };
            out.push(c);
            proof {
                assert(out@ == prev.push(c));
                assert forall|i: int| 0 <= i < out@.len() implies out@[i] == window_char(
                    bx,
                    by,
                    cw,
                    i,
                ) by {
                    if i < prev.len() {
                        assert(out@[i] == prev[i]);
                    } else {
                        assert(i == prev.len());
                        assert(out@[i] == c);
                        assert(i % (cw + 2) == x);
                        assert(i / (cw + 2) == y);
                    }
                }
            }
            x = x + 1;
        }
        proof {
            assert(x == cw);
            lemma_fundamental_div_mod_converse_mod(y * (cw + 2) + cw, cw + 2, y as int, cw);
            lemma_fundamental_div_mod_converse_mod(
                y * (cw + 2) + cw + 1,
                cw + 2,
                y as int,
                cw + 1,
            );
            assert((y + 1) * (cw + 2) == y * (cw + 2) + (cw + 2)) by (nonlinear_arith);
        }
        out.push('|');
        out.push('\n');
        proof {
            assert forall|i: int| 0 <= i < out@.len() implies out@[i] == window_char(
                bx,
                by,
                cw,
                i,
            ) by {
                if i == y * (cw + 2) + cw {
                    assert(out@[i] == '|');
                } else if i == y * (cw + 2) + cw + 1 {
                    assert(out@[i] == '\n');
                }
            }
        }
        y = y + 1;
    }
    proof {
        assert(y == ch);
    }
    let ghost body: int = ch * (cw + 2);
    proof {
        assert(body >= 0) by (nonlinear_arith)
            requires body == ch * (cw + 2), ch >= 0, cw >= 0;
    }
    let mut x: i32 = 0;
    while x < width
        invariant
            0 <= body,
            0 <= x <= cw,
            cw == clamped(width),
            body == ch * (cw + 2),
            out@.len() == body + x,
            forall|i: int| 0 <= i < body ==> out@[i] == window_char(bx, by, cw, i),
            forall|i: int| body <= i < out@.len() ==> out@[i] == '-',
        decreases width - x,
    {
        out.push('-');
        proof {
            assert forall|i: int| body <= i < out@.len() implies out@[i] == '-' by {
                if i == body + x {
                    assert(out@[i] == '-');
                }
            }
        }
        x = x + 1;
    }
    out
}

} // verus!
