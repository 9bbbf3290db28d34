//! The decisions of the small interactive programs around the library:
//! judging a guess against a secret number, and moving the bouncing ball.
//!
//! The surrounding loops (reading a line, printing, sleeping) stay with
//! the caller; these functions map a state to the next state or verdict.

use vstd::prelude::*;

verus! {

/// How a guessed number relates to the secret one.
#[derive(Clone, Copy, Debug, PartialEq, Eq, Structural)]
pub enum GuessOutcome {
    SecretLarger,
    SecretSmaller,
    Correct,
}

/// Judges one guess.
pub fn guess_outcome(guess: i32, secret: i32) -> (r: GuessOutcome)
    ensures
        r == GuessOutcome::SecretLarger <==> guess < secret,
        r == GuessOutcome::SecretSmaller <==> guess > secret,
        r == GuessOutcome::Correct <==> guess == secret,
{
    if guess < secret {
        GuessOutcome::SecretLarger
    } else if guess > secret {
        GuessOutcome::SecretSmaller
    } else {
        GuessOutcome::Correct
    }
}

/// The ball's position and unit velocity.
#[derive(Clone, Copy, Debug, PartialEq, Eq, Structural)]
pub struct BallState {
    pub x: i32,
    pub y: i32,
    pub dx: i32,
    pub dy: i32,
}

/// A state the motion rule keeps returning to itself: the ball inside a
/// window of at least two cells each way, moving one cell per step, and
/// heading inward whenever it touches a wall.
pub open spec fn ball_in_window(s: BallState, width: i32, height: i32) -> bool {
    &&& width >= 2
    &&& height >= 2
    &&& 0 <= s.x < width
    &&& 0 <= s.y < height
    &&& (s.dx == 1 || s.dx == -1)
    &&& (s.dy == 1 || s.dy == -1)
    &&& (s.x == 0 ==> s.dx == -1)
    &&& (s.x == width - 1 ==> s.dx == 1)
    &&& (s.y == 0 ==> s.dy == -1)
    &&& (s.y == height - 1 ==> s.dy == 1)
}

/// One step of the bounce rule: a velocity component flips on the wall it
/// points at, then the ball moves by the (possibly flipped) velocity.
pub fn ball_step(s: BallState, width: i32, height: i32) -> (r: BallState)
    requires
        ball_in_window(s, width, height),
    ensures
        r.dx == if s.x == 0 || s.x == width - 1 { -s.dx as int } else { s.dx as int },
        r.dy == if s.y == 0 || s.y == height - 1 { -s.dy as int } else { s.dy as int },
        r.x == s.x + r.dx,
        r.y == s.y + r.dy,
        ball_in_window(r, width, height),
{
    let dx: i32 = if s.x == 0 || s.x == width - 1 { -s.dx } else { s.dx };
    let dy: i32 = if s.y == 0 || s.y == height - 1 { -s.dy } else { s.dy };
    BallState { x: s.x + dx, y: s.y + dy, dx, dy }
}

} // verus!
