use numeric_order::game::{ball_step, guess_outcome, BallState, GuessOutcome};
use numeric_order::search::find_number;
use numeric_order::shapes::Rectangle;
use numeric_order::window::render_window;

#[test]
fn find_number_hits_and_misses() {
    let haystack = vec![2, 4, 7, 12];
    assert!(find_number(&haystack, 2));
    assert!(find_number(&haystack, 12));
    assert!(!find_number(&haystack, 5));
    assert!(!find_number(&Vec::new(), 5));
}

#[test]
fn rectangle_renders_its_rows() {
    let rect = Rectangle::new(10, 3);
    assert_eq!(rect.width, 10);
    assert_eq!(rect.height, 3);
    let text: String = rect.render().into_iter().collect();
    assert_eq!(text, "##########\n##########\n##########\n");
}

#[test]
fn degenerate_rectangles_render_nothing_wide() {
    let text: String = Rectangle::new(0, 2).render().into_iter().collect();
    assert_eq!(text, "\n\n");
    let empty: String = Rectangle::new(4, 0).render().into_iter().collect();
    assert_eq!(empty, "");
    let negative: String = Rectangle::new(-3, -1).render().into_iter().collect();
    assert_eq!(negative, "");
}

#[test]
fn window_frame_shows_ball_walls_and_floor() {
    let text: String = render_window(1, 0, 3, 2).into_iter().collect();
    assert_eq!(text, " O |\n   |\n---");
}

#[test]
fn guess_outcome_matches_the_secret() {
    assert_eq!(guess_outcome(10, 42), GuessOutcome::SecretLarger);
    assert_eq!(guess_outcome(60, 42), GuessOutcome::SecretSmaller);
    assert_eq!(guess_outcome(42, 42), GuessOutcome::Correct);
}

#[test]
fn ball_moves_and_bounces() {
    let mid = BallState { x: 5, y: 5, dx: 1, dy: 1 };
    let stepped = ball_step(mid, 10, 10);
    assert_eq!(stepped, BallState { x: 6, y: 6, dx: 1, dy: 1 });

    let at_wall = BallState { x: 9, y: 4, dx: 1, dy: -1 };
    let bounced = ball_step(at_wall, 10, 10);
    assert_eq!(bounced, BallState { x: 8, y: 3, dx: -1, dy: -1 });

    let corner = BallState { x: 0, y: 0, dx: -1, dy: -1 };
    let out = ball_step(corner, 10, 10);
    assert_eq!(out, BallState { x: 1, y: 1, dx: 1, dy: 1 });
}
