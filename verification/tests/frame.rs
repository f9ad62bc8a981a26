use rust_snake::direction::Direction;
use rust_snake::game::Game;
use rust_snake::graphics::Graphics;
use rust_snake::graphics::BLACK;
use rust_snake::graphics::RED;
use rust_snake::graphics::WHITE;
use std::collections::VecDeque;

fn painted(pixels: &[u32], color: u32) -> Vec<usize> {
    (0..pixels.len()).filter(|&k| pixels[k] == color).collect()
}

#[test]
fn colours_are_what_the_window_expects() {
    assert_eq!(WHITE, 0x00ff_ffff);
    assert_eq!(RED, 0x00ff_0000);
    assert_eq!(BLACK, 0);
}

#[test]
fn new_frame_is_black_and_sized_by_the_grid() {
    let frame = Graphics::new(2, 3, 5).expect("a small frame");
    assert_eq!(frame.width(), 15);
    assert_eq!(frame.height(), 10);
    assert_eq!(frame.square_size(), 5);
    assert_eq!(frame.buffer().len(), 150);
    assert!(frame.buffer().iter().all(|&p| p == BLACK));
    assert!(frame.is_valid());
}

#[test]
fn frame_with_too_many_pixels_is_refused() {
    assert!(Graphics::new(usize::MAX, 2, 2).is_none());
    assert!(Graphics::new(2, usize::MAX, 2).is_none());
    assert!(Graphics::new(1 << 40, 1 << 40, 1).is_none());
    assert!(Graphics::new(0, 0, 0).is_some());
}

#[test]
fn square_leaves_out_first_row_and_column_and_last_two() {
    let frame = Graphics::new(2, 3, 5).unwrap();
    let pixels = frame.draw_square(0, WHITE);
    assert_eq!(painted(&pixels, WHITE), vec![16, 17, 31, 32]);
    assert_eq!(pixels.len(), 150);
    assert!(frame.buffer().iter().all(|&p| p == BLACK));
    let pixels = frame.draw_square(5 + 5 * 15, RED);
    assert_eq!(painted(&pixels, RED), vec![96, 97, 111, 112]);
}

#[test]
fn square_of_twenty_paints_seventeen_by_seventeen() {
    let frame = Graphics::new(20, 20, 20).unwrap();
    let corner = 20 * 3 + 20 * 400 * 2;
    let pixels = frame.draw_square(corner, WHITE);
    let white = painted(&pixels, WHITE);
    assert_eq!(white.len(), 17 * 17);
    assert_eq!(white[0], corner + 400 + 1);
    assert_eq!(*white.last().unwrap(), corner + 17 * 400 + 17);
    for k in white {
        let (i, j) = ((k - corner) / 400, (k - corner) % 400);
        assert!((1..18).contains(&i) && (1..18).contains(&j));
    }
}

#[test]
fn small_squares_have_no_inside() {
    for side in 0..4 {
        let frame = Graphics::new(3, 3, side).unwrap();
        let pixels = frame.draw_square(0, WHITE);
        assert!(pixels.iter().all(|&p| p == BLACK));
    }
    let frame = Graphics::new(3, 3, 4).unwrap();
    assert_eq!(painted(&frame.draw_square(0, WHITE), WHITE), vec![13]);
}

#[test]
fn plane_paints_snake_white_and_fruit_red() {
    let mut frame = Graphics::new(2, 3, 5).unwrap();
    let snake: VecDeque<(usize, usize)> = vec![(0, 0), (1, 0)].into();
    frame.draw_plane(&snake, (2, 1));
    assert_eq!(painted(frame.buffer(), WHITE), vec![16, 17, 21, 22, 31, 32, 36, 37]);
    assert_eq!(painted(frame.buffer(), RED), vec![101, 102, 116, 117]);
    assert_eq!(painted(frame.buffer(), BLACK).len(), 150 - 12);
}

#[test]
fn fruit_is_painted_over_the_snake() {
    let mut frame = Graphics::new(2, 3, 5).unwrap();
    let snake: VecDeque<(usize, usize)> = vec![(1, 1)].into();
    frame.draw_plane(&snake, (1, 1));
    assert!(painted(frame.buffer(), WHITE).is_empty());
    assert_eq!(painted(frame.buffer(), RED), vec![96, 97, 111, 112]);
}

#[test]
fn plane_keeps_what_was_painted_before_and_next_frame_does_not() {
    let mut frame = Graphics::new(2, 3, 5).unwrap();
    let first: VecDeque<(usize, usize)> = vec![(0, 0)].into();
    let second: VecDeque<(usize, usize)> = vec![(2, 0)].into();
    frame.draw_plane(&first, (0, 1));
    frame.draw_plane(&second, (1, 1));
    assert_eq!(painted(frame.buffer(), WHITE), vec![16, 17, 26, 27, 31, 32, 41, 42]);
    assert_eq!(painted(frame.buffer(), RED).len(), 8);
    frame.next_frame(&second, (1, 1));
    assert_eq!(painted(frame.buffer(), WHITE), vec![26, 27, 41, 42]);
    assert_eq!(painted(frame.buffer(), RED), vec![96, 97, 111, 112]);
}

#[test]
fn clear_paints_everything_black() {
    let mut frame = Graphics::new(2, 3, 5).unwrap();
    let snake: VecDeque<(usize, usize)> = vec![(0, 0)].into();
    frame.draw_plane(&snake, (1, 1));
    frame.clear();
    assert!(frame.buffer().iter().all(|&p| p == BLACK));
    assert_eq!(frame.buffer().len(), 150);
}

#[test]
fn frame_knows_which_grids_it_holds() {
    let frame = Graphics::new(2, 3, 5).unwrap();
    assert!(frame.holds_grid(2, 3));
    assert!(frame.holds_grid(1, 1));
    assert!(frame.holds_grid(0, 0));
    assert!(!frame.holds_grid(3, 3));
    assert!(!frame.holds_grid(2, 4));
    assert!(!frame.holds_grid(usize::MAX, 1));
}

#[test]
fn world_is_painted_on_a_frame_that_holds_it() {
    let snake = vec![(1, 0), (0, 0)];
    let game = Game::from_parts(2, 3, snake, Direction::Right, (2, 1)).unwrap();
    let mut frame = Graphics::new(2, 3, 5).unwrap();
    assert!(game.next_frame(&mut frame));
    assert_eq!(painted(frame.buffer(), WHITE), vec![16, 17, 21, 22, 31, 32, 36, 37]);
    assert_eq!(painted(frame.buffer(), RED), vec![101, 102, 116, 117]);
}

#[test]
fn world_is_not_painted_on_a_frame_too_small() {
    let game = Game::from_parts(4, 4, vec![(3, 3)], Direction::Right, (0, 0)).unwrap();
    let mut frame = Graphics::new(2, 3, 5).unwrap();
    let snake: VecDeque<(usize, usize)> = vec![(0, 0)].into();
    frame.draw_plane(&snake, (1, 1));
    let before = frame.buffer().clone();
    assert!(!game.next_frame(&mut frame));
    assert_eq!(frame.buffer(), &before);
}

#[test]
fn valid_world_says_so() {
    let game = Game::from_parts(4, 4, vec![(3, 3), (3, 2)], Direction::Right, (0, 0)).unwrap();
    assert!(game.is_valid());
    assert!(Game::new(20, 20).unwrap().is_valid());
}
