use rust_snake::bfs::Bfs;
use rust_snake::direction::wrapped_offset;
use rust_snake::direction::Direction;
use rust_snake::game::Game;
use rust_snake::game::TickEvent;
use rust_snake::topology::same_cell;
use rust_snake::topology::Topology;

#[test]
fn left_of_column_zero_is_the_last_column() {
    let grid = Topology { cols: 20, rows: 20 };
    assert_eq!(grid.neighbor((0, 0), Direction::Left), (19, 0));
}

#[test]
fn steps_wrap_at_all_four_edges() {
    let grid = Topology { cols: 20, rows: 12 };
    assert_eq!(grid.neighbor((0, 0), Direction::Up), (0, 11));
    assert_eq!(grid.neighbor((0, 11), Direction::Down), (0, 0));
    assert_eq!(grid.neighbor((19, 3), Direction::Right), (0, 3));
    assert_eq!(grid.neighbor((0, 3), Direction::Left), (19, 3));
}

#[test]
fn steps_inside_the_grid() {
    let grid = Topology { cols: 20, rows: 12 };
    assert_eq!(grid.neighbor((5, 5), Direction::Up), (5, 4));
    assert_eq!(grid.neighbor((5, 5), Direction::Down), (5, 6));
    assert_eq!(grid.neighbor((5, 5), Direction::Right), (6, 5));
    assert_eq!(grid.neighbor((5, 5), Direction::Left), (4, 5));
}

#[test]
fn every_step_stays_on_the_grid_and_adds_the_vector() {
    let grid = Topology { cols: 4, rows: 3 };
    for x in 0..4usize {
        for y in 0..3usize {
            for d in Direction::iter() {
                let (nx, ny) = grid.neighbor((x, y), d);
                assert!(nx < 4 && ny < 3);
                let (dx, dy) = d.get_vector();
                assert_eq!(nx as i32, (x as i32 + dx).rem_euclid(4));
                assert_eq!(ny as i32, (y as i32 + dy).rem_euclid(3));
                assert_eq!(grid.neighbor((nx, ny), d.opposite()), (x, y));
            }
        }
    }
}

#[test]
fn one_cell_grid_steps_onto_itself() {
    let grid = Topology { cols: 1, rows: 1 };
    for d in Direction::iter() {
        assert_eq!(grid.neighbor((0, 0), d), (0, 0));
    }
}

#[test]
fn opposite_is_an_involution() {
    assert_eq!(Direction::Up.opposite(), Direction::Down);
    assert_eq!(Direction::Down.opposite(), Direction::Up);
    assert_eq!(Direction::Right.opposite(), Direction::Left);
    assert_eq!(Direction::Left.opposite(), Direction::Right);
    for d in Direction::iter() {
        assert_eq!(d.opposite().opposite(), d);
        assert_ne!(d.opposite(), d);
    }
}

#[test]
fn vectors_are_unit_steps() {
    assert_eq!(Direction::Up.get_vector(), (0, -1));
    assert_eq!(Direction::Down.get_vector(), (0, 1));
    assert_eq!(Direction::Right.get_vector(), (1, 0));
    assert_eq!(Direction::Left.get_vector(), (-1, 0));
}

#[test]
fn iter_gives_expansion_order() {
    assert_eq!(
        Direction::iter(),
        [Direction::Up, Direction::Down, Direction::Right, Direction::Left]
    );
}

#[test]
fn direction_between_neighbours() {
    let grid = Topology { cols: 20, rows: 20 };
    assert_eq!(Direction::get_direction((5, 5), (5, 4), &grid), Direction::Up);
    assert_eq!(Direction::get_direction((5, 5), (5, 6), &grid), Direction::Down);
    assert_eq!(Direction::get_direction((5, 5), (6, 5), &grid), Direction::Right);
    assert_eq!(Direction::get_direction((5, 5), (4, 5), &grid), Direction::Left);
}

#[test]
fn direction_across_an_edge_is_not_mistaken_for_its_opposite() {
    let grid = Topology { cols: 20, rows: 20 };
    assert_eq!(Direction::get_direction((0, 7), (19, 7), &grid), Direction::Left);
    assert_eq!(Direction::get_direction((19, 7), (0, 7), &grid), Direction::Right);
    assert_eq!(Direction::get_direction((7, 0), (7, 19), &grid), Direction::Up);
    assert_eq!(Direction::get_direction((7, 19), (7, 0), &grid), Direction::Down);
}

#[test]
fn direction_to_a_cell_that_is_no_neighbour_is_right() {
    let grid = Topology { cols: 20, rows: 20 };
    assert_eq!(Direction::get_direction((5, 5), (9, 9), &grid), Direction::Right);
    assert_eq!(Direction::get_direction((5, 5), (5, 5), &grid), Direction::Right);
    assert_eq!(Direction::get_direction((5, 5), (5, 8), &grid), Direction::Right);
}

#[test]
fn direction_leads_to_every_neighbour_on_small_grids() {
    for cols in 1..5usize {
        for rows in 1..5usize {
            let grid = Topology { cols, rows };
            for x in 0..cols {
                for y in 0..rows {
                    for d in Direction::iter() {
                        let to = grid.neighbor((x, y), d);
                        let back = Direction::get_direction((x, y), to, &grid);
                        assert_eq!(grid.neighbor((x, y), back), to);
                    }
                }
            }
        }
    }
}

#[test]
fn wrapped_offset_is_the_difference_modulo_the_size() {
    assert_eq!(wrapped_offset(0, 19, 20), 19);
    assert_eq!(wrapped_offset(19, 0, 20), 1);
    assert_eq!(wrapped_offset(3, 3, 20), 0);
    assert_eq!(wrapped_offset(7, 4, 10), 7);
    assert_eq!(wrapped_offset(0, 0, 1), 0);
}

#[test]
fn same_cell_compares_both_coordinates() {
    assert!(same_cell((1, 2), (1, 2)));
    assert!(!same_cell((1, 2), (2, 1)));
    assert!(!same_cell((1, 2), (1, 3)));
}

#[test]
fn new_world_has_one_cell_at_the_origin_and_a_free_fruit() {
    for _ in 0..50 {
        let game = Game::new(20, 20).expect("room for snake and fruit");
        assert_eq!(game.rows(), 20);
        assert_eq!(game.cols(), 20);
        assert_eq!(game.snake(), vec![(0, 0)]);
        assert_eq!(game.head(), (0, 0));
        assert_eq!(game.len(), 1);
        assert_eq!(game.direction(), Direction::Right);
        let fruit = game.fruit();
        assert!(fruit.0 < 20 && fruit.1 < 20);
        assert_ne!(fruit, (0, 0));
    }
}

#[test]
fn new_world_keeps_rows_and_columns_apart() {
    let game = Game::new(3, 7).unwrap();
    assert_eq!(game.rows(), 3);
    assert_eq!(game.cols(), 7);
    assert_eq!(game.grid(), Topology { cols: 7, rows: 3 });
}

#[test]
fn world_needs_two_cells() {
    assert!(Game::new(0, 0).is_none());
    assert!(Game::new(0, 5).is_none());
    assert!(Game::new(5, 0).is_none());
    assert!(Game::new(1, 1).is_none());
    assert!(Game::new(usize::MAX, 2).is_none());
    let game = Game::new(1, 2).expect("two cells are enough");
    assert_eq!(game.fruit(), (1, 0));
    let game = Game::new(2, 1).expect("two cells are enough");
    assert_eq!(game.fruit(), (0, 1));
}

#[test]
fn from_parts_refuses_what_is_no_world() {
    let ok = vec![(1, 1), (1, 2)];
    assert!(Game::from_parts(5, 5, ok.clone(), Direction::Up, (0, 0)).is_some());
    assert!(Game::from_parts(5, 5, vec![], Direction::Up, (0, 0)).is_none());
    assert!(Game::from_parts(5, 5, vec![(1, 1), (1, 1)], Direction::Up, (0, 0)).is_none());
    assert!(Game::from_parts(5, 5, vec![(1, 1), (5, 1)], Direction::Up, (0, 0)).is_none());
    assert!(Game::from_parts(5, 5, vec![(1, 1), (1, 5)], Direction::Up, (0, 0)).is_none());
    assert!(Game::from_parts(5, 5, ok.clone(), Direction::Up, (5, 0)).is_none());
    assert!(Game::from_parts(5, 5, ok.clone(), Direction::Up, (0, 5)).is_none());
    assert!(Game::from_parts(1, 1, vec![(0, 0)], Direction::Up, (0, 0)).is_none());
    assert!(Game::from_parts(0, 5, ok.clone(), Direction::Up, (0, 0)).is_none());
    assert!(Game::from_parts(usize::MAX, usize::MAX, ok, Direction::Up, (0, 0)).is_none());
}

#[test]
fn from_parts_keeps_what_it_is_given() {
    let snake = vec![(3, 1), (2, 1), (1, 1)];
    let game = Game::from_parts(4, 6, snake.clone(), Direction::Left, (5, 3)).unwrap();
    assert_eq!(game.snake(), snake);
    assert_eq!(game.head(), (3, 1));
    assert_eq!(game.len(), 3);
    assert_eq!(game.fruit(), (5, 3));
    assert_eq!(game.direction(), Direction::Left);
    assert_eq!(game.rows(), 4);
    assert_eq!(game.cols(), 6);
    assert!(game.occupies((2, 1)));
    assert!(!game.occupies((5, 3)));
}

#[test]
fn advance_moves_and_drops_the_tail() {
    let mut game =
        Game::from_parts(10, 10, vec![(3, 3), (2, 3), (1, 3)], Direction::Right, (7, 7)).unwrap();
    assert_eq!(game.advance(Direction::Down), TickEvent::Moved);
    assert_eq!(game.snake(), vec![(3, 4), (3, 3), (2, 3)]);
    assert_eq!(game.direction(), Direction::Down);
    assert_eq!(game.fruit(), (7, 7));
}

#[test]
fn advance_onto_the_fruit_keeps_the_tail() {
    let mut game =
        Game::from_parts(10, 10, vec![(3, 3), (2, 3), (1, 3)], Direction::Right, (4, 3)).unwrap();
    assert_eq!(game.advance(Direction::Right), TickEvent::Grew);
    assert_eq!(game.snake(), vec![(4, 3), (3, 3), (2, 3), (1, 3)]);
    assert_eq!(game.len(), 4);
    assert_eq!(game.fruit(), (4, 3));
}

#[test]
fn advance_into_the_body_dies_and_changes_nothing() {
    let snake = vec![(3, 3), (3, 4), (2, 4), (2, 3), (2, 2)];
    for (rows, cols) in [(5, 5), (10, 10), (6, 40)] {
        let mut game =
            Game::from_parts(rows, cols, snake.clone(), Direction::Up, (0, 0)).unwrap();
        assert_eq!(game.advance(Direction::Left), TickEvent::Died);
        assert_eq!(game.snake(), snake);
        assert_eq!(game.direction(), Direction::Up);
        assert_eq!(game.fruit(), (0, 0));
        assert_eq!(game.advance(Direction::Down), TickEvent::Died);
        assert_eq!(game.snake(), snake);
    }
}

#[test]
fn advance_into_the_cell_the_tail_is_leaving_dies() {
    let snake = vec![(1, 1), (1, 2), (2, 2), (2, 1)];
    let mut game = Game::from_parts(5, 5, snake.clone(), Direction::Up, (4, 4)).unwrap();
    assert_eq!(game.advance(Direction::Right), TickEvent::Died);
    assert_eq!(game.snake(), snake);
}

#[test]
fn two_cell_snake_turning_back_dies() {
    let mut game = Game::from_parts(5, 5, vec![(2, 2), (1, 2)], Direction::Right, (4, 4)).unwrap();
    assert_eq!(game.advance(Direction::Left), TickEvent::Died);
}

#[test]
fn snake_across_a_narrow_grid_runs_into_itself() {
    let mut game = Game::from_parts(3, 2, vec![(0, 1), (1, 1)], Direction::Right, (0, 0)).unwrap();
    assert_eq!(game.advance(Direction::Right), TickEvent::Died);
    assert_eq!(game.advance(Direction::Left), TickEvent::Died);
    assert_eq!(game.advance(Direction::Up), TickEvent::Grew);
}

#[test]
fn advance_wraps_round_the_edge() {
    let mut game = Game::from_parts(20, 20, vec![(0, 0)], Direction::Right, (5, 5)).unwrap();
    assert_eq!(game.advance(Direction::Left), TickEvent::Moved);
    assert_eq!(game.head(), (19, 0));
    assert_eq!(game.advance(Direction::Up), TickEvent::Moved);
    assert_eq!(game.head(), (19, 19));
}

#[test]
fn respawn_never_lands_on_the_snake() {
    let snake = vec![(0, 0), (1, 0), (2, 0), (0, 1), (1, 1), (2, 1), (0, 2)];
    let mut game = Game::from_parts(3, 3, snake.clone(), Direction::Right, (2, 2)).unwrap();
    let mut seen = [false; 2];
    for _ in 0..200 {
        let cell = game.respawn_fruit().expect("two cells are free");
        assert_eq!(game.fruit(), cell);
        assert!(!snake.contains(&cell));
        assert!(cell == (1, 2) || cell == (2, 2));
        seen[cell.0 - 1] = true;
        assert_eq!(game.snake(), snake);
    }
    assert!(seen[0] && seen[1]);
}

#[test]
fn respawn_on_a_full_grid_gives_nothing() {
    let snake = vec![(0, 0), (1, 0), (1, 1), (0, 1)];
    let mut game = Game::from_parts(2, 2, snake, Direction::Right, (0, 0)).unwrap();
    assert_eq!(game.count_free(), 0);
    assert_eq!(game.respawn_fruit(), None);
    assert_eq!(game.fruit(), (0, 0));
    assert_eq!(game.free_cell_at(0), None);
}

#[test]
fn free_cells_are_numbered_in_scan_order() {
    let snake = vec![(0, 0), (0, 2), (1, 1)];
    let game = Game::from_parts(3, 2, snake, Direction::Right, (1, 0)).unwrap();
    assert_eq!(game.count_free(), 3);
    assert_eq!(game.free_cell_at(0), Some((0, 1)));
    assert_eq!(game.free_cell_at(1), Some((1, 0)));
    assert_eq!(game.free_cell_at(2), Some((1, 2)));
    assert_eq!(game.free_cell_at(3), None);
    assert_eq!(game.free_cell_at(usize::MAX), None);
}

#[test]
fn die_and_reset_gives_the_length_and_a_fresh_snake() {
    let snake = vec![(3, 3), (3, 4), (2, 4), (2, 3), (2, 2)];
    let mut game = Game::from_parts(6, 6, snake, Direction::Up, (5, 5)).unwrap();
    assert_eq!(game.die_and_reset(), 5);
    assert_eq!(game.snake(), vec![(0, 0)]);
    assert_eq!(game.direction(), Direction::Right);
    assert_eq!(game.fruit(), (5, 5));
    assert_eq!(game.rows(), 6);
}

#[test]
fn update_direction_refuses_to_turn_back() {
    let mut game = Game::from_parts(6, 6, vec![(3, 3)], Direction::Right, (5, 5)).unwrap();
    game.update_direction(Direction::Left);
    assert_eq!(game.direction(), Direction::Right);
    game.update_direction(Direction::Up);
    assert_eq!(game.direction(), Direction::Up);
    game.update_direction(Direction::Down);
    assert_eq!(game.direction(), Direction::Up);
    game.update_direction(Direction::Up);
    assert_eq!(game.direction(), Direction::Up);
    game.update_direction(Direction::Left);
    assert_eq!(game.direction(), Direction::Left);
}

#[test]
fn set_direction_turns_whatever_the_heading() {
    let mut game = Game::from_parts(6, 6, vec![(3, 3)], Direction::Right, (5, 5)).unwrap();
    game.set_direction(Direction::Left);
    assert_eq!(game.direction(), Direction::Left);
}

#[test]
fn shrink_delay_falls_by_four_down_to_ten() {
    assert_eq!(Game::shrink_delay(50), 46);
    assert_eq!(Game::shrink_delay(11), 7);
    assert_eq!(Game::shrink_delay(10), 10);
    assert_eq!(Game::shrink_delay(7), 7);
    assert_eq!(Game::shrink_delay(0), 0);
}

#[test]
fn tick_that_only_moves_leaves_the_planner_alone() {
    let mut game =
        Game::from_parts(10, 10, vec![(3, 3), (2, 3)], Direction::Right, (7, 3)).unwrap();
    let mut bfs = Bfs::new(10, 10);
    bfs.update(&game);
    let held = bfs.path();
    assert_eq!(game.update_snake(&mut bfs), TickEvent::Moved);
    assert_eq!(game.snake(), vec![(4, 3), (3, 3)]);
    assert_eq!(bfs.path(), held);
}

#[test]
fn tick_onto_the_fruit_respawns_and_plans() {
    for _ in 0..30 {
        let mut game =
            Game::from_parts(10, 10, vec![(3, 3), (2, 3)], Direction::Right, (4, 3)).unwrap();
        let mut bfs = Bfs::new(10, 10);
        assert_eq!(game.update_snake(&mut bfs), TickEvent::Grew);
        let snake = vec![(4, 3), (3, 3), (2, 3)];
        assert_eq!(game.snake(), snake);
        assert!(!snake.contains(&game.fruit()));
        let path = bfs.path();
        assert_eq!(path.last(), Some(&game.fruit()));
        let mut again = Bfs::new(10, 10);
        assert_eq!(again.plan(&game), Some(path));
    }
}

#[test]
fn tick_into_the_body_resets_respawns_and_plans() {
    for _ in 0..30 {
        let snake = vec![(3, 3), (3, 4), (2, 4), (2, 3), (2, 2)];
        let mut game = Game::from_parts(6, 6, snake, Direction::Left, (0, 0)).unwrap();
        let mut bfs = Bfs::new(6, 6);
        assert_eq!(game.update_snake(&mut bfs), TickEvent::Died);
        assert_eq!(game.snake(), vec![(0, 0)]);
        assert_eq!(game.direction(), Direction::Right);
        assert_ne!(game.fruit(), (0, 0));
        assert_eq!(bfs.path().last(), Some(&game.fruit()));
    }
}

#[test]
fn tick_that_fills_the_grid_leaves_the_fruit_under_the_head() {
    let snake = vec![(1, 0), (1, 1), (0, 1)];
    let mut game = Game::from_parts(2, 2, snake, Direction::Left, (0, 0)).unwrap();
    let mut bfs = Bfs::new(2, 2);
    assert_eq!(game.update_snake(&mut bfs), TickEvent::Grew);
    assert_eq!(game.len(), 4);
    assert_eq!(game.fruit(), (0, 0));
    assert_eq!(game.head(), (0, 0));
    assert!(bfs.path().is_empty());
    assert_eq!(bfs.update_direction(&mut game), None);
    assert_eq!(game.update_snake(&mut bfs), TickEvent::Died);
    assert_eq!(game.len(), 1);
    assert_ne!(game.fruit(), (0, 0));
}

#[test]
fn autopilot_plays_a_whole_game_without_a_false_step() {
    let mut game = Game::new(8, 8).unwrap();
    let mut bfs = Bfs::new(8, 8);
    bfs.update(&game);
    let mut grown = 0;
    for _ in 0..2000 {
        let before = game.len();
        match bfs.update_direction(&mut game) {
            Some(d) => {
                let next = game.grid().neighbor(game.head(), d);
                assert!(!game.occupies(next));
                let event = game.update_snake(&mut bfs);
                assert_ne!(event, TickEvent::Died);
                if event == TickEvent::Grew {
                    assert_eq!(game.len(), before + 1);
                    grown += 1;
                } else {
                    assert_eq!(game.len(), before);
                }
            }
            None => {
                game.update_snake(&mut bfs);
            }
        }
        assert!(game.len() == 64 || !game.occupies(game.fruit()));
    }
    assert!(grown > 0);
}

#[test]
fn free_cells_are_what_the_snake_leaves_of_the_grid() {
    let snake = vec![(0, 0), (1, 0), (2, 0), (2, 1)];
    let game = Game::from_parts(3, 4, snake, Direction::Right, (3, 2)).unwrap();
    assert_eq!(game.count_free(), 3 * 4 - 4);
    let game = Game::new(20, 20).unwrap();
    assert_eq!(game.count_free(), 399);
}

#[test]
fn snake_shorter_than_the_grid_always_gets_a_fruit() {
    let snake = vec![(0, 0), (1, 0), (1, 1)];
    let mut game = Game::from_parts(2, 2, snake, Direction::Right, (0, 0)).unwrap();
    for _ in 0..20 {
        assert_eq!(game.respawn_fruit(), Some((0, 1)));
        assert_eq!(game.fruit(), (0, 1));
    }
}
