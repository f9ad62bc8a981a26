use rust_snake::bfs::Bfs;
use rust_snake::direction::Direction;
use rust_snake::game::Game;
use rust_snake::game::TickEvent;
use rust_snake::topology::Topology;

fn world(rows: usize, cols: usize, snake: Vec<(usize, usize)>, fruit: (usize, usize)) -> Game {
    Game::from_parts(rows, cols, snake, Direction::Right, fruit).expect("a valid world")
}

fn toroidal_distance(a: (usize, usize), b: (usize, usize), cols: usize, rows: usize) -> usize {
    let dx = if a.0 > b.0 { a.0 - b.0 } else { b.0 - a.0 };
    let dy = if a.1 > b.1 { a.1 - b.1 } else { b.1 - a.1 };
    dx.min(cols - dx) + dy.min(rows - dy)
}

fn assert_is_route(game: &Game, path: &[(usize, usize)]) {
    let grid = game.grid();
    let mut at = game.head();
    for &cell in path {
        assert!(cell.0 < grid.cols && cell.1 < grid.rows);
        assert!(!game.occupies(cell));
        let near = [Direction::Up, Direction::Down, Direction::Right, Direction::Left]
            .iter()
            .any(|&d| grid.neighbor(at, d) == cell);
        assert!(near, "{:?} is not next to {:?}", cell, at);
        at = cell;
    }
    assert_eq!(at, game.fruit());
}

#[test]
fn straight_line_of_ten_on_twenty_by_twenty() {
    let game = world(20, 20, vec![(10, 10)], (10, 0));
    let mut bfs = Bfs::new(20, 20);
    let path = bfs.plan(&game).expect("the fruit can be reached");
    assert_eq!(path.len(), 10);
    let straight_up: Vec<(usize, usize)> = (0..10).rev().map(|y| (10, y)).collect();
    assert_eq!(path, straight_up);
    assert_is_route(&game, &path);
}

#[test]
fn fruit_nine_rows_below_is_nine_steps() {
    let game = world(20, 20, vec![(10, 10)], (10, 19));
    let mut bfs = Bfs::new(20, 20);
    let path = bfs.plan(&game).expect("the fruit can be reached");
    assert_eq!(path.len(), 9);
    let straight_down: Vec<(usize, usize)> = (11..20).map(|y| (10, y)).collect();
    assert_eq!(path, straight_down);
}

#[test]
fn fruit_across_the_edge_is_one_step() {
    let game = world(20, 20, vec![(10, 0)], (10, 19));
    let mut bfs = Bfs::new(20, 20);
    let path = bfs.plan(&game).expect("the fruit can be reached");
    assert_eq!(path, vec![(10, 19)]);
}

#[test]
fn wrap_is_taken_where_it_is_shorter() {
    let game = world(20, 20, vec![(1, 5)], (18, 5));
    let mut bfs = Bfs::new(20, 20);
    let path = bfs.plan(&game).expect("the fruit can be reached");
    assert_eq!(path, vec![(0, 5), (19, 5), (18, 5)]);
}

#[test]
fn head_with_no_exit_has_no_path() {
    let snake = vec![(2, 2), (1, 2), (0, 2), (4, 2), (3, 2), (2, 1), (2, 3)];
    let game = world(5, 5, snake, (0, 0));
    let mut bfs = Bfs::new(5, 5);
    assert_eq!(bfs.plan(&game), None);
    assert!(!bfs.update(&game));
    assert!(bfs.path().is_empty());
}

#[test]
fn fruit_between_two_full_rows_has_no_path() {
    let mut snake = vec![(2, 0)];
    for x in 0..5 {
        snake.push((x, 1));
    }
    for x in 0..5 {
        snake.push((x, 4));
    }
    let game = world(5, 5, snake, (2, 2));
    let mut bfs = Bfs::new(5, 5);
    assert_eq!(bfs.plan(&game), None);
}

#[test]
fn fruit_ringed_by_the_snake_has_no_path() {
    let snake = vec![(1, 2), (2, 2), (3, 2), (3, 3), (3, 4), (2, 4), (1, 4), (1, 3)];
    let game = world(5, 5, snake, (2, 3));
    let mut bfs = Bfs::new(5, 5);
    assert_eq!(bfs.plan(&game), None);
}

#[test]
fn fruit_under_the_snake_has_no_path() {
    let game = world(5, 5, vec![(1, 1), (1, 2)], (1, 2));
    let mut bfs = Bfs::new(5, 5);
    assert_eq!(bfs.plan(&game), None);
    let on_head = world(5, 5, vec![(1, 1), (1, 2)], (1, 1));
    assert_eq!(bfs.plan(&on_head), None);
}

#[test]
fn path_goes_round_the_body() {
    let snake = vec![(2, 2), (2, 1), (1, 1), (3, 1)];
    let game = world(6, 6, snake, (2, 0));
    let mut bfs = Bfs::new(6, 6);
    let path = bfs.plan(&game).expect("the fruit can be reached");
    assert_is_route(&game, &path);
    assert_eq!(path.len(), 4);
    assert_eq!(path, vec![(2, 3), (2, 4), (2, 5), (2, 0)]);
}

#[test]
fn length_is_the_toroidal_distance_without_obstacles() {
    let (rows, cols) = (5, 7);
    let mut bfs = Bfs::new(rows, cols);
    for hx in 0..cols {
        for hy in 0..rows {
            for fx in 0..cols {
                for fy in 0..rows {
                    if (hx, hy) == (fx, fy) {
                        continue;
                    }
                    let game = world(rows, cols, vec![(hx, hy)], (fx, fy));
                    let path = bfs.plan(&game).expect("nothing is in the way");
                    assert_eq!(path.len(), toroidal_distance((hx, hy), (fx, fy), cols, rows));
                    assert_is_route(&game, &path);
                }
            }
        }
    }
}

#[test]
fn planning_twice_gives_the_same_cells() {
    let snake = vec![(3, 3), (3, 4), (4, 4), (4, 3), (4, 2)];
    let game = world(8, 8, snake, (6, 1));
    let mut bfs = Bfs::new(8, 8);
    let first = bfs.plan(&game);
    let second = bfs.plan(&game);
    assert!(first.is_some());
    assert_eq!(first, second);
    let mut other = Bfs::new(8, 8);
    assert_eq!(other.plan(&game), first);
}

#[test]
fn equal_routes_are_settled_by_expansion_order() {
    let game = world(9, 9, vec![(4, 4)], (5, 5));
    let mut bfs = Bfs::new(9, 9);
    assert_eq!(bfs.plan(&game), Some(vec![(4, 5), (5, 5)]));
    let game = world(9, 9, vec![(4, 4)], (3, 3));
    assert_eq!(bfs.plan(&game), Some(vec![(4, 3), (3, 3)]));
    let game = world(9, 9, vec![(4, 4)], (4, 8));
    assert_eq!(bfs.plan(&game).map(|p| p.len()), Some(4));
    assert_eq!(bfs.path(), vec![(4, 5), (4, 6), (4, 7), (4, 8)]);
}

#[test]
fn planner_takes_the_shape_of_the_world() {
    let game = world(4, 6, vec![(5, 3)], (0, 0));
    let mut bfs = Bfs::new(2, 2);
    let path = bfs.plan(&game).expect("the fruit can be reached");
    assert_eq!(path.len(), 2);
    assert_is_route(&game, &path);
}

#[test]
fn new_planner_holds_no_path() {
    let bfs = Bfs::new(20, 20);
    assert!(bfs.path().is_empty());
    let empty = Bfs::new(0, 0);
    assert!(empty.path().is_empty());
}

#[test]
fn autopilot_follows_the_plan_to_the_fruit() {
    let mut game = world(20, 20, vec![(10, 10)], (12, 8));
    let mut bfs = Bfs::new(20, 20);
    let route = bfs.plan(&game).expect("the fruit can be reached");
    assert_eq!(route.len(), 4);
    let mut entered = Vec::new();
    for _ in 0..3 {
        let d = bfs.update_direction(&mut game).expect("a route is held");
        assert_eq!(game.direction(), d);
        assert_eq!(game.advance(d), TickEvent::Moved);
        entered.push(game.head());
    }
    let d = bfs.update_direction(&mut game).expect("a route is held");
    assert_eq!(game.advance(d), TickEvent::Grew);
    entered.push(game.head());
    assert_eq!(entered, route);
    assert!(bfs.path().is_empty());
}

#[test]
fn autopilot_plans_when_it_holds_nothing() {
    let mut game = world(20, 20, vec![(0, 0)], (19, 0));
    let mut bfs = Bfs::new(20, 20);
    assert_eq!(bfs.update_direction(&mut game), Some(Direction::Left));
    assert_eq!(game.direction(), Direction::Left);
    assert!(bfs.path().is_empty());
}

#[test]
fn autopilot_holds_its_heading_without_a_route() {
    let snake = vec![(2, 2), (1, 2), (0, 2), (4, 2), (3, 2), (2, 1), (2, 3)];
    let mut game = Game::from_parts(5, 5, snake.clone(), Direction::Down, (0, 0)).unwrap();
    let mut bfs = Bfs::new(5, 5);
    assert_eq!(bfs.update_direction(&mut game), None);
    assert_eq!(game.direction(), Direction::Down);
    assert_eq!(game.snake(), snake);
    assert!(bfs.path().is_empty());
    assert_eq!(bfs.update_direction(&mut game), None);
}

#[test]
fn autopilot_plans_anew_after_drift() {
    let mut game = world(20, 20, vec![(10, 10)], (10, 5));
    let mut bfs = Bfs::new(20, 20);
    bfs.update(&game);
    assert_eq!(bfs.path().len(), 5);
    assert_eq!(game.advance(Direction::Right), TickEvent::Moved);
    assert_eq!(game.advance(Direction::Right), TickEvent::Moved);
    assert_eq!(game.head(), (12, 10));
    let d = bfs.update_direction(&mut game).expect("the fruit can be reached");
    let grid: Topology = game.grid();
    let next = grid.neighbor(game.head(), d);
    assert!(!game.occupies(next));
    assert_eq!(d, Direction::Up);
    assert_eq!(bfs.path().len(), 6);
}

#[test]
fn autopilot_follows_a_held_step_onto_the_snake() {
    let planned_on = world(5, 5, vec![(2, 2)], (2, 0));
    let mut bfs = Bfs::new(5, 5);
    assert_eq!(bfs.plan(&planned_on), Some(vec![(2, 1), (2, 0)]));
    let snake = vec![(2, 2), (2, 1)];
    let mut game = Game::from_parts(5, 5, snake.clone(), Direction::Down, (2, 0)).unwrap();
    assert_eq!(bfs.update_direction(&mut game), Some(Direction::Up));
    assert_eq!(bfs.path(), vec![(2, 0)]);
    assert_eq!(game.direction(), Direction::Up);
    assert_eq!(game.snake(), snake);
    assert_eq!(game.fruit(), (2, 0));
    assert_eq!(game.advance(Direction::Up), TickEvent::Died);
}

#[test]
fn autopilot_follows_a_held_path_without_planning() {
    let planned_on = world(6, 6, vec![(1, 1)], (3, 1));
    let mut bfs = Bfs::new(6, 6);
    assert_eq!(bfs.plan(&planned_on), Some(vec![(2, 1), (3, 1)]));
    let mut game = world(6, 6, vec![(1, 1)], (1, 4));
    assert_eq!(bfs.update_direction(&mut game), Some(Direction::Right));
    assert_eq!(bfs.path(), vec![(3, 1)]);
    assert_eq!(game.fruit(), (1, 4));
}

#[test]
fn autopilot_plans_anew_when_the_held_cell_is_off_the_grid() {
    let planned_on = world(10, 10, vec![(8, 9)], (9, 9));
    let mut bfs = Bfs::new(10, 10);
    assert_eq!(bfs.plan(&planned_on), Some(vec![(9, 9)]));
    let mut game = world(3, 3, vec![(1, 1)], (1, 0));
    assert_eq!(bfs.update_direction(&mut game), Some(Direction::Up));
    assert!(bfs.path().is_empty());
}
