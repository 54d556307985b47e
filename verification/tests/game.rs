use snake_neat::snake_game::{
    Cell, CellKind, Direction, GameState, Grid, GridPoint, PlacementError, PlaybackEvents, Snake,
    SnakeGame,
};
use std::collections::VecDeque;

fn pt(x: i16, y: i16) -> GridPoint {
    GridPoint::new(x, y)
}

/// A running game on a bare grid with the snake and the apple where they are wanted.
fn game_with(snake: &[GridPoint], apple: GridPoint) -> SnakeGame {
    let mut game = SnakeGame::new(Some(apple)).unwrap();
    game.grid.restart();
    for part in snake {
        game.grid.get_cell_mut(*part).kind = CellKind::Snake;
    }
    game.grid.get_cell_mut(apple).kind = CellKind::Apple;
    game.snake.locations = snake.iter().copied().collect::<VecDeque<_>>();
    game.snake.head_location = snake[0];
    game.snake.to_grow = 0;
    game
}

#[test]
fn a_new_grid_is_walled_and_empty_inside() {
    let grid = Grid::new();
    assert_eq!((grid.width, grid.height), (40, 30));
    assert_eq!(grid.cells.len(), 1200);
    for x in 0..40 {
        for y in 0..30 {
            let border = x == 0 || y == 0 || x == 39 || y == 29;
            let kind = if border { CellKind::Wall } else { CellKind::Empty };
            assert_eq!(grid.get_cell(pt(x, y)).kind, kind);
            assert!(grid.is_in_bounds(pt(x, y)));
        }
    }
    assert!(!grid.is_in_bounds(pt(-1, 0)));
    assert!(!grid.is_in_bounds(pt(40, 0)));
    assert!(!grid.is_in_bounds(pt(0, 30)));
    assert!(!grid.is_in_bounds(pt(3, -1)));
    // A point off the grid stands for the first cell.
    assert_eq!(*grid.get_cell(pt(-5, 100)), Cell { kind: CellKind::Wall });
}

#[test]
fn cells_are_stored_row_by_row() {
    let mut grid = Grid::new();
    grid.get_cell_mut(pt(3, 2)).kind = CellKind::Apple;
    assert_eq!(grid.cells[2 * 40 + 3].kind, CellKind::Apple);
    assert_eq!(grid.get_cell(pt(3, 2)).kind, CellKind::Apple);
    assert_eq!(grid.get_cell(pt(2, 3)).kind, CellKind::Empty);
    grid.get_cell_mut(pt(40, 2)).kind = CellKind::Crash;
    assert_eq!(grid.cells[0].kind, CellKind::Crash);
    grid.restart();
    assert_eq!(grid.cells[0].kind, CellKind::Wall);
    assert_eq!(grid.get_cell(pt(3, 2)).kind, CellKind::Empty);
}

#[test]
fn random_points_keep_clear_of_the_rim() {
    let grid = Grid::new();
    let mut seen_x = [false; 40];
    let mut seen_y = [false; 30];
    for _ in 0..20000 {
        let p = grid.rand_point();
        assert!(1 <= p.x && p.x < 38);
        assert!(1 <= p.y && p.y < 28);
        seen_x[p.x as usize] = true;
        seen_y[p.y as usize] = true;
    }
    assert!((1..38).all(|x| seen_x[x]));
    assert!((1..28).all(|y| seen_y[y]));
}

#[test]
fn an_apple_goes_to_an_empty_cell() {
    let mut grid = Grid::new();
    for x in 0..40 {
        for y in 0..30 {
            grid.get_cell_mut(pt(x, y)).kind = CellKind::Wall;
        }
    }
    assert_eq!(grid.new_viable_apple_location(), None);
    grid.get_cell_mut(pt(17, 9)).kind = CellKind::Empty;
    assert_eq!(grid.new_viable_apple_location(), Some(pt(17, 9)));
}

#[test]
fn a_bare_grid_always_has_room_for_the_apple() {
    let grid = Grid::new();
    for _ in 0..200 {
        let found = grid.new_viable_apple_location().unwrap();
        assert!(1 <= found.x && found.x < 38);
        assert!(1 <= found.y && found.y < 28);
        assert_eq!(grid.get_cell(found).kind, CellKind::Empty);
    }
}

#[test]
fn directions_and_points() {
    assert_eq!(Direction::North.to_point(), pt(0, 1));
    assert_eq!(Direction::East.to_point(), pt(1, 0));
    assert_eq!(Direction::South.to_point(), pt(0, -1));
    assert_eq!(Direction::West.to_point(), pt(-1, 0));
    let all = [Direction::North, Direction::East, Direction::South, Direction::West];
    for (i, direction) in all.iter().enumerate() {
        assert_eq!(Direction::from_index(i), *direction);
        assert_eq!(direction.to_index(), i);
    }
    assert_eq!(pt(3, 4).add(pt(-1, 10)), pt(2, 14));
    assert_eq!(GridPoint::default(), pt(0, 0));
    assert!(pt(0, 0).is_zero());
    assert!(!pt(0, 1).is_zero());
    let mut seen = [false; 4];
    for _ in 0..1000 {
        let drawn = Direction::random();
        assert!(drawn != Direction::West);
        seen[drawn.to_index()] = true;
    }
    assert_eq!(seen, [true, true, true, false]);
}

#[test]
fn a_new_game_has_a_snake_of_two_and_an_apple() {
    for _ in 0..50 {
        let game = SnakeGame::new(None).unwrap();
        assert_eq!(game.state, GameState::Running);
        assert_eq!(game.snake.length(), 2);
        assert_eq!(game.snake.locations[0], game.snake.head_location);
        assert_eq!(game.apples_eaten, 0);
        assert_eq!(game.points_visited, 0);
        assert_eq!(game.visited_vector, vec![false; 1200]);
        assert_eq!(
            game.playback_events,
            vec![PlaybackEvents::NewGame, PlaybackEvents::NewAppleLocation(game.apple.location)]
        );
        let snakes = game.grid.cells.iter().filter(|c| c.kind == CellKind::Snake).count();
        let apples = game.grid.cells.iter().filter(|c| c.kind == CellKind::Apple).count();
        assert_eq!((snakes, apples), (2, 1));
        assert_eq!(game.grid.get_cell(game.apple.location).kind, CellKind::Apple);
        let head = game.snake.locations[0];
        let tail = game.snake.locations[1];
        assert_eq!((head.x - tail.x).abs() + (head.y - tail.y).abs(), 1);
    }
    let game = SnakeGame::new(Some(pt(5, 6))).unwrap();
    assert_eq!(game.apple.location, pt(5, 6));
}

#[test]
fn the_snake_moves_eats_grows_and_crashes() {
    let mut game = game_with(&[pt(5, 5), pt(4, 5)], pt(6, 5));
    assert_eq!(game.move_snake(Direction::North, None), Ok(()));
    assert_eq!(game.snake.locations, VecDeque::from(vec![pt(5, 6), pt(5, 5)]));
    assert_eq!(game.snake.head_location, pt(5, 6));
    assert_eq!(game.grid.get_cell(pt(4, 5)).kind, CellKind::Empty);
    assert_eq!(game.grid.get_cell(pt(5, 6)).kind, CellKind::Snake);
    assert_eq!(game.points_visited, 1);
    assert!(game.visited_vector[6 * 40 + 5]);
    assert_eq!(game.playback_events.last(), Some(&PlaybackEvents::MoveSnake(Direction::North)));

    // Back down and into the apple.
    assert_eq!(game.move_snake(Direction::East, None), Ok(()));
    assert_eq!(game.move_snake(Direction::South, Some(pt(20, 20))), Ok(()));
    assert_eq!(game.snake.head_location, pt(6, 5));
    assert_eq!(game.apples_eaten, 1);
    assert_eq!(game.apple.location, pt(20, 20));
    assert_eq!(game.grid.get_cell(pt(20, 20)).kind, CellKind::Apple);
    assert_eq!(game.grid.get_cell(pt(6, 5)).kind, CellKind::Snake);
    assert_eq!(game.snake.to_grow, 5);
    assert_eq!(game.snake.length(), 2);
    assert_eq!(
        &game.playback_events[game.playback_events.len() - 2..],
        &[
            PlaybackEvents::MoveSnake(Direction::South),
            PlaybackEvents::NewAppleLocation(pt(20, 20))
        ]
    );
    assert_eq!(game.points_visited, 3);

    // The snake grows by one with each of the next five moves.
    for step in 0..5 {
        assert_eq!(game.move_snake(Direction::East, None), Ok(()));
        assert_eq!(game.snake.length(), 3 + step);
        assert_eq!(game.snake.to_grow, 4 - step);
    }
    assert_eq!(game.move_snake(Direction::East, None), Ok(()));
    assert_eq!(game.snake.length(), 7);
    assert_eq!(game.snake.head_location, pt(12, 5));

    // Clearing the marks keeps the count, and a marked cell counts again.
    game.clear_visited();
    assert_eq!(game.points_visited, 9);
    assert!(game.visited_vector.iter().all(|&v| !v));

    // Into itself.
    assert_eq!(game.move_snake(Direction::West, None), Ok(()));
    assert_eq!(game.state, GameState::GameOver);
    assert_eq!(game.grid.get_cell(pt(11, 5)).kind, CellKind::Crash);
    assert_eq!(game.playback_events.last(), Some(&PlaybackEvents::GameOver));
    assert_eq!(game.snake.head_location, pt(11, 5));
    assert_eq!(game.points_visited, 10);

    // A game that is over stays as it is.
    let events = game.playback_events.len();
    assert_eq!(game.move_snake(Direction::North, None), Ok(()));
    assert_eq!(game.playback_events.len(), events);
    assert_eq!(game.snake.head_location, pt(11, 5));
}

#[test]
fn the_snake_crashes_into_the_wall() {
    let mut game = game_with(&[pt(1, 3), pt(2, 3)], pt(9, 9));
    assert_eq!(game.move_snake(Direction::West, None), Ok(()));
    assert_eq!(game.state, GameState::GameOver);
    assert_eq!(game.grid.get_cell(pt(0, 3)).kind, CellKind::Crash);
    assert_eq!(game.snake.head_location, pt(0, 3));
    assert_eq!(game.apples_eaten, 0);
}

#[test]
fn no_room_for_the_apple_ends_the_game() {
    let mut game = game_with(&[pt(38, 5), pt(38, 4)], pt(38, 6));
    for x in 1..39 {
        for y in 1..29 {
            if game.grid.get_cell(pt(x, y)).kind == CellKind::Empty {
                game.grid.get_cell_mut(pt(x, y)).kind = CellKind::Snake;
            }
        }
    }
    // The only cell that the move frees lies where no apple is ever drawn.
    assert_eq!(game.move_snake(Direction::North, None), Err(PlacementError::NoRoomForApple));
    assert_eq!(game.state, GameState::GameOver);
    assert_eq!(game.apples_eaten, 1);
    assert_eq!(game.snake.head_location, pt(38, 6));
    assert_eq!(game.grid.get_cell(pt(38, 4)).kind, CellKind::Empty);
    assert_eq!(game.playback_events.last(), Some(&PlaybackEvents::GameOver));
}

#[test]
fn no_room_for_the_snake() {
    let mut grid = Grid::new();
    for x in 1..39 {
        for y in 1..29 {
            grid.get_cell_mut(pt(x, y)).kind = CellKind::Apple;
        }
    }
    let mut snake = Snake { head_location: pt(0, 0), locations: VecDeque::new(), to_grow: 3 };
    assert_eq!(snake.restart(&mut grid), Err(PlacementError::NoRoomForSnake));
    assert_eq!(snake.length(), 0);
    assert_eq!(snake.to_grow, 0);
    assert!(matches!(Snake::new(&mut grid), Err(PlacementError::NoRoomForSnake)));
    grid.restart();
    assert_eq!(snake.restart(&mut grid), Ok(()));
    assert_eq!(snake.length(), 2);
}

#[test]
fn restart_begins_anew() {
    let mut game = game_with(&[pt(5, 5), pt(4, 5)], pt(6, 5));
    assert_eq!(game.move_snake(Direction::East, Some(pt(3, 3))), Ok(()));
    assert_eq!(game.move_snake(Direction::West, None), Ok(()));
    assert_eq!(game.state, GameState::GameOver);
    assert_eq!(game.restart(Some(pt(7, 7))), Ok(()));
    assert_eq!(game.state, GameState::Running);
    assert_eq!(game.apple.location, pt(7, 7));
    assert_eq!(game.apples_eaten, 0);
    assert_eq!(game.points_visited, 0);
    assert_eq!(game.snake.length(), 2);
    assert_eq!(game.snake.to_grow, 0);
    assert_eq!(
        game.playback_events,
        vec![PlaybackEvents::NewGame, PlaybackEvents::NewAppleLocation(pt(7, 7))]
    );
    assert_eq!(game.grid.cells.iter().filter(|c| c.kind == CellKind::Crash).count(), 0);
    assert_eq!(game.grid.get_cell(pt(7, 7)).kind, CellKind::Apple);
}

#[test]
fn distances_to_walls_and_body() {
    let game = game_with(&[pt(5, 5), pt(5, 6), pt(5, 7), pt(6, 7)], pt(20, 20));
    let (walls, body) = game.wall_and_body_distances();
    // North, east, south, west.
    assert_eq!(walls, [23, 33, 4, 4]);
    // The body lies right north of the head; elsewhere the way is clear to the rim and beyond.
    assert_eq!(body, [0, 34, 5, 5]);
}
