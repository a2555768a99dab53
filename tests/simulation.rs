use snake_core::direction::Direction;
use snake_core::food::{check_eating, free_cells, place_food};
use snake_core::game::{Game, TickOutcome};
use snake_core::grid::{contains_cell, in_bounds, step, Position};
use snake_core::snake::{detect_collision, Snake};

fn p(x: i32, y: i32) -> Position {
    Position::new(x, y)
}

fn assert_initial(snake: &Snake) {
    assert_eq!(snake.head, p(4, 4));
    assert_eq!(snake.segments, vec![p(4, 5)]);
    assert_eq!(snake.direction, Direction::Down);
    assert_eq!(snake.last_tail_position, p(4, 6));
}

fn all_distinct(cells: &[Position]) -> bool {
    for i in 0..cells.len() {
        for j in (i + 1)..cells.len() {
            if cells[i] == cells[j] {
                return false;
            }
        }
    }
    true
}

#[test]
fn opposite_twice_is_identity() {
    for d in [Direction::Left, Direction::Up, Direction::Right, Direction::Down] {
        assert_eq!(d.opposite().opposite(), d);
        assert_ne!(d.opposite(), d);
    }
    assert_eq!(Direction::Left.opposite(), Direction::Right);
    assert_eq!(Direction::Up.opposite(), Direction::Down);
}

#[test]
fn default_direction_is_left() {
    assert_eq!(Direction::default(), Direction::Left);
}

#[test]
fn reversal_request_is_ignored() {
    let mut snake = Snake::new();
    assert_eq!(snake.direction, Direction::Down);
    snake.set_heading(Direction::Up);
    assert_eq!(snake.direction, Direction::Down);
}

#[test]
fn turn_request_is_taken() {
    let mut snake = Snake::new();
    snake.set_heading(Direction::Left);
    assert_eq!(snake.direction, Direction::Left);
    snake.set_heading(Direction::Right);
    assert_eq!(snake.direction, Direction::Left);
    snake.set_heading(Direction::Up);
    assert_eq!(snake.direction, Direction::Up);
}

#[test]
fn bounds_edges() {
    assert!(in_bounds(p(0, 0)));
    assert!(in_bounds(p(9, 9)));
    assert!(!in_bounds(p(-1, 0)));
    assert!(!in_bounds(p(0, -1)));
    assert!(!in_bounds(p(10, 3)));
    assert!(!in_bounds(p(3, 10)));
}

#[test]
fn steps_follow_board_axes() {
    assert_eq!(step(p(4, 4), Direction::Left), p(3, 4));
    assert_eq!(step(p(4, 4), Direction::Right), p(5, 4));
    assert_eq!(step(p(4, 4), Direction::Up), p(4, 5));
    assert_eq!(step(p(4, 4), Direction::Down), p(4, 3));
}

#[test]
fn collision_checks_walls_and_body() {
    let body = vec![p(1, 1), p(1, 2)];
    assert!(detect_collision(p(-1, 0), &body));
    assert!(detect_collision(p(1, 2), &body));
    assert!(!detect_collision(p(2, 2), &body));
    assert!(contains_cell(&body, p(1, 1)));
    assert!(!contains_cell(&body, p(2, 1)));
}

#[test]
fn advance_shifts_segments_and_records_tail() {
    let mut snake = Snake {
        head: p(3, 3),
        segments: vec![p(3, 4), p(3, 5), p(4, 5)],
        direction: Direction::Down,
        last_tail_position: p(5, 5),
    };
    let collision = snake.advance();
    assert!(!collision);
    assert_eq!(snake.head, p(3, 2));
    assert_eq!(snake.segments, vec![p(3, 3), p(3, 4), p(3, 5)]);
    assert_eq!(snake.last_tail_position, p(4, 5));
    snake.grow();
    assert_eq!(snake.segments, vec![p(3, 3), p(3, 4), p(3, 5), p(4, 5)]);
}

#[test]
fn wall_collision_resets_to_spawn() {
    let mut game = Game {
        snake: Snake {
            head: p(0, 0),
            segments: vec![p(1, 0)],
            direction: Direction::Left,
            last_tail_position: p(2, 0),
        },
        food: vec![p(7, 7)],
    };
    assert_eq!(game.tick(None), TickOutcome::Reset);
    assert_initial(&game.snake);
    assert!(game.food.is_empty());
}

#[test]
fn wall_collision_after_driving_from_spawn() {
    let mut game = Game::new();
    for _ in 0..4 {
        assert_eq!(game.tick(None), TickOutcome::Moved);
    }
    assert_eq!(game.snake.head, p(4, 0));
    for _ in 0..4 {
        assert_eq!(game.tick(Some(Direction::Left)), TickOutcome::Moved);
    }
    assert_eq!(game.snake.head, p(0, 0));
    assert_eq!(game.tick(Some(Direction::Left)), TickOutcome::Reset);
    assert_initial(&game.snake);
}

#[test]
fn self_collision_resets_to_spawn() {
    let mut game = Game {
        snake: Snake {
            head: p(2, 2),
            segments: vec![p(1, 2), p(1, 3), p(2, 3), p(3, 3)],
            direction: Direction::Up,
            last_tail_position: p(4, 3),
        },
        food: Vec::new(),
    };
    assert_eq!(game.tick(None), TickOutcome::Reset);
    assert_initial(&game.snake);
}

#[test]
fn moving_onto_the_tail_cell_collides() {
    let mut game = Game {
        snake: Snake {
            head: p(2, 2),
            segments: vec![p(2, 3), p(3, 3), p(3, 2)],
            direction: Direction::Right,
            last_tail_position: p(4, 2),
        },
        food: Vec::new(),
    };
    assert_eq!(game.tick(None), TickOutcome::Reset);
    let mut game = Game {
        snake: Snake {
            head: p(2, 2),
            segments: vec![p(2, 3), p(3, 3)],
            direction: Direction::Right,
            last_tail_position: p(4, 3),
        },
        food: Vec::new(),
    };
    assert_eq!(game.tick(None), TickOutcome::Moved);
    assert_eq!(game.snake.head, p(3, 2));
}

#[test]
fn eating_grows_at_old_tail() {
    let mut game = Game::new();
    assert!(game.spawn_food_at(p(5, 4)));
    let before = game.snake.segments.len();
    assert_eq!(game.tick(Some(Direction::Right)), TickOutcome::Grew);
    assert_eq!(game.snake.head, p(5, 4));
    assert!(game.food.is_empty());
    assert_eq!(game.snake.segments.len(), before + 1);
    assert_eq!(game.snake.segments, vec![p(4, 4), p(4, 5)]);
    assert_eq!(game.snake.last_tail_position, p(4, 5));
}

#[test]
fn growth_counts_along_a_run() {
    let mut game = Game::new();
    assert!(game.spawn_food_at(p(4, 3)));
    assert!(game.spawn_food_at(p(4, 1)));
    let moves = [None, None, None, Some(Direction::Right), None];
    let mut lengths = vec![game.snake.segments.len()];
    let mut grown = 0;
    for m in moves {
        let r = game.tick(m);
        assert_ne!(r, TickOutcome::Reset);
        if r == TickOutcome::Grew {
            grown += 1;
        }
        lengths.push(game.snake.segments.len());
        let mut cells = vec![game.snake.head];
        cells.extend(game.snake.segments.iter().copied());
        assert!(all_distinct(&cells));
    }
    assert_eq!(grown, 2);
    assert_eq!(lengths, vec![1, 2, 2, 3, 3, 3]);
    assert_eq!(game.snake.head, p(6, 1));
    assert_eq!(game.snake.segments, vec![p(5, 1), p(4, 1), p(4, 2)]);
}

#[test]
fn eating_removes_every_matching_food() {
    let mut food = vec![p(1, 1), p(2, 2), p(1, 1), p(3, 3)];
    assert_eq!(check_eating(p(1, 1), &mut food), 2);
    assert_eq!(food, vec![p(2, 2), p(3, 3)]);
    assert_eq!(check_eating(p(9, 9), &mut food), 0);
    assert_eq!(food, vec![p(2, 2), p(3, 3)]);
}

#[test]
fn spawn_food_at_rejects_occupied_and_off_board() {
    let mut game = Game::new();
    assert!(!game.spawn_food_at(p(4, 4)));
    assert!(!game.spawn_food_at(p(4, 5)));
    assert!(!game.spawn_food_at(p(10, 0)));
    assert!(game.spawn_food_at(p(0, 0)));
    assert!(!game.spawn_food_at(p(0, 0)));
    assert_eq!(game.food, vec![p(0, 0)]);
    assert_eq!(game.occupied_cells(), vec![p(4, 4), p(4, 5), p(0, 0)]);
}

#[test]
fn free_cells_in_row_major_order() {
    let cells = free_cells(&Vec::new());
    assert_eq!(cells.len(), 100);
    assert_eq!(cells[0], p(0, 0));
    assert_eq!(cells[1], p(0, 1));
    assert_eq!(cells[10], p(1, 0));
    assert_eq!(cells[99], p(9, 9));
    let cells = free_cells(&vec![p(0, 0), p(0, 1), p(42, 42)]);
    assert_eq!(cells.len(), 98);
    assert_eq!(cells[0], p(0, 2));
}

#[test]
fn placement_finds_the_last_free_cell() {
    let mut occupied = Vec::new();
    for x in 0..10 {
        for y in 0..10 {
            if (x, y) != (6, 3) {
                occupied.push(p(x, y));
            }
        }
    }
    assert_eq!(place_food(&occupied), Some(p(6, 3)));
    occupied.push(p(6, 3));
    assert_eq!(place_food(&occupied), None);
}

#[test]
fn food_spawns_until_board_is_full() {
    let mut game = Game::new();
    for _ in 0..98 {
        let c = game.spawn_food().expect("a free cell remains");
        assert!(in_bounds(c));
        assert_ne!(c, game.snake.head);
        assert!(!game.snake.segments.contains(&c));
    }
    assert!(all_distinct(&game.occupied_cells()));
    assert_eq!(game.occupied_cells().len(), 100);
    assert_eq!(game.spawn_food(), None);
    assert_eq!(game.food.len(), 98);
}

#[test]
fn reset_twice_equals_reset_once() {
    let mut snake = Snake {
        head: p(7, 7),
        segments: vec![p(7, 8), p(8, 8)],
        direction: Direction::Right,
        last_tail_position: p(9, 8),
    };
    snake.reset();
    let once = (snake.head, snake.segments.clone(), snake.direction, snake.last_tail_position);
    snake.reset();
    let twice = (snake.head, snake.segments.clone(), snake.direction, snake.last_tail_position);
    assert_eq!(once, twice);
    assert_initial(&snake);
}
