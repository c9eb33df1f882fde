use snake_online::game::{Direction, GameState, Position, Snake};

#[test]
fn new_game_is_centred_with_food_off_the_snake() {
    let g = GameState::new(32, 32);
    assert_eq!(g.snake.body, vec![Position::new(16, 16), Position::new(15, 16), Position::new(14, 16)]);
    assert_eq!(g.snake.direction, Direction::Right);
    assert_eq!(g.food.position, Position::new(3, 5));
    assert_eq!((g.score, g.game_over, g.interval), (0, false, 1500));
}

#[test]
fn food_skips_cells_under_the_snake() {
    // on a 4x4 board the first candidate (3, 1) is free; on a 2x1 board every cell is taken
    let g = GameState::new(4, 4);
    assert_eq!(g.food.position, Position::new(3, 1));
    let mut h = GameState::new(7, 3);
    h.snake.body = vec![Position::new(3, 2), Position::new(4, 2)];
    h.spawn_food();
    assert_eq!(h.food.position, Position::new(5, 2));
}

#[test]
fn moving_turning_and_growing() {
    let mut s = Snake::new(5, 5);
    s.change_direction(Direction::Left);
    assert_eq!(s.next_direction, None);
    s.change_direction(Direction::Up);
    s.grow();
    s.move_forward();
    assert_eq!(s.head(), Position::new(5, 4));
    assert_eq!(s.body.len(), 4);
    assert!(!s.grow_next);
    s.move_forward();
    assert_eq!(s.body, vec![Position::new(5, 3), Position::new(5, 4), Position::new(5, 5), Position::new(4, 5)]);
    assert!(!s.check_self_collision());
    assert!(!s.is_colliding_with_walls(10, 10));
    assert!(s.is_colliding_with_walls(10, 3));
    assert_eq!(Position::new(1, 1).move_in_direction(Direction::Down), Position::new(1, 2));
}

#[test]
fn eating_scores_and_walls_end_the_game() {
    let mut g = GameState::new(10, 10);
    g.food.position = Position::new(6, 5);
    g.update();
    assert_eq!(g.score, 10);
    assert!(g.snake.grow_next);
    g.update();
    assert_eq!(g.snake.body.len(), 4);
    for _ in 0..2 {
        g.update();
    }
    assert!(!g.game_over);
    g.update();
    assert!(g.game_over);
    let frozen = g.snake.body.clone();
    g.update();
    g.handle_input(Direction::Up);
    assert_eq!(g.snake.body, frozen);
    g.reset();
    assert!(!g.game_over);
    assert_eq!(g.score, 0);
}

#[test]
fn biting_itself_ends_the_game() {
    let mut g = GameState::new(10, 10);
    g.snake.body = vec![
        Position::new(5, 5),
        Position::new(5, 6),
        Position::new(6, 6),
        Position::new(6, 5),
        Position::new(6, 4),
    ];
    g.snake.direction = Direction::Up;
    g.handle_input(Direction::Right);
    g.update();
    assert!(g.game_over);
}
