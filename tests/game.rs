use snake::{Cell, Direction, Game, GameState, Point};

fn food_of(game: &Game) -> Option<Point> {
    for (y, row) in game.field().rows().iter().enumerate() {
        for (x, cell) in row.iter().enumerate() {
            if *cell == Cell::Food {
                return Some(Point { x: x as isize, y: y as isize });
            }
        }
    }
    None
}

fn check_chain(game: &Game) {
    let body = game.walk_body();
    assert_eq!(body.len(), game.snake_len());
    assert_eq!(body[0], game.tail());
    assert_eq!(*body.last().unwrap(), game.head());
    for p in &body {
        assert!(game.field().cell(*p).snake_direction().is_some());
    }
}

/// Steps once, checking what a step onto food must do.
fn step_checked(game: &mut Game) {
    let (len, score, tail) = (game.snake_len(), game.score(), game.tail());
    let next = game.field().next_point(game.head()).unwrap();
    let eats = game.field().cell(next) == Cell::Food;
    assert_eq!(game.step(), GameState::GameOn);
    if eats {
        assert_eq!(game.snake_len(), len + 1);
        assert_eq!(game.score(), score + 1);
        assert_eq!(game.tail(), tail);
    } else {
        assert_eq!(game.snake_len(), len);
    }
    assert_eq!(game.head(), next);
    check_chain(game);
}

/// Steers a fresh game's snake onto its food: down to the food's row, then
/// left to its column.
fn eat_the_food(game: &mut Game) {
    let food = food_of(game).unwrap();
    game.turn(Direction::Down).unwrap();
    step_checked(game);
    while game.head().y != food.y {
        step_checked(game);
    }
    game.turn(Direction::Left).unwrap();
    while game.head().x != food.x {
        step_checked(game);
    }
    assert_eq!(game.snake_len(), 6);
    assert_eq!(game.score(), 1);
}

#[test]
fn lib_change_direction() {
    let mut game = Game::new();
    game.turn(Direction::Down).unwrap();
    game.step();
    assert_eq!(game.field().cell(game.head()).snake_direction().unwrap(), Direction::Down);
    assert_eq!(game.no_turn_back(), Direction::Up);
    assert_eq!(game.turn(Direction::Up), Err(()));
}

#[test]
fn drop_food_test() {
    let mut game = Game::new();
    game.drop_food().unwrap();
}

#[test]
fn lib_print_game() {
    let game = Game::new();
    println!("{}", game.render().into_iter().collect::<String>());
}

#[test]
fn new_game_layout() {
    let game = Game::new();
    assert_eq!(game.field().size(), (20, 10));
    assert_eq!(game.state(), GameState::GameOn);
    assert_eq!(game.score(), 0);
    assert_eq!(game.snake_len(), 5);
    assert_eq!(game.head(), Point { x: 12, y: 5 });
    assert_eq!(game.tail(), Point { x: 8, y: 5 });
    assert_eq!(game.no_turn_back(), Direction::Left);
    assert!(food_of(&game).is_some());
    assert_eq!(game.field().count_empty(), 194);
    let body = game.walk_body();
    assert_eq!(body, (8..=12).map(|x| Point { x, y: 5 }).collect::<Vec<_>>());
}

#[test]
fn turn_then_step_scenario() {
    let mut game = Game::new();
    assert_eq!(game.turn(Direction::Down), Ok(()));
    assert_eq!(game.step(), GameState::GameOn);
    assert_eq!(game.field().cell(game.head()), Cell::Snake(Direction::Down));
    assert_eq!(game.no_turn_back(), Direction::Up);
    assert_eq!(game.turn(Direction::Up), Err(()));
    assert_eq!(game.turn(Direction::Left), Ok(()));
}

#[test]
fn reversal_is_refused_after_each_move() {
    let mut game = Game::new();
    assert_eq!(game.turn(Direction::Left), Err(()));
    for d in [Direction::Down, Direction::Right, Direction::Up, Direction::Right] {
        game.turn(d).unwrap();
        assert_eq!(game.step(), GameState::GameOn);
        assert_eq!(game.turn(d.opposite()), Err(()));
    }
}

#[test]
fn chain_length_is_kept_by_steps() {
    let mut game = Game::new();
    for i in 0..40 {
        if i % 7 == 3 {
            game.turn(Direction::Up).unwrap();
        } else if i % 7 == 6 {
            game.turn(Direction::Right).unwrap();
        }
        step_checked(&mut game);
        check_chain(&game);
    }
}

#[test]
fn eating_grows_the_snake() {
    let mut game = Game::new();
    eat_the_food(&mut game);
    assert!(food_of(&game).is_some());
    check_chain(&game);
}

#[test]
fn running_into_the_body_ends_the_game() {
    let mut game = Game::new();
    game.turn(Direction::Down).unwrap();
    game.step();
    game.turn(Direction::Left).unwrap();
    game.step();
    game.turn(Direction::Up).unwrap();
    let (head, tail, len) = (game.head(), game.tail(), game.snake_len());
    let rows = game.field().rows().clone();
    assert_eq!(game.step(), GameState::GameOver);
    assert_eq!(game.head(), head);
    assert_eq!(game.tail(), tail);
    assert_eq!(game.snake_len(), len);
    assert_eq!(*game.field().rows(), rows);
    assert_eq!(game.step(), GameState::GameOver);
    assert_eq!(game.head(), head);
    assert_eq!(*game.field().rows(), rows);
    assert_eq!(game.turn(Direction::Right), Err(()));
}

#[test]
fn stepping_onto_the_tail_is_a_normal_move() {
    let mut game = Game::new();
    eat_the_food(&mut game);
    // Leave the row of the new food, so that going left eats nothing more.
    if food_of(&game).unwrap().y == game.head().y {
        let d = if game.no_turn_back() == Direction::Up { Direction::Down } else { Direction::Up };
        game.turn(d).unwrap();
        step_checked(&mut game);
    }
    game.turn(Direction::Left).unwrap();
    // Move on left until the squares above and to the right are free of food.
    let mut straight = 0;
    loop {
        let h = game.head();
        let food = food_of(&game).unwrap();
        let clear = (0..3).all(|dx| {
            (0..2).all(|dy| {
                let p = Point { x: h.x + dx, y: h.y - dy }.wrap(&game.field().size());
                p != food
            })
        });
        if straight >= 6 && clear {
            break;
        }
        step_checked(&mut game);
        straight += 1;
    }
    assert_eq!(game.snake_len(), 6);
    let mut followed = 0;
    for d in [Direction::Up, Direction::Right, Direction::Right, Direction::Down, Direction::Left, Direction::Left] {
        game.turn(d).unwrap();
        let next = game.field().next_point(game.head()).unwrap();
        let onto_tail = next == game.tail();
        let len = game.snake_len();
        assert_eq!(game.step(), GameState::GameOn);
        if onto_tail {
            followed += 1;
            assert_eq!(game.head(), next);
            assert_eq!(game.snake_len(), len);
            assert_eq!(game.field().cell(next), Cell::Snake(d));
        }
        check_chain(&game);
    }
    assert_eq!(followed, 3);
}

#[test]
fn pause_and_quit() {
    let mut game = Game::new();
    game.pause();
    assert!(game.is_paused());
    assert_eq!(game.state(), GameState::GamePaused);
    let head = game.head();
    assert_eq!(game.step(), GameState::GamePaused);
    assert_eq!(game.head(), head);
    game.unpause();
    assert_eq!(game.state(), GameState::GameOn);
    game.unpause();
    assert_eq!(game.state(), GameState::GameOn);
    game.quit();
    assert_eq!(game.state(), GameState::GameOver);
    game.pause();
    game.unpause();
    assert_eq!(game.state(), GameState::GameOver);
    assert_eq!(game.turn(Direction::Down), Err(()));
}

#[test]
fn render_shows_score_and_board() {
    let mut game = Game::new();
    let text: String = game.render().into_iter().collect();
    assert!(text.starts_with(" score: 0\n+--------------------+\n|"));
    assert!(text.ends_with("|\n+--------------------+\n\n"));
    let row: Vec<char> = text.lines().nth(7).unwrap().chars().collect();
    assert_eq!(row.len(), 22);
    for x in 8..=12 {
        assert_eq!(row[1 + x], '▶');
    }
    assert_eq!(text.matches('*').count(), 1);
    eat_the_food(&mut game);
    let text: String = game.render().into_iter().collect();
    assert!(text.starts_with(" score: 1\n"));
}
