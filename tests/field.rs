use snake::{Cell, Direction, Field, Point};

fn count(f: &Field, wanted: Cell) -> usize {
    f.rows().iter().flat_map(|r| r.iter()).filter(|c| **c == wanted).count()
}

#[test]
fn lib_it_works() {
    let f = Field::with_size(3, 5);
    assert_eq!(f.size(), (3, 5));
}

#[test]
fn new_field_is_empty() {
    let f = Field::with_size(4, 2);
    assert_eq!(f.rows().len(), 2);
    assert!(f.rows().iter().all(|r| r.len() == 4));
    assert_eq!(f.count_empty(), 8);
}

#[test]
fn cell_lookup_wraps_around() {
    let mut f = Field::with_size(4, 3);
    f.set_cell(Point { x: -1, y: -1 }, Cell::Food);
    assert_eq!(f.cell(Point { x: 3, y: 2 }), Cell::Food);
    assert_eq!(f.get(7, 5), Cell::Food);
    assert_eq!(f.rows()[2][3], Cell::Food);
    assert_eq!(f.count_empty(), 11);
}

#[test]
fn init_snake_lays_a_centred_row() {
    let mut f = Field::with_size(20, 10);
    let (head, tail) = f.init_snake(5, 5);
    assert_eq!(head, Point { x: 12, y: 5 });
    assert_eq!(tail, Point { x: 8, y: 5 });
    for x in 0..20 {
        let expected = if (8..=12).contains(&x) { Cell::Snake(Direction::Right) } else { Cell::Empty };
        assert_eq!(f.get(x, 5), expected);
    }
    assert_eq!(count(&f, Cell::Snake(Direction::Right)), 5);
}

#[test]
fn init_snake_as_wide_as_the_board_wraps() {
    let mut f = Field::with_size(4, 1);
    let (head, tail) = f.init_snake(4, 0);
    assert_eq!(head, Point { x: 0, y: 0 });
    assert_eq!(tail, Point { x: 1, y: 0 });
    assert_eq!(f.count_empty(), 0);
}

#[test]
fn next_point_follows_the_chain() {
    let mut f = Field::with_size(6, 3);
    let (head, tail) = f.init_snake(3, 1);
    assert_eq!(f.next_point(tail), Some(Point { x: tail.x + 1, y: 1 }));
    assert_eq!(f.next_point(head), Some(Point { x: (head.x + 1) % 6, y: 1 }));
    assert_eq!(f.next_point(Point { x: 0, y: 0 }), None);
    f.set_cell(head, Cell::Snake(Direction::Up));
    assert_eq!(f.next_point(head), Some(Point { x: head.x, y: 0 }));
    f.set_cell(Point { x: 0, y: 0 }, Cell::Snake(Direction::Up));
    assert_eq!(f.next_point(Point { x: 0, y: 0 }), Some(Point { x: 0, y: 2 }));
}

#[test]
fn place_food_picks_the_ranked_empty_cell() {
    let mut f = Field::with_size(3, 2);
    f.set_cell(Point { x: 1, y: 0 }, Cell::Snake(Direction::Left));
    assert_eq!(f.place_food(2), Ok(()));
    assert_eq!(f.get(0, 1), Cell::Food);
    assert_eq!(f.place_food(4), Err(()));
    assert_eq!(f.count_empty(), 4);
    assert_eq!(f.place_food(0), Ok(()));
    assert_eq!(f.get(0, 0), Cell::Food);
}

#[test]
fn drop_food_fills_an_empty_cell() {
    let mut f = Field::with_size(3, 3);
    f.init_snake(3, 1);
    for _ in 0..6 {
        assert_eq!(f.drop_food(3), Ok(()));
    }
    assert_eq!(count(&f, Cell::Food), 6);
    assert_eq!(f.drop_food(3), Err(()));
}

#[test]
fn drop_food_refuses_a_snake_covering_the_board() {
    let mut f = Field::with_size(2, 2);
    assert_eq!(f.drop_food(4), Err(()));
    assert_eq!(f.count_empty(), 4);
    assert_eq!(f.drop_food(3), Ok(()));
    assert_eq!(count(&f, Cell::Food), 1);
}

#[test]
fn cell_symbols() {
    assert_eq!(Cell::Food.symbol(), '*');
    assert_eq!(Cell::Empty.symbol(), ' ');
    assert_eq!(Cell::Snake(Direction::Up).symbol(), '▲');
    assert_eq!(Cell::Snake(Direction::Right).symbol(), '▶');
    assert_eq!(Cell::Snake(Direction::Left).snake_direction(), Some(Direction::Left));
    assert_eq!(Cell::Food.snake_direction(), None);
}

#[test]
fn render_frames_the_board() {
    let mut f = Field::with_size(3, 2);
    f.set_cell(Point { x: 0, y: 0 }, Cell::Food);
    f.set_cell(Point { x: 2, y: 1 }, Cell::Snake(Direction::Down));
    let text: String = f.render().into_iter().collect();
    assert_eq!(text, "+---+\n|*  |\n|  ▼|\n+---+\n");
}
