use snake::{modulus, Direction, Point};

#[test]
fn point_test_wrap() {
    let p = Point { x: 4, y: 6 };
    let rect = (2usize, 4usize);
    assert_eq!(p.wrap(&rect), Point { x: 0, y: 2 });
    assert_eq!(Direction::Right.advance(p.clone()).wrap(&rect), Point { x: 1, y: 2 });
}

#[test]
fn test_wrap_negative() {
    assert_eq!(Point::from((-1, -2)).wrap(&(4, 3)), Point::from((3, 1)));
}

#[test]
fn modulus_of_negative_and_large_values() {
    assert_eq!(modulus(-1, 4), 3);
    assert_eq!(modulus(4, 3), 1);
    assert_eq!(modulus(0, 1), 0);
    assert_eq!(modulus(-8, 4), 0);
    assert_eq!(modulus(isize::MIN, 3), 1);
    assert_eq!(modulus(isize::MAX, isize::MAX as usize), 0);
}

#[test]
fn modulus_stays_in_range_and_congruent() {
    for v in -50isize..50 {
        for b in 1usize..9 {
            let r = modulus(v, b);
            assert!(0 <= r && (r as usize) < b);
            assert_eq!((r - v) % (b as isize), 0);
        }
    }
}

#[test]
fn advance_moves_one_square() {
    let p = Point { x: 0, y: 0 };
    assert_eq!(Direction::Up.advance(p), Point { x: 0, y: -1 });
    assert_eq!(Direction::Down.advance(p), Point { x: 0, y: 1 });
    assert_eq!(Direction::Left.advance(p), Point { x: -1, y: 0 });
    assert_eq!(Direction::Right.advance(p), Point { x: 1, y: 0 });
    assert_eq!(Direction::Left.advance(p).wrap(&(5usize, 5usize)), Point { x: 4, y: 0 });
}

#[test]
fn opposite_is_an_involution() {
    for d in [Direction::Up, Direction::Down, Direction::Left, Direction::Right] {
        assert_ne!(d.opposite(), d);
        assert_eq!(d.opposite().opposite(), d);
    }
    assert_eq!(Direction::Up.opposite(), Direction::Down);
    assert_eq!(Direction::Left.opposite(), Direction::Right);
}
