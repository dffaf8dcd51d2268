use fenreader::board::square::Square;
use std::collections::HashSet;

#[test]
fn square_tostring() {
    assert_eq!(Square::from_coord(0, 0).unwrap().to_algebraic(), "a1");
    assert_eq!(Square::from_coord(1, 4).unwrap().to_algebraic(), "e2");
    assert_eq!(Square::from_coord(7, 7).unwrap().to_algebraic(), "h8");
}

#[test]
fn colors_of_squares() {
    assert!(Square::from_coord(0, 0).unwrap().color().is_black());
    assert!(Square::from_coord(1, 1).unwrap().color().is_black());
    assert!(Square::from_coord(0, 2).unwrap().color().is_black());
    assert!(Square::from_coord(0, 7).unwrap().color().is_white());
}

#[test]
fn to_index_is_injective() {
    let mut dest = HashSet::new();
    for i in 0..8 {
        for j in 0..8 {
            let square = Square::from_coord(i, j).unwrap();
            let index = square.to_index();
            assert!(!dest.contains(&index));
            dest.insert(index);
        }
    }
}

#[test]
fn to_index_bounds() {
    for i in 0..8 {
        for j in 0..8 {
            let square = Square::from_coord(i, j).unwrap();
            let index = square.to_index();
            assert!(index < 64);
        }
    }
}

#[test]
fn algebraic_incorrect_input() {
    assert!(Square::from_algebraic("a9").is_err());
    assert!(Square::from_algebraic("A7").is_err());
    assert!(Square::from_algebraic("3a").is_err());
    assert!(Square::from_algebraic("i3").is_err());
    assert!(Square::from_algebraic("k4").is_err());
    assert!(Square::from_algebraic("42").is_err());
    assert!(Square::from_algebraic("h0").is_err());
    assert!(Square::from_algebraic("c-3").is_err());
}

#[test]
fn algebraic_correct_input() {
    assert_eq!(Square::from_algebraic("a1"), Square::from_coord(0, 0));
    assert_eq!(Square::from_algebraic("h1"), Square::from_coord(0, 7));
    assert_eq!(Square::from_algebraic("a8"), Square::from_coord(7, 0));
    assert_eq!(Square::from_algebraic("h8"), Square::from_coord(7, 7));
}

#[test]
fn algebraic_round_trip_all_squares() {
    for row in 0..8 {
        for col in 0..8 {
            let sq = Square::from_coord(row, col).unwrap();
            let name = sq.to_algebraic();
            assert_eq!(Square::from_algebraic(&name), Ok(sq));
        }
    }
}

#[test]
fn from_coord_out_of_range() {
    assert!(Square::from_coord(8, 0).is_err());
    assert!(Square::from_coord(0, 8).is_err());
    assert!(Square::from_coord(200, 3).is_err());
}
