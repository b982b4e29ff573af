use std::collections::HashSet;

use tetris::game::shape::{Cell, Piece, Shape};

const SHAPES: [Shape; 7] =
    [Shape::I, Shape::J, Shape::L, Shape::O, Shape::S, Shape::T, Shape::Z];

fn cell_set(piece: &Piece) -> HashSet<Cell> {
    piece.iter_positions().into_iter().collect()
}

fn cell_list(list: &[(i32, i32)]) -> HashSet<Cell> {
    list.iter().map(|&(x, y)| Cell(x, y)).collect()
}

#[test]
fn shape_test() {
    let piece_i = Piece::new(Shape::I);

    assert_eq!(piece_i.shape(), Shape::I);

    println!("{:#?}", piece_i);
}

#[test]
fn test_random() {
    let piece_random = Piece::random_piece();
    println!("{:#?}", piece_random);
}

#[test]
fn test_rotate() {
    let piece_i = Piece::new(Shape::I);

    let rotated_i = piece_i.rotate();

    assert_eq!(rotated_i.pivot(), piece_i.pivot());

    assert_eq!(
        cell_set(&rotated_i),
        [Cell(1, -1), Cell(1, 1), Cell(1, 0), Cell(1, 2)]
            .into_iter()
            .collect::<HashSet<Cell>>()
    );

    for shape in [
        Shape::I,
        Shape::J,
        Shape::L,
        Shape::O,
        Shape::S,
        Shape::T,
        Shape::Z,
    ]
    .into_iter()
    {
        let piece = Piece::new(shape);
        let roated_piece = piece.rotate().rotate().rotate().rotate();
        assert_eq!(cell_set(&piece), cell_set(&roated_piece));
    }
}

#[test]
fn templates_match_the_table() {
    let table: [(Shape, [(i32, i32); 4], (i32, i32)); 7] = [
        (Shape::I, [(0, 0), (1, 0), (2, 0), (3, 0)], (1, 0)),
        (Shape::O, [(0, 0), (1, 0), (0, 1), (1, 1)], (0, 0)),
        (Shape::T, [(0, 0), (1, 0), (2, 0), (1, 1)], (1, 0)),
        (Shape::J, [(0, 0), (0, 1), (0, 2), (-1, 2)], (0, 1)),
        (Shape::L, [(0, 0), (0, 1), (0, 2), (1, 2)], (0, 1)),
        (Shape::S, [(0, 0), (1, 0), (0, 1), (-1, 1)], (0, 0)),
        (Shape::Z, [(0, 0), (-1, 0), (0, 1), (1, 1)], (0, 0)),
    ];
    for (shape, expected, pivot) in table {
        let piece = Piece::new(shape);
        assert_eq!(piece.shape(), shape);
        assert_eq!(piece.iter_positions().len(), 4);
        assert_eq!(cell_set(&piece), cell_list(&expected));
        assert_eq!(piece.pivot(), Cell(pivot.0, pivot.1));
    }
}

#[test]
fn shape_from_index_covers_the_seven_tags() {
    assert_eq!(Shape::from_index(0), Shape::I);
    assert_eq!(Shape::from_index(1), Shape::O);
    assert_eq!(Shape::from_index(2), Shape::T);
    assert_eq!(Shape::from_index(3), Shape::J);
    assert_eq!(Shape::from_index(4), Shape::L);
    assert_eq!(Shape::from_index(5), Shape::S);
    assert_eq!(Shape::from_index(6), Shape::Z);
    assert_eq!(Shape::from_index(7), Shape::Z);
    assert_eq!(Shape::from_index(-1), Shape::Z);
}

#[test]
fn random_pieces_are_templates_and_vary() {
    let mut seen: Vec<Shape> = Vec::new();
    for _ in 0..2000 {
        let piece = Piece::random_piece();
        let template = Piece::new(piece.shape());
        assert_eq!(cell_set(&piece), cell_set(&template));
        assert_eq!(piece.pivot(), template.pivot());
        if !seen.contains(&piece.shape()) {
            seen.push(piece.shape());
        }
    }
    assert_eq!(seen.len(), 7);
}

#[test]
fn cell_addition_and_conversion() {
    assert_eq!(Cell(1, 2) + Cell(3, -5), Cell(4, -3));
    assert_eq!(Cell::from((7, 9)), Cell(7, 9));
    let c: Cell = (-1, 4).into();
    assert_eq!(c, Cell(-1, 4));
}

#[test]
fn translate_moves_cells_and_pivot() {
    let piece = Piece::new(Shape::T).translate(Cell(4, 7));
    assert_eq!(piece.shape(), Shape::T);
    assert_eq!(cell_set(&piece), cell_list(&[(4, 7), (5, 7), (6, 7), (5, 8)]));
    assert_eq!(piece.pivot(), Cell(5, 7));
}

#[test]
fn checked_translate_refuses_overflow() {
    let piece = Piece::new(Shape::I);
    assert!(piece.checked_translate(Cell(i32::MAX, 0)).is_none());
    assert!(piece.checked_translate(Cell(0, i32::MIN)).is_some());
    let far = piece.checked_translate(Cell(i32::MAX - 3, 0)).unwrap();
    assert_eq!(far.pivot(), Cell(i32::MAX - 2, 0));
    assert!(far.has_position(Cell(i32::MAX, 0)));
    let j = Piece::new(Shape::J);
    assert!(j.checked_translate(Cell(i32::MIN, 0)).is_none());
}

#[test]
fn rotation_follows_the_formula() {
    // pivot (a, b) = (5, 8): (x, y) goes to (a + b - y, b - a + x)
    let piece = Piece::new(Shape::L).translate(Cell(5, 7));
    assert_eq!(piece.pivot(), Cell(5, 8));
    assert_eq!(cell_set(&piece), cell_list(&[(5, 7), (5, 8), (5, 9), (6, 9)]));
    let rotated = piece.rotate();
    assert_eq!(cell_set(&rotated), cell_list(&[(6, 8), (5, 8), (4, 8), (4, 9)]));
    assert_eq!(rotated.pivot(), Cell(5, 8));
    assert_eq!(rotated.shape(), Shape::L);
}

#[test]
fn four_rotations_are_the_identity_anywhere() {
    for shape in SHAPES {
        for delta in [Cell(0, 0), Cell(4, 0), Cell(-7, 13), Cell(1000, -1000)] {
            let piece = Piece::new(shape).translate(delta);
            let mut turned = piece.rotate();
            assert_eq!(turned.pivot(), piece.pivot());
            for _ in 0..3 {
                turned = turned.rotate();
                assert_eq!(turned.pivot(), piece.pivot());
            }
            assert_eq!(cell_set(&turned), cell_set(&piece));
            assert_eq!(turned.shape(), shape);
        }
    }
}

#[test]
fn checked_rotate_refuses_overflow() {
    let near_edge = Piece::new(Shape::I).translate(Cell(i32::MAX - 3, i32::MAX));
    // the cell (MAX, MAX) would go to row MAX + 2
    assert!(near_edge.checked_rotate().is_none());
    let fine = Piece::new(Shape::I).translate(Cell(i32::MAX - 3, 0));
    let turned = fine.checked_rotate().unwrap();
    assert_eq!(
        cell_set(&turned),
        cell_list(&[
            (i32::MAX - 2, -1),
            (i32::MAX - 2, 0),
            (i32::MAX - 2, 1),
            (i32::MAX - 2, 2)
        ])
    );
}

#[test]
fn has_position_is_membership() {
    let piece = Piece::new(Shape::S);
    assert!(piece.has_position(Cell(0, 0)));
    assert!(piece.has_position(Cell(-1, 1)));
    assert!(!piece.has_position(Cell(1, 1)));
    assert!(!piece.has_position(Cell(2, 0)));
}

#[test]
fn collides_with_is_shared_cell() {
    let t = Piece::new(Shape::T);
    let o = Piece::new(Shape::O);
    assert!(t.collides_with(&o));
    assert!(o.collides_with(&t));
    let far = Piece::new(Shape::O).translate(Cell(3, 0));
    assert!(!t.collides_with(&far));
    assert!(!far.collides_with(&t));
    let touching = Piece::new(Shape::O).translate(Cell(2, 0));
    assert!(t.collides_with(&touching));
    let below = Piece::new(Shape::O).translate(Cell(0, 2));
    assert!(!o.collides_with(&below));
}

#[test]
fn remove_cell_deletes_the_row_and_lowers_what_is_above() {
    // L at rows 3..5: (2,3) (2,4) (2,5) (3,5)
    let mut piece = Piece::new(Shape::L).translate(Cell(2, 3));
    piece.remove_cell(4);
    assert_eq!(cell_set(&piece), cell_list(&[(2, 4), (2, 5), (3, 5)]));
    assert_eq!(piece.pivot(), Cell(2, 4));
    assert_eq!(piece.shape(), Shape::L);

    let mut above = Piece::new(Shape::O).translate(Cell(0, 0));
    above.remove_cell(7);
    assert_eq!(cell_set(&above), cell_list(&[(0, 1), (1, 1), (0, 2), (1, 2)]));

    let mut below = Piece::new(Shape::O).translate(Cell(0, 8));
    below.remove_cell(7);
    assert_eq!(cell_set(&below), cell_list(&[(0, 8), (1, 8), (0, 9), (1, 9)]));

    let mut gone = Piece::new(Shape::I);
    gone.remove_cell(0);
    assert!(gone.iter_positions().is_empty());
    assert_eq!(gone.shape(), Shape::I);
}
