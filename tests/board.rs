use minefield::args::Args;
use minefield::board::{Board, BoardError, MoveResult};

fn board(width: usize, height: usize, mines: u8, duds: u8) -> Board {
    let (b, e) = Board::with_duds(width, height, mines, duds);
    assert_eq!(e, BoardError::OK);
    b.unwrap()
}

fn mine_total(b: &Board) -> usize {
    b.fields().iter().filter(|f| f.has_mine()).count()
}

fn visited_total(b: &Board) -> usize {
    b.fields().iter().filter(|f| f.visited()).count()
}

#[test]
fn construction_errors() {
    assert_eq!(Board::new(0, 3, 1).1, BoardError::FieldTooNarrow);
    assert!(Board::new(0, 3, 1).0.is_none());
    assert_eq!(Board::new(3, 0, 1).1, BoardError::FieldTooFlat);
    assert_eq!(Board::new(0, 0, 1).1, BoardError::FieldTooNarrow);
    assert_eq!(Board::new(2, 2, 4).1, BoardError::TooManyMines);
    assert_eq!(Board::new(2, 2, 5).1, BoardError::TooManyMines);
    assert_eq!(Board::with_duds(3, 3, 5, 6).1, BoardError::TooManyDuds);
    assert!(Board::with_duds(3, 3, 5, 6).0.is_none());
    assert_eq!(Board::with_duds(3, 3, 9, 10).1, BoardError::TooManyMines);
    assert_eq!(Board::new(usize::MAX, 2, 1).1, BoardError::FieldTooLarge);
    assert!(Board::new(usize::MAX, 2, 1).0.is_none());
    assert_eq!(Board::new(0, usize::MAX, 1).1, BoardError::FieldTooNarrow);
    assert_eq!(Board::new(2, 0, 1).1, BoardError::FieldTooFlat);
}

#[test]
fn board_error_messages() {
    assert_eq!(BoardError::OK.message(), "OK");
    assert_eq!(BoardError::FieldTooNarrow.message(), "Field is too narrow");
    assert_eq!(BoardError::FieldTooFlat.message(), "Field is too flat");
    assert_eq!(BoardError::FieldTooLarge.message(), "Field is too large");
    assert_eq!(BoardError::TooManyMines.message(), "Too many mines for field");
    assert_eq!(BoardError::TooManyDuds.message(), "More duds than mines");
}

#[test]
fn finished_board_keeps_cell_level_refusals() {
    let mut b = board(3, 3, 1, 0);
    // mine in cell 4 (column 1, row 1): candidate 3
    assert_eq!(b.visit_seeded(0, 0, &vec![3]), MoveResult::Continue);
    assert_eq!(b.toggle_flag(2, 0), MoveResult::Continue);
    assert_eq!(b.visit(1, 1), MoveResult::Lost);
    assert_eq!(b.visit(2, 0), MoveResult::FieldFlagged);
    assert!(!b.field(2, 0).unwrap().visited());
    assert_eq!(b.toggle_flag(0, 0), MoveResult::AlreadyVisited);
    assert!(!b.field(0, 0).unwrap().flagged());
    assert_eq!(b.visit(0, 0), MoveResult::AlreadyVisited);
    assert_eq!(b.toggle_flag(2, 0), MoveResult::Continue);
    assert!(b.field(2, 0).unwrap().flagged());
    assert_eq!(b.visit(2, 2), MoveResult::Lost);
}

#[test]
fn construction_success() {
    let (b, e) = Board::new(4, 3, 11);
    assert_eq!(e, BoardError::OK);
    let b = b.unwrap();
    assert_eq!(b.width(), 4);
    assert_eq!(b.height(), 3);
    assert_eq!(b.fields().len(), 12);
    assert_eq!(mine_total(&b), 0);
    assert_eq!(visited_total(&b), 0);
    let (b, e) = Board::with_duds(3, 3, 5, 5);
    assert_eq!(e, BoardError::OK);
    assert!(b.is_some());
}

#[test]
fn first_move_never_loses() {
    for _ in 0..20 {
        for y in 0..3 {
            for x in 0..3 {
                let mut b = board(3, 3, 8, 0);
                let r = b.visit(x, y);
                assert_eq!(r, MoveResult::Won);
                assert!(!b.field(x, y).unwrap().has_mine());
                let mut b = board(4, 4, 6, 2);
                let r = b.visit(x, y);
                assert!(r == MoveResult::Continue || r == MoveResult::Won);
                assert!(!b.field(x, y).unwrap().has_mine());
            }
        }
    }
}

#[test]
fn mine_count_after_first_move() {
    for _ in 0..20 {
        let mut b = board(8, 8, 10, 0);
        assert_eq!(mine_total(&b), 0);
        b.visit(3, 4);
        assert_eq!(mine_total(&b), 10);
        let mut b = board(5, 4, 12, 3);
        b.visit(0, 0);
        assert_eq!(mine_total(&b), 12);
        let mut b = board(3, 3, 8, 8);
        b.visit(1, 1);
        assert_eq!(mine_total(&b), 8);
    }
}

#[test]
fn flag_on_visited_cell_refused() {
    let mut b = board(2, 2, 1, 0);
    assert_eq!(b.visit_seeded(0, 0, &vec![2]), MoveResult::Continue);
    assert_eq!(b.toggle_flag(0, 0), MoveResult::AlreadyVisited);
    assert!(!b.field(0, 0).unwrap().flagged());
    assert!(b.field(0, 0).unwrap().visited());
}

#[test]
fn visit_on_flagged_cell_refused() {
    let mut b = board(3, 3, 1, 0);
    assert_eq!(b.toggle_flag(1, 1), MoveResult::Continue);
    assert_eq!(b.visit(1, 1), MoveResult::FieldFlagged);
    assert!(!b.field(1, 1).unwrap().visited());
    assert!(b.field(1, 1).unwrap().flagged());
    assert_eq!(mine_total(&b), 0);
    assert_eq!(b.toggle_flag(1, 1), MoveResult::Continue);
    assert!(!b.field(1, 1).unwrap().flagged());
    assert_ne!(b.visit(1, 1), MoveResult::FieldFlagged);
}

#[test]
fn cascade_single_mine_far_corner() {
    let mut b = board(5, 5, 1, 0);
    // candidate 23 is cell 24 (column 4, row 4) once cell 0 is left out
    let r = b.visit_seeded(0, 0, &vec![23]);
    assert_eq!(r, MoveResult::Won);
    for (x, y, f) in b.positioned_fields() {
        let corner = x == 4 && y == 4;
        assert_eq!(f.has_mine(), corner);
        assert_eq!(f.visited(), !corner);
    }
}

#[test]
fn cascade_stops_at_numbered_cells() {
    let mut b = board(5, 5, 5, 0);
    // a wall of mines in column 2: cells 2, 7, 12, 17, 22 are candidates 1, 6, 11, 16, 21
    let r = b.visit_seeded(0, 0, &vec![1, 6, 11, 16, 21]);
    assert_eq!(r, MoveResult::Continue);
    for (x, y, f) in b.positioned_fields() {
        assert_eq!(f.has_mine(), x == 2, "mine at {} {}", x, y);
        assert_eq!(f.visited(), x < 2, "visited at {} {}", x, y);
    }
    assert_eq!(visited_total(&b), 10);
}

#[test]
fn cascade_skips_flagged_cells() {
    let mut b = board(4, 1, 1, 0);
    assert_eq!(b.toggle_flag(1, 0), MoveResult::Continue);
    // mine in cell 3: candidate 2 once cell 0 is left out
    let r = b.visit_seeded(0, 0, &vec![2]);
    assert_eq!(r, MoveResult::Continue);
    assert!(b.field(0, 0).unwrap().visited());
    assert!(!b.field(1, 0).unwrap().visited());
    assert!(b.field(1, 0).unwrap().flagged());
    assert!(!b.field(2, 0).unwrap().visited());
}

#[test]
fn win_on_last_safe_cell() {
    let mut b = board(2, 2, 1, 0);
    // mine in cell 3 (column 1, row 1): candidate 2
    assert_eq!(b.visit_seeded(0, 0, &vec![2]), MoveResult::Continue);
    assert_eq!(b.visit(1, 0), MoveResult::Continue);
    assert_eq!(b.visit(0, 1), MoveResult::Won);
    assert_eq!(b.visit(1, 1), MoveResult::Won);
    assert_eq!(b.toggle_flag(1, 1), MoveResult::Continue);
    assert!(!b.field(1, 1).unwrap().flagged());
    assert!(!b.field(1, 1).unwrap().visited());
    assert_eq!(b.toggle_flag(0, 0), MoveResult::AlreadyVisited);
    assert_eq!(b.visit(0, 0), MoveResult::AlreadyVisited);
}

#[test]
fn losing_reveals_the_mine_and_ends_the_game() {
    let mut b = board(3, 3, 1, 0);
    // mine in cell 4 (column 1, row 1): candidate 3
    assert_eq!(b.visit_seeded(0, 0, &vec![3]), MoveResult::Continue);
    assert_eq!(visited_total(&b), 1);
    assert_eq!(b.visit(1, 1), MoveResult::Lost);
    let f = b.field(1, 1).unwrap();
    assert!(f.visited() && f.has_mine());
    assert_eq!(f.to_string(true), "\u{1F525}");
    assert_eq!(b.visit(2, 2), MoveResult::Lost);
    assert!(!b.field(2, 2).unwrap().visited());
    assert_eq!(b.toggle_flag(2, 2), MoveResult::Continue);
    assert!(!b.field(2, 2).unwrap().flagged());
}

#[test]
fn revisit_is_refused() {
    let mut b = board(3, 3, 1, 0);
    // mine in cell 4 (column 1, row 1): candidate 3
    assert_eq!(b.visit_seeded(0, 0, &vec![3]), MoveResult::Continue);
    for _ in 0..3 {
        assert_eq!(b.visit(0, 0), MoveResult::AlreadyVisited);
    }
    assert_eq!(visited_total(&b), 1);
    assert_eq!(b.visit(1, 0), MoveResult::Continue);
}

#[test]
fn invalid_positions() {
    let mut b = board(3, 2, 1, 0);
    assert_eq!(b.visit(3, 0), MoveResult::InvalidPosition);
    assert_eq!(b.visit(0, 2), MoveResult::InvalidPosition);
    assert_eq!(b.visit(usize::MAX, usize::MAX), MoveResult::InvalidPosition);
    assert_eq!(b.toggle_flag(3, 1), MoveResult::InvalidPosition);
    assert_eq!(mine_total(&b), 0);
    assert_eq!(b.visit_seeded(0, 0, &vec![4]), MoveResult::Continue);
    assert_eq!(b.visit(5, 5), MoveResult::InvalidPosition);
    assert_eq!(b.toggle_flag(0, 9), MoveResult::InvalidPosition);
    assert_eq!(b.visit(2, 1), MoveResult::Lost);
    assert_eq!(b.visit(3, 1), MoveResult::InvalidPosition);
    assert_eq!(b.toggle_flag(3, 1), MoveResult::InvalidPosition);
    assert!(b.field(3, 1).is_none());
}

#[test]
fn duds_stay_clear() {
    let mut b = board(3, 3, 2, 2);
    // duds at cells 1 and 3 (candidates 0 and 2), mines at cells 7 and 8 (candidates 6 and 7)
    let r = b.visit_seeded(0, 0, &vec![0, 2, 6, 7]);
    assert_eq!(r, MoveResult::Continue);
    assert_eq!(mine_total(&b), 2);
    assert!(b.field(1, 2).unwrap().has_mine());
    assert!(b.field(2, 2).unwrap().has_mine());
    assert!(!b.field(1, 0).unwrap().has_mine());
    assert!(!b.field(0, 1).unwrap().has_mine());
}

#[test]
fn duds_give_way_on_a_full_board() {
    let mut b = board(2, 2, 3, 3);
    // room for no dud: the three other cells all get a mine
    let r = b.visit_seeded(1, 1, &vec![0, 1, 2]);
    assert_eq!(r, MoveResult::Won);
    assert_eq!(mine_total(&b), 3);
    assert!(!b.field(1, 1).unwrap().has_mine());
}

#[test]
fn random_first_move_places_all_mines_elsewhere() {
    for _ in 0..20 {
        let mut b = board(4, 4, 15, 0);
        assert_eq!(b.visit(2, 1), MoveResult::Won);
        assert_eq!(mine_total(&b), 15);
        assert!(!b.field(2, 1).unwrap().has_mine());
    }
}

#[test]
fn positioned_fields_are_row_major() {
    let b = board(3, 2, 1, 0);
    let cells = b.positioned_fields();
    let places: Vec<(usize, usize)> = cells.iter().map(|c| (c.0, c.1)).collect();
    assert_eq!(places, vec![(0, 0), (1, 0), (2, 0), (0, 1), (1, 1), (2, 1)]);
}

#[test]
fn args_hold_settings() {
    let a = Args { width: 8, height: 8, mines: 10, duds: 0 };
    assert_eq!(a.width * a.height, 64);
    let (b, e) = Board::with_duds(a.width, a.height, a.mines, a.duds);
    assert_eq!(e, BoardError::OK);
    assert_eq!(b.unwrap().width(), 8);
}
