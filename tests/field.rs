use minefield::error::Error;
use minefield::field::Field;

#[test]
fn new_field_is_empty() {
    let f = Field::new();
    assert!(!f.has_mine());
    assert!(!f.visited());
    assert!(!f.flagged());
}

#[test]
fn set_mine_keeps_other_state() {
    let mut f = Field::new();
    f.toggle_flag();
    f.set_mine();
    assert!(f.has_mine());
    assert!(f.flagged());
    assert!(!f.visited());
}

#[test]
fn visit_refused_when_flagged() {
    let mut f = Field::new();
    assert!(f.toggle_flag());
    assert!(!f.visit());
    assert!(!f.visited());
    assert!(f.toggle_flag());
    assert!(f.visit());
    assert!(f.visited());
}

#[test]
fn toggle_refused_when_visited() {
    let mut f = Field::new();
    assert!(f.visit());
    assert!(!f.toggle_flag());
    assert!(!f.flagged());
}

#[test]
fn toggle_twice_restores() {
    let mut f = Field::new();
    assert!(f.toggle_flag());
    assert!(f.flagged());
    assert!(f.toggle_flag());
    assert!(!f.flagged());
}

#[test]
fn glyphs_while_playing() {
    let mut hidden = Field::new();
    assert_eq!(hidden.to_string(false), "\u{25A0}");
    hidden.set_mine();
    assert_eq!(hidden.to_string(false), "\u{25A0}");
    let mut flagged = Field::new();
    flagged.toggle_flag();
    assert_eq!(flagged.to_string(false), "\u{1F6A9}");
    let mut open = Field::new();
    open.visit();
    assert_eq!(open.to_string(false), " ");
    let mut blown = Field::new();
    blown.set_mine();
    blown.visit();
    assert_eq!(blown.to_string(false), "\u{1F525}");
}

#[test]
fn glyphs_after_game_over() {
    let mut mine = Field::new();
    mine.set_mine();
    assert_eq!(mine.to_string(true), "\u{1F4A3}");
    let mut flagged_mine = Field::new();
    flagged_mine.set_mine();
    flagged_mine.toggle_flag();
    assert_eq!(flagged_mine.to_string(true), "\u{1F4A3}");
    let mut flagged = Field::new();
    flagged.toggle_flag();
    assert_eq!(flagged.to_string(true), " ");
    assert_eq!(Field::new().to_string(true), " ");
    let mut blown = Field::new();
    blown.set_mine();
    blown.visit();
    assert_eq!(blown.to_string(true), "\u{1F525}");
}

#[test]
fn error_messages() {
    assert_eq!(Error::FieldTooLarge.message(), "field too large");
    assert_eq!(Error::TooManyMines.message(), "too many mines for field size");
    assert_eq!(Error::TooManyDuds.message(), "more duds than mines");
}
