use scan::scan_logic::{Cell, GameStatus};
use scan::scan_view::{
    cell_classes, cell_face, flag_status_message, format_tenths, initials_from_upper,
    overlay_initials, rank_label, reveal_status_message, CellFace,
};

fn cell(mine: bool, revealed: bool, flagged: bool, n: u8) -> Cell {
    Cell { is_mine: mine, is_revealed: revealed, is_flagged: flagged, adjacent_mines: n }
}

#[test]
fn faces_and_classes() {
    assert_eq!(cell_face(cell(false, false, false, 0)), CellFace::Covered);
    assert_eq!(cell_face(cell(true, false, true, 0)), CellFace::Flagged);
    assert_eq!(cell_face(cell(true, true, false, 0)), CellFace::Mine);
    assert_eq!(cell_face(cell(false, true, false, 3)), CellFace::Number(3));
    assert_eq!(cell_face(cell(false, true, false, 0)), CellFace::Empty);
    assert_eq!(cell_classes(cell(false, true, false, 3)), vec!["scan-cell", "revealed", "adjacent-3"]);
    assert_eq!(cell_classes(cell(true, true, false, 0)), vec!["scan-cell", "revealed", "mine"]);
    assert_eq!(cell_classes(cell(false, false, true, 0)), vec!["scan-cell", "flagged"]);
    assert_eq!(cell_classes(cell(false, false, false, 0)), vec!["scan-cell", "covered"]);
}

#[test]
fn reveal_messages() {
    let m = |o, n, r, c| reveal_status_message(o, n, r, c).map(|(a, b)| (a, b));
    assert_eq!(
        m(GameStatus::NotStarted, GameStatus::Playing, 0, 0),
        Some(("Scanning sector... Detonation hazards present.".to_string(), "success".to_string()))
    );
    assert_eq!(
        m(GameStatus::Playing, GameStatus::Playing, 2, 10),
        Some(("Grid sector (11, 3) scanned: Clear.".to_string(), "success".to_string()))
    );
    assert_eq!(
        m(GameStatus::Playing, GameStatus::Won, 2, 10),
        Some(("Sector secured successfully.".to_string(), "success".to_string()))
    );
    assert_eq!(
        m(GameStatus::NotStarted, GameStatus::Lost, 2, 10),
        Some(("Danger! Detonation hazard encountered.".to_string(), "error".to_string()))
    );
    assert_eq!(m(GameStatus::NotStarted, GameStatus::NotStarted, 1, 1), None);
}

#[test]
fn flag_messages() {
    assert_eq!(
        flag_status_message(false, true, 0, 4),
        Some(("Beacon deployed at (5, 1).".to_string(), "success".to_string()))
    );
    assert_eq!(
        flag_status_message(true, false, 8, 0),
        Some(("Beacon retrieved from (1, 9).".to_string(), "success".to_string()))
    );
    assert_eq!(flag_status_message(true, true, 0, 0), None);
}

#[test]
fn tenths_and_ranks() {
    assert_eq!(format_tenths(0), "0.0s");
    assert_eq!(format_tenths(5), "0.5s");
    assert_eq!(format_tenths(123), "12.3s");
    assert_eq!(format_tenths(u32::MAX), "429496729.5s");
    for t in [0u32, 7, 10, 99, 1234, 987654] {
        assert_eq!(format_tenths(t), format!("{:.1}s", t as f64 / 10.0));
    }
    assert_eq!(rank_label(0), "#1");
    assert_eq!(rank_label(9), "#10");
}

#[test]
fn initials_input() {
    assert_eq!(initials_from_upper("A1B-C D"), "ABC");
    assert_eq!(initials_from_upper("AB"), "AB");
    assert_eq!(overlay_initials("ab"), "AB");
    assert_eq!(overlay_initials("x9y z"), "XYZ");
    assert_eq!(overlay_initials("ß"), "SS");
}
