use scan::scan_logic::{BoardState, Cell, GameStatus, Sector};

fn strip_board(cols: usize, mines: usize) -> BoardState {
    BoardState {
        sector: Sector::Alpha,
        rows: 1,
        cols,
        mines,
        grid: vec![vec![Cell::new(); cols]],
        status: GameStatus::NotStarted,
        first_click: true,
    }
}

fn mine_count(b: &BoardState) -> usize {
    b.grid.iter().map(|row| row.iter().filter(|c| c.is_mine).count()).sum()
}

#[test]
fn sector_presets() {
    assert_eq!(Sector::Alpha.config(), (9, 9, 10));
    assert_eq!(Sector::Beta.config(), (16, 16, 40));
    assert_eq!(Sector::Gamma.config(), (30, 16, 99));
    assert_eq!(Sector::Alpha.name(), "Alpha");
    assert_eq!(Sector::Beta.name(), "Beta");
    assert_eq!(Sector::Gamma.name(), "Gamma");
}

#[test]
fn new_board_is_blank() {
    let b = BoardState::new(Sector::Gamma);
    assert_eq!((b.rows, b.cols, b.mines), (30, 16, 99));
    assert_eq!(b.grid.len(), 30);
    assert!(b.grid.iter().all(|row| row.len() == 16 && row.iter().all(|c| *c == Cell::new())));
    assert_eq!(b.status, GameStatus::NotStarted);
    assert!(b.first_click);
    assert_eq!(b.count_flagged(), 0);
}

#[test]
fn first_reveal_without_draws_places_row_major_mines() {
    let mut b = BoardState::new(Sector::Alpha);
    b.reveal_cell(4, 4, &[]);
    // the flood fill opens every square without a mine: the sector is secured at once
    assert_eq!(b.status, GameStatus::Won);
    assert!(!b.first_click);
    // no swaps: the first ten candidates in row-major order get the mines
    assert!(b.grid[0].iter().all(|c| c.is_mine));
    assert!(b.grid[1][0].is_mine);
    assert_eq!(mine_count(&b), 10);
    assert_eq!(b.grid[1][1].adjacent_mines, 4);
    assert_eq!(b.grid[2][0].adjacent_mines, 1);
    assert!(b.grid[4][4].is_revealed);
    assert_eq!(b.grid[4][4].adjacent_mines, 0);
    assert!(b.grid[8][8].is_revealed);
    assert!(b.grid[2][5].is_revealed);
    assert!(!b.grid[0][0].is_revealed);
}

#[test]
fn first_click_block_stays_clear_with_any_draws() {
    for seed in 0..20usize {
        let mut b = BoardState::new(Sector::Beta);
        let draws: Vec<usize> = (0..256).map(|i| (i * 7919 + seed * 104729) % 1000).collect();
        b.reveal_cell(0, 15, &draws);
        assert_eq!(mine_count(&b), 40);
        for r in 0..2 {
            for c in 14..16 {
                assert!(!b.grid[r][c].is_mine);
            }
        }
        assert_ne!(b.status, GameStatus::Lost);
        for r in 0..b.rows {
            for c in 0..b.cols {
                if !b.grid[r][c].is_mine {
                    let mut n = 0;
                    for rr in r.saturating_sub(1)..=(r + 1).min(b.rows - 1) {
                        for cc in c.saturating_sub(1)..=(c + 1).min(b.cols - 1) {
                            if b.grid[rr][cc].is_mine {
                                n += 1;
                            }
                        }
                    }
                    assert_eq!(b.grid[r][c].adjacent_mines, n);
                }
                if b.grid[r][c].is_revealed {
                    assert!(!b.grid[r][c].is_mine);
                }
            }
        }
    }
}

#[test]
fn shuffle_follows_draws() {
    // candidates of a 1x5 strip clicked at column 0: columns 2, 3, 4
    // i = 2 swaps with 0, then i = 1 swaps with 0: order 3, 4, 2
    let mut b = strip_board(5, 1);
    b.reveal_cell(0, 0, &[0, 0, 0]);
    assert!(b.grid[0][3].is_mine);
    assert_eq!(mine_count(&b), 1);
    assert_eq!(b.grid[0].iter().map(|c| c.adjacent_mines).collect::<Vec<_>>(), vec![0, 0, 1, 0, 1]);
    assert!(b.grid[0][0].is_revealed && b.grid[0][1].is_revealed && b.grid[0][2].is_revealed);
    assert!(!b.grid[0][4].is_revealed);
    assert_eq!(b.status, GameStatus::Playing);
    b.reveal_cell(0, 4, &[]);
    assert_eq!(b.status, GameStatus::Won);
}

#[test]
fn hitting_a_mine_loses_and_shows_all_mines() {
    let mut b = strip_board(7, 2);
    b.reveal_cell(0, 0, &[]);
    // no swaps: columns 2 and 3 hold the mines
    assert!(b.grid[0][2].is_mine && b.grid[0][3].is_mine);
    b.reveal_cell(0, 3, &[]);
    assert_eq!(b.status, GameStatus::Lost);
    assert!(b.grid[0][2].is_revealed && b.grid[0][3].is_revealed);
    assert!(!b.grid[0][5].is_revealed);
    let frozen = b.clone();
    b.reveal_cell(0, 6, &[]);
    b.toggle_flag(0, 6);
    assert_eq!(b, frozen);
}

#[test]
fn flags_toggle_and_block_reveal() {
    let mut b = BoardState::new(Sector::Alpha);
    b.toggle_flag(2, 3);
    assert!(b.grid[2][3].is_flagged);
    assert_eq!(b.count_flagged(), 1);
    assert_eq!(b.remaining_beacons(), 9);
    b.reveal_cell(2, 3, &[]);
    assert!(!b.grid[2][3].is_revealed);
    assert_eq!(b.status, GameStatus::NotStarted);
    b.toggle_flag(2, 3);
    assert_eq!(b, BoardState::new(Sector::Alpha));
    b.reveal_cell(8, 8, &[]);
    let before = b.clone();
    b.toggle_flag(8, 8);
    assert_eq!(b, before);
}

#[test]
fn generate_mines_caps_at_candidates() {
    let mut b = strip_board(4, 10);
    b.generate_mines(0, 0, &[]);
    assert_eq!(mine_count(&b), 2);
    assert!(b.grid[0][2].is_mine && b.grid[0][3].is_mine);
    assert_eq!(b.status, GameStatus::Playing);
}

#[test]
fn remaining_beacons_can_go_negative() {
    let mut b = strip_board(5, 1);
    b.toggle_flag(0, 0);
    b.toggle_flag(0, 4);
    assert_eq!(b.remaining_beacons(), -1);
}

fn assert_game_invariant(b: &BoardState, sector: Sector) {
    let (rows, cols, mines) = sector.config();
    assert_eq!((b.rows, b.cols, b.mines), (rows, cols, mines));
    assert_eq!(b.grid.len(), rows);
    assert!(b.grid.iter().all(|row| row.len() == cols));
    assert_eq!(b.first_click, b.status == GameStatus::NotStarted);
    let cells = || b.grid.iter().flat_map(|row| row.iter());
    if b.status == GameStatus::NotStarted {
        assert!(cells().all(|c| !c.is_mine && !c.is_revealed));
    } else {
        assert_eq!(mine_count(b), mines);
        for r in 0..rows {
            for c in 0..cols {
                if !b.grid[r][c].is_mine {
                    let mut n = 0;
                    for rr in r.saturating_sub(1)..=(r + 1).min(rows - 1) {
                        for cc in c.saturating_sub(1)..=(c + 1).min(cols - 1) {
                            if b.grid[rr][cc].is_mine {
                                n += 1;
                            }
                        }
                    }
                    assert_eq!(b.grid[r][c].adjacent_mines, n);
                }
            }
        }
    }
    let mine_open = cells().any(|c| c.is_mine && c.is_revealed);
    assert_eq!(b.status == GameStatus::Lost, mine_open);
    if b.status == GameStatus::Lost {
        assert!(cells().all(|c| !c.is_mine || c.is_revealed));
    } else {
        assert!(cells().all(|c| !(c.is_revealed && c.is_flagged)));
    }
    let cleared = cells().all(|c| c.is_mine || c.is_revealed);
    assert_eq!(
        b.status == GameStatus::Won,
        b.status != GameStatus::NotStarted && b.status != GameStatus::Lost && cleared
    );
}

#[test]
fn game_invariant_holds_along_games() {
    for seed in 0..12usize {
        let sector = [Sector::Alpha, Sector::Beta, Sector::Gamma][seed % 3];
        let (rows, cols, _) = sector.config();
        let mut b = BoardState::new(sector);
        assert_game_invariant(&b, sector);
        let draws: Vec<usize> = (0..rows * cols).map(|i| (i * 7919 + seed * 104729) % 997).collect();
        let mut x = seed * 31 + 7;
        for step in 0..60usize {
            x = (x * 1103515245 + 12345) % 2147483648;
            let r = x % rows;
            let c = (x / rows) % cols;
            if step % 4 == 1 {
                b.toggle_flag(r, c);
            } else {
                b.reveal_cell(r, c, &draws);
            }
            assert_game_invariant(&b, sector);
        }
    }
}

#[test]
fn toggle_moves_flag_count_by_one() {
    let mut b = BoardState::new(Sector::Beta);
    b.toggle_flag(0, 0);
    b.toggle_flag(3, 7);
    assert_eq!(b.count_flagged(), 2);
    b.toggle_flag(5, 5);
    assert_eq!(b.count_flagged(), 3);
    b.toggle_flag(3, 7);
    assert_eq!(b.count_flagged(), 2);
    b.reveal_cell(10, 10, &[]);
    assert!(b.grid[10][10].is_revealed);
    let before = b.count_flagged();
    b.toggle_flag(10, 10);
    assert_eq!(b.count_flagged(), before);
}
