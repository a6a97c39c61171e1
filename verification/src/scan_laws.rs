//! Properties of the game rules that hold across the operations of
//! `scan_logic`, stated over the board model.

use vstd::prelude::*;

use crate::scan_view::reveal_message;
use crate::scan_logic::{
    adjacent, candidates, grid_flagged, lemma_mine_positions, mine_positions, row_candidates,
    row_flagged, BoardModel, Cell, GameStatus, Sector,
};

verus! {

impl BoardModel {
    /// No square of the board holds a mine.
    pub open spec fn no_mines(self) -> bool {
        forall|r: int, c: int| self.in_bounds(r, c) ==> !(#[trigger] self.cell(r, c)).is_mine
    }

    /// The squares holding a mine.
    pub open spec fn mine_squares(self) -> Set<(usize, usize)> {
        Set::new(
            |p: (usize, usize)|
                self.in_bounds(p.0 as int, p.1 as int) && self.cell(p.0 as int, p.1 as int).is_mine,
        )
    }

    /// Every square without a mine shows the number of mines around it.
    pub open spec fn numbers_consistent(self) -> bool {
        forall|r: int, c: int|
            self.in_bounds(r, c) && !(#[trigger] self.cell(r, c)).is_mine
                ==> self.cell(r, c).adjacent_mines == self.mines_around(r, c)
    }
}

/// Mines are placed safely: on a board without mines, neither the first
/// click nor any of its neighbours receives a mine.
pub proof fn law_first_click_is_safe(m: BoardModel, sr: int, sc: int, draws: Seq<usize>)
    requires
        m.well_shaped(),
        m.no_mines(),
    ensures
        forall|r: int, c: int|
            m.in_bounds(r, c) && adjacent((sr, sc), (r, c)) ==> !(#[trigger] m.generated(
                sr,
                sc,
                draws,
            ).cell(r, c)).is_mine,
{
    let placed = mine_positions(m.rows, m.cols, m.mines, sr, sc, draws);
    lemma_mine_positions(m.rows, m.cols, m.mines, sr, sc, draws);
    assert forall|r: int, c: int|
        m.in_bounds(r, c) && adjacent((sr, sc), (r, c)) implies !(#[trigger] m.generated(
            sr,
            sc,
            draws,
        ).cell(r, c)).is_mine by {
        let x = (r as usize, c as usize);
        assert(!m.cell(r, c).is_mine);
        if placed.contains(x) {
            let k = choose|k: int| 0 <= k < placed.len() && placed[k] == x;
            assert(crate::scan_logic::candidate_ok(placed[k], m.rows as int, m.cols as int, sr, sc));
        }
        assert(m.with_mines(placed).cell(r, c).is_mine == placed.contains(x));
    }
}

/// On a board without mines, the first click places exactly
/// `min(mines, #candidates)` mines, where the candidates are the squares
/// outside the 3x3 block of the click.
pub proof fn law_mine_count(m: BoardModel, sr: int, sc: int, draws: Seq<usize>)
    requires
        m.well_shaped(),
        m.no_mines(),
    ensures
        ({
            let n = candidates(m.rows as int, m.cols as int, sr, sc).len();
            let g = m.generated(sr, sc, draws);
            &&& g.mine_squares().finite()
            &&& g.mine_squares().len() == if m.mines < n { m.mines as nat } else { n }
        }),
{
    let placed = mine_positions(m.rows, m.cols, m.mines, sr, sc, draws);
    lemma_mine_positions(m.rows, m.cols, m.mines, sr, sc, draws);
    let g = m.generated(sr, sc, draws);
    assert forall|p: (usize, usize)| g.mine_squares().contains(p) <==> placed.to_set().contains(p) by {
        if placed.contains(p) {
            let k = choose|k: int| 0 <= k < placed.len() && placed[k] == p;
            assert(crate::scan_logic::candidate_ok(placed[k], m.rows as int, m.cols as int, sr, sc));
            assert(m.with_mines(placed).cell(p.0 as int, p.1 as int).is_mine);
        }
        if g.mine_squares().contains(p) {
            let (r, c) = (p.0 as int, p.1 as int);
            assert(!m.cell(r, c).is_mine);
            assert(m.with_mines(placed).cell(r, c).is_mine == placed.contains(p));
        }
    }
    assert(g.mine_squares() =~= placed.to_set());
    placed.unique_seq_to_set();
}

/// After the first click, every square without a mine shows the number of
/// mines around it.
pub proof fn law_numbers_match_mines(m: BoardModel, sr: int, sc: int, draws: Seq<usize>)
    requires
        m.well_shaped(),
    ensures
        m.generated(sr, sc, draws).numbers_consistent(),
{
    let placed = mine_positions(m.rows, m.cols, m.mines, sr, sc, draws);
    let w = m.with_mines(placed);
    let g = m.generated(sr, sc, draws);
    assert forall|r: int, c: int| g.in_bounds(r, c) && !(#[trigger] g.cell(r, c)).is_mine implies g.cell(
        r,
        c,
    ).adjacent_mines == g.mines_around(r, c) by {
        assert forall|a: int, b: int| #[trigger] g.mine_at(a, b) == w.mine_at(a, b) by {
            if g.in_bounds(a, b) {
                assert(g.cell(a, b).is_mine == w.cell(a, b).is_mine);
            }
        }
        assert(g.mine_at(r - 1, c - 1) == w.mine_at(r - 1, c - 1));
        assert(g.mine_at(r - 1, c) == w.mine_at(r - 1, c));
        assert(g.mine_at(r - 1, c + 1) == w.mine_at(r - 1, c + 1));
        assert(g.mine_at(r, c - 1) == w.mine_at(r, c - 1));
        assert(g.mine_at(r, c) == w.mine_at(r, c));
        assert(g.mine_at(r, c + 1) == w.mine_at(r, c + 1));
        assert(g.mine_at(r + 1, c - 1) == w.mine_at(r + 1, c - 1));
        assert(g.mine_at(r + 1, c) == w.mine_at(r + 1, c));
        assert(g.mine_at(r + 1, c + 1) == w.mine_at(r + 1, c + 1));
        assert(w.mines_around(r, c) <= 9);
    }
}

proof fn lemma_path_has_no_mine(m: BoardModel, path: Seq<(int, int)>, k: int)
    requires
        m.numbers_consistent(),
        m.is_flood_path(path),
        !m.cell(path[0].0, path[0].1).is_mine,
        0 <= k < path.len(),
    ensures
        !m.cell(path[k].0, path[k].1).is_mine,
    decreases k,
{
    if k > 0 {
        lemma_path_has_no_mine(m, path, k - 1);
        let p = path[k - 1];
        let q = path[k];
        assert(m.openable(p));
        assert(m.openable(q));
        assert(m.flood_step(path, k - 1));
        assert(m.mines_around(p.0, p.1) == 0);
        if q.0 == p.0 - 1 && q.1 == p.1 - 1 {
            assert(m.mine_at(p.0 - 1, p.1 - 1) == 0);
        } else if q.0 == p.0 - 1 && q.1 == p.1 {
            assert(m.mine_at(p.0 - 1, p.1) == 0);
        } else if q.0 == p.0 - 1 {
            assert(m.mine_at(p.0 - 1, p.1 + 1) == 0);
        } else if q.0 == p.0 && q.1 == p.1 - 1 {
            assert(m.mine_at(p.0, p.1 - 1) == 0);
        } else if q.0 == p.0 && q.1 == p.1 {
            assert(m.mine_at(p.0, p.1) == 0);
        } else if q.0 == p.0 {
            assert(m.mine_at(p.0, p.1 + 1) == 0);
        } else if q.1 == p.1 - 1 {
            assert(m.mine_at(p.0 + 1, p.1 - 1) == 0);
        } else if q.1 == p.1 {
            assert(m.mine_at(p.0 + 1, p.1) == 0);
        } else {
            assert(m.mine_at(p.0 + 1, p.1 + 1) == 0);
        }
    }
}

/// On a board whose numbers match its mines, the flood fill started on a
/// square without a mine opens no mine.
pub proof fn law_flood_opens_no_mine(m: BoardModel, r: int, c: int)
    requires
        m.well_shaped(),
        m.numbers_consistent(),
        m.in_bounds(r, c),
        !m.cell(r, c).is_mine,
    ensures
        forall|a: int, b: int|
            m.in_bounds(a, b) && (#[trigger] m.flooded(r, c).cell(a, b)).is_revealed ==> m.cell(
                a,
                b,
            ).is_revealed || !m.cell(a, b).is_mine,
{
    assert forall|a: int, b: int|
        m.in_bounds(a, b) && (#[trigger] m.flooded(r, c).cell(a, b)).is_revealed implies m.cell(
            a,
            b,
        ).is_revealed || !m.cell(a, b).is_mine by {
        if !m.cell(a, b).is_revealed {
            assert(m.reachable((r, c), (a, b)));
            let path = choose|path: Seq<(int, int)>|
                #[trigger] m.is_flood_path(path) && path[0] == (r, c) && path.last() == (a, b);
            lemma_path_has_no_mine(m, path, path.len() - 1);
        }
    }
}

/// The first reveal on a fresh board never loses the game.
pub proof fn law_first_reveal_never_loses(sector: Sector, r: int, c: int, draws: Seq<usize>)
    requires
        BoardModel::initial(sector).in_bounds(r, c),
    ensures
        BoardModel::initial(sector).after_reveal(r, c, draws).status != GameStatus::Lost,
{
    let m = BoardModel::initial(sector);
    assert(m.well_shaped());
    assert(m.no_mines());
    law_first_click_is_safe(m, r, c, draws);
    assert(!m.generated(r, c, draws).cell(r, c).is_mine);
}

/// A reveal never covers a square again: every square open before is
/// still open after, and beacons are left as they were.
pub proof fn law_reveal_keeps_open_squares(m: BoardModel, r: int, c: int, draws: Seq<usize>)
    requires
        m.well_shaped(),
    ensures
        forall|a: int, b: int|
            m.in_bounds(a, b) ==> (m.cell(a, b).is_revealed ==> (#[trigger] m.after_reveal(
                r,
                c,
                draws,
            ).cell(a, b)).is_revealed) && m.after_reveal(r, c, draws).cell(a, b).is_flagged == m.cell(
                a,
                b,
            ).is_flagged,
{
    assert forall|a: int, b: int| m.in_bounds(a, b) implies (m.cell(a, b).is_revealed ==> (
    #[trigger] m.after_reveal(r, c, draws).cell(a, b)).is_revealed) && m.after_reveal(
        r,
        c,
        draws,
    ).cell(a, b).is_flagged == m.cell(a, b).is_flagged by {
        let placed = crate::scan_logic::mine_positions(m.rows, m.cols, m.mines, r, c, draws);
        let w = m.with_mines(placed);
        let gen = m.generated(r, c, draws);
        assert(w.cell(a, b).is_revealed == m.cell(a, b).is_revealed);
        assert(w.cell(a, b).is_flagged == m.cell(a, b).is_flagged);
        assert(gen.cell(a, b).is_revealed == w.cell(a, b).is_revealed);
        assert(gen.cell(a, b).is_flagged == w.cell(a, b).is_flagged);
        let g = if m.first_click {
            gen
        } else {
            m
        };
        assert(g.exploded(r, c).cell(a, b).is_flagged == g.cell(a, b).is_flagged);
        assert(g.flooded(r, c).cell(a, b).is_flagged == g.cell(a, b).is_flagged);
        assert(g.cell(a, b).is_revealed ==> g.exploded(r, c).cell(a, b).is_revealed);
        assert(g.cell(a, b).is_revealed ==> g.flooded(r, c).cell(a, b).is_revealed);
    }
}

/// Setting and then clearing a beacon (or the reverse) restores the board.
pub proof fn law_toggle_twice(m: BoardModel, r: int, c: int)
    requires
        m.well_shaped(),
        m.in_bounds(r, c),
    ensures
        m.after_toggle(r, c).after_toggle(r, c) == m,
{
    let t = m.after_toggle(r, c);
    if t != m {
        assert(t.cells[r] =~= t.cells[r]);
        assert(t.after_toggle(r, c).cells[r] =~= m.cells[r]);
        assert(t.after_toggle(r, c).cells =~= m.cells);
    }
}

/// Once the game is won or lost, neither a reveal nor a flag toggle
/// changes the board.
pub proof fn law_game_over_is_final(m: BoardModel, r: int, c: int, draws: Seq<usize>)
    requires
        m.status == GameStatus::Won || m.status == GameStatus::Lost,
    ensures
        m.after_reveal(r, c, draws) == m,
        m.after_toggle(r, c) == m,
{
}

/// A reveal that hits a mine loses the game and shows every mine.
pub proof fn law_loss_shows_every_mine(m: BoardModel, r: int, c: int, draws: Seq<usize>)
    requires
        m.well_shaped(),
        m.in_bounds(r, c),
        m.after_reveal(r, c, draws).status == GameStatus::Lost,
        m.status != GameStatus::Lost,
    ensures
        forall|a: int, b: int|
            m.in_bounds(a, b) && (#[trigger] m.after_reveal(r, c, draws).cell(a, b)).is_mine
                ==> m.after_reveal(r, c, draws).cell(a, b).is_revealed,
{
}

/// A reveal that wins the game leaves every square without a mine open.
pub proof fn law_win_means_cleared(m: BoardModel, r: int, c: int, draws: Seq<usize>)
    requires
        m.status != GameStatus::Won,
        m.after_reveal(r, c, draws).status == GameStatus::Won,
    ensures
        m.after_reveal(r, c, draws).cleared(),
{
    let g = if m.first_click {
        m.generated(r, c, draws)
    } else {
        m
    };
    let f = g.flooded(r, c);
    let w = m.after_reveal(r, c, draws);
    assert(w.cells == f.cells);
    assert(f.cleared());
    assert forall|a: int, b: int| w.in_bounds(a, b) implies (#[trigger] w.cell(a, b)).is_mine
        || w.cell(a, b).is_revealed by {
        assert(w.cell(a, b) == f.cell(a, b));
    }
}

/// Number of the indices `0..upto` within one of `s`.
spec fn near_count(upto: int, s: int) -> int {
    let lo = if s - 1 > 0 {
        s - 1
    } else {
        0
    };
    let hi = if upto < s + 2 {
        upto
    } else {
        s + 2
    };
    if hi > lo {
        hi - lo
    } else {
        0
    }
}

proof fn lemma_row_candidates_len(r: int, upto: int, sr: int, sc: int)
    requires
        0 <= upto,
    ensures
        row_candidates(r, upto, sr, sc).len() == if -1 <= r - sr <= 1 {
            upto - near_count(upto, sc)
        } else {
            upto
        },
    decreases upto,
{
    if upto > 0 {
        lemma_row_candidates_len(r, upto - 1, sr, sc);
    }
}

proof fn lemma_candidates_len(upto: int, cols: int, sr: int, sc: int)
    requires
        0 <= upto,
        0 <= cols,
    ensures
        candidates(upto, cols, sr, sc).len() + 3 * near_count(upto, sr) >= upto * cols,
    decreases upto,
{
    if upto > 0 {
        lemma_candidates_len(upto - 1, cols, sr, sc);
        lemma_row_candidates_len(upto - 1, cols, sr, sc);
        let a = candidates(upto - 1, cols, sr, sc);
        let b = row_candidates(upto - 1, cols, sr, sc);
        assert(candidates(upto, cols, sr, sc).len() == a.len() + b.len());
        assert(near_count(cols, sc) <= 3);
        assert(near_count(upto, sr) == near_count(upto - 1, sr) + if -1 <= upto - 1 - sr <= 1 {
            1int
        } else {
            0int
        });
        assert((upto - 1) * cols + cols == upto * cols) by (nonlinear_arith);
    } else {
        assert(upto * cols == 0) by (nonlinear_arith)
            requires
                upto == 0,
        ;
    }
}

/// Whatever the first click, every preset has room for all its mines
/// outside the 3x3 block of the click.
pub proof fn law_presets_have_room(sector: Sector, sr: int, sc: int)
    ensures
        ({
            let (rows, cols, mines) = sector.dimensions();
            candidates(rows as int, cols as int, sr, sc).len() >= mines
        }),
{
    let (rows, cols, mines) = sector.dimensions();
    lemma_candidates_len(rows as int, cols as int, sr, sc);
}

impl BoardModel {
    /// Some square holding a mine is open.
    pub open spec fn some_mine_revealed(self) -> bool {
        exists|r: int, c: int|
            self.in_bounds(r, c) && (#[trigger] self.cell(r, c)).is_mine && self.cell(r, c).is_revealed
    }

    /// Every square holding a mine is open.
    pub open spec fn all_mines_revealed(self) -> bool {
        forall|r: int, c: int|
            self.in_bounds(r, c) && (#[trigger] self.cell(r, c)).is_mine ==> self.cell(r, c).is_revealed
    }

    /// No square is open.
    pub open spec fn none_revealed(self) -> bool {
        forall|r: int, c: int| self.in_bounds(r, c) ==> !(#[trigger] self.cell(r, c)).is_revealed
    }

    /// No open square carries a beacon.
    pub open spec fn no_open_beacon(self) -> bool {
        forall|r: int, c: int|
            self.in_bounds(r, c) ==> !((#[trigger] self.cell(r, c)).is_revealed && self.cell(
                r,
                c,
            ).is_flagged)
    }

    /// What holds of every board that play can reach from a fresh board of
    /// `sector`.
    pub open spec fn game_invariant(self, sector: Sector) -> bool {
        let (rows, cols, mines) = sector.dimensions();
        &&& self.sector == sector
        &&& self.rows == rows
        &&& self.cols == cols
        &&& self.mines == mines
        &&& self.well_shaped()
        &&& (self.first_click <==> self.status == GameStatus::NotStarted)
        &&& self.status == GameStatus::NotStarted ==> self.no_mines() && self.none_revealed()
        &&& self.status != GameStatus::NotStarted ==> {
            &&& self.mine_squares().finite()
            &&& self.mine_squares().len() == mines
            &&& self.numbers_consistent()
        }
        &&& (self.status == GameStatus::Lost <==> self.some_mine_revealed())
        &&& self.status == GameStatus::Lost ==> self.all_mines_revealed()
        &&& (self.status == GameStatus::Won <==> (self.status != GameStatus::NotStarted
            && self.status != GameStatus::Lost && self.cleared()))
        &&& self.status != GameStatus::Lost ==> self.no_open_beacon()
    }
}

/// Two boards of the same size whose squares hold the same mines and show
/// the same numbers.
spec fn same_ground(a: BoardModel, b: BoardModel) -> bool {
    &&& a.rows == b.rows
    &&& a.cols == b.cols
    &&& forall|r: int, c: int|
        #![trigger a.cell(r, c)]
        #![trigger b.cell(r, c)]
        a.in_bounds(r, c) ==> a.cell(r, c).is_mine == b.cell(r, c).is_mine && a.cell(
            r,
            c,
        ).adjacent_mines == b.cell(r, c).adjacent_mines
}

proof fn lemma_same_ground(a: BoardModel, b: BoardModel)
    requires
        same_ground(a, b),
    ensures
        a.mine_squares() == b.mine_squares(),
        a.numbers_consistent() == b.numbers_consistent(),
        a.no_mines() == b.no_mines(),
{
    assert forall|r: int, c: int| #[trigger] a.mine_at(r, c) == b.mine_at(r, c) by {
        if a.in_bounds(r, c) {
            assert(a.cell(r, c).is_mine == b.cell(r, c).is_mine);
        }
    }
    assert forall|r: int, c: int| a.mines_around(r, c) == #[trigger] b.mines_around(r, c) by {
        assert(a.mine_at(r - 1, c - 1) == b.mine_at(r - 1, c - 1));
        assert(a.mine_at(r - 1, c) == b.mine_at(r - 1, c));
        assert(a.mine_at(r - 1, c + 1) == b.mine_at(r - 1, c + 1));
        assert(a.mine_at(r, c - 1) == b.mine_at(r, c - 1));
        assert(a.mine_at(r, c) == b.mine_at(r, c));
        assert(a.mine_at(r, c + 1) == b.mine_at(r, c + 1));
        assert(a.mine_at(r + 1, c - 1) == b.mine_at(r + 1, c - 1));
        assert(a.mine_at(r + 1, c) == b.mine_at(r + 1, c));
        assert(a.mine_at(r + 1, c + 1) == b.mine_at(r + 1, c + 1));
    }
    assert(a.mine_squares() =~= b.mine_squares());
    if a.numbers_consistent() {
        assert forall|r: int, c: int|
            b.in_bounds(r, c) && !(#[trigger] b.cell(r, c)).is_mine implies b.cell(
            r,
            c,
        ).adjacent_mines == b.mines_around(r, c) by {
            assert(a.cell(r, c).is_mine == b.cell(r, c).is_mine);
        }
    }
    if b.numbers_consistent() {
        assert forall|r: int, c: int|
            a.in_bounds(r, c) && !(#[trigger] a.cell(r, c)).is_mine implies a.cell(
            r,
            c,
        ).adjacent_mines == a.mines_around(r, c) by {
            assert(b.cell(r, c).is_mine == a.cell(r, c).is_mine);
            assert(b.mines_around(r, c) == a.mines_around(r, c));
        }
    }
    if a.no_mines() {
        assert forall|r: int, c: int| b.in_bounds(r, c) implies !(#[trigger] b.cell(r, c)).is_mine by {
            assert(a.cell(r, c).is_mine == b.cell(r, c).is_mine);
        }
    }
    if b.no_mines() {
        assert forall|r: int, c: int| a.in_bounds(r, c) implies !(#[trigger] a.cell(r, c)).is_mine by {
            assert(b.cell(r, c).is_mine == a.cell(r, c).is_mine);
        }
    }
}

/// A fresh board satisfies the game invariant.
pub proof fn law_initial_invariant(sector: Sector)
    ensures
        BoardModel::initial(sector).game_invariant(sector),
{
    let m = BoardModel::initial(sector);
    assert(m.well_shaped());
    assert(!m.some_mine_revealed());
}

/// Toggling a beacon on the board keeps the game invariant.
#[verifier::spinoff_prover]
pub proof fn law_toggle_keeps_invariant(m: BoardModel, sector: Sector, r: int, c: int)
    requires
        m.game_invariant(sector),
        m.in_bounds(r, c),
    ensures
        m.after_toggle(r, c).game_invariant(sector),
{
    let t = m.after_toggle(r, c);
    if t != m {
        let flipped = Cell { is_flagged: !m.cell(r, c).is_flagged, ..m.cell(r, c) };
        assert(t.cells == m.cells.update(r, m.cells[r].update(c, flipped)));
        assert forall|a: int, b: int| #![trigger t.cell(a, b)] m.in_bounds(a, b) implies t.cell(a, b)
            == if a == r && b == c {
            flipped
        } else {
            m.cell(a, b)
        } by {
            if a == r {
                assert(t.cells[a] == m.cells[r].update(c, flipped));
            }
        }
        assert(t.well_shaped());
        assert(same_ground(m, t));
        lemma_same_ground(m, t);
        if m.some_mine_revealed() {
            let (a, b) = choose|a: int, b: int|
                m.in_bounds(a, b) && (#[trigger] m.cell(a, b)).is_mine && m.cell(a, b).is_revealed;
            assert(t.cell(a, b).is_mine && t.cell(a, b).is_revealed);
        }
        if t.some_mine_revealed() {
            let (a, b) = choose|a: int, b: int|
                t.in_bounds(a, b) && (#[trigger] t.cell(a, b)).is_mine && t.cell(a, b).is_revealed;
            assert(m.cell(a, b).is_mine && m.cell(a, b).is_revealed);
        }
        assert(t.cleared() == m.cleared());
    }
}

/// A board of `sector` in a running game, its mines placed and numbered,
/// no mine open and no open square carrying a beacon.
spec fn in_play(g: BoardModel, sector: Sector) -> bool {
    let (rows, cols, mines) = sector.dimensions();
    &&& g.sector == sector
    &&& g.rows == rows
    &&& g.cols == cols
    &&& g.mines == mines
    &&& g.well_shaped()
    &&& g.status == GameStatus::Playing
    &&& !g.first_click
    &&& g.mine_squares().finite()
    &&& g.mine_squares().len() == mines
    &&& g.numbers_consistent()
    &&& !g.some_mine_revealed()
    &&& g.no_open_beacon()
}

/// The board a reveal at `(r, c)` works on, mines placed on the first
/// click, is in play.
proof fn lemma_reveal_ground(m: BoardModel, sector: Sector, r: int, c: int, draws: Seq<usize>)
    requires
        m.game_invariant(sector),
        m.in_bounds(r, c),
        m.status == GameStatus::NotStarted || m.status == GameStatus::Playing,
        !m.cell(r, c).is_revealed,
        !m.cell(r, c).is_flagged,
    ensures
        ({
            let g = if m.first_click {
                m.generated(r, c, draws)
            } else {
                m
            };
            &&& in_play(g, sector)
            &&& !g.cell(r, c).is_revealed
            &&& !g.cell(r, c).is_flagged
            &&& m.first_click ==> !g.cell(r, c).is_mine
        }),
{
    if m.first_click {
        let g = m.generated(r, c, draws);
        let placed = mine_positions(m.rows, m.cols, m.mines, r, c, draws);
        let w = m.with_mines(placed);
        assert(g.well_shaped());
        assert forall|a: int, b: int| #![trigger g.cell(a, b)] m.in_bounds(a, b) implies g.cell(a, b).is_revealed
            == m.cell(a, b).is_revealed && g.cell(a, b).is_flagged == m.cell(a, b).is_flagged by {
            assert(w.cell(a, b).is_revealed == m.cell(a, b).is_revealed);
            assert(w.cell(a, b).is_flagged == m.cell(a, b).is_flagged);
            assert(g.cell(a, b).is_revealed == w.cell(a, b).is_revealed);
            assert(g.cell(a, b).is_flagged == w.cell(a, b).is_flagged);
        }
        law_mine_count(m, r, c, draws);
        law_presets_have_room(sector, r, c);
        law_numbers_match_mines(m, r, c, draws);
        law_first_click_is_safe(m, r, c, draws);
        assert(adjacent((r, c), (r, c)));
        if g.some_mine_revealed() {
            let (a, b) = choose|a: int, b: int|
                g.in_bounds(a, b) && (#[trigger] g.cell(a, b)).is_mine && g.cell(a, b).is_revealed;
            assert(m.cell(a, b).is_revealed);
        }
        assert forall|a: int, b: int| g.in_bounds(a, b) implies !((#[trigger] g.cell(a, b)).is_revealed
            && g.cell(a, b).is_flagged) by {
            assert(!m.cell(a, b).is_revealed);
        }
    }
}

/// Stepping on a mine of a board in play gives a board that keeps the
/// game invariant.
proof fn lemma_exploded_invariant(g: BoardModel, sector: Sector, r: int, c: int)
    requires
        in_play(g, sector),
        g.in_bounds(r, c),
        g.cell(r, c).is_mine,
    ensures
        g.exploded(r, c).game_invariant(sector),
{
    let e = g.exploded(r, c);
    assert(e.well_shaped());
    assert(same_ground(g, e));
    lemma_same_ground(g, e);
    assert(e.cell(r, c).is_mine && e.cell(r, c).is_revealed);
    assert(e.some_mine_revealed());
}

/// The flood fill from a square without a mine of a board in play gives a
/// board (won once cleared) that keeps the game invariant.
proof fn lemma_flooded_invariant(g: BoardModel, sector: Sector, r: int, c: int)
    requires
        in_play(g, sector),
        g.in_bounds(r, c),
        !g.cell(r, c).is_mine,
    ensures
        ({
            let f = g.flooded(r, c);
            let w = if f.cleared() {
                BoardModel { status: GameStatus::Won, ..f }
            } else {
                f
            };
            w.game_invariant(sector)
        }),
{
    let f = g.flooded(r, c);
    let w = if f.cleared() {
        BoardModel { status: GameStatus::Won, ..f }
    } else {
        f
    };
    assert(f.well_shaped());
    assert(same_ground(g, f));
    lemma_same_ground(g, f);
    assert(same_ground(f, w));
    lemma_same_ground(f, w);
    law_flood_opens_no_mine(g, r, c);
    if w.some_mine_revealed() {
        let (a, b) = choose|a: int, b: int|
            w.in_bounds(a, b) && (#[trigger] w.cell(a, b)).is_mine && w.cell(a, b).is_revealed;
        assert(f.cell(a, b).is_revealed);
        assert(g.cell(a, b).is_mine);
        assert(g.cell(a, b).is_revealed);
    }
    assert forall|a: int, b: int| w.in_bounds(a, b) implies !((#[trigger] w.cell(a, b)).is_revealed
        && w.cell(a, b).is_flagged) by {
        assert(w.cell(a, b) == f.cell(a, b));
        if !g.cell(a, b).is_revealed && f.cell(a, b).is_revealed {
            assert(g.reachable((r, c), (a, b)));
            let path = choose|path: Seq<(int, int)>|
                #[trigger] g.is_flood_path(path) && path[0] == (r, c) && path.last() == (a, b);
            assert(g.openable(path[path.len() - 1]));
        }
    }
    assert forall|a: int, b: int| w.in_bounds(a, b) implies (#[trigger] w.cell(a, b)).is_mine
        || w.cell(a, b).is_revealed <==> f.cell(a, b).is_mine || f.cell(a, b).is_revealed by {}
    assert(w.cleared() == f.cleared());
}

/// Revealing a square of the board keeps the game invariant.
pub proof fn law_reveal_keeps_invariant(
    m: BoardModel,
    sector: Sector,
    r: int,
    c: int,
    draws: Seq<usize>,
)
    requires
        m.game_invariant(sector),
        m.in_bounds(r, c),
    ensures
        m.after_reveal(r, c, draws).game_invariant(sector),
{
    if m.status != GameStatus::Won && m.status != GameStatus::Lost && !m.cell(r, c).is_revealed
        && !m.cell(r, c).is_flagged {
        lemma_reveal_ground(m, sector, r, c, draws);
        let g = if m.first_click {
            m.generated(r, c, draws)
        } else {
            m
        };
        if g.cell(r, c).is_mine {
            lemma_exploded_invariant(g, sector, r, c);
        } else {
            lemma_flooded_invariant(g, sector, r, c);
        }
    }
}

/// One move of the player: a reveal at a square with the draws that place
/// the mines, or a beacon toggle at a square.
pub enum Action {
    Reveal(int, int, Seq<usize>),
    Toggle(int, int),
}

impl Action {
    /// The square of the move lies on a board of `rows` by `cols`.
    pub open spec fn on_board(self, rows: int, cols: int) -> bool {
        match self {
            Action::Reveal(r, c, _) => 0 <= r < rows && 0 <= c < cols,
            Action::Toggle(r, c) => 0 <= r < rows && 0 <= c < cols,
        }
    }
}

impl BoardModel {
    /// The board after one move.
    pub open spec fn after_action(self, action: Action) -> BoardModel {
        match action {
            Action::Reveal(r, c, draws) => self.after_reveal(r, c, draws),
            Action::Toggle(r, c) => self.after_toggle(r, c),
        }
    }
}

/// The board reached from a fresh board of `sector` by the moves of
/// `actions`, in order.
pub open spec fn played(sector: Sector, actions: Seq<Action>) -> BoardModel
    decreases actions.len(),
{
    if actions.len() == 0 {
        BoardModel::initial(sector)
    } else {
        played(sector, actions.drop_last()).after_action(actions.last())
    }
}

/// Whatever moves are played on a fresh board, each on a square of the
/// board, the game invariant holds: the grid keeps its size; the mines are
/// not placed before the first reveal, and from then on there are exactly
/// the preset's number of them and every square without a mine shows the
/// mines around it; the game is lost exactly when a mine is open, and then
/// every mine is open; it is won exactly when it has started, is not lost
/// and every square without a mine is open; and short of a loss no open
/// square carries a beacon.
pub proof fn law_game_invariant(sector: Sector, actions: Seq<Action>)
    requires
        forall|i: int|
            0 <= i < actions.len() ==> (#[trigger] actions[i]).on_board(
                sector.dimensions().0 as int,
                sector.dimensions().1 as int,
            ),
    ensures
        played(sector, actions).game_invariant(sector),
    decreases actions.len(),
{
    if actions.len() == 0 {
        law_initial_invariant(sector);
    } else {
        let before = actions.drop_last();
        assert forall|i: int| 0 <= i < before.len() implies (#[trigger] before[i]).on_board(
            sector.dimensions().0 as int,
            sector.dimensions().1 as int,
        ) by {
            assert(before[i] == actions[i]);
        }
        law_game_invariant(sector, before);
        let m = played(sector, before);
        let last = actions.last();
        assert(last.on_board(sector.dimensions().0 as int, sector.dimensions().1 as int));
        match last {
            Action::Reveal(r, c, draws) => {
                law_reveal_keeps_invariant(m, sector, r, c, draws);
            },
            Action::Toggle(r, c) => {
                law_toggle_keeps_invariant(m, sector, r, c);
            },
        }
    }
}

proof fn lemma_row_flagged_update(row: Seq<Cell>, c: int, x: Cell, n: int)
    requires
        0 <= c < row.len(),
        n <= row.len(),
    ensures
        row_flagged(row.update(c, x), n) + (if 0 <= c < n && row[c].is_flagged {
            1int
        } else {
            0int
        }) == row_flagged(row, n) + (if 0 <= c < n && x.is_flagged {
            1int
        } else {
            0int
        }),
    decreases n,
{
    if n > 0 {
        lemma_row_flagged_update(row, c, x, n - 1);
    }
}

proof fn lemma_grid_flagged_update(cells: Seq<Seq<Cell>>, r: int, row: Seq<Cell>, n: int)
    requires
        0 <= r < cells.len(),
        n <= cells.len(),
        row.len() == cells[r].len(),
    ensures
        grid_flagged(cells.update(r, row), n) + (if 0 <= r < n {
            row_flagged(cells[r], cells[r].len() as int) as int
        } else {
            0int
        }) == grid_flagged(cells, n) + (if 0 <= r < n {
            row_flagged(row, row.len() as int) as int
        } else {
            0int
        }),
    decreases n,
{
    if n > 0 {
        lemma_grid_flagged_update(cells, r, row, n - 1);
        assert(cells.update(r, row)[n - 1] == if n - 1 == r {
            row
        } else {
            cells[n - 1]
        });
    }
}

/// A beacon toggle moves the beacon count by one: up when the square gets
/// a beacon, down when its beacon is removed; a toggle that changes
/// nothing leaves the count as it was.
pub proof fn law_toggle_flag_count(m: BoardModel, r: int, c: int)
    requires
        m.well_shaped(),
        m.in_bounds(r, c),
    ensures
        ({
            let t = m.after_toggle(r, c);
            &&& !m.cell(r, c).is_flagged && t.cell(r, c).is_flagged ==> t.flagged_count()
                == m.flagged_count() + 1
            &&& m.cell(r, c).is_flagged && !t.cell(r, c).is_flagged ==> t.flagged_count()
                == m.flagged_count() - 1
            &&& t.cell(r, c).is_flagged == m.cell(r, c).is_flagged ==> t.flagged_count()
                == m.flagged_count()
        }),
{
    let t = m.after_toggle(r, c);
    if t != m {
        let flipped = Cell { is_flagged: !m.cell(r, c).is_flagged, ..m.cell(r, c) };
        let row = m.cells[r].update(c, flipped);
        assert(t.cells == m.cells.update(r, row));
        lemma_row_flagged_update(m.cells[r], c, flipped, m.cols as int);
        lemma_grid_flagged_update(m.cells, r, row, m.rows as int);
        assert(t.cell(r, c) == flipped);
    }
}

/// A reveal that steps on a mine is reported as a hazard, whatever state
/// the game was in before; a reveal that secures the sector is reported as
/// secured.
pub proof fn law_reveal_outcome_is_reported(
    m: BoardModel,
    r: int,
    c: int,
    draws: Seq<usize>,
)
    requires
        0 <= r,
        0 <= c,
    ensures
        m.after_reveal(r, c, draws).status == GameStatus::Lost ==> reveal_message(
            m.status,
            m.after_reveal(r, c, draws).status,
            r as nat,
            c as nat,
        ) == Some(("Danger! Detonation hazard encountered."@, "error"@)),
        m.after_reveal(r, c, draws).status == GameStatus::Won ==> reveal_message(
            m.status,
            m.after_reveal(r, c, draws).status,
            r as nat,
            c as nat,
        ) == Some(("Sector secured successfully."@, "success"@)),
{
}

} // verus!
