//! Game logic of the sector scanner: the board, mine placement, the
//! flood-fill reveal, flags and the win/loss rules.

use vstd::prelude::*;

verus! {

/// The three difficulty presets.
#[derive(Clone, Copy, PartialEq, Eq, Hash, Debug, Structural)]
pub enum Sector {
    Alpha,
    Beta,
    Gamma,
}

impl Sector {
    /// `(rows, cols, mines)` of the preset.
    pub open spec fn dimensions(self) -> (usize, usize, usize) {
        match self {
            Sector::Alpha => (9, 9, 10),
            Sector::Beta => (16, 16, 40),
            Sector::Gamma => (30, 16, 99),
        }
    }

    /// The display name of the preset.
    pub open spec fn label(self) -> Seq<char> {
        match self {
            Sector::Alpha => "Alpha"@,
            Sector::Beta => "Beta"@,
            Sector::Gamma => "Gamma"@,
        }
    }

    pub fn config(self) -> (r: (usize, usize, usize))
        ensures
            r == self.dimensions(),
    {
        match self {
            Sector::Alpha => (9, 9, 10),
            Sector::Beta => (16, 16, 40),
            Sector::Gamma => (30, 16, 99),
        }
    }

    pub fn name(self) -> (r: &'static str)
        ensures
            r@ == self.label(),
    {
        match self {
            Sector::Alpha => "Alpha",
            Sector::Beta => "Beta",
            Sector::Gamma => "Gamma",
        }
    }
}

/// One square of the board.
#[derive(Clone, Copy, PartialEq, Eq, Debug, Structural)]
pub struct Cell {
    pub is_mine: bool,
    pub is_revealed: bool,
    pub is_flagged: bool,
    pub adjacent_mines: u8,
}

/// A covered, unflagged square without a mine.
pub open spec fn blank_cell() -> Cell {
    Cell { is_mine: false, is_revealed: false, is_flagged: false, adjacent_mines: 0 }
}

impl Cell {
    pub fn new() -> (r: Self)
        ensures
            r == blank_cell(),
    {
        Cell { is_mine: false, is_revealed: false, is_flagged: false, adjacent_mines: 0 }
    }
}

#[derive(Clone, Copy, PartialEq, Eq, Debug, Structural)]
pub enum GameStatus {
    NotStarted,
    Playing,
    Won,
    Lost,
}

#[derive(Clone, PartialEq, Debug)]
pub struct BoardState {
    pub sector: Sector,
    pub rows: usize,
    pub cols: usize,
    pub mines: usize,
    pub grid: Vec<Vec<Cell>>,
    pub status: GameStatus,
    pub first_click: bool,
}

/// The mathematical state of a board: its fields, with the grid as a
/// sequence of rows.
#[verifier::ext_equal]
pub struct BoardModel {
    pub sector: Sector,
    pub rows: usize,
    pub cols: usize,
    pub mines: usize,
    pub cells: Seq<Seq<Cell>>,
    pub status: GameStatus,
    pub first_click: bool,
}

impl View for BoardState {
    type V = BoardModel;

    open spec fn view(&self) -> BoardModel {
        BoardModel {
            sector: self.sector,
            rows: self.rows,
            cols: self.cols,
            mines: self.mines,
            cells: self.grid@.map_values(|row: Vec<Cell>| row@),
            status: self.status,
            first_click: self.first_click,
        }
    }
}

/// `q` is `p` or one of its eight neighbours (the 3x3 block around `p`).
pub open spec fn adjacent(p: (int, int), q: (int, int)) -> bool {
    -1 <= q.0 - p.0 <= 1 && -1 <= q.1 - p.1 <= 1
}

/// Candidate mine squares of row `r`, columns `0..upto`, in column order,
/// leaving out the 3x3 block around the first click `(sr, sc)`.
pub open spec fn row_candidates(r: int, upto: int, sr: int, sc: int) -> Seq<(usize, usize)>
    decreases upto,
{
    if upto <= 0 {
        seq![]
    } else {
        let prev = row_candidates(r, upto - 1, sr, sc);
        if adjacent((sr, sc), (r, upto - 1)) {
            prev
        } else {
            prev.push((r as usize, (upto - 1) as usize))
        }
    }
}

/// Candidate mine squares of rows `0..upto` in row-major order, leaving out
/// the 3x3 block around the first click `(sr, sc)`.
pub open spec fn candidates(upto: int, cols: int, sr: int, sc: int) -> Seq<(usize, usize)>
    decreases upto,
{
    if upto <= 0 {
        seq![]
    } else {
        candidates(upto - 1, cols, sr, sc) + row_candidates(upto - 1, cols, sr, sc)
    }
}

/// The partner of position `i` in the shuffle: the draw for `i` reduced
/// into `0..=i`, or `i` itself when no draw was supplied.
pub open spec fn partner(draws: Seq<usize>, i: int) -> int {
    if 0 <= i < draws.len() {
        (draws[i] as int) % (i + 1)
    } else {
        i
    }
}

pub open spec fn swap<A>(s: Seq<A>, i: int, j: int) -> Seq<A> {
    s.update(i, s[j]).update(j, s[i])
}

/// Fisher-Yates steps for positions `i, i-1, ..., 1`.
pub open spec fn shuffle_down<A>(s: Seq<A>, draws: Seq<usize>, i: int) -> Seq<A>
    decreases i,
{
    if i <= 0 {
        s
    } else {
        shuffle_down(swap(s, i, partner(draws, i)), draws, i - 1)
    }
}

/// The Fisher-Yates shuffle of `s` driven by `draws`.
pub open spec fn shuffled<A>(s: Seq<A>, draws: Seq<usize>) -> Seq<A> {
    shuffle_down(s, draws, s.len() - 1)
}

/// The squares that receive a mine when the first click is `(sr, sc)`:
/// the first `min(mines, #candidates)` candidates after the shuffle.
pub open spec fn mine_positions(
    rows: usize,
    cols: usize,
    mines: usize,
    sr: int,
    sc: int,
    draws: Seq<usize>,
) -> Seq<(usize, usize)> {
    let s = shuffled(candidates(rows as int, cols as int, sr, sc), draws);
    s.take(if mines < s.len() { mines as int } else { s.len() as int })
}

/// Number of covered squares among the first `n` of a row.
pub open spec fn row_hidden(row: Seq<Cell>, n: int) -> nat
    decreases n,
{
    if n <= 0 {
        0
    } else {
        row_hidden(row, n - 1) + if !row[n - 1].is_revealed { 1nat } else { 0nat }
    }
}

/// Number of covered squares in the first `n` rows.
pub open spec fn grid_hidden(cells: Seq<Seq<Cell>>, n: int) -> nat
    decreases n,
{
    if n <= 0 {
        0
    } else {
        grid_hidden(cells, n - 1) + row_hidden(cells[n - 1], cells[n - 1].len() as int)
    }
}

/// Number of flagged squares among the first `n` of a row.
pub open spec fn row_flagged(row: Seq<Cell>, n: int) -> nat
    decreases n,
{
    if n <= 0 {
        0
    } else {
        row_flagged(row, n - 1) + if row[n - 1].is_flagged { 1nat } else { 0nat }
    }
}

/// Number of flagged squares in the first `n` rows.
pub open spec fn grid_flagged(cells: Seq<Seq<Cell>>, n: int) -> nat
    decreases n,
{
    if n <= 0 {
        0
    } else {
        grid_flagged(cells, n - 1) + row_flagged(cells[n - 1], cells[n - 1].len() as int)
    }
}


/// `p` comes before `q` in row-major order.
pub open spec fn row_major_lt(p: (usize, usize), q: (usize, usize)) -> bool {
    p.0 < q.0 || (p.0 == q.0 && p.1 < q.1)
}

/// A candidate of a board of `rows` by `cols` with the first click at `(sr, sc)`.
pub open spec fn candidate_ok(p: (usize, usize), rows: int, cols: int, sr: int, sc: int) -> bool {
    p.0 < rows && p.1 < cols && !adjacent((sr, sc), (p.0 as int, p.1 as int))
}

proof fn lemma_row_candidates(r: int, upto: int, sr: int, sc: int)
    requires
        0 <= r <= usize::MAX,
        upto <= usize::MAX,
    ensures
        forall|k: int|
            0 <= k < row_candidates(r, upto, sr, sc).len() ==> {
                let p = #[trigger] row_candidates(r, upto, sr, sc)[k];
                p.0 == r && p.1 < upto && !adjacent((sr, sc), (p.0 as int, p.1 as int))
            },
        forall|i: int, j: int|
            0 <= i < j < row_candidates(r, upto, sr, sc).len() ==> row_major_lt(
                #[trigger] row_candidates(r, upto, sr, sc)[i],
                #[trigger] row_candidates(r, upto, sr, sc)[j],
            ),
    decreases upto,
{
    if upto > 0 {
        lemma_row_candidates(r, upto - 1, sr, sc);
        let prev = row_candidates(r, upto - 1, sr, sc);
        let s = row_candidates(r, upto, sr, sc);
        if !adjacent((sr, sc), (r, upto - 1)) {
            let q = (r as usize, (upto - 1) as usize);
            assert(s == prev.push(q));
            assert forall|k: int| 0 <= k < s.len() implies ({
                let p = #[trigger] s[k];
                p.0 == r && p.1 < upto && !adjacent((sr, sc), (p.0 as int, p.1 as int))
            }) by {
                if k < prev.len() {
                    assert(s[k] == prev[k]);
                }
            }
            assert forall|i: int, j: int| 0 <= i < j < s.len() implies row_major_lt(#[trigger] s[i], #[trigger] s[j]) by {
                assert(s[i] == prev[i]);
                if j < prev.len() {
                    assert(s[j] == prev[j]);
                }
            }
        }
    }
}

/// The candidates are squares of the board outside the 3x3 block of the
/// first click, listed in strictly increasing row-major order.
pub proof fn lemma_candidates(upto: int, cols: int, sr: int, sc: int)
    requires
        upto <= usize::MAX,
        cols <= usize::MAX,
    ensures
        forall|k: int|
            0 <= k < candidates(upto, cols, sr, sc).len() ==> candidate_ok(
                #[trigger] candidates(upto, cols, sr, sc)[k],
                upto,
                cols,
                sr,
                sc,
            ),
        forall|i: int, j: int|
            0 <= i < j < candidates(upto, cols, sr, sc).len() ==> row_major_lt(
                #[trigger] candidates(upto, cols, sr, sc)[i],
                #[trigger] candidates(upto, cols, sr, sc)[j],
            ),
        candidates(upto, cols, sr, sc).no_duplicates(),
    decreases upto,
{
    if upto > 0 {
        lemma_candidates(upto - 1, cols, sr, sc);
        lemma_row_candidates(upto - 1, cols, sr, sc);
        let a = candidates(upto - 1, cols, sr, sc);
        let b = row_candidates(upto - 1, cols, sr, sc);
        let s = candidates(upto, cols, sr, sc);
        assert(s == a + b);
        assert forall|k: int| 0 <= k < s.len() implies candidate_ok(#[trigger] s[k], upto, cols, sr, sc) by {
            if k < a.len() {
                assert(s[k] == a[k]);
            } else {
                assert(s[k] == b[k - a.len()]);
            }
        }
        assert forall|i: int, j: int| 0 <= i < j < s.len() implies row_major_lt(#[trigger] s[i], #[trigger] s[j]) by {
            if j < a.len() {
                assert(s[i] == a[i] && s[j] == a[j]);
            } else if i >= a.len() {
                assert(s[i] == b[i - a.len()] && s[j] == b[j - a.len()]);
            } else {
                assert(s[i] == a[i] && s[j] == b[j - a.len()]);
            }
        }
    }
    let s = candidates(upto, cols, sr, sc);
    assert forall|i: int, j: int| 0 <= i < s.len() && 0 <= j < s.len() && i != j implies s[i] != s[j] by {
        if i < j {
            assert(row_major_lt(s[i], s[j]));
        } else {
            assert(row_major_lt(s[j], s[i]));
        }
    }
}

proof fn lemma_swap<A>(s: Seq<A>, i: int, j: int)
    requires
        0 <= i < s.len(),
        0 <= j < s.len(),
    ensures
        swap(s, i, j).len() == s.len(),
        forall|x: A| swap(s, i, j).contains(x) <==> s.contains(x),
        s.no_duplicates() ==> swap(s, i, j).no_duplicates(),
{
    let t = swap(s, i, j);
    let sigma = |k: int| if k == j { i } else if k == i { j } else { k };
    assert forall|k: int| 0 <= k < t.len() implies #[trigger] t[k] == s[sigma(k)] by {}
    assert forall|x: A| t.contains(x) <==> s.contains(x) by {
        if t.contains(x) {
            let k = choose|k: int| 0 <= k < t.len() && t[k] == x;
            assert(s[sigma(k)] == x);
        }
        if s.contains(x) {
            let k = choose|k: int| 0 <= k < s.len() && s[k] == x;
            assert(t[sigma(k)] == x);
        }
    }
    if s.no_duplicates() {
        assert forall|a: int, b: int| 0 <= a < t.len() && 0 <= b < t.len() && a != b implies t[a] != t[b] by {
            assert(t[a] == s[sigma(a)] && t[b] == s[sigma(b)]);
        }
    }
}

/// The shuffle is a permutation: same length, same elements, and no
/// duplicates when there were none.
pub proof fn lemma_shuffle_down<A>(s: Seq<A>, draws: Seq<usize>, i: int)
    requires
        i < s.len(),
    ensures
        shuffle_down(s, draws, i).len() == s.len(),
        forall|x: A| shuffle_down(s, draws, i).contains(x) <==> s.contains(x),
        s.no_duplicates() ==> shuffle_down(s, draws, i).no_duplicates(),
    decreases i,
{
    if i > 0 {
        let j = partner(draws, i);
        assert(0 <= j <= i);
        lemma_swap(s, i, j);
        lemma_shuffle_down(swap(s, i, j), draws, i - 1);
    }
}

/// The mines placed after the first click at `(sr, sc)` are distinct
/// squares of the board outside the 3x3 block of the click, and there are
/// `min(mines, #candidates)` of them.
pub proof fn lemma_mine_positions(rows: usize, cols: usize, mines: usize, sr: int, sc: int, draws: Seq<usize>)
    ensures
        ({
            let placed = mine_positions(rows, cols, mines, sr, sc, draws);
            let n = candidates(rows as int, cols as int, sr, sc).len();
            &&& placed.len() == if mines < n { mines as nat } else { n }
            &&& placed.no_duplicates()
            &&& forall|k: int| 0 <= k < placed.len() ==> candidate_ok(#[trigger] placed[k], rows as int, cols as int, sr, sc)
        }),
{
    let cands = candidates(rows as int, cols as int, sr, sc);
    lemma_candidates(rows as int, cols as int, sr, sc);
    lemma_shuffle_down(cands, draws, cands.len() - 1);
    let sh = shuffled(cands, draws);
    let placed = mine_positions(rows, cols, mines, sr, sc, draws);
    assert forall|k: int| 0 <= k < placed.len() implies candidate_ok(#[trigger] placed[k], rows as int, cols as int, sr, sc) by {
        assert(placed[k] == sh[k]);
        assert(sh.contains(sh[k]));
        assert(cands.contains(sh[k]));
    }
    assert forall|a: int, b: int| 0 <= a < placed.len() && 0 <= b < placed.len() && a != b implies placed[a] != placed[b] by {
        assert(placed[a] == sh[a] && placed[b] == sh[b]);
    }
}

proof fn lemma_row_flagged_bounded(row: Seq<Cell>, n: int)
    requires
        0 <= n,
    ensures
        row_flagged(row, n) <= n,
    decreases n,
{
    if n > 0 {
        lemma_row_flagged_bounded(row, n - 1);
    }
}

/// The flag count of a well-shaped grid is at most its number of squares.
proof fn lemma_flagged_bounded(cells: Seq<Seq<Cell>>, n: int, cols: int)
    requires
        0 <= n <= cells.len(),
        0 <= cols,
        forall|r: int| 0 <= r < cells.len() ==> #[trigger] cells[r].len() == cols,
    ensures
        grid_flagged(cells, n) <= n * cols,
    decreases n,
{
    if n > 0 {
        lemma_flagged_bounded(cells, n - 1, cols);
        lemma_row_flagged_bounded(cells[n - 1], cols);
        assert(n * cols == (n - 1) * cols + cols) by (nonlinear_arith);
    }
}


proof fn lemma_row_hidden_mono(x: Seq<Cell>, y: Seq<Cell>, n: int, w: int)
    requires
        0 <= n <= x.len(),
        x.len() == y.len(),
        forall|k: int| 0 <= k < n ==> #[trigger] x[k].is_revealed ==> y[k].is_revealed,
    ensures
        row_hidden(y, n) <= row_hidden(x, n),
        0 <= w < n && !x[w].is_revealed && y[w].is_revealed ==> row_hidden(y, n) < row_hidden(x, n),
    decreases n,
{
    if n > 0 {
        lemma_row_hidden_mono(x, y, n - 1, w);
    }
}

/// Revealing squares never increases the number of covered squares, and
/// revealing a covered square `(wr, wc)` decreases it.
pub proof fn lemma_hidden_mono(a: BoardModel, b: BoardModel, n: int, wr: int, wc: int)
    requires
        a.well_shaped(),
        b.well_shaped(),
        a.only_more_revealed(b),
        0 <= n <= a.rows,
    ensures
        grid_hidden(b.cells, n) <= grid_hidden(a.cells, n),
        0 <= wr < n && 0 <= wc < a.cols && !a.cell(wr, wc).is_revealed && b.cell(wr, wc).is_revealed
            ==> grid_hidden(b.cells, n) < grid_hidden(a.cells, n),
    decreases n,
{
    if n > 0 {
        lemma_hidden_mono(a, b, n - 1, wr, wc);
        let x = a.cells[n - 1];
        let y = b.cells[n - 1];
        assert forall|k: int| 0 <= k < a.cols implies #[trigger] x[k].is_revealed ==> y[k].is_revealed by {
            assert(b.cell(n - 1, k).is_revealed == y[k].is_revealed);
        }
        lemma_row_hidden_mono(x, y, a.cols as int, if wr == n - 1 { wc } else { -1 });
    }
}

/// Along a flood path from an opened start, in a board where every newly
/// opened square is closed, every square of the path is open.
proof fn lemma_path_revealed(g: BoardModel, fin: BoardModel, path: Seq<(int, int)>, k: int)
    requires
        g.only_more_revealed(fin),
        g.is_flood_path(path),
        fin.cell(path[0].0, path[0].1).is_revealed,
        forall|a: int, b: int|
            g.in_bounds(a, b) && (#[trigger] fin.cell(a, b)).is_revealed && !g.cell(a, b).is_revealed
                ==> fin.closed_at(a, b),
        0 <= k < path.len(),
    ensures
        fin.cell(path[k].0, path[k].1).is_revealed,
    decreases k,
{
    if k > 0 {
        lemma_path_revealed(g, fin, path, k - 1);
        let p = path[k - 1];
        let q = path[k];
        assert(g.openable(p));
        assert(g.openable(q));
        assert(g.flood_step(path, k - 1));
        assert(fin.cell(p.0, p.1).adjacent_mines == 0);
        assert(fin.closed_at(p.0, p.1));
        assert(fin.in_bounds(q.0, q.1));
        assert(fin.cell(q.0, q.1).is_revealed || fin.cell(q.0, q.1).is_flagged);
    }
}

impl BoardModel {
    pub open spec fn in_bounds(self, r: int, c: int) -> bool {
        0 <= r < self.rows && 0 <= c < self.cols
    }

    pub open spec fn cell(self, r: int, c: int) -> Cell {
        self.cells[r][c]
    }

    /// The grid has `rows` rows of `cols` squares each.
    pub open spec fn well_shaped(self) -> bool {
        &&& self.cells.len() == self.rows
        &&& forall|r: int| 0 <= r < self.rows ==> #[trigger] self.cells[r].len() == self.cols
    }

    /// The board with square `(r, c)` replaced by `cell`.
    pub open spec fn with_cell(self, r: int, c: int, cell: Cell) -> BoardModel {
        BoardModel { cells: self.cells.update(r, self.cells[r].update(c, cell)), ..self }
    }

    /// 1 when `(r, c)` is on the board and holds a mine, else 0.
    pub open spec fn mine_at(self, r: int, c: int) -> nat {
        if self.in_bounds(r, c) && self.cell(r, c).is_mine {
            1
        } else {
            0
        }
    }

    /// Number of mines in the 3x3 block around `(r, c)` (the square itself included).
    pub open spec fn mines_around(self, r: int, c: int) -> nat {
        self.mine_at(r - 1, c - 1) + self.mine_at(r - 1, c) + self.mine_at(r - 1, c + 1)
            + self.mine_at(r, c - 1) + self.mine_at(r, c) + self.mine_at(r, c + 1)
            + self.mine_at(r + 1, c - 1) + self.mine_at(r + 1, c) + self.mine_at(r + 1, c + 1)
    }

    /// Number of flagged squares.
    pub open spec fn flagged_count(self) -> nat {
        grid_flagged(self.cells, self.rows as int)
    }

    /// Number of covered squares.
    pub open spec fn hidden_count(self) -> nat {
        grid_hidden(self.cells, self.rows as int)
    }

    /// Every square without a mine is revealed.
    pub open spec fn cleared(self) -> bool {
        forall|r: int, c: int|
            self.in_bounds(r, c) ==> (#[trigger] self.cell(r, c)).is_mine || self.cell(r, c).is_revealed
    }

    /// The board with a mine added on every square of `placed`.
    pub open spec fn with_mines(self, placed: Seq<(usize, usize)>) -> BoardModel {
        BoardModel {
            cells: Seq::new(
                self.rows as nat,
                |r: int|
                    Seq::new(
                        self.cols as nat,
                        |c: int|
                            Cell {
                                is_mine: self.cell(r, c).is_mine || placed.contains(
                                    (r as usize, c as usize),
                                ),
                                ..self.cell(r, c)
                            },
                    ),
            ),
            ..self
        }
    }

    /// The board with every square without a mine numbered with the
    /// mines around it.
    pub open spec fn numbered(self) -> BoardModel {
        BoardModel {
            cells: Seq::new(
                self.rows as nat,
                |r: int|
                    Seq::new(
                        self.cols as nat,
                        |c: int|
                            if self.cell(r, c).is_mine {
                                self.cell(r, c)
                            } else {
                                Cell { adjacent_mines: self.mines_around(r, c) as u8, ..self.cell(r, c) }
                            },
                    ),
            ),
            ..self
        }
    }

    /// The board right after the first click at `(sr, sc)`: the mines of
    /// `mine_positions` added, every square without a mine numbered with
    /// the mines around it, and the game running.
    pub open spec fn generated(self, sr: int, sc: int, draws: Seq<usize>) -> BoardModel {
        let placed = mine_positions(self.rows, self.cols, self.mines, sr, sc, draws);
        BoardModel {
            status: GameStatus::Playing,
            first_click: false,
            ..self.with_mines(placed).numbered()
        }
    }

    /// `p` is a square the flood fill may open: on the board, covered and
    /// not flagged.
    pub open spec fn openable(self, p: (int, int)) -> bool {
        self.in_bounds(p.0, p.1) && !self.cell(p.0, p.1).is_revealed && !self.cell(
            p.0,
            p.1,
        ).is_flagged
    }

    /// The fill continues from `path[i]` to `path[i + 1]`: the square at
    /// `path[i]` has no mine around it and the next one is in its 3x3 block.
    pub open spec fn flood_step(self, path: Seq<(int, int)>, i: int) -> bool {
        self.cell(path[i].0, path[i].1).adjacent_mines == 0 && adjacent(path[i], path[i + 1])
    }

    /// A chain of openable squares that the fill walks along.
    pub open spec fn is_flood_path(self, path: Seq<(int, int)>) -> bool {
        &&& path.len() > 0
        &&& forall|i: int| 0 <= i < path.len() ==> self.openable(#[trigger] path[i])
        &&& forall|i: int| 0 <= i < path.len() - 1 ==> #[trigger] self.flood_step(path, i)
    }

    /// The fill started at `from` opens `to`.
    pub open spec fn reachable(self, from: (int, int), to: (int, int)) -> bool {
        exists|path: Seq<(int, int)>|
            #[trigger] self.is_flood_path(path) && path[0] == from && path.last() == to
    }

    /// `later` differs from this board only in squares being revealed.
    pub open spec fn only_more_revealed(self, later: BoardModel) -> bool {
        &&& later.sector == self.sector
        &&& later.rows == self.rows
        &&& later.cols == self.cols
        &&& later.mines == self.mines
        &&& later.status == self.status
        &&& later.first_click == self.first_click
        &&& forall|r: int, c: int|
            #![trigger later.cell(r, c)]
            self.in_bounds(r, c) ==> {
                &&& later.cell(r, c).is_mine == self.cell(r, c).is_mine
                &&& later.cell(r, c).is_flagged == self.cell(r, c).is_flagged
                &&& later.cell(r, c).adjacent_mines == self.cell(r, c).adjacent_mines
                &&& (self.cell(r, c).is_revealed ==> later.cell(r, c).is_revealed)
            }
    }

    /// Every neighbour of an opened square without mines around it is open
    /// or flagged.
    pub open spec fn closed_at(self, a: int, b: int) -> bool {
        self.cell(a, b).adjacent_mines == 0 ==> forall|x: int, y: int|
            self.in_bounds(x, y) && adjacent((a, b), (x, y)) ==> (#[trigger] self.cell(x, y)).is_revealed
                || self.cell(x, y).is_flagged
    }

    /// The board after the flood fill from `(r, c)`: exactly the squares
    /// reachable from it are opened in addition.
    pub open spec fn flooded(self, r: int, c: int) -> BoardModel {
        BoardModel {
            cells: Seq::new(
                self.rows as nat,
                |a: int|
                    Seq::new(
                        self.cols as nat,
                        |b: int|
                            Cell {
                                is_revealed: self.cell(a, b).is_revealed || self.reachable(
                                    (r, c),
                                    (a, b),
                                ),
                                ..self.cell(a, b)
                            },
                    ),
            ),
            ..self
        }
    }

    /// The board after stepping on the mine at `(r, c)`: that square and
    /// every mine are revealed and the game is lost.
    pub open spec fn exploded(self, r: int, c: int) -> BoardModel {
        BoardModel {
            cells: Seq::new(
                self.rows as nat,
                |a: int|
                    Seq::new(
                        self.cols as nat,
                        |b: int|
                            Cell {
                                is_revealed: self.cell(a, b).is_revealed || self.cell(a, b).is_mine
                                    || (a == r && b == c),
                                ..self.cell(a, b)
                            },
                    ),
            ),
            status: GameStatus::Lost,
            ..self
        }
    }

    /// The board after a reveal at `(r, c)`.
    pub open spec fn after_reveal(self, r: int, c: int, draws: Seq<usize>) -> BoardModel {
        if self.status == GameStatus::Won || self.status == GameStatus::Lost {
            self
        } else if self.cell(r, c).is_revealed || self.cell(r, c).is_flagged {
            self
        } else {
            let g = if self.first_click {
                self.generated(r, c, draws)
            } else {
                self
            };
            if g.cell(r, c).is_mine {
                g.exploded(r, c)
            } else {
                let f = g.flooded(r, c);
                if f.cleared() {
                    BoardModel { status: GameStatus::Won, ..f }
                } else {
                    f
                }
            }
        }
    }

    /// The board after a flag toggle at `(r, c)`.
    pub open spec fn after_toggle(self, r: int, c: int) -> BoardModel {
        if self.status != GameStatus::Playing && self.status != GameStatus::NotStarted {
            self
        } else if self.cell(r, c).is_revealed {
            self
        } else {
            BoardModel {
                cells: self.cells.update(
                    r,
                    self.cells[r].update(
                        c,
                        Cell { is_flagged: !self.cell(r, c).is_flagged, ..self.cell(r, c) },
                    ),
                ),
                ..self
            }
        }
    }

    /// A fresh board of the given preset.
    pub open spec fn initial(sector: Sector) -> BoardModel {
        let (rows, cols, mines) = sector.dimensions();
        BoardModel {
            sector,
            rows,
            cols,
            mines,
            cells: Seq::new(rows as nat, |r: int| Seq::new(cols as nat, |c: int| blank_cell())),
            status: GameStatus::NotStarted,
            first_click: true,
        }
    }
}

impl BoardState {
    /// The grid is `rows` by `cols`, and its size fits in `isize` as every
    /// allocation does.
    pub open spec fn wf(&self) -> bool {
        &&& self.grid@.len() == self.rows
        &&& forall|r: int| 0 <= r < self.rows ==> #[trigger] self.grid@[r]@.len() == self.cols
        &&& self.rows <= isize::MAX
        &&& self.cols <= isize::MAX
        &&& self.rows * self.cols <= isize::MAX
    }

    pub fn new(sector: Sector) -> (b: Self)
        ensures
            b.wf(),
            b@ == BoardModel::initial(sector),
    {
        let (rows, cols, mines) = sector.config();
        let mut grid: Vec<Vec<Cell>> = Vec::new();
        let mut r: usize = 0;
        while r < rows
            invariant
                (rows, cols, mines) == sector.dimensions(),
                r <= rows,
                grid@.len() == r,
                forall|i: int| 0 <= i < r ==> #[trigger] grid@[i]@ == Seq::new(cols as nat, |c: int| blank_cell()),
            decreases rows - r,
        {
            let mut row: Vec<Cell> = Vec::new();
            let mut c: usize = 0;
            while c < cols
                invariant
                    (rows, cols, mines) == sector.dimensions(),
                    c <= cols,
                    row@ == Seq::new(c as nat, |k: int| blank_cell()),
                decreases cols - c,
            {
                row.push(Cell::new());
                c = c + 1;
                assert(row@ =~= Seq::new(c as nat, |k: int| blank_cell()));
            }
            grid.push(row);
            r = r + 1;
        }
        let b = BoardState {
            sector,
            rows,
            cols,
            mines,
            grid,
            status: GameStatus::NotStarted,
            first_click: true,
        };
        assert(b@.cells =~~= BoardModel::initial(sector).cells);
        b
    }


    /// Replaces one square of the board.
    fn set_cell(&mut self, r: usize, c: usize, cell: Cell)
        requires
            old(self).wf(),
            r < old(self).rows,
            c < old(self).cols,
        ensures
            final(self).wf(),
            final(self)@ == old(self)@.with_cell(r as int, c as int, cell),
    {
        self.grid[r][c] = cell;
        assert(self@.cells =~~= old(self)@.with_cell(r as int, c as int, cell).cells);
    }

    /// Reads one square; the board must hold it.
    fn at(&self, r: usize, c: usize) -> (cell: Cell)
        requires
            self.wf(),
            r < self.rows,
            c < self.cols,
        ensures
            cell == self@.cell(r as int, c as int),
    {
        self.grid[r][c]
    }


    /// 1 when the neighbour `(r + dr - 1, c + dc - 1)` is on the board and
    /// holds a mine, else 0.
    fn mine_at_offset(&self, r: usize, c: usize, dr: usize, dc: usize) -> (n: u8)
        requires
            self.wf(),
            dr <= 2,
            dc <= 2,
        ensures
            n as nat == self@.mine_at(r + dr - 1, c + dc - 1),
    {
        if r > self.rows || c > self.cols {
            return 0;
        }
        if r + dr < 1 || c + dc < 1 {
            return 0;
        }
        let nr = r + dr - 1;
        let nc = c + dc - 1;
        if nr < self.rows && nc < self.cols && self.grid[nr][nc].is_mine {
            1
        } else {
            0
        }
    }

    /// Number of mines in the 3x3 block around `(r, c)`, counting only the
    /// squares on the board (`(r, c)` itself may lie off it).
    fn count_adjacent_mines(&self, r: usize, c: usize) -> (n: u8)
        requires
            self.wf(),
        ensures
            n as nat == self@.mines_around(r as int, c as int),
    {
        self.mine_at_offset(r, c, 0, 0) + self.mine_at_offset(r, c, 0, 1) + self.mine_at_offset(r, c, 0, 2)
            + self.mine_at_offset(r, c, 1, 0) + self.mine_at_offset(r, c, 1, 1)
            + self.mine_at_offset(r, c, 1, 2) + self.mine_at_offset(r, c, 2, 0)
            + self.mine_at_offset(r, c, 2, 1) + self.mine_at_offset(r, c, 2, 2)
    }

    /// Places mines safely: never on the first click `(start_r, start_c)`
    /// nor around it. The candidate squares are shuffled (Fisher-Yates,
    /// position `i` swapped with `draws[i] % (i + 1)`) and the first
    /// `min(mines, #candidates)` receive a mine; then every square without
    /// a mine is numbered and the game starts.
    pub fn generate_mines(&mut self, start_r: usize, start_c: usize, draws: &[usize])
        requires
            old(self).wf(),
        ensures
            final(self).wf(),
            final(self)@ == old(self)@.generated(start_r as int, start_c as int, draws@),
    {
        let ghost sr = start_r as int;
        let ghost sc = start_c as int;
        let ghost m0 = self@;
        let rows = self.rows;
        let cols = self.cols;
        // Every square outside the 3x3 block around the first click.
        let mut positions: Vec<(usize, usize)> = Vec::new();
        let mut r: usize = 0;
        while r < rows
            invariant
                rows == self.rows,
                cols == self.cols,
                self.wf(),
                r <= rows,
                positions@ == candidates(r as int, cols as int, sr, sc),
                self@ == m0,
                sr == start_r as int,
                sc == start_c as int,
            decreases rows - r,
        {
            let mut c: usize = 0;
            while c < cols
                invariant
                    rows == self.rows,
                    cols == self.cols,
                    self.wf(),
                    r < rows,
                    c <= cols,
                    self@ == m0,
                    sr == start_r as int,
                    sc == start_c as int,
                    positions@ == candidates(r as int, cols as int, sr, sc) + row_candidates(
                        r as int,
                        c as int,
                        sr,
                        sc,
                    ),
                decreases cols - c,
            {
                let near_row = if r >= start_r { r - start_r <= 1 } else { start_r - r <= 1 };
                let near_col = if c >= start_c { c - start_c <= 1 } else { start_c - c <= 1 };
                let ghost before = positions@;
                assert((near_row && near_col) == adjacent((sr, sc), (r as int, c as int)));
                if !(near_row && near_col) {
                    positions.push((r, c));
                }
                proof {
                    let cur = candidates(r as int, cols as int, sr, sc);
                    let rc = row_candidates(r as int, c as int, sr, sc);
                    assert(row_candidates(r as int, c + 1, sr, sc) == if adjacent((sr, sc), (r as int, c as int)) { rc } else { rc.push((r, c)) });
                    if !(near_row && near_col) {
                        assert(cur + rc.push((r, c)) =~= (cur + rc).push((r, c)));
                    }
                }
                c = c + 1;
            }
            proof {
                assert(candidates(r + 1, cols as int, sr, sc) == candidates(r as int, cols as int, sr, sc) + row_candidates(r as int, cols as int, sr, sc));
            }
            r = r + 1;
        }
        // Shuffle (Fisher-Yates) with the supplied draws.
        let ghost cands = positions@;
        let len = positions.len();
        let mut i: usize = len;
        while i > 1
            invariant
                positions@.len() == len,
                i <= len,
                shuffled(cands, draws@) == shuffle_down(positions@, draws@, i - 1),
                cands.len() == len,
                cands == candidates(rows as int, cols as int, sr, sc),
                self@ == m0,
                self.wf(),
                rows == self.rows,
                cols == self.cols,
                sr == start_r as int,
                sc == start_c as int,
            decreases i,
        {
            i = i - 1;
            let j = if i < draws.len() { draws[i] % (i + 1) } else { i };
            assert(j == partner(draws@, i as int));
            let ghost before = positions@;
            let a = positions[i];
            let b = positions[j];
            positions[i] = b;
            positions[j] = a;
            assert(positions@ =~= swap(before, i as int, j as int));
        }
        // Mines go on the first `min(mines, len)` shuffled squares.
        let mines_to_place = if self.mines < len { self.mines } else { len };
        let ghost placed = mine_positions(rows, cols, self.mines, sr, sc, draws@);
        proof {
            lemma_mine_positions(rows, cols, self.mines, sr, sc, draws@);
            assert(placed == positions@.take(mines_to_place as int));
        }
        let mut t: usize = 0;
        while t < mines_to_place
            invariant
                rows == self.rows,
                cols == self.cols,
                self.wf(),
                self.mines == m0.mines,
                self.sector == m0.sector,
                self.status == m0.status,
                self.first_click == m0.first_click,
                rows == m0.rows,
                cols == m0.cols,
                m0.well_shaped(),
                t <= mines_to_place,
                mines_to_place <= positions@.len(),
                placed == positions@.take(mines_to_place as int),
                forall|k: int| 0 <= k < placed.len() ==> candidate_ok(#[trigger] placed[k], rows as int, cols as int, sr, sc),
                forall|a: int, b: int|
                    m0.in_bounds(a, b) ==> #[trigger] self@.cell(a, b) == (Cell {
                        is_mine: m0.cell(a, b).is_mine || placed.take(t as int).contains((a as usize, b as usize)),
                        ..m0.cell(a, b)
                    }),
            decreases mines_to_place - t,
        {
            let (pr, pc) = positions[t];
            assert(placed[t as int] == (pr, pc));
            assert(candidate_ok(placed[t as int], rows as int, cols as int, sr, sc));
            let old_cell = self.at(pr, pc);
            let ghost prev = self@;
            self.set_cell(pr, pc, Cell { is_mine: true, ..old_cell });
            proof {
                let before = placed.take(t as int);
                let after = placed.take(t + 1);
                assert(after =~= before.push((pr, pc)));
                assert forall|a: int, b: int| m0.in_bounds(a, b) implies #[trigger] self@.cell(a, b) == (Cell {
                    is_mine: m0.cell(a, b).is_mine || placed.take(t + 1).contains((a as usize, b as usize)),
                    ..m0.cell(a, b)
                }) by {
                    let x = (a as usize, b as usize);
                    assert(prev.cell(a, b) == (Cell { is_mine: m0.cell(a, b).is_mine || before.contains(x), ..m0.cell(a, b) }));
                    assert(after.contains(x) <==> before.contains(x) || x == (pr, pc)) by {
                        if after.contains(x) && x != (pr, pc) {
                            let k = choose|k: int| 0 <= k < after.len() && after[k] == x;
                            assert(before[k] == x);
                        }
                        if before.contains(x) {
                            let k = choose|k: int| 0 <= k < before.len() && before[k] == x;
                            assert(after[k] == x);
                        }
                        if x == (pr, pc) {
                            assert(after[t as int] == x);
                        }
                    }
                    if a == pr && b == pc {
                        assert(self@.cell(a, b) == (Cell { is_mine: true, ..prev.cell(a, b) }));
                    } else {
                        assert(self@.cell(a, b) == prev.cell(a, b));
                    }
                }
            }
            t = t + 1;
        }
        let ghost mined = m0.with_mines(placed);
        proof {
            assert(placed.take(mines_to_place as int) =~= placed);
            assert forall|a: int, b: int| m0.in_bounds(a, b) implies #[trigger] self@.cell(a, b) == mined.cell(a, b) by {}
        }
        // Number every square without a mine.
        let mut r: usize = 0;
        while r < rows
            invariant
                rows == self.rows,
                cols == self.cols,
                self.wf(),
                rows == m0.rows,
                cols == m0.cols,
                mined.rows == rows,
                mined.cols == cols,
                self.mines == m0.mines,
                self.sector == m0.sector,
                self.status == m0.status,
                self.first_click == m0.first_click,
                mined == m0.with_mines(placed),
                r <= rows,
                forall|a: int, b: int| m0.in_bounds(a, b) ==> (#[trigger] self@.cell(a, b)).is_mine == mined.cell(a, b).is_mine,
                forall|a: int, b: int|
                    m0.in_bounds(a, b) ==> #[trigger] self@.cell(a, b) == if a < r {
                        mined.numbered().cell(a, b)
                    } else {
                        mined.cell(a, b)
                    },
            decreases rows - r,
        {
            let mut c: usize = 0;
            while c < cols
                invariant
                    rows == self.rows,
                    cols == self.cols,
                    self.wf(),
                    rows == m0.rows,
                    cols == m0.cols,
                    mined.rows == rows,
                    mined.cols == cols,
                    self.mines == m0.mines,
                    self.sector == m0.sector,
                    self.status == m0.status,
                    self.first_click == m0.first_click,
                    mined == m0.with_mines(placed),
                    r < rows,
                    c <= cols,
                    forall|a: int, b: int| m0.in_bounds(a, b) ==> (#[trigger] self@.cell(a, b)).is_mine == mined.cell(a, b).is_mine,
                    forall|a: int, b: int|
                        m0.in_bounds(a, b) ==> #[trigger] self@.cell(a, b) == if a < r || (a == r && b < c) {
                            mined.numbered().cell(a, b)
                        } else {
                            mined.cell(a, b)
                        },
                decreases cols - c,
            {
                let ghost prev = self@;
                if !self.at(r, c).is_mine {
                    let n = self.count_adjacent_mines(r, c);
                    proof {
                        assert forall|a: int, b: int| m0.in_bounds(a, b) implies #[trigger] prev.mine_at(a, b) == mined.mine_at(a, b) by {
                            assert(prev.cell(a, b).is_mine == mined.cell(a, b).is_mine);
                        }
                        assert(prev.mine_at(r - 1, c - 1) == mined.mine_at(r - 1, c - 1));
                        assert(prev.mine_at(r - 1, c as int) == mined.mine_at(r - 1, c as int));
                        assert(prev.mine_at(r - 1, c + 1) == mined.mine_at(r - 1, c + 1));
                        assert(prev.mine_at(r as int, c - 1) == mined.mine_at(r as int, c - 1));
                        assert(prev.mine_at(r as int, c as int) == mined.mine_at(r as int, c as int));
                        assert(prev.mine_at(r as int, c + 1) == mined.mine_at(r as int, c + 1));
                        assert(prev.mine_at(r + 1, c - 1) == mined.mine_at(r + 1, c - 1));
                        assert(prev.mine_at(r + 1, c as int) == mined.mine_at(r + 1, c as int));
                        assert(prev.mine_at(r + 1, c + 1) == mined.mine_at(r + 1, c + 1));
                    }
                    assert(n as nat == mined.mines_around(r as int, c as int));
                    let old_cell = self.at(r, c);
                    self.set_cell(r, c, Cell { adjacent_mines: n, ..old_cell });
                }
                proof {
                    assert forall|a: int, b: int| m0.in_bounds(a, b) implies (#[trigger] self@.cell(a, b)).is_mine == mined.cell(a, b).is_mine
                        && self@.cell(a, b) == if a < r || (a == r && b < c + 1) {
                            mined.numbered().cell(a, b)
                        } else {
                            mined.cell(a, b)
                        } by {
                        assert(prev.cell(a, b).is_mine == mined.cell(a, b).is_mine);
                        if a == r && b == c {
                            assert(mined.cell(a, b) == prev.cell(a, b));
                        } else {
                            assert(self@.cell(a, b) == prev.cell(a, b));
                        }
                    }
                }
                c = c + 1;
            }
            r = r + 1;
        }
        let ghost fin = self@;
        self.first_click = false;
        self.status = GameStatus::Playing;
        proof {
            assert(self@.cells == fin.cells);
            let target = m0.generated(sr, sc, draws@);
            assert forall|a: int| 0 <= a < rows implies #[trigger] self@.cells[a] =~= target.cells[a] by {
                assert forall|b: int| 0 <= b < cols implies #[trigger] self@.cells[a][b] == target.cells[a][b] by {
                    assert(fin.cell(a, b) == mined.numbered().cell(a, b));
                }
            }
            assert(self@.cells =~= target.cells);
        }
    }


    /// Opens `(r, c)` and, when it has no mine around it, every neighbour in
    /// turn. `g0` is the board before the fill started at `start`, and
    /// `path` the chain of squares whose calls are still running, ending
    /// with `(r, c)`.
    fn reveal_recursive(
        &mut self,
        r: usize,
        c: usize,
        Ghost(g0): Ghost<BoardModel>,
        Ghost(start): Ghost<(int, int)>,
        Ghost(path): Ghost<Seq<(int, int)>>,
    )
        requires
            old(self).wf(),
            g0.well_shaped(),
            g0.only_more_revealed(old(self)@),
            path.len() > 0,
            path[0] == start,
            path.last() == (r as int, c as int),
            forall|i: int| 0 <= i < path.len() - 1 ==> g0.openable(#[trigger] path[i]),
            forall|i: int| 0 <= i < path.len() - 1 ==> #[trigger] g0.flood_step(path, i),
            forall|i: int|
                0 <= i < path.len() - 1 ==> old(self)@.cell(path[i].0, path[i].1).is_revealed,
            forall|a: int, b: int|
                g0.in_bounds(a, b) && (#[trigger] old(self)@.cell(a, b)).is_revealed
                    && !g0.cell(a, b).is_revealed ==> g0.reachable(start, (a, b)),
            forall|a: int, b: int|
                g0.in_bounds(a, b) && (#[trigger] old(self)@.cell(a, b)).is_revealed
                    && !g0.cell(a, b).is_revealed && !path.drop_last().contains((a, b))
                    ==> old(self)@.closed_at(a, b),
        ensures
            final(self).wf(),
            g0.only_more_revealed(final(self)@),
            old(self)@.only_more_revealed(final(self)@),
            forall|a: int, b: int|
                g0.in_bounds(a, b) && (#[trigger] final(self)@.cell(a, b)).is_revealed
                    && !g0.cell(a, b).is_revealed ==> g0.reachable(start, (a, b)),
            forall|a: int, b: int|
                g0.in_bounds(a, b) && (#[trigger] final(self)@.cell(a, b)).is_revealed
                    && !g0.cell(a, b).is_revealed && !path.drop_last().contains((a, b))
                    ==> final(self)@.closed_at(a, b),
            r < old(self).rows && c < old(self).cols && !old(self)@.cell(r as int, c as int).is_flagged
                ==> final(self)@.cell(r as int, c as int).is_revealed,
        decreases old(self)@.hidden_count(),
    {
        let ghost entry = self@;
        if r >= self.rows || c >= self.cols {
            return;
        }
        let cell = self.at(r, c);
        if cell.is_revealed || cell.is_flagged {
            return;
        }
        self.set_cell(r, c, Cell { is_revealed: true, ..cell });
        let ghost cur1 = self@;
        proof {
            let (ri, ci) = (r as int, c as int);
            assert(entry.only_more_revealed(cur1));
            assert(g0.only_more_revealed(cur1)) by {
                assert forall|a: int, b: int| #![trigger cur1.cell(a, b)] g0.in_bounds(a, b) implies {
                    &&& cur1.cell(a, b).is_mine == g0.cell(a, b).is_mine
                    &&& cur1.cell(a, b).is_flagged == g0.cell(a, b).is_flagged
                    &&& cur1.cell(a, b).adjacent_mines == g0.cell(a, b).adjacent_mines
                    &&& (g0.cell(a, b).is_revealed ==> cur1.cell(a, b).is_revealed)
                } by {
                    assert(entry.cell(a, b) == old(self)@.cell(a, b));
                }
            }
            // (r, c) was covered in g0 too, so the path witnesses that it is reachable.
            assert(g0.openable((ri, ci)));
            assert(g0.is_flood_path(path)) by {
                assert forall|i: int| 0 <= i < path.len() implies g0.openable(#[trigger] path[i]) by {
                    if i == path.len() - 1 {
                        assert(path[i] == (ri, ci));
                    }
                }
            }
            assert(g0.reachable(start, (ri, ci)));
            lemma_hidden_mono(entry, cur1, entry.rows as int, ri, ci);
            // (r, c) is on the path, all earlier path squares were open already.
            assert(g0.cell(ri, ci).adjacent_mines == cur1.cell(ri, ci).adjacent_mines);
            assert forall|i: int| 0 <= i < path.len() - 1 implies path[i] != (ri, ci) by {
                assert(entry.cell(path[i].0, path[i].1).is_revealed);
            }
        }
        if cell.adjacent_mines == 0 {
            let mut dr: usize = 0;
            while dr < 3
                invariant
                    self.wf(),
                    r < self.rows,
                    c < self.cols,
                    dr <= 3,
                    g0.only_more_revealed(self@),
                    cur1.only_more_revealed(self@),
                    entry.only_more_revealed(cur1),
                    self@.hidden_count() < entry.hidden_count(),
                    g0.well_shaped(),
                    cur1.cell(r as int, c as int).is_revealed,
                    cur1.cell(r as int, c as int).adjacent_mines == 0,
                    cur1.in_bounds(r as int, c as int),
                    g0.openable((r as int, c as int)),
                    g0.cell(r as int, c as int).adjacent_mines == 0,
                    entry == old(self)@,
                    path.len() > 0,
                    path[0] == start,
                    path.last() == (r as int, c as int),
                    forall|i: int| 0 <= i < path.len() - 1 ==> g0.openable(#[trigger] path[i]),
                    forall|i: int| 0 <= i < path.len() - 1 ==> #[trigger] g0.flood_step(path, i),
                    forall|i: int|
                        0 <= i < path.len() - 1 ==> entry.cell(path[i].0, path[i].1).is_revealed,
                    forall|a: int, b: int|
                        g0.in_bounds(a, b) && (#[trigger] self@.cell(a, b)).is_revealed
                            && !g0.cell(a, b).is_revealed ==> g0.reachable(start, (a, b)),
                    forall|a: int, b: int|
                        g0.in_bounds(a, b) && (#[trigger] self@.cell(a, b)).is_revealed
                            && !g0.cell(a, b).is_revealed && !path.contains((a, b))
                            ==> self@.closed_at(a, b),
                    forall|x: int, y: int|
                        self@.in_bounds(x, y) && adjacent((r as int, c as int), (x, y)) && x < r + dr - 1
                            ==> (#[trigger] self@.cell(x, y)).is_revealed || self@.cell(x, y).is_flagged,
                decreases 3 - dr,
            {
                let mut dc: usize = 0;
                while dc < 3
                    invariant
                        self.wf(),
                        r < self.rows,
                        c < self.cols,
                        dr < 3,
                        dc <= 3,
                        g0.only_more_revealed(self@),
                        cur1.only_more_revealed(self@),
                        entry.only_more_revealed(cur1),
                        self@.hidden_count() < entry.hidden_count(),
                        g0.well_shaped(),
                        cur1.cell(r as int, c as int).is_revealed,
                        cur1.cell(r as int, c as int).adjacent_mines == 0,
                        cur1.in_bounds(r as int, c as int),
                        g0.openable((r as int, c as int)),
                        g0.cell(r as int, c as int).adjacent_mines == 0,
                        entry == old(self)@,
                        path.len() > 0,
                        path[0] == start,
                        path.last() == (r as int, c as int),
                        forall|i: int| 0 <= i < path.len() - 1 ==> g0.openable(#[trigger] path[i]),
                        forall|i: int| 0 <= i < path.len() - 1 ==> #[trigger] g0.flood_step(path, i),
                        forall|i: int|
                            0 <= i < path.len() - 1 ==> entry.cell(path[i].0, path[i].1).is_revealed,
                        forall|a: int, b: int|
                            g0.in_bounds(a, b) && (#[trigger] self@.cell(a, b)).is_revealed
                                && !g0.cell(a, b).is_revealed ==> g0.reachable(start, (a, b)),
                        forall|a: int, b: int|
                            g0.in_bounds(a, b) && (#[trigger] self@.cell(a, b)).is_revealed
                                && !g0.cell(a, b).is_revealed && !path.contains((a, b))
                                ==> self@.closed_at(a, b),
                        forall|x: int, y: int|
                            self@.in_bounds(x, y) && adjacent((r as int, c as int), (x, y)) && (x < r + dr - 1
                                || (x == r + dr - 1 && y < c + dc - 1))
                                ==> (#[trigger] self@.cell(x, y)).is_revealed || self@.cell(x, y).is_flagged,
                    decreases 3 - dc,
                {
                    if r + dr >= 1 && c + dc >= 1 && r + dr - 1 < self.rows && c + dc - 1 < self.cols {
                        let nr = r + dr - 1;
                        let nc = c + dc - 1;
                        let ghost before = self@;
                        let ghost next = path.push((nr as int, nc as int));
                        proof {
                            assert(next.drop_last() =~= path);
                            assert forall|i: int| 0 <= i < next.len() - 1 implies g0.openable(#[trigger] next[i]) by {
                                assert(next[i] == path[i]);
                            }
                            assert forall|i: int| 0 <= i < next.len() - 1 implies #[trigger] g0.flood_step(next, i) by {
                                assert(next[i] == path[i]);
                                if i < path.len() - 1 {
                                    assert(g0.flood_step(path, i));
                                    assert(next[i + 1] == path[i + 1]);
                                } else {
                                    assert(g0.cell(r as int, c as int).adjacent_mines == cur1.cell(r as int, c as int).adjacent_mines);
                                }
                            }
                            assert forall|i: int| 0 <= i < next.len() - 1 implies before.cell(next[i].0, next[i].1).is_revealed by {
                                assert(next[i] == path[i]);
                                if i < path.len() - 1 {
                                    assert(entry.cell(path[i].0, path[i].1).is_revealed);
                                    assert(cur1.cell(path[i].0, path[i].1).is_revealed);
                                }
                            }
                        }
                        self.reveal_recursive(nr, nc, Ghost(g0), Ghost(start), Ghost(next));
                        proof {
                            assert(cur1.only_more_revealed(self@));
                            lemma_hidden_mono(before, self@, before.rows as int, -1, -1);
                            assert forall|x: int, y: int|
                                self@.in_bounds(x, y) && adjacent((r as int, c as int), (x, y)) && (x < r + dr - 1
                                    || (x == r + dr - 1 && y < c + dc))
                                    implies (#[trigger] self@.cell(x, y)).is_revealed || self@.cell(x, y).is_flagged by {
                                if x == nr && y == nc {
                                    assert(before.cell(x, y).is_flagged == self@.cell(x, y).is_flagged);
                                }
                            }
                        }
                    } else {
                        proof {
                            assert forall|x: int, y: int|
                                self@.in_bounds(x, y) && adjacent((r as int, c as int), (x, y)) && (x < r + dr - 1
                                    || (x == r + dr - 1 && y < c + dc))
                                    implies (#[trigger] self@.cell(x, y)).is_revealed || self@.cell(x, y).is_flagged by {
                                if x == r + dr - 1 && y == c + dc - 1 {
                                    assert(false);
                                }
                            }
                        }
                    }
                    dc = dc + 1;
                }
                dr = dr + 1;
            }
        }
        proof {
            let fin = self@;
            assert(entry.only_more_revealed(fin));
            assert forall|a: int, b: int|
                g0.in_bounds(a, b) && (#[trigger] fin.cell(a, b)).is_revealed && !g0.cell(a, b).is_revealed
                    && !path.drop_last().contains((a, b)) implies fin.closed_at(a, b) by {
                if a == r && b == c {
                    if fin.cell(a, b).adjacent_mines == 0 {
                        assert(cell.adjacent_mines == 0);
                    }
                } else {
                    if path.contains((a, b)) {
                        let i = choose|i: int| 0 <= i < path.len() && path[i] == (a, b);
                        if i < path.len() - 1 {
                            assert(path.drop_last()[i] == (a, b));
                        }
                    }
                }
            }
        }
    }

    /// Opens `(r, c)`. The first reveal places the mines first (see
    /// `generate_mines`); a mine loses the game and shows every mine;
    /// otherwise the flood fill opens the region, and the game is won once
    /// every square without a mine is open. Nothing happens once the game
    /// is over, or on an open or flagged square.
    pub fn reveal_cell(&mut self, r: usize, c: usize, draws: &[usize])
        requires
            old(self).wf(),
            old(self).status == GameStatus::Won || old(self).status == GameStatus::Lost || (r
                < old(self).rows && c < old(self).cols),
        ensures
            final(self).wf(),
            final(self)@ == old(self)@.after_reveal(r as int, c as int, draws@),
    {
        if self.status == GameStatus::Won || self.status == GameStatus::Lost {
            return;
        }
        let cell = self.at(r, c);
        if cell.is_revealed || cell.is_flagged {
            return;
        }
        if self.first_click {
            self.generate_mines(r, c, draws);
        }
        let ghost g = self@;
        let start = self.at(r, c);
        if start.is_mine {
            self.set_cell(r, c, Cell { is_revealed: true, ..start });
            self.status = GameStatus::Lost;
            let ghost target = g.exploded(r as int, c as int);
            let mut row: usize = 0;
            while row < self.rows
                invariant
                    self.wf(),
                    r < self.rows,
                    c < self.cols,
                    row <= self.rows,
                    g.well_shaped(),
                    self.rows == g.rows,
                    self.cols == g.cols,
                    self.sector == g.sector,
                    self.mines == g.mines,
                    self.first_click == g.first_click,
                    self.status == GameStatus::Lost,
                    target == g.exploded(r as int, c as int),
                    forall|a: int, b: int|
                        g.in_bounds(a, b) ==> #[trigger] self@.cell(a, b) == if a < row {
                            target.cell(a, b)
                        } else {
                            Cell { is_revealed: g.cell(a, b).is_revealed || (a == r && b == c), ..g.cell(a, b) }
                        },
                decreases self.rows - row,
            {
                let mut col: usize = 0;
                while col < self.cols
                    invariant
                        self.wf(),
                        r < self.rows,
                        c < self.cols,
                        row < self.rows,
                        col <= self.cols,
                        g.well_shaped(),
                        self.rows == g.rows,
                        self.cols == g.cols,
                        self.sector == g.sector,
                        self.mines == g.mines,
                        self.first_click == g.first_click,
                        self.status == GameStatus::Lost,
                        target == g.exploded(r as int, c as int),
                        forall|a: int, b: int|
                            g.in_bounds(a, b) ==> #[trigger] self@.cell(a, b) == if a < row || (a == row && b < col) {
                                target.cell(a, b)
                            } else {
                                Cell { is_revealed: g.cell(a, b).is_revealed || (a == r && b == c), ..g.cell(a, b) }
                            },
                    decreases self.cols - col,
                {
                    let ghost prev = self@;
                    let here = self.at(row, col);
                    if here.is_mine {
                        self.set_cell(row, col, Cell { is_revealed: true, ..here });
                    }
                    proof {
                        assert forall|a: int, b: int| g.in_bounds(a, b) implies #[trigger] self@.cell(a, b) == if a < row || (a == row && b < col + 1) {
                                target.cell(a, b)
                            } else {
                                Cell { is_revealed: g.cell(a, b).is_revealed || (a == r && b == c), ..g.cell(a, b) }
                            } by {
                            let old_cell = prev.cell(a, b);
                            let t = target.cell(a, b);
                            assert(t == Cell {
                                is_revealed: g.cell(a, b).is_revealed || g.cell(a, b).is_mine || (a == r && b == c),
                                ..g.cell(a, b)
                            });
                            if a == row && b == col {
                                assert(old_cell == Cell { is_revealed: g.cell(a, b).is_revealed || (a == r && b == c), ..g.cell(a, b) });
                                assert(here == old_cell);
                            } else {
                                assert(self@.cell(a, b) == old_cell);
                            }
                        }
                    }
                    col = col + 1;
                }
                row = row + 1;
            }
            proof {
                assert forall|a: int| 0 <= a < g.rows implies #[trigger] self@.cells[a] =~= target.cells[a] by {
                    assert forall|b: int| 0 <= b < g.cols implies #[trigger] self@.cells[a][b] == target.cells[a][b] by {
                        assert(self@.cell(a, b) == target.cell(a, b));
                    }
                }
                assert(self@.cells =~= target.cells);
            }
            return;
        }
        proof {
            assert(g.openable((r as int, c as int)));
            assert(g.only_more_revealed(g));
            assert(seq![(r as int, c as int)].drop_last() =~= Seq::<(int, int)>::empty());
        }
        let ghost first_path: Seq<(int, int)> = seq![(r as int, c as int)];
        self.reveal_recursive(r, c, Ghost(g), Ghost((r as int, c as int)), Ghost(first_path));
        proof {
            let fin = self@;
            let target = g.flooded(r as int, c as int);
            assert forall|a: int, b: int| g.in_bounds(a, b) implies #[trigger] fin.cell(a, b) == target.cell(a, b) by {
                if g.reachable((r as int, c as int), (a, b)) {
                    let path = choose|path: Seq<(int, int)>| #[trigger] g.is_flood_path(path) && path[0] == (r as int, c as int) && path.last() == (a, b);
                    assert forall|x: int, y: int|
                        g.in_bounds(x, y) && (#[trigger] fin.cell(x, y)).is_revealed && !g.cell(x, y).is_revealed
                            implies fin.closed_at(x, y) by {
                        assert(!Seq::<(int, int)>::empty().contains((x, y)));
                        assert(seq![(r as int, c as int)].drop_last() =~= Seq::<(int, int)>::empty());
                    }
                    lemma_path_revealed(g, fin, path, path.len() - 1);
                }
            }
            assert forall|a: int| 0 <= a < g.rows implies #[trigger] fin.cells[a] =~= target.cells[a] by {
                assert forall|b: int| 0 <= b < g.cols implies #[trigger] fin.cells[a][b] == target.cells[a][b] by {
                    assert(fin.cell(a, b) == target.cell(a, b));
                }
            }
            assert(fin.cells =~= target.cells);
            assert(fin == target);
        }
        if self.check_win() {
            self.status = GameStatus::Won;
        }
    }

    /// Number of flagged squares on the board.
    pub fn count_flagged(&self) -> (n: usize)
        requires
            self.wf(),
        ensures
            n == self@.flagged_count(),
    {
        let mut total: usize = 0;
        let mut r: usize = 0;
        while r < self.rows
            invariant
                self.wf(),
                r <= self.rows,
                total == grid_flagged(self@.cells, r as int),
                total <= r * self.cols,
            decreases self.rows - r,
        {
            let row = &self.grid[r];
            let mut in_row: usize = 0;
            let mut c: usize = 0;
            assert(r * self.cols + self.cols <= self.rows * self.cols) by (nonlinear_arith)
                requires
                    r < self.rows,
            ;
            while c < self.cols
                invariant
                    self.wf(),
                    r < self.rows,
                    row@ == self@.cells[r as int],
                    c <= self.cols,
                    in_row == row_flagged(row@, c as int),
                    in_row <= c,
                decreases self.cols - c,
            {
                if row[c].is_flagged {
                    in_row = in_row + 1;
                }
                c = c + 1;
            }
            assert(row@.len() == self.cols);
            total = total + in_row;
            r = r + 1;
            assert(r * self.cols == (r - 1) * self.cols + self.cols) by (nonlinear_arith);
        }
        total
    }

    /// Beacons still to place: the mine count minus the flags set.
    pub fn remaining_beacons(&self) -> (n: isize)
        requires
            self.wf(),
            self.mines <= isize::MAX,
        ensures
            n == self.mines - self@.flagged_count(),
    {
        let flagged = self.count_flagged();
        proof {
            lemma_flagged_bounded(self@.cells, self.rows as int, self.cols as int);
            assert(self.rows * self.cols <= isize::MAX);
        }
        (self.mines as isize) - (flagged as isize)
    }

    /// Every square without a mine is revealed.
    fn check_win(&self) -> (won: bool)
        requires
            self.wf(),
        ensures
            won == self@.cleared(),
    {
        let mut r: usize = 0;
        while r < self.rows
            invariant
                self.wf(),
                r <= self.rows,
                forall|a: int, b: int|
                    0 <= a < r && 0 <= b < self.cols ==> (#[trigger] self@.cell(a, b)).is_mine
                        || self@.cell(a, b).is_revealed,
            decreases self.rows - r,
        {
            let mut c: usize = 0;
            while c < self.cols
                invariant
                    self.wf(),
                    r < self.rows,
                    c <= self.cols,
                    forall|a: int, b: int|
                        0 <= a < r && 0 <= b < self.cols ==> (#[trigger] self@.cell(a, b)).is_mine
                            || self@.cell(a, b).is_revealed,
                    forall|b: int|
                        0 <= b < c ==> (#[trigger] self@.cell(r as int, b)).is_mine || self@.cell(
                            r as int,
                            b,
                        ).is_revealed,
                decreases self.cols - c,
            {
                let cell = self.at(r, c);
                if !cell.is_mine && !cell.is_revealed {
                    return false;
                }
                c = c + 1;
            }
            r = r + 1;
        }
        true
    }

    /// Sets or clears the beacon on a covered square while the game runs.
    pub fn toggle_flag(&mut self, r: usize, c: usize)
        requires
            old(self).wf(),
            old(self).status == GameStatus::Playing || old(self).status == GameStatus::NotStarted
                ==> r < old(self).rows && c < old(self).cols,
        ensures
            final(self).wf(),
            final(self)@ == old(self)@.after_toggle(r as int, c as int),
    {
        if self.status != GameStatus::Playing && self.status != GameStatus::NotStarted {
            return;
        }
        if self.grid[r][c].is_revealed {
            return;
        }
        let flagged = self.grid[r][c].is_flagged;
        self.grid[r][c].is_flagged = !flagged;
        assert(self@.cells =~~= old(self)@.after_toggle(r as int, c as int).cells);
    }
}

} // verus!
