//! The board engine: a pure grid state machine.
//!
//! A board owns a `size_x` by `size_y` grid of cells, a bomb layout and a
//! player count.  Cells are `Untouched`, `Flagged`, or `Revealed(n)` where
//! `n` is the number of bomb-holding cells among the at most eight
//! neighbours.  The central invariant, [`wf`], says that every revealed
//! cell stores exactly the live neighbour-bomb count.

use vstd::prelude::*;
use vstd::string::StringExecFns;

verus! {

/// The state of one grid cell.
#[derive(Clone, Copy, PartialEq, Eq, Structural, Debug)]
pub enum Cell {
    Untouched,
    Flagged,
    Revealed(u8),
}

/// The mathematical model of a board: sizes, cell grid, bomb grid,
/// player count and the bomb density (a percentage) used when the board
/// is regenerated.  Grids are indexed `cells[x][y]` with `0 <= x < size_x`
/// and `0 <= y < size_y`.
#[verifier::ext_equal]
pub struct BoardView {
    pub size_x: int,
    pub size_y: int,
    pub cells: Seq<Seq<Cell>>,
    pub bombs: Seq<Seq<bool>>,
    pub players: int,
    pub percent: int,
}

/// Whether `(x, y)` lies on the grid.
pub open spec fn valid_coord(v: BoardView, x: int, y: int) -> bool {
    0 <= x < v.size_x && 0 <= y < v.size_y
}

/// 1 if `(x, y)` is on the grid and holds a bomb, else 0.
pub open spec fn bomb_count_at(v: BoardView, x: int, y: int) -> int {
    if valid_coord(v, x, y) && v.bombs[x][y] {
        1int
    } else {
        0int
    }
}

/// The number of bombs among the at most eight neighbours of `(x, y)`:
/// the eight offsets `(-1,-1)..(1,1)` excluding `(0,0)`, clipped at the
/// grid edges.
pub open spec fn adj_bombs(v: BoardView, x: int, y: int) -> int {
    bomb_count_at(v, x - 1, y - 1) + bomb_count_at(v, x - 1, y) + bomb_count_at(v, x - 1, y + 1)
        + bomb_count_at(v, x, y + 1) + bomb_count_at(v, x, y - 1) + bomb_count_at(v, x + 1, y)
        + bomb_count_at(v, x + 1, y - 1) + bomb_count_at(v, x + 1, y + 1)
}

/// The grids have the advertised dimensions and the dimensions are
/// positive and small enough for index arithmetic to stay in range.
pub open spec fn dims_ok(v: BoardView) -> bool {
    &&& 1 <= v.size_x <= 0x4000_0000
    &&& 1 <= v.size_y <= 0x4000_0000
    &&& v.size_x * v.size_y <= 0x4000_0000
    &&& v.cells.len() == v.size_x
    &&& v.bombs.len() == v.size_x
    &&& forall|i: int| 0 <= i < v.size_x ==> (#[trigger] v.cells[i]).len() == v.size_y
    &&& forall|i: int| 0 <= i < v.size_x ==> (#[trigger] v.bombs[i]).len() == v.size_y
    &&& 0 <= v.percent <= 100
}

/// The cell at `(x, y)` stores an accurate count if it is revealed.
pub open spec fn count_ok_at(v: BoardView, x: int, y: int) -> bool {
    match v.cells[x][y] {
        Cell::Revealed(n) => n == adj_bombs(v, x, y),
        _ => true,
    }
}

/// Every revealed cell stores the live count of bomb-holding neighbours.
pub open spec fn counts_ok(v: BoardView) -> bool {
    forall|x: int, y: int| valid_coord(v, x, y) ==> #[trigger] count_ok_at(v, x, y)
}

/// Well-formedness of a board: correct dimensions and accurate counts.
pub open spec fn wf(v: BoardView) -> bool {
    dims_ok(v) && counts_ok(v)
}

/// The board with the cell at `(x, y)` replaced by `c`.
pub open spec fn set_cell(v: BoardView, x: int, y: int, c: Cell) -> BoardView {
    BoardView { cells: v.cells.update(x, v.cells[x].update(y, c)), ..v }
}

/// The board after flagging `(x, y)`: a no-op unless the coordinate is on
/// the grid and the cell is untouched.
pub open spec fn flag_spec(v: BoardView, x: int, y: int) -> BoardView {
    if valid_coord(v, x, y) && v.cells[x][y] == Cell::Untouched {
        set_cell(v, x, y, Cell::Flagged)
    } else {
        v
    }
}

/// The board after deflagging `(x, y)`: a no-op unless the coordinate is
/// on the grid and the cell is flagged.
pub open spec fn deflag_spec(v: BoardView, x: int, y: int) -> BoardView {
    if valid_coord(v, x, y) && v.cells[x][y] == Cell::Flagged {
        set_cell(v, x, y, Cell::Untouched)
    } else {
        v
    }
}

/// The board with the bomb at `(x, y)` removed.
pub open spec fn clear_bomb(v: BoardView, x: int, y: int) -> BoardView {
    BoardView { bombs: v.bombs.update(x, v.bombs[x].update(y, false)), ..v }
}

/// Whether `(i, j)` is one of the at most eight neighbours of `(x, y)`.
pub open spec fn is_adjacent(x: int, y: int, i: int, j: int) -> bool {
    &&& !(i == x && j == y)
    &&& -1 <= i - x <= 1
    &&& -1 <= j - y <= 1
}

/// A revealed cell with its stored count lowered by one; other cells
/// unchanged.
pub open spec fn dec_cell(c: Cell) -> Cell {
    match c {
        Cell::Revealed(n) => Cell::Revealed((n - 1) as u8),
        _ => c,
    }
}

/// A cell whose stored count may safely be lowered by one: any cell
/// that is not revealed, or a revealed cell with a positive count.
pub open spec fn dec_safe(c: Cell) -> bool {
    match c {
        Cell::Revealed(n) => n >= 1,
        _ => true,
    }
}

/// The board after lowering the stored count of every revealed neighbour
/// of `(x, y)` by one, as the engine does the instant a bomb is cleared.
pub open spec fn dec_adjacent(v: BoardView, x: int, y: int) -> BoardView {
    BoardView {
        cells: Seq::new(
            v.cells.len(),
            |i: int|
                Seq::new(
                    v.cells[i].len(),
                    |j: int|
                        if is_adjacent(x, y, i, j) {
                            dec_cell(v.cells[i][j])
                        } else {
                            v.cells[i][j]
                        },
                ),
        ),
        ..v
    }
}

/// The flat index of `(x, y)`, used to key the visited set of the
/// flood fill.
pub open spec fn flat(v: BoardView, x: int, y: int) -> int {
    x * v.size_y + y
}

/// The `k`-th of the eight neighbour offsets.
pub open spec fn spec_dir(k: int) -> (int, int) {
    if k == 0 {
        (-1, -1)
    } else if k == 1 {
        (-1, 0)
    } else if k == 2 {
        (-1, 1)
    } else if k == 3 {
        (0, 1)
    } else if k == 4 {
        (0, -1)
    } else if k == 5 {
        (1, 0)
    } else if k == 6 {
        (1, -1)
    } else {
        (1, 1)
    }
}

/// The work list of the flood fill is well formed: every queued
/// coordinate is on the grid and already marked visited, and the visited
/// set holds flat indices of grid cells.
pub open spec fn queue_ok(v: BoardView, queue: Seq<(int, int)>, visited: Set<int>) -> bool {
    &&& forall|k: int|
        0 <= k < queue.len() ==> valid_coord(v, (#[trigger] queue[k]).0, queue[k].1)
            && visited.contains(flat(v, queue[k].0, queue[k].1))
    &&& visited.finite()
    &&& visited.subset_of(vstd::set_lib::set_int_range(0, v.size_x * v.size_y))
}

/// Starting at offset `k`, enqueue and mark visited every neighbour of
/// `(x, y)` that is on the grid, not yet visited and still untouched.
pub open spec fn push_neighbors(
    v: BoardView,
    x: int,
    y: int,
    queue: Seq<(int, int)>,
    visited: Set<int>,
    k: int,
) -> (Seq<(int, int)>, Set<int>)
    decreases 8 - k,
{
    if k < 0 || k >= 8 {
        (queue, visited)
    } else {
        let nx = x + spec_dir(k).0;
        let ny = y + spec_dir(k).1;
        if valid_coord(v, nx, ny) && !visited.contains(flat(v, nx, ny)) && v.cells[nx][ny]
            == Cell::Untouched {
            push_neighbors(v, x, y, queue.push((nx, ny)), visited.insert(flat(v, nx, ny)), k + 1)
        } else {
            push_neighbors(v, x, y, queue, visited, k + 1)
        }
    }
}

/// The breadth-first flood fill, one work-list step at a time: pop the
/// head; skip it unless it is untouched; reveal it with its live
/// neighbour-bomb count; and when that count is zero, expand to its
/// untouched, unvisited neighbours.
pub open spec fn flood_rec(v: BoardView, queue: Seq<(int, int)>, visited: Set<int>) -> BoardView
    decreases queue.len() + v.size_x * v.size_y - visited.len(),
        when dims_ok(v) && queue_ok(v, queue, visited)
    via flood_rec_decreases
{
    if queue.len() == 0 {
        v
    } else {
        let x = queue[0].0;
        let y = queue[0].1;
        let rest = queue.skip(1);
        if v.cells[x][y] != Cell::Untouched {
            flood_rec(v, rest, visited)
        } else {
            let n = adj_bombs(v, x, y);
            let v2 = set_cell(v, x, y, Cell::Revealed(n as u8));
            if n == 0 {
                let qv = push_neighbors(v2, x, y, rest, visited, 0);
                flood_rec(v2, qv.0, qv.1)
            } else {
                flood_rec(v2, rest, visited)
            }
        }
    }
}

/// How one cell may change under a flood fill: it stays as it is, or it
/// goes from untouched to revealed.
pub open spec fn cell_evolves(a: Cell, b: Cell) -> bool {
    b == a || (a == Cell::Untouched && b is Revealed)
}

/// The flood fill only turns untouched cells into revealed ones; flagged
/// and already-revealed cells are never re-entered.
pub open spec fn only_reveals(v: BoardView, r: BoardView) -> bool {
    forall|i: int, j: int|
        valid_coord(v, i, j) ==> cell_evolves(v.cells[i][j], #[trigger] r.cells[i][j])
}

proof fn lemma_push_neighbors(
    v: BoardView,
    x: int,
    y: int,
    queue: Seq<(int, int)>,
    visited: Set<int>,
    k: int,
)
    requires
        dims_ok(v),
        queue_ok(v, queue, visited),
        valid_coord(v, x, y),
    ensures
        ({
            let qv = push_neighbors(v, x, y, queue, visited, k);
            &&& queue_ok(v, qv.0, qv.1)
            &&& qv.0.len() - qv.1.len() == queue.len() - visited.len()
            &&& qv.0.len() >= queue.len()
            &&& visited.subset_of(qv.1)
            &&& forall|m: int| 0 <= m < queue.len() ==> qv.0[m] == queue[m]
        }),
    decreases 8 - k,
{
    if k < 0 || k >= 8 {
    } else {
        let nx = x + spec_dir(k).0;
        let ny = y + spec_dir(k).1;
        if valid_coord(v, nx, ny) && !visited.contains(flat(v, nx, ny)) && v.cells[nx][ny]
            == Cell::Untouched {
            let q2 = queue.push((nx, ny));
            let vis2 = visited.insert(flat(v, nx, ny));
            assert(0 <= flat(v, nx, ny) < v.size_x * v.size_y) by (nonlinear_arith)
                requires
                    0 <= nx < v.size_x,
                    0 <= ny < v.size_y,
                    flat(v, nx, ny) == nx * v.size_y + ny,
            ;
            assert(queue_ok(v, q2, vis2));
            lemma_push_neighbors(v, x, y, q2, vis2, k + 1);
            let qv = push_neighbors(v, x, y, queue, visited, k);
            assert(qv == push_neighbors(v, x, y, q2, vis2, k + 1));
            assert forall|m: int| 0 <= m < queue.len() implies qv.0[m] == queue[m] by {
                assert(qv.0[m] == q2[m]);
                assert(q2[m] == queue[m]);
            }
        } else {
            lemma_push_neighbors(v, x, y, queue, visited, k + 1);
        }
    }
}

/// The visited set never outgrows the grid.
proof fn lemma_visited_bound(v: BoardView, visited: Set<int>)
    requires
        dims_ok(v),
        visited.finite(),
        visited.subset_of(vstd::set_lib::set_int_range(0, v.size_x * v.size_y)),
    ensures
        visited.len() <= v.size_x * v.size_y,
{
    vstd::set_lib::lemma_int_range(0, v.size_x * v.size_y);
    vstd::set_lib::lemma_len_subset(
        visited,
        vstd::set_lib::set_int_range(0, v.size_x * v.size_y),
    );
}

#[via_fn]
proof fn flood_rec_decreases(v: BoardView, queue: Seq<(int, int)>, visited: Set<int>) {
    lemma_visited_bound(v, visited);
    if queue.len() > 0 {
        let x = queue[0].0;
        let y = queue[0].1;
        let rest = queue.skip(1);
        assert(queue_ok(v, rest, visited));
        if v.cells[x][y] == Cell::Untouched {
            let n = adj_bombs(v, x, y);
            let v2 = set_cell(v, x, y, Cell::Revealed(n as u8));
            assert(queue_ok(v2, rest, visited));
            if n == 0 {
                lemma_push_neighbors(v2, x, y, rest, visited, 0);
                let qv = push_neighbors(v2, x, y, rest, visited, 0);
                lemma_visited_bound(v2, qv.1);
            }
        }
    }
}

/// `set_cell` with the live count preserves well-formedness and changes
/// nothing but the one cell.
proof fn lemma_reveal_preserves(v: BoardView, x: int, y: int)
    requires
        dims_ok(v),
        counts_ok(v),
        valid_coord(v, x, y),
    ensures
        ({
            let v2 = set_cell(v, x, y, Cell::Revealed(adj_bombs(v, x, y) as u8));
            &&& dims_ok(v2)
            &&& counts_ok(v2)
            &&& forall|i: int, j: int|
                valid_coord(v, i, j) ==> adj_bombs(v2, i, j) == adj_bombs(v, i, j)
        }),
{
    let n = adj_bombs(v, x, y);
    let v2 = set_cell(v, x, y, Cell::Revealed(n as u8));
    assert(0 <= n <= 8);
    assert forall|i: int, j: int| valid_coord(v, i, j) implies adj_bombs(v2, i, j) == adj_bombs(
        v,
        i,
        j,
    ) by {
        assert(v2.bombs == v.bombs);
    }
    assert forall|i: int, j: int| valid_coord(v2, i, j) implies #[trigger] count_ok_at(
        v2,
        i,
        j,
    ) by {
        if i == x && j == y {
            assert(v2.cells[i][j] == Cell::Revealed(n as u8));
            assert(adj_bombs(v2, i, j) == adj_bombs(v, i, j));
        } else {
            assert(v2.cells[i][j] == v.cells[i][j]);
            assert(count_ok_at(v, i, j));
            assert(adj_bombs(v2, i, j) == adj_bombs(v, i, j));
        }
    }
}

/// The flood fill preserves everything but the cells, keeps the counts
/// of revealed cells accurate, and only turns untouched cells into
/// revealed ones.
proof fn lemma_flood_props(v: BoardView, queue: Seq<(int, int)>, visited: Set<int>)
    requires
        dims_ok(v),
        counts_ok(v),
        queue_ok(v, queue, visited),
    ensures
        ({
            let r = flood_rec(v, queue, visited);
            &&& r.size_x == v.size_x
            &&& r.size_y == v.size_y
            &&& r.bombs == v.bombs
            &&& r.players == v.players
            &&& r.percent == v.percent
            &&& dims_ok(r)
            &&& counts_ok(r)
            &&& only_reveals(v, r)
        }),
    decreases queue.len() + v.size_x * v.size_y - visited.len(),
{
    lemma_visited_bound(v, visited);
    if queue.len() == 0 {
    } else {
        let x = queue[0].0;
        let y = queue[0].1;
        let rest = queue.skip(1);
        assert(queue_ok(v, rest, visited));
        if v.cells[x][y] != Cell::Untouched {
            lemma_flood_props(v, rest, visited);
        } else {
            let n = adj_bombs(v, x, y);
            let v2 = set_cell(v, x, y, Cell::Revealed(n as u8));
            lemma_reveal_preserves(v, x, y);
            assert(queue_ok(v2, rest, visited));
            if n == 0 {
                lemma_push_neighbors(v2, x, y, rest, visited, 0);
                let qv = push_neighbors(v2, x, y, rest, visited, 0);
                lemma_visited_bound(v2, qv.1);
                lemma_flood_props(v2, qv.0, qv.1);
            } else {
                lemma_flood_props(v2, rest, visited);
            }
            let r = flood_rec(v, queue, visited);
            assert forall|i: int, j: int| valid_coord(v, i, j) implies cell_evolves(
                v.cells[i][j],
                #[trigger] r.cells[i][j],
            ) by {
                assert(cell_evolves(v.cells[i][j], v2.cells[i][j]));
                assert(cell_evolves(v2.cells[i][j], r.cells[i][j]));
            }
        }
    }
}

/// If the head of the work list is untouched, the flood fill reveals it.
proof fn lemma_flood_head_revealed(v: BoardView, queue: Seq<(int, int)>, visited: Set<int>)
    requires
        dims_ok(v),
        counts_ok(v),
        queue_ok(v, queue, visited),
        queue.len() > 0,
        v.cells[queue[0].0][queue[0].1] == Cell::Untouched,
    ensures
        flood_rec(v, queue, visited).cells[queue[0].0][queue[0].1] is Revealed,
{
    let x = queue[0].0;
    let y = queue[0].1;
    let rest = queue.skip(1);
    assert(queue_ok(v, rest, visited));
    let n = adj_bombs(v, x, y);
    let v2 = set_cell(v, x, y, Cell::Revealed(n as u8));
    lemma_reveal_preserves(v, x, y);
    assert(queue_ok(v2, rest, visited));
    assert(v2.cells[x][y] is Revealed);
    if n == 0 {
        lemma_push_neighbors(v2, x, y, rest, visited, 0);
        let qv = push_neighbors(v2, x, y, rest, visited, 0);
        lemma_flood_props(v2, qv.0, qv.1);
        assert(cell_evolves(v2.cells[x][y], flood_rec(v2, qv.0, qv.1).cells[x][y]));
    } else {
        lemma_flood_props(v2, rest, visited);
        assert(cell_evolves(v2.cells[x][y], flood_rec(v2, rest, visited).cells[x][y]));
    }
}

/// The full dig transition.  Out-of-range coordinates and cells that are
/// not untouched leave the board unchanged.  A bomb-free dig floods from
/// the seed.  A detonation clears the bomb, lowers the stored counts of
/// the revealed neighbours, and then floods from the seed exactly as an
/// ordinary reveal would.
pub open spec fn dig_spec(v: BoardView, x: int, y: int) -> BoardView {
    if !valid_coord(v, x, y) || v.cells[x][y] != Cell::Untouched {
        v
    } else if v.bombs[x][y] {
        let v2 = dec_adjacent(clear_bomb(v, x, y), x, y);
        flood_rec(v2, seq![(x, y)], Set::empty().insert(flat(v, x, y)))
    } else {
        flood_rec(v, seq![(x, y)], Set::empty().insert(flat(v, x, y)))
    }
}

/// Whether digging `(x, y)` detonates a bomb.
pub open spec fn dig_boom(v: BoardView, x: int, y: int) -> bool {
    valid_coord(v, x, y) && v.cells[x][y] == Cell::Untouched && v.bombs[x][y]
}

/// The game is won once every bomb-free cell has been revealed.
pub open spec fn cell_done(v: BoardView, x: int, y: int) -> bool {
    v.bombs[x][y] || v.cells[x][y] is Revealed
}

/// The win predicate: every bomb-free cell is revealed.
pub open spec fn complete_spec(v: BoardView) -> bool {
    forall|x: int, y: int| valid_coord(v, x, y) ==> #[trigger] cell_done(v, x, y)
}

/// The glyph of one cell in the textual render: `-` untouched, `F`
/// flagged, a space for a revealed cell with no neighbouring bombs, and
/// the digit otherwise.
pub open spec fn glyph(c: Cell) -> char {
    match c {
        Cell::Untouched => '-',
        Cell::Flagged => 'F',
        Cell::Revealed(n) => if n == 0 {
            ' '
        } else {
            (('0' as u8) + n) as char
        },
    }
}

/// One rendered row: cell glyphs separated by single spaces.
pub open spec fn row_render(row: Seq<Cell>) -> Seq<char>
    decreases row.len(),
{
    if row.len() == 0 {
        Seq::empty()
    } else if row.len() == 1 {
        seq![glyph(row[0])]
    } else {
        row_render(row.drop_last()) + seq![' ', glyph(row.last())]
    }
}

/// The full rendered board: rows separated by newlines, without a
/// trailing newline.
pub open spec fn board_render(cells: Seq<Seq<Cell>>) -> Seq<char>
    decreases cells.len(),
{
    if cells.len() == 0 {
        Seq::empty()
    } else if cells.len() == 1 {
        row_render(cells[0])
    } else {
        board_render(cells.drop_last()) + seq!['\n'] + row_render(cells.last())
    }
}

/// The single mutable entity of the system: grid state, bomb layout and
/// player count, mutated only through `dig`, `flag`, `deflag` and `reset`.
pub struct Board {
    player_count: usize,
    size_x: usize,
    size_y: usize,
    percent: u32,
    board: Vec<Vec<Cell>>,
    bomb: Vec<Vec<bool>>,
}

impl View for Board {
    type V = BoardView;

    closed spec fn view(&self) -> BoardView {
        BoardView {
            size_x: self.size_x as int,
            size_y: self.size_y as int,
            cells: Seq::new(self.board@.len(), |i: int| self.board@[i]@),
            bombs: Seq::new(self.bomb@.len(), |i: int| self.bomb@[i]@),
            players: self.player_count as int,
            percent: self.percent as int,
        }
    }
}

impl Board {
    pub fn get_size_x(&self) -> (r: usize)
        ensures
            r == self@.size_x,
    {
        self.size_x
    }

    pub fn get_size_y(&self) -> (r: usize)
        ensures
            r == self@.size_y,
    {
        self.size_y
    }

    pub fn get_player_count(&self) -> (r: usize)
        ensures
            r == self@.players,
    {
        self.player_count
    }

    /// Records one joining session and returns the new player count.
    pub fn add_player(&mut self) -> (r: usize)
        requires
            old(self)@.players < usize::MAX,
        ensures
            final(self)@ == (BoardView { players: old(self)@.players + 1, ..old(self)@ }),
            r == final(self)@.players,
    {
        self.player_count = self.player_count + 1;
        proof {
            assert(self@ =~~= (BoardView { players: old(self)@.players + 1, ..old(self)@ }));
        }
        self.player_count
    }

    /// Records one leaving session; the player count never goes negative.
    pub fn remove_player(&mut self)
        requires
            old(self)@.players > 0,
        ensures
            final(self)@ == (BoardView { players: old(self)@.players - 1, ..old(self)@ }),
    {
        self.player_count = self.player_count - 1;
        proof {
            assert(self@ =~~= (BoardView { players: old(self)@.players - 1, ..old(self)@ }));
        }
    }

    /// Whether `(x, y)` lies on the grid; out-of-range coordinates make
    /// every board operation a no-op.
    pub fn is_valid_coordinate(&self, x: i32, y: i32) -> (r: bool)
        requires
            dims_ok(self@),
        ensures
            r == valid_coord(self@, x as int, y as int),
    {
        x >= 0 && (x as usize) < self.size_x && y >= 0 && (y as usize) < self.size_y
    }

    /// The state of the cell at `(x, y)`.
    fn get_cell(&self, x: usize, y: usize) -> (c: Cell)
        requires
            dims_ok(self@),
            valid_coord(self@, x as int, y as int),
        ensures
            c == self@.cells[x as int][y as int],
    {
        proof {
            assert(self@.cells[x as int] == self.board@[x as int]@);
        }
        self.board[x][y]
    }

    /// Whether `(x, y)` holds a bomb.
    fn get_bomb(&self, x: usize, y: usize) -> (b: bool)
        requires
            dims_ok(self@),
            valid_coord(self@, x as int, y as int),
        ensures
            b == self@.bombs[x as int][y as int],
    {
        proof {
            assert(self@.bombs[x as int] == self.bomb@[x as int]@);
        }
        self.bomb[x][y]
    }

    /// Writes the cell at `(x, y)`.
    fn put_cell(&mut self, x: usize, y: usize, c: Cell)
        requires
            dims_ok(old(self)@),
            valid_coord(old(self)@, x as int, y as int),
        ensures
            final(self)@ == set_cell(old(self)@, x as int, y as int, c),
            dims_ok(final(self)@),
    {
        proof {
            assert(self@.cells[x as int] == self.board@[x as int]@);
        }
        self.board[x][y] = c;
        proof {
            let v0 = old(self)@;
            let xi = x as int;
            let yi = y as int;
            let w = set_cell(v0, xi, yi, c);
            assert forall|i: int| 0 <= i < v0.cells.len() implies self@.cells[i] == w.cells[i] by {
                if i == xi {
                    assert(self@.cells[i] =~= v0.cells[xi].update(yi, c));
                } else {
                    assert(self@.cells[i] == v0.cells[i]);
                }
            }
            assert(self@.cells =~~= w.cells);
            assert(self@ =~~= w);
            assert forall|i: int| 0 <= i < w.size_x implies (#[trigger] w.cells[i]).len()
                == w.size_y by {}
        }
    }

    /// Removes the bomb at `(x, y)`.
    fn take_bomb(&mut self, x: usize, y: usize)
        requires
            dims_ok(old(self)@),
            valid_coord(old(self)@, x as int, y as int),
        ensures
            final(self)@ == clear_bomb(old(self)@, x as int, y as int),
            dims_ok(final(self)@),
    {
        proof {
            assert(self@.bombs[x as int] == self.bomb@[x as int]@);
        }
        self.bomb[x][y] = false;
        proof {
            let v0 = old(self)@;
            let xi = x as int;
            let yi = y as int;
            let w = clear_bomb(v0, xi, yi);
            assert forall|i: int| 0 <= i < v0.bombs.len() implies self@.bombs[i] == w.bombs[i] by {
                if i == xi {
                    assert(self@.bombs[i] =~= v0.bombs[xi].update(yi, false));
                } else {
                    assert(self@.bombs[i] == v0.bombs[i]);
                }
            }
            assert(self@.bombs =~~= w.bombs);
            assert(self@ =~~= w);
            assert forall|i: int| 0 <= i < w.size_x implies (#[trigger] w.bombs[i]).len()
                == w.size_y by {}
        }
    }

    /// Counts the bombs among the at most eight neighbours of `(x, y)`.
    pub fn get_adjacent_bombs(&self, x: usize, y: usize) -> (n: usize)
        requires
            dims_ok(self@),
            valid_coord(self@, x as int, y as int),
        ensures
            n == adj_bombs(self@, x as int, y as int),
            n <= 8,
    {
        let mut n: usize = 0;
        if x > 0 && y > 0 && self.get_bomb(x - 1, y - 1) {
            n = n + 1;
        }
        if x > 0 && self.get_bomb(x - 1, y) {
            n = n + 1;
        }
        if x > 0 && y + 1 < self.size_y && self.get_bomb(x - 1, y + 1) {
            n = n + 1;
        }
        if y + 1 < self.size_y && self.get_bomb(x, y + 1) {
            n = n + 1;
        }
        if y > 0 && self.get_bomb(x, y - 1) {
            n = n + 1;
        }
        if x + 1 < self.size_x && self.get_bomb(x + 1, y) {
            n = n + 1;
        }
        if x + 1 < self.size_x && y > 0 && self.get_bomb(x + 1, y - 1) {
            n = n + 1;
        }
        if x + 1 < self.size_x && y + 1 < self.size_y && self.get_bomb(x + 1, y + 1) {
            n = n + 1;
        }
        n
    }

    /// Whether the cell is untouched and holds a bomb — that is,
    /// whether digging it now would detonate.
    pub fn cell_is_untouched_bomb(&self, x: usize, y: usize) -> (r: bool)
        requires
            dims_ok(self@),
            valid_coord(self@, x as int, y as int),
        ensures
            r == (self@.cells[x as int][y as int] == Cell::Untouched && self@.bombs[x as int][y
                as int]),
    {
        self.get_cell(x, y) == Cell::Untouched && self.get_bomb(x, y)
    }

    /// Flags `(x, y)` if it is on the grid and untouched, otherwise does
    /// nothing, and returns the full render.  Never fails.
    pub fn flag(&mut self, x: i32, y: i32) -> (r: String)
        requires
            wf(old(self)@),
        ensures
            wf(final(self)@),
            final(self)@ == flag_spec(old(self)@, x as int, y as int),
            r@ == board_render(final(self)@.cells),
    {
        if self.is_valid_coordinate(x, y) {
            let xu: usize = x as usize;
            let yu: usize = y as usize;
            if self.get_cell(xu, yu) == Cell::Untouched {
                self.put_cell(xu, yu, Cell::Flagged);
                proof {
                    let v0 = old(self)@;
                    assert forall|i: int, j: int| valid_coord(self@, i, j) implies
                        #[trigger] count_ok_at(self@, i, j) by {
                        assert(count_ok_at(v0, i, j));
                        assert(self@.bombs == v0.bombs);
                    }
                }
            }
        }
        self.render()
    }

    /// Deflags `(x, y)` if it is on the grid and flagged, otherwise does
    /// nothing, and returns the full render.  Never fails.
    pub fn deflag(&mut self, x: i32, y: i32) -> (r: String)
        requires
            wf(old(self)@),
        ensures
            wf(final(self)@),
            final(self)@ == deflag_spec(old(self)@, x as int, y as int),
            r@ == board_render(final(self)@.cells),
    {
        if self.is_valid_coordinate(x, y) {
            let xu: usize = x as usize;
            let yu: usize = y as usize;
            if self.get_cell(xu, yu) == Cell::Flagged {
                self.put_cell(xu, yu, Cell::Untouched);
                proof {
                    let v0 = old(self)@;
                    assert forall|i: int, j: int| valid_coord(self@, i, j) implies
                        #[trigger] count_ok_at(self@, i, j) by {
                        assert(count_ok_at(v0, i, j));
                        assert(self@.bombs == v0.bombs);
                    }
                }
            }
        }
        self.render()
    }

    /// Lowers the stored count of one revealed cell by one.
    fn dec_one(&mut self, i: usize, j: usize)
        requires
            dims_ok(old(self)@),
            valid_coord(old(self)@, i as int, j as int),
            dec_safe(old(self)@.cells[i as int][j as int]),
        ensures
            final(self)@ == set_cell(
                old(self)@,
                i as int,
                j as int,
                dec_cell(old(self)@.cells[i as int][j as int]),
            ),
    {
        let c = self.get_cell(i, j);
        match c {
            Cell::Revealed(n) => {
                self.put_cell(i, j, Cell::Revealed(n - 1));
            },
            _ => {
                proof {
                    let v0 = old(self)@;
                    let v1 = set_cell(v0, i as int, j as int, dec_cell(v0.cells[i as int][j as int]));
                    assert(self@.cells =~~= v1.cells);
                    assert(self@ =~~= v1);
                }
            },
        }
    }

    /// After a bomb at `(x, y)` is cleared, lowers the stored count of
    /// every revealed neighbour by one, keeping the central invariant.
    fn update_surrounding_count(&mut self, x: usize, y: usize)
        requires
            dims_ok(old(self)@),
            valid_coord(old(self)@, x as int, y as int),
            forall|i: int, j: int|
                valid_coord(old(self)@, i, j) && is_adjacent(x as int, y as int, i, j)
                    ==> dec_safe(#[trigger] old(self)@.cells[i][j]),
        ensures
            final(self)@ == dec_adjacent(old(self)@, x as int, y as int),
    {
        if x > 0 && y > 0 {
            self.dec_one(x - 1, y - 1);
        }
        if x > 0 {
            self.dec_one(x - 1, y);
        }
        if x > 0 && y + 1 < self.size_y {
            self.dec_one(x - 1, y + 1);
        }
        if y + 1 < self.size_y {
            self.dec_one(x, y + 1);
        }
        if y > 0 {
            self.dec_one(x, y - 1);
        }
        if x + 1 < self.size_x {
            self.dec_one(x + 1, y);
        }
        if x + 1 < self.size_x && y > 0 {
            self.dec_one(x + 1, y - 1);
        }
        if x + 1 < self.size_x && y + 1 < self.size_y {
            self.dec_one(x + 1, y + 1);
        }
        proof {
            let v0 = old(self)@;
            let xi = x as int;
            let yi = y as int;
            let d = dec_adjacent(v0, xi, yi);
            assert forall|i: int, j: int| 0 <= i < v0.cells.len() && 0 <= j < v0.cells[i].len()
                implies self@.cells[i][j] == d.cells[i][j] by {
                if is_adjacent(xi, yi, i, j) {
                    assert(d.cells[i][j] == dec_cell(v0.cells[i][j]));
                } else {
                    assert(d.cells[i][j] == v0.cells[i][j]);
                }
            }
            assert(self@.cells =~~= d.cells);
            assert(self@ =~~= d);
        }
    }

    /// Enqueues, starting at neighbour offset `k`, every neighbour of
    /// `(x, y)` that is on the grid, unvisited and untouched, marking it
    /// visited; the executable mirror of `push_neighbors`.
    fn enqueue_neighbors(
        &self,
        x: usize,
        y: usize,
        queue: &mut Vec<(usize, usize)>,
        visited: &mut Vec<bool>,
        vset: Ghost<Set<int>>,
        k: usize,
        head: Ghost<int>,
    ) -> (nv: Ghost<Set<int>>)
        requires
            dims_ok(self@),
            valid_coord(self@, x as int, y as int),
            k <= 8,
            0 <= head@ <= old(queue)@.len(),
            old(visited)@.len() == self@.size_x * self@.size_y,
            forall|t: int|
                0 <= t < old(visited)@.len() ==> old(visited)@[t] == vset@.contains(t),
            queue_ok(self@, int_pairs(old(queue)@).skip(head@), vset@),
        ensures
            (int_pairs(final(queue)@).skip(head@), nv@) == push_neighbors(
                self@,
                x as int,
                y as int,
                int_pairs(old(queue)@).skip(head@),
                vset@,
                k as int,
            ),
            final(queue)@.len() >= old(queue)@.len(),
            forall|m: int| 0 <= m < old(queue)@.len() ==> final(queue)@[m] == old(queue)@[m],
            final(visited)@.len() == old(visited)@.len(),
            forall|t: int| 0 <= t < final(visited)@.len() ==> final(visited)@[t] == nv@.contains(t),
        decreases 8 - k,
    {
        if k == 8 {
            proof {
                assert((int_pairs(queue@).skip(head@), vset@) == push_neighbors(
                    self@,
                    x as int,
                    y as int,
                    int_pairs(old(queue)@).skip(head@),
                    vset@,
                    8,
                ));
            }
            return vset;
        }
        let (dx, dy): (i32, i32) = match k {
            0 => (-1, -1),
            1 => (-1, 0),
            2 => (-1, 1),
            3 => (0, 1),
            4 => (0, -1),
            5 => (1, 0),
            6 => (1, -1),
            _ => (1, 1),
        };
        proof {
            assert((dx as int, dy as int) == spec_dir(k as int));
        }
        let nx: i32 = x as i32 + dx;
        let ny: i32 = y as i32 + dy;
        if self.is_valid_coordinate(nx, ny) {
            let nxu: usize = nx as usize;
            let nyu: usize = ny as usize;
            proof {
                let sx = self@.size_x;
                let sy = self@.size_y;
                assert(0 <= (nxu as int) * sy + (nyu as int) && (nxu as int) * sy + (nyu as int) < sx * sy) by (nonlinear_arith)
                    requires
                        0 <= (nxu as int) && (nxu as int) < sx,
                        0 <= (nyu as int) && (nyu as int) < sy,
                ;
            }
            let f: usize = nxu * self.size_y + nyu;
            proof {
                assert(f as int == flat(self@, nx as int, ny as int));
            }
            if !visited[f] && self.get_cell(nxu, nyu) == Cell::Untouched {
                queue.push((nxu, nyu));
                visited[f] = true;
                let ghost nvset = vset@.insert(f as int);
                proof {
                    let q0 = int_pairs(old(queue)@).skip(head@);
                    let q1 = int_pairs(queue@).skip(head@);
                    assert(q1 =~= q0.push((nx as int, ny as int)));
                    assert(push_neighbors(self@, x as int, y as int, q0, vset@, k as int)
                        == push_neighbors(self@, x as int, y as int, q1, nvset, k as int + 1));
                    assert(queue_ok(self@, q1, nvset));
                }
                let r = self.enqueue_neighbors(x, y, queue, visited, Ghost(nvset), k + 1, head);
                proof {
                    assert forall|m: int| 0 <= m < old(queue)@.len() implies queue@[m] == old(
                        queue,
                    )@[m] by {}
                }
                r
            } else {
                proof {
                    let q0 = int_pairs(old(queue)@).skip(head@);
                    assert(visited@[f as int] == vset@.contains(f as int));
                    assert(push_neighbors(self@, x as int, y as int, q0, vset@, k as int)
                        == push_neighbors(self@, x as int, y as int, q0, vset@, k as int + 1));
                }
                self.enqueue_neighbors(x, y, queue, visited, vset, k + 1, head)
            }
        } else {
            proof {
                let q0 = int_pairs(old(queue)@).skip(head@);
                assert(push_neighbors(self@, x as int, y as int, q0, vset@, k as int)
                    == push_neighbors(self@, x as int, y as int, q0, vset@, k as int + 1));
            }
            self.enqueue_neighbors(x, y, queue, visited, vset, k + 1, head)
        }
    }

    /// The breadth-first flood-fill reveal, seeded at `(x, y)`.  A flat
    /// boolean grid keyed by coordinate tracks visited cells, so every
    /// cell is visited at most once and the traversal terminates.
    fn dig_recursively(&mut self, x: usize, y: usize)
        requires
            dims_ok(old(self)@),
            counts_ok(old(self)@),
            valid_coord(old(self)@, x as int, y as int),
        ensures
            final(self)@ == flood_rec(
                old(self)@,
                seq![(x as int, y as int)],
                Set::empty().insert(flat(old(self)@, x as int, y as int)),
            ),
            dims_ok(final(self)@),
            counts_ok(final(self)@),
    {
        let ghost v0 = self@;
        let mut queue: Vec<(usize, usize)> = Vec::new();
        queue.push((x, y));
        let mut head: usize = 0;
        let total: usize = self.size_x * self.size_y;
        let mut visited: Vec<bool> = vec_false(total);
        proof {
            assert(0 <= (x as int) * v0.size_y + (y as int) && (x as int) * v0.size_y + (y as int) < v0.size_x * v0.size_y)
                by (nonlinear_arith)
                requires
                    0 <= (x as int) && (x as int) < v0.size_x,
                    0 <= (y as int) && (y as int) < v0.size_y,
            ;
        }
        let f0: usize = x * self.size_y + y;
        visited[f0] = true;
        let ghost mut vset: Set<int> = Set::empty().insert(f0 as int);
        let ghost res = flood_rec(v0, seq![(x as int, y as int)], vset);
        proof {
            assert(int_pairs(queue@).skip(0) =~= seq![(x as int, y as int)]);
            assert(queue_ok(v0, int_pairs(queue@).skip(0), vset));
        }
        while head < queue.len()
            invariant
                self@.size_x == v0.size_x,
                self@.size_y == v0.size_y,
                self@.bombs == v0.bombs,
                self@.players == v0.players,
                self@.percent == v0.percent,
                dims_ok(self@),
                counts_ok(self@),
                head <= queue@.len(),
                total == v0.size_x * v0.size_y,
                visited@.len() == total,
                forall|t: int| 0 <= t < total ==> visited@[t] == vset.contains(t),
                queue_ok(self@, int_pairs(queue@).skip(head as int), vset),
                flood_rec(self@, int_pairs(queue@).skip(head as int), vset) == res,
            decreases queue@.len() - head + total - vset.len(),
        {
            proof {
                lemma_visited_bound(self@, vset);
            }
            let ghost pre = self@;
            let ghost gq = int_pairs(queue@).skip(head as int);
            let p: (usize, usize) = queue[head];
            head = head + 1;
            let px: usize = p.0;
            let py: usize = p.1;
            let ghost rest = int_pairs(queue@).skip(head as int);
            proof {
                assert(gq[0] == (px as int, py as int));
                assert(rest =~= gq.skip(1));
                assert(queue_ok(self@, rest, vset));
            }
            if self.get_cell(px, py) == Cell::Untouched {
                let n: usize = self.get_adjacent_bombs(px, py);
                self.put_cell(px, py, Cell::Revealed(n as u8));
                proof {
                    lemma_reveal_preserves(pre, px as int, py as int);
                }
                if n == 0 {
                    let nv = self.enqueue_neighbors(
                        px,
                        py,
                        &mut queue,
                        &mut visited,
                        Ghost(vset),
                        0,
                        Ghost(head as int),
                    );
                    proof {
                        lemma_push_neighbors(self@, px as int, py as int, rest, vset, 0);
                        vset = nv@;
                    }
                } else {
                }
            } else {
                proof {
                    assert(flood_rec(pre, gq, vset) == flood_rec(self@, rest, vset));
                }
            }
        }
        proof {
            assert(int_pairs(queue@).skip(head as int) =~= Seq::<(int, int)>::empty());
            assert(flood_rec(self@, int_pairs(queue@).skip(head as int), vset) == self@);
        }
    }

    /// Digs `(x, y)`.  Out-of-range coordinates and cells that are not
    /// untouched leave the board unchanged and return the current render.
    /// Digging a bomb-free cell runs the flood-fill reveal.  Digging a
    /// bomb clears it, lowers the stored counts of the revealed
    /// neighbours, reveals onward exactly as an ordinary dig, and reports
    /// the detonation with `BOOM` instead of the render.
    pub fn dig(&mut self, x: i32, y: i32) -> (r: String)
        requires
            wf(old(self)@),
        ensures
            wf(final(self)@),
            final(self)@ == dig_spec(old(self)@, x as int, y as int),
            dig_boom(old(self)@, x as int, y as int) ==> r@ == "BOOM"@,
            !dig_boom(old(self)@, x as int, y as int) ==> r@ == board_render(final(self)@.cells),
    {
        let ghost v0 = self@;
        if !self.is_valid_coordinate(x, y) {
            return self.render();
        }
        let xu: usize = x as usize;
        let yu: usize = y as usize;
        if !(self.get_cell(xu, yu) == Cell::Untouched) {
            return self.render();
        }
        if self.get_bomb(xu, yu) {
            self.take_bomb(xu, yu);
            proof {
                lemma_detonation_wf(v0, xu as int, yu as int);
            }
            self.update_surrounding_count(xu, yu);
            self.dig_recursively(xu, yu);
            return String::from_str("BOOM");
        }
        self.dig_recursively(xu, yu);
        self.render()
    }

    /// True once every bomb-free cell has been revealed: the win
    /// condition, after which the controlling session calls `reset`.
    pub fn is_complete(&self) -> (r: bool)
        requires
            dims_ok(self@),
        ensures
            r == complete_spec(self@),
    {
        let mut i: usize = 0;
        while i < self.size_x
            invariant
                dims_ok(self@),
                i <= self@.size_x,
                forall|a: int, b: int|
                    0 <= a < i && 0 <= b < self@.size_y ==> #[trigger] cell_done(self@, a, b),
            decreases self@.size_x - i,
        {
            let mut j: usize = 0;
            while j < self.size_y
                invariant
                    dims_ok(self@),
                    i < self@.size_x,
                    j <= self@.size_y,
                    forall|a: int, b: int|
                        0 <= a < i && 0 <= b < self@.size_y ==> #[trigger] cell_done(self@, a, b),
                    forall|b: int| 0 <= b < j ==> #[trigger] cell_done(self@, i as int, b),
                decreases self@.size_y - j,
            {
                if !self.get_bomb(i, j) && !matches!(self.get_cell(i, j), Cell::Revealed(_)) {
                    proof {
                        assert(!cell_done(self@, i as int, j as int));
                    }
                    return false;
                }
                proof {
                    assert(cell_done(self@, i as int, j as int));
                }
                j = j + 1;
            }
            i = i + 1;
        }
        true
    }

    /// Renders row `i`: cell glyphs separated by single spaces.
    pub fn render_row(&self, i: usize) -> (r: String)
        requires
            dims_ok(self@),
            counts_ok(self@),
            i < self@.size_x,
        ensures
            r@ == row_render(self@.cells[i as int]),
    {
        let ghost row = self@.cells[i as int];
        let mut out = String::new();
        let mut j: usize = 0;
        while j < self.size_y
            invariant
                dims_ok(self@),
                counts_ok(self@),
                i < self@.size_x,
                j <= self@.size_y,
                row == self@.cells[i as int],
                out@ == row_render(row.take(j as int)),
            decreases self@.size_y - j,
        {
            if j != 0 {
                proof {
                    reveal_strlit(" ");
                }
                out.append(" ");
            }
            let c = self.get_cell(i, j);
            proof {
                assert(c == row[j as int]);
                assert(count_ok_at(self@, i as int, j as int));
            }
            let g = glyph_str(c);
            out.append(g);
            proof {
                let t1 = row.take(j as int + 1);
                assert(t1.drop_last() =~= row.take(j as int));
                assert(t1.last() == row[j as int]);
                if j == 0 {
                    assert(row_render(t1) == seq![glyph(row[0])]);
                    assert(out@ =~= row_render(t1));
                } else {
                    assert(row_render(t1) == row_render(row.take(j as int)) + seq![
                        ' ',
                        glyph(row[j as int]),
                    ]);
                    assert(out@ =~= row_render(t1));
                }
            }
            j = j + 1;
        }
        proof {
            assert(row.take(self@.size_y as int) =~= row);
        }
        out
    }

    /// Serialises the grid: one row per line, newline-separated, cells
    /// space-separated, without a trailing newline.
    pub fn render(&self) -> (r: String)
        requires
            dims_ok(self@),
            counts_ok(self@),
        ensures
            r@ == board_render(self@.cells),
    {
        let mut out = String::new();
        let mut i: usize = 0;
        while i < self.size_x
            invariant
                dims_ok(self@),
                counts_ok(self@),
                i <= self@.size_x,
                out@ == board_render(self@.cells.take(i as int)),
            decreases self@.size_x - i,
        {
            if i != 0 {
                proof {
                    reveal_strlit("\n");
                }
                out.append("\n");
            }
            let row = self.render_row(i);
            out.append(row.as_str());
            proof {
                let t1 = self@.cells.take(i as int + 1);
                assert(t1.drop_last() =~= self@.cells.take(i as int));
                assert(t1.last() == self@.cells[i as int]);
                if i == 0 {
                    assert(board_render(t1) == row_render(self@.cells[0]));
                    assert(out@ =~= board_render(t1));
                } else {
                    assert(board_render(t1) == board_render(self@.cells.take(i as int)) + seq!['\n']
                        + row_render(self@.cells[i as int]));
                    assert(out@ =~= board_render(t1));
                }
            }
            i = i + 1;
        }
        proof {
            assert(self@.cells.take(self@.size_x as int) =~= self@.cells);
        }
        out
    }

    /// A fresh board: every cell untouched, no players, and a bomb
    /// placed independently in each cell with the default density of
    /// one in five.
    pub fn new(size_x: usize, size_y: usize) -> (b: Board)
        requires
            1 <= size_x,
            1 <= size_y,
            size_x * size_y <= 0x4000_0000,
        ensures
            wf(b@),
            b@.size_x == size_x,
            b@.size_y == size_y,
            b@.players == 0,
            b@.percent == 20,
            forall|x: int, y: int|
                valid_coord(b@, x, y) ==> b@.cells[x][y] == Cell::Untouched,
    {
        let b = Board {
            player_count: 0,
            size_x,
            size_y,
            percent: 20,
            board: untouched_grid(size_x, size_y),
            bomb: random_bombs(size_x, size_y, 20),
        };
        proof {
            lemma_size_bounds(size_x as int, size_y as int);
        }
        b
    }

    /// A fresh board with the given bomb layout, for callers that
    /// inject their own randomness (or none).
    pub fn with_layout(size_x: usize, size_y: usize, bombs: Vec<Vec<bool>>) -> (b: Board)
        requires
            1 <= size_x,
            1 <= size_y,
            size_x * size_y <= 0x4000_0000,
            bombs@.len() == size_x,
            forall|i: int| 0 <= i < size_x ==> (#[trigger] bombs@[i])@.len() == size_y,
        ensures
            wf(b@),
            b@.size_x == size_x,
            b@.size_y == size_y,
            b@.players == 0,
            b@.percent == 20,
            forall|x: int, y: int|
                valid_coord(b@, x, y) ==> b@.cells[x][y] == Cell::Untouched,
            forall|x: int, y: int|
                valid_coord(b@, x, y) ==> b@.bombs[x][y] == bombs@[x]@[y],
    {
        let b = Board {
            player_count: 0,
            size_x,
            size_y,
            percent: 20,
            board: untouched_grid(size_x, size_y),
            bomb: bombs,
        };
        proof {
            lemma_size_bounds(size_x as int, size_y as int);
        }
        b
    }

    /// Regenerates the board in place after a win: same dimensions, same
    /// density, same players; every cell untouched again and a fresh
    /// bomb layout.
    pub fn reset(&mut self)
        requires
            dims_ok(old(self)@),
        ensures
            wf(final(self)@),
            final(self)@.size_x == old(self)@.size_x,
            final(self)@.size_y == old(self)@.size_y,
            final(self)@.players == old(self)@.players,
            final(self)@.percent == old(self)@.percent,
            forall|x: int, y: int|
                valid_coord(final(self)@, x, y) ==> final(self)@.cells[x][y] == Cell::Untouched,
    {
        self.board = untouched_grid(self.size_x, self.size_y);
        self.bomb = random_bombs(self.size_x, self.size_y, self.percent);
    }
}

/// No cell of the board holds a bomb.
pub open spec fn bomb_free(v: BoardView) -> bool {
    forall|i: int, j: int| valid_coord(v, i, j) ==> !(#[trigger] v.bombs[i][j])
}

/// Every cell is either untouched or revealed with a zero count — the
/// only two states a bomb-free board ever passes through.
spec fn cells_settled(v: BoardView) -> bool {
    forall|i: int, j: int|
        valid_coord(v, i, j) ==> ((#[trigger] v.cells[i][j]) == Cell::Untouched || v.cells[i][j]
            == Cell::Revealed(0u8))
}

/// Every neighbour of `(i, j)` on the grid is marked visited.
spec fn neighbors_visited(v: BoardView, visited: Set<int>, i: int, j: int) -> bool {
    forall|a: int, b: int|
        valid_coord(v, a, b) && is_adjacent(i, j, a, b) ==> visited.contains(
            #[trigger] flat(v, a, b),
        )
}

/// Every neighbour of `(i, j)` on the grid is revealed with a zero
/// count.
spec fn neighbors_revealed(v: BoardView, i: int, j: int) -> bool {
    forall|a: int, b: int|
        valid_coord(v, a, b) && is_adjacent(i, j, a, b) ==> (#[trigger] v.cells[a][b])
            == Cell::Revealed(0u8)
}

/// Distinct grid coordinates have distinct flat indices.
proof fn lemma_flat_injective(v: BoardView, i: int, j: int, x: int, y: int)
    requires
        dims_ok(v),
        valid_coord(v, i, j),
        valid_coord(v, x, y),
        flat(v, i, j) == flat(v, x, y),
    ensures
        i == x && j == y,
{
    assert(i == x && j == y) by (nonlinear_arith)
        requires
            0 <= j < v.size_y,
            0 <= y < v.size_y,
            0 <= i,
            0 <= x,
            i * v.size_y + j == x * v.size_y + y,
    ;
}

/// On a bomb-free board every adjacency count is zero.
proof fn lemma_adj_bombs_zero(v: BoardView, x: int, y: int)
    requires
        dims_ok(v),
        bomb_free(v),
        valid_coord(v, x, y),
    ensures
        adj_bombs(v, x, y) == 0,
{
}

/// Every coordinate adjacent to `(x, y)` is reached by one of the
/// eight neighbour offsets.
proof fn lemma_dir_complete(x: int, y: int, a: int, b: int)
    requires
        is_adjacent(x, y, a, b),
    ensures
        exists|k: int| 0 <= k < 8 && a == x + (#[trigger] spec_dir(k)).0 && b == y + spec_dir(k).1,
{
    if a == x - 1 && b == y - 1 {
        assert(a == x + spec_dir(0).0 && b == y + spec_dir(0).1);
    } else if a == x - 1 && b == y {
        assert(a == x + spec_dir(1).0 && b == y + spec_dir(1).1);
    } else if a == x - 1 && b == y + 1 {
        assert(a == x + spec_dir(2).0 && b == y + spec_dir(2).1);
    } else if a == x && b == y + 1 {
        assert(a == x + spec_dir(3).0 && b == y + spec_dir(3).1);
    } else if a == x && b == y - 1 {
        assert(a == x + spec_dir(4).0 && b == y + spec_dir(4).1);
    } else if a == x + 1 && b == y {
        assert(a == x + spec_dir(5).0 && b == y + spec_dir(5).1);
    } else if a == x + 1 && b == y - 1 {
        assert(a == x + spec_dir(6).0 && b == y + spec_dir(6).1);
    } else {
        assert(a == x + 1 && b == y + 1);
        assert(a == x + spec_dir(7).0 && b == y + spec_dir(7).1);
    }
}

/// Pushing the neighbours of an untouched seed marks every one of its
/// still-unvisited offsets visited (on a board whose revealed cells are
/// all visited), and every entry it adds is an untouched neighbour.
proof fn lemma_push_neighbors_cover(
    v: BoardView,
    x: int,
    y: int,
    queue: Seq<(int, int)>,
    visited: Set<int>,
    k: int,
)
    requires
        0 <= k,
        dims_ok(v),
        queue_ok(v, queue, visited),
        valid_coord(v, x, y),
        cells_settled(v),
        forall|i: int, j: int|
            valid_coord(v, i, j) && (#[trigger] v.cells[i][j]) == Cell::Revealed(0u8)
                ==> visited.contains(flat(v, i, j)),
    ensures
        ({
            let qv = push_neighbors(v, x, y, queue, visited, k);
            &&& forall|dk: int|
                k <= dk < 8 && valid_coord(v, x + (#[trigger] spec_dir(dk)).0, y + spec_dir(dk).1)
                    ==> qv.1.contains(flat(v, x + spec_dir(dk).0, y + spec_dir(dk).1))
            &&& forall|m: int|
                queue.len() <= m < qv.0.len() ==> is_adjacent(
                    x,
                    y,
                    (#[trigger] qv.0[m]).0,
                    qv.0[m].1,
                ) && v.cells[qv.0[m].0][qv.0[m].1] == Cell::Untouched
            &&& forall|f: int|
                qv.1.contains(f) && !visited.contains(f) ==> exists|m: int|
                    queue.len() <= m < qv.0.len() && flat(v, (#[trigger] qv.0[m]).0, qv.0[m].1)
                        == f
        }),
    decreases 8 - k,
{
    lemma_push_neighbors(v, x, y, queue, visited, k);
    if k < 0 || k >= 8 {
    } else {
        let nx = x + spec_dir(k).0;
        let ny = y + spec_dir(k).1;
        let qv = push_neighbors(v, x, y, queue, visited, k);
        if valid_coord(v, nx, ny) && !visited.contains(flat(v, nx, ny)) && v.cells[nx][ny]
            == Cell::Untouched {
            let q2 = queue.push((nx, ny));
            let vis2 = visited.insert(flat(v, nx, ny));
            assert(0 <= flat(v, nx, ny) < v.size_x * v.size_y) by (nonlinear_arith)
                requires
                    0 <= nx < v.size_x,
                    0 <= ny < v.size_y,
                    flat(v, nx, ny) == nx * v.size_y + ny,
            ;
            assert(queue_ok(v, q2, vis2));
            lemma_push_neighbors(v, x, y, q2, vis2, k + 1);
            lemma_push_neighbors_cover(v, x, y, q2, vis2, k + 1);
            assert(q2[queue.len() as int] == (nx, ny));
            assert forall|dk: int|
                k <= dk < 8 && valid_coord(v, x + (#[trigger] spec_dir(dk)).0, y + spec_dir(dk).1)
                implies qv.1.contains(flat(v, x + spec_dir(dk).0, y + spec_dir(dk).1)) by {
                if dk == k {
                    assert(vis2.contains(flat(v, nx, ny)));
                    assert(vis2.subset_of(qv.1));
                }
            }
            assert forall|m: int| queue.len() <= m < qv.0.len() implies is_adjacent(
                x,
                y,
                (#[trigger] qv.0[m]).0,
                qv.0[m].1,
            ) && v.cells[qv.0[m].0][qv.0[m].1] == Cell::Untouched by {
                if m == queue.len() {
                    assert(qv.0[m] == q2[m]);
                    assert(qv.0[m] == (nx, ny));
                } else {
                    assert(q2.len() <= m < qv.0.len());
                }
            }
            assert forall|f: int| qv.1.contains(f) && !visited.contains(f) implies exists|m: int|
                queue.len() <= m < qv.0.len() && flat(v, (#[trigger] qv.0[m]).0, qv.0[m].1)
                    == f by {
                if vis2.contains(f) && !visited.contains(f) && f != flat(v, nx, ny) {
                    assert(visited.contains(f));
                } else if f == flat(v, nx, ny) {
                    assert(qv.0[queue.len() as int] == (nx, ny));
                    assert(flat(v, qv.0[queue.len() as int].0, qv.0[queue.len() as int].1) == f);
                } else {
                    let m = choose|m: int|
                        q2.len() <= m < qv.0.len() && flat(
                            v,
                            (#[trigger] qv.0[m]).0,
                            qv.0[m].1,
                        ) == f;
                    assert(queue.len() <= m < qv.0.len());
                    assert(flat(v, qv.0[m].0, qv.0[m].1) == f);
                }
            }
        } else {
            lemma_push_neighbors_cover(v, x, y, queue, visited, k + 1);
            if valid_coord(v, nx, ny) && visited.contains(flat(v, nx, ny)) {
                assert(qv.1.contains(flat(v, nx, ny)));
            } else if valid_coord(v, nx, ny) {
                assert(v.cells[nx][ny] == Cell::Revealed(0u8));
                assert(visited.contains(flat(v, nx, ny)));
            }
        }
    }
}

/// Running the flood fill over a bomb-free board whose visited set
/// covers its revealed cells and whose revealed cells are closed under
/// adjacency reveals every visited cell and keeps that closure.
proof fn lemma_flood_saturates(v: BoardView, queue: Seq<(int, int)>, visited: Set<int>)
    requires
        dims_ok(v),
        counts_ok(v),
        queue_ok(v, queue, visited),
        bomb_free(v),
        cells_settled(v),
        forall|i: int, j: int|
            valid_coord(v, i, j) && (#[trigger] v.cells[i][j]) == Cell::Revealed(0u8)
                ==> visited.contains(flat(v, i, j)),
        forall|i: int, j: int|
            valid_coord(v, i, j) && visited.contains(#[trigger] flat(v, i, j)) ==> queue.contains(
                (i, j),
            ) || v.cells[i][j] == Cell::Revealed(0u8),
        forall|i: int, j: int|
            valid_coord(v, i, j) && (#[trigger] v.cells[i][j]) == Cell::Revealed(0u8)
                ==> neighbors_visited(v, visited, i, j),
    ensures
        ({
            let r = flood_rec(v, queue, visited);
            &&& forall|i: int, j: int|
                valid_coord(v, i, j) && visited.contains(#[trigger] flat(v, i, j))
                    ==> r.cells[i][j] == Cell::Revealed(0u8)
            &&& cells_settled(r)
            &&& forall|i: int, j: int|
                valid_coord(v, i, j) && (#[trigger] r.cells[i][j]) == Cell::Revealed(0u8)
                    ==> neighbors_revealed(r, i, j)
        }),
    decreases queue.len() + v.size_x * v.size_y - visited.len(),
{
    lemma_visited_bound(v, visited);
    lemma_flood_props(v, queue, visited);
    let r = flood_rec(v, queue, visited);
    if queue.len() == 0 {
        assert forall|i: int, j: int|
            valid_coord(v, i, j) && (#[trigger] r.cells[i][j]) == Cell::Revealed(0u8)
            implies neighbors_revealed(r, i, j) by {
            assert(neighbors_visited(v, visited, i, j));
            assert forall|a: int, b: int|
                valid_coord(r, a, b) && is_adjacent(i, j, a, b) implies (#[trigger] r.cells[a][b])
                == Cell::Revealed(0u8) by {
                assert(visited.contains(flat(v, a, b)));
            }
        }
    } else {
        let x = queue[0].0;
        let y = queue[0].1;
        let rest = queue.skip(1);
        assert(queue_ok(v, rest, visited));
        assert forall|c: (int, int)| queue.contains(c) implies c == queue[0] || rest.contains(
            c,
        ) by {
            let m = choose|m: int| 0 <= m < queue.len() && queue[m] == c;
            if m > 0 {
                assert(rest[m - 1] == c);
            }
        }
        if v.cells[x][y] != Cell::Untouched {
            assert(v.cells[x][y] == Cell::Revealed(0u8));
            lemma_flood_saturates(v, rest, visited);
        } else {
            let n = adj_bombs(v, x, y);
            lemma_adj_bombs_zero(v, x, y);
            let v2 = set_cell(v, x, y, Cell::Revealed(0u8));
            lemma_reveal_preserves(v, x, y);
            assert(queue_ok(v2, rest, visited));
            let qv = push_neighbors(v2, x, y, rest, visited, 0);
            lemma_push_neighbors(v2, x, y, rest, visited, 0);
            lemma_visited_bound(v2, qv.1);
            assert forall|i: int, j: int|
                valid_coord(v2, i, j) && (#[trigger] v2.cells[i][j]) == Cell::Revealed(0u8)
                implies visited.contains(flat(v2, i, j)) by {
                assert(flat(v2, i, j) == flat(v, i, j));
                if i == x && j == y {
                    assert(visited.contains(flat(v, x, y)));
                } else {
                    assert(v.cells[i][j] == Cell::Revealed(0u8));
                    assert(visited.contains(flat(v, i, j)));
                }
            }
            lemma_push_neighbors_cover(v2, x, y, rest, visited, 0);
            // the revealed seed has every neighbour visited afterwards
            assert forall|a: int, b: int|
                valid_coord(v2, a, b) && is_adjacent(x, y, a, b) implies qv.1.contains(
                #[trigger] flat(v2, a, b),
            ) by {
                lemma_dir_complete(x, y, a, b);
                let k = choose|k: int|
                    0 <= k < 8 && a == x + (#[trigger] spec_dir(k)).0 && b == y + spec_dir(k).1;
                assert(qv.1.contains(flat(v2, x + spec_dir(k).0, y + spec_dir(k).1)));
            }
            // hypotheses of the recursive call
            assert(cells_settled(v2));
            assert forall|i: int, j: int|
                valid_coord(v2, i, j) && (#[trigger] v2.cells[i][j]) == Cell::Revealed(0u8)
                implies qv.1.contains(flat(v2, i, j)) by {
                assert(visited.contains(flat(v2, i, j)));
                assert(visited.subset_of(qv.1));
            }
            assert forall|i: int, j: int|
                valid_coord(v2, i, j) && qv.1.contains(#[trigger] flat(v2, i, j))
                implies qv.0.contains((i, j)) || v2.cells[i][j] == Cell::Revealed(0u8) by {
                assert(flat(v2, i, j) == flat(v, i, j));
                if visited.contains(flat(v2, i, j)) {
                    assert(visited.contains(flat(v, i, j)));
                    assert(queue.contains((i, j)) || v.cells[i][j] == Cell::Revealed(0u8));
                    if queue.contains((i, j)) {
                        if (i, j) == queue[0] {
                            assert(v2.cells[i][j] == Cell::Revealed(0u8));
                        } else {
                            assert(rest.contains((i, j)));
                            let m = choose|m: int| 0 <= m < rest.len() && rest[m] == (i, j);
                            assert(qv.0[m] == rest[m]);
                            assert(qv.0.contains((i, j)));
                        }
                    } else {
                        assert(v2.cells[i][j] == Cell::Revealed(0u8));
                    }
                } else {
                    let m = choose|m: int|
                        rest.len() <= m < qv.0.len() && flat(
                            v2,
                            (#[trigger] qv.0[m]).0,
                            qv.0[m].1,
                        ) == flat(v2, i, j);
                    assert(valid_coord(v2, qv.0[m].0, qv.0[m].1));
                    lemma_flat_injective(v2, i, j, qv.0[m].0, qv.0[m].1);
                    assert(qv.0.contains((i, j)));
                }
            }
            assert forall|i: int, j: int|
                valid_coord(v2, i, j) && (#[trigger] v2.cells[i][j]) == Cell::Revealed(0u8)
                implies neighbors_visited(v2, qv.1, i, j) by {
                if i == x && j == y {
                } else {
                    assert(v.cells[i][j] == Cell::Revealed(0u8));
                    assert(neighbors_visited(v, visited, i, j));
                    assert forall|a: int, b: int|
                        valid_coord(v2, a, b) && is_adjacent(i, j, a, b) implies qv.1.contains(
                        #[trigger] flat(v2, a, b),
                    ) by {
                        assert(flat(v2, a, b) == flat(v, a, b));
                        assert(visited.contains(flat(v, a, b)));
                        assert(visited.subset_of(qv.1));
                    }
                }
            }
            lemma_flood_saturates(v2, qv.0, qv.1);
            assert forall|i: int, j: int|
                valid_coord(v, i, j) && visited.contains(#[trigger] flat(v, i, j))
                implies r.cells[i][j] == Cell::Revealed(0u8) by {
                assert(flat(v2, i, j) == flat(v, i, j));
                assert(qv.1.contains(flat(v2, i, j)));
            }
        }
    }
}

/// On a board closed under adjacency of revealed cells, one revealed
/// cell carries to every coordinate, walking one step at a time.
proof fn lemma_reach(r: BoardView, x: int, y: int, i: int, j: int)
    requires
        dims_ok(r),
        valid_coord(r, x, y),
        valid_coord(r, i, j),
        r.cells[x][y] == Cell::Revealed(0u8),
        forall|a: int, b: int|
            valid_coord(r, a, b) && (#[trigger] r.cells[a][b]) == Cell::Revealed(0u8)
                ==> neighbors_revealed(r, a, b),
    ensures
        r.cells[i][j] == Cell::Revealed(0u8),
    decreases (if i >= x {
        i - x
    } else {
        x - i
    }) + (if j >= y {
        j - y
    } else {
        y - j
    }),
{
    if i == x && j == y {
    } else {
        let a = if i > x {
            i - 1
        } else if i < x {
            i + 1
        } else {
            i
        };
        let b = if j > y {
            j - 1
        } else if j < y {
            j + 1
        } else {
            j
        };
        lemma_reach(r, x, y, a, b);
        assert(is_adjacent(a, b, i, j));
        assert(neighbors_revealed(r, a, b));
    }
}

/// Flood-fill completeness: digging any cell of a fresh, bomb-free
/// board reveals the whole grid.  The traversal itself terminates and
/// touches each cell at most once by construction — the visited set in
/// `flood_rec` only grows, and its size is bounded by the grid's.
pub proof fn lemma_dig_bomb_free_reveals_all(v: BoardView, x: int, y: int)
    requires
        wf(v),
        valid_coord(v, x, y),
        bomb_free(v),
        forall|i: int, j: int|
            valid_coord(v, i, j) ==> (#[trigger] v.cells[i][j]) == Cell::Untouched,
    ensures
        forall|i: int, j: int|
            valid_coord(v, i, j) ==> (#[trigger] dig_spec(v, x, y).cells[i][j]) == Cell::Revealed(
                0u8,
            ),
{
    lemma_seed_queue_ok(v, x, y);
    let vis = Set::empty().insert(flat(v, x, y));
    let queue = seq![(x, y)];
    assert forall|i: int, j: int|
        valid_coord(v, i, j) && vis.contains(#[trigger] flat(v, i, j)) implies queue.contains(
        (i, j),
    ) || v.cells[i][j] == Cell::Revealed(0u8) by {
        lemma_flat_injective(v, i, j, x, y);
        assert(queue[0] == (i, j));
    }
    lemma_flood_saturates(v, queue, vis);
    let r = flood_rec(v, queue, vis);
    assert(r == dig_spec(v, x, y));
    assert(r.cells[x][y] == Cell::Revealed(0u8)) by {
        assert(vis.contains(flat(v, x, y)));
    }
    lemma_flood_props(v, queue, vis);
    assert forall|i: int, j: int| valid_coord(v, i, j) implies (#[trigger] dig_spec(
        v,
        x,
        y,
    ).cells[i][j]) == Cell::Revealed(0u8) by {
        lemma_reach(r, x, y, i, j);
    }
}

/// Changing only the player count never disturbs the grid invariant.
pub proof fn lemma_wf_players(v: BoardView, p: int)
    requires
        wf(v),
    ensures
        wf(BoardView { players: p, ..v }),
{
    let w = BoardView { players: p, ..v };
    assert forall|x: int, y: int| valid_coord(w, x, y) implies #[trigger] count_ok_at(
        w,
        x,
        y,
    ) by {
        assert(count_ok_at(v, x, y));
        assert(adj_bombs(w, x, y) == adj_bombs(v, x, y));
    }
}

/// The initial work list of a dig — the seed alone, already marked
/// visited — is well formed.
proof fn lemma_seed_queue_ok(v: BoardView, x: int, y: int)
    requires
        dims_ok(v),
        valid_coord(v, x, y),
    ensures
        queue_ok(v, seq![(x, y)], Set::empty().insert(flat(v, x, y))),
{
    assert(0 <= flat(v, x, y) < v.size_x * v.size_y) by (nonlinear_arith)
        requires
            0 <= x < v.size_x,
            0 <= y < v.size_y,
            flat(v, x, y) == x * v.size_y + y,
    ;
    assert(seq![(x, y)][0] == (x, y));
}

/// Digging never lowers a cell back to untouched: after any dig, the
/// dug cell is out of range or no longer untouched, so a second dig of
/// the same coordinate changes nothing and cannot detonate.  Digging is
/// idempotent.
pub proof fn lemma_dig_idempotent(v: BoardView, x: int, y: int)
    requires
        wf(v),
    ensures
        dig_spec(dig_spec(v, x, y), x, y) == dig_spec(v, x, y),
        !dig_boom(dig_spec(v, x, y), x, y),
{
    let v1 = dig_spec(v, x, y);
    if !valid_coord(v, x, y) || v.cells[x][y] != Cell::Untouched {
    } else {
        lemma_seed_queue_ok(v, x, y);
        let vis = Set::empty().insert(flat(v, x, y));
        if v.bombs[x][y] {
            lemma_detonation_wf(v, x, y);
            let v2 = dec_adjacent(clear_bomb(v, x, y), x, y);
            assert(flat(v2, x, y) == flat(v, x, y));
            assert(queue_ok(v2, seq![(x, y)], vis));
            lemma_flood_head_revealed(v2, seq![(x, y)], vis);
            lemma_flood_props(v2, seq![(x, y)], vis);
            assert(v1.cells[x][y] is Revealed);
        } else {
            lemma_flood_head_revealed(v, seq![(x, y)], vis);
            lemma_flood_props(v, seq![(x, y)], vis);
            assert(v1.cells[x][y] is Revealed);
        }
        assert(valid_coord(v1, x, y));
        assert(dig_spec(v1, x, y) == v1);
    }
}

/// Digging neither creates nor destroys flags: a cell is flagged after
/// a dig exactly when it was flagged before.  Flags change only through
/// `flag` and `deflag`.
pub proof fn lemma_dig_flags_unchanged(v: BoardView, x: int, y: int)
    requires
        wf(v),
    ensures
        forall|i: int, j: int|
            valid_coord(v, i, j) ==> ((#[trigger] dig_spec(v, x, y).cells[i][j]) == Cell::Flagged
                <==> v.cells[i][j] == Cell::Flagged),
{
    if !valid_coord(v, x, y) || v.cells[x][y] != Cell::Untouched {
    } else {
        lemma_seed_queue_ok(v, x, y);
        let vis = Set::empty().insert(flat(v, x, y));
        let r = dig_spec(v, x, y);
        if v.bombs[x][y] {
            lemma_detonation_wf(v, x, y);
            let v2 = dec_adjacent(clear_bomb(v, x, y), x, y);
            assert(flat(v2, x, y) == flat(v, x, y));
            assert(queue_ok(v2, seq![(x, y)], vis));
            lemma_flood_props(v2, seq![(x, y)], vis);
            assert forall|i: int, j: int| valid_coord(v, i, j) implies ((#[trigger] r.cells[i][j])
                == Cell::Flagged <==> v.cells[i][j] == Cell::Flagged) by {
                assert(v2.cells[i][j] == Cell::Flagged <==> v.cells[i][j] == Cell::Flagged);
                assert(cell_evolves(v2.cells[i][j], r.cells[i][j]));
            }
        } else {
            lemma_flood_props(v, seq![(x, y)], vis);
            assert forall|i: int, j: int| valid_coord(v, i, j) implies ((#[trigger] r.cells[i][j])
                == Cell::Flagged <==> v.cells[i][j] == Cell::Flagged) by {
                assert(cell_evolves(v.cells[i][j], r.cells[i][j]));
            }
        }
    }
}

/// Flagging an untouched cell and immediately deflagging it restores
/// the board exactly; for an out-of-range coordinate both calls are
/// no-ops.
pub proof fn lemma_flag_deflag_roundtrip(v: BoardView, x: int, y: int)
    requires
        dims_ok(v),
        !valid_coord(v, x, y) || v.cells[x][y] == Cell::Untouched,
    ensures
        deflag_spec(flag_spec(v, x, y), x, y) == v,
{
    if valid_coord(v, x, y) && v.cells[x][y] == Cell::Untouched {
        let v1 = flag_spec(v, x, y);
        assert(v1.cells[x][y] == Cell::Flagged);
        let v2 = deflag_spec(v1, x, y);
        assert(v2.cells =~~= v.cells);
        assert(v2 =~~= v);
    }
}

/// Any operation given an out-of-range coordinate is a no-op that
/// cannot detonate: the board, and hence its render, is unchanged.
pub proof fn lemma_out_of_range_noop(v: BoardView, x: int, y: int)
    requires
        !valid_coord(v, x, y),
    ensures
        dig_spec(v, x, y) == v,
        flag_spec(v, x, y) == v,
        deflag_spec(v, x, y) == v,
        !dig_boom(v, x, y),
{
}

/// Dimensions within the size cap keep every flat index in machine
/// range.
proof fn lemma_size_bounds(size_x: int, size_y: int)
    requires
        1 <= size_x,
        1 <= size_y,
        size_x * size_y <= 0x4000_0000,
    ensures
        size_x <= 0x4000_0000,
        size_y <= 0x4000_0000,
{
    assert(size_x <= size_x * size_y && size_y <= size_x * size_y) by (nonlinear_arith)
        requires
            1 <= size_x,
            1 <= size_y,
    ;
}

/// When a bomb at an untouched cell `(x, y)` is cleared and the stored
/// counts of its revealed neighbours are lowered by one, the board is
/// well formed again and the seed is still untouched.
proof fn lemma_detonation_wf(v: BoardView, x: int, y: int)
    requires
        wf(v),
        valid_coord(v, x, y),
        v.cells[x][y] == Cell::Untouched,
        v.bombs[x][y],
    ensures
        ({
            let v2 = dec_adjacent(clear_bomb(v, x, y), x, y);
            &&& dims_ok(v2)
            &&& counts_ok(v2)
            &&& v2.cells[x][y] == Cell::Untouched
            &&& forall|i: int, j: int|
                valid_coord(v, i, j) && is_adjacent(x, y, i, j) ==> dec_safe(
                    #[trigger] v.cells[i][j],
                )
        }),
{
    let v1 = clear_bomb(v, x, y);
    let v2 = dec_adjacent(v1, x, y);
    assert forall|i: int, j: int|
        valid_coord(v, i, j) && is_adjacent(x, y, i, j) implies dec_safe(
        #[trigger] v.cells[i][j],
    ) by {
        match v.cells[i][j] {
            Cell::Revealed(n) => {
                assert(count_ok_at(v, i, j));
                assert(bomb_count_at(v, x, y) == 1);
                assert(adj_bombs(v, i, j) >= 1);
            },
            _ => {},
        }
    }
    assert forall|i: int, j: int| valid_coord(v2, i, j) implies #[trigger] count_ok_at(
        v2,
        i,
        j,
    ) by {
        assert(count_ok_at(v, i, j));
        if is_adjacent(x, y, i, j) {
            assert(adj_bombs(v2, i, j) == adj_bombs(v, i, j) - 1);
            assert(v2.cells[i][j] == dec_cell(v.cells[i][j]));
        } else {
            assert(adj_bombs(v2, i, j) == adj_bombs(v, i, j));
            assert(v2.cells[i][j] == v.cells[i][j]);
        }
    }
}

/// Relies on `rand::random`: a value drawn from the thread-local
/// generator's uniform distribution over `T`.  The result depends on
/// chance, so nothing is promised of it.
pub assume_specification<T>[ rand::random::<T> ]() -> (r: T)
    where
        rand::distributions::Standard: rand::distributions::Distribution<T>,
;

/// A grid of untouched cells.
fn untouched_grid(size_x: usize, size_y: usize) -> (g: Vec<Vec<Cell>>)
    ensures
        g@.len() == size_x,
        forall|i: int| 0 <= i < size_x ==> (#[trigger] g@[i])@.len() == size_y,
        forall|i: int, j: int|
            0 <= i < size_x && 0 <= j < size_y ==> (#[trigger] g@[i]@[j]) == Cell::Untouched,
{
    let mut g: Vec<Vec<Cell>> = Vec::new();
    let mut i: usize = 0;
    while i < size_x
        invariant
            i <= size_x,
            g@.len() == i,
            forall|a: int| 0 <= a < i ==> (#[trigger] g@[a])@.len() == size_y,
            forall|a: int, b: int|
                0 <= a < i && 0 <= b < size_y ==> (#[trigger] g@[a]@[b]) == Cell::Untouched,
        decreases size_x - i,
    {
        let mut row: Vec<Cell> = Vec::new();
        let mut j: usize = 0;
        while j < size_y
            invariant
                j <= size_y,
                row@.len() == j,
                forall|b: int| 0 <= b < j ==> (#[trigger] row@[b]) == Cell::Untouched,
            decreases size_y - j,
        {
            row.push(Cell::Untouched);
            j = j + 1;
        }
        g.push(row);
        i = i + 1;
    }
    g
}

/// A bomb layout drawing each cell independently, with the given
/// percentage as the bomb probability.
fn random_bombs(size_x: usize, size_y: usize, percent: u32) -> (g: Vec<Vec<bool>>)
    ensures
        g@.len() == size_x,
        forall|i: int| 0 <= i < size_x ==> (#[trigger] g@[i])@.len() == size_y,
{
    let mut g: Vec<Vec<bool>> = Vec::new();
    let mut i: usize = 0;
    while i < size_x
        invariant
            i <= size_x,
            g@.len() == i,
            forall|a: int| 0 <= a < i ==> (#[trigger] g@[a])@.len() == size_y,
        decreases size_x - i,
    {
        let mut row: Vec<bool> = Vec::new();
        let mut j: usize = 0;
        while j < size_y
            invariant
                j <= size_y,
                row@.len() == j,
            decreases size_y - j,
        {
            let draw: u32 = rand::random::<u32>();
            row.push(draw % 100 < percent);
            j = j + 1;
        }
        g.push(row);
        i = i + 1;
    }
    g
}

/// A vector of `n` `false` flags: the visited grid of the flood fill.
fn vec_false(n: usize) -> (v: Vec<bool>)
    ensures
        v@.len() == n,
        forall|t: int| 0 <= t < n ==> !(#[trigger] v@[t]),
{
    let mut v: Vec<bool> = Vec::new();
    let mut i: usize = 0;
    while i < n
        invariant
            i <= n,
            v@.len() == i,
            forall|t: int| 0 <= t < i ==> !(#[trigger] v@[t]),
        decreases n - i,
    {
        v.push(false);
        i = i + 1;
    }
    v
}

/// The coordinate queue of the executable flood fill, as ghost pairs.
pub open spec fn int_pairs(q: Seq<(usize, usize)>) -> Seq<(int, int)> {
    Seq::new(q.len(), |k: int| (q[k].0 as int, q[k].1 as int))
}

/// The glyph of one cell as a one-character string slice.
fn glyph_str(c: Cell) -> (r: &'static str)
    requires
        match c {
            Cell::Revealed(n) => n <= 8,
            _ => true,
        },
    ensures
        r@ == seq![glyph(c)],
{
    match c {
        Cell::Untouched => {
            proof {
                reveal_strlit("-");
                assert("-"@ =~= seq![glyph(c)]);
            }
            "-"
        },
        Cell::Flagged => {
            proof {
                reveal_strlit("F");
                assert("F"@ =~= seq![glyph(c)]);
            }
            "F"
        },
        Cell::Revealed(n) => {
            if n == 0 {
                proof {
                    reveal_strlit(" ");
                    assert(" "@ =~= seq![glyph(c)]);
                }
                " "
            } else if n == 1 {
                proof {
                    reveal_strlit("1");
                    assert("1"@ =~= seq![glyph(c)]);
                }
                "1"
            } else if n == 2 {
                proof {
                    reveal_strlit("2");
                    assert("2"@ =~= seq![glyph(c)]);
                }
                "2"
            } else if n == 3 {
                proof {
                    reveal_strlit("3");
                    assert("3"@ =~= seq![glyph(c)]);
                }
                "3"
            } else if n == 4 {
                proof {
                    reveal_strlit("4");
                    assert("4"@ =~= seq![glyph(c)]);
                }
                "4"
            } else if n == 5 {
                proof {
                    reveal_strlit("5");
                    assert("5"@ =~= seq![glyph(c)]);
                }
                "5"
            } else if n == 6 {
                proof {
                    reveal_strlit("6");
                    assert("6"@ =~= seq![glyph(c)]);
                }
                "6"
            } else if n == 7 {
                proof {
                    reveal_strlit("7");
                    assert("7"@ =~= seq![glyph(c)]);
                }
                "7"
            } else {
                proof {
                    reveal_strlit("8");
                    assert("8"@ =~= seq![glyph(c)]);
                }
                "8"
            }
        },
    }
}

} // verus!
