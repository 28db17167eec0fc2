//! A tic-tac-toe game engine for square boards of variable size.
//!
//! The board is stored as a flat row-major vector: the cell at `(x, y)` lives
//! at index `y * board_size + x`, so `x = i % board_size` and
//! `y = i / board_size` recover the coordinates from a flat index.

use vstd::prelude::*;

verus! {

/// One of the two players. `X` always moves first on a fresh board.
#[derive(Debug, PartialEq, Eq, Structural, Clone, Copy)]
pub enum Player {
    X,
    O,
}

/// The outcome of evaluating a board: finished with a draw, won by the
/// player who moved last, or still open.
#[derive(Debug, PartialEq, Eq, Structural, Clone, Copy)]
pub enum GameState {
    Draw,
    Win,
    InProgress,
}

/// The symbol a player writes into a cell.
pub open spec fn spec_symbol(p: Player) -> char {
    match p {
        Player::X => 'X',
        Player::O => 'O',
    }
}

/// The player who moves after `p`.
pub open spec fn spec_opponent(p: Player) -> Player {
    match p {
        Player::X => Player::O,
        Player::O => Player::X,
    }
}

/// A flat index computed from in-range coordinates stays within a square
/// board's cell count.
pub proof fn lemma_flat_index_in_range(x: int, y: int, n: int)
    requires
        0 <= x < n,
        0 <= y < n,
    ensures
        0 <= y * n + x < n * n,
{
    assert(0 <= y * n + x < n * n) by (nonlinear_arith)
        requires
            0 <= x < n,
            0 <= y < n;
}

/// The cell count of a board whose side fits in a byte fits comfortably in
/// a machine word.
pub proof fn lemma_cell_count_bound(n: int)
    requires
        0 <= n <= 255,
    ensures
        n * n <= 255 * 255,
{
    assert(n * n <= 255 * 255) by (nonlinear_arith)
        requires
            0 <= n <= 255;
}

/// A flat index into a square board's cells decomposes into in-range
/// coordinates: `x = i % n` and `y = i / n` satisfy `y * n + x == i`.
pub proof fn lemma_flat_index_decompose(i: int, n: int)
    requires
        0 <= n,
        0 <= i < n * n,
    ensures
        0 <= i % n < n,
        0 <= i / n < n,
        (i / n) * n + (i % n) == i,
{
    if n == 0 {
        assert(n * n == 0) by (nonlinear_arith)
            requires
                n == 0;
    }
    vstd::arithmetic::div_mod::lemma_fundamental_div_mod(i, n);
    vstd::arithmetic::div_mod::lemma_mod_bound(i, n);
    vstd::arithmetic::div_mod::lemma_div_pos_is_pos(i, n);
    vstd::arithmetic::div_mod::lemma_multiply_divide_lt(i, n, n);
    vstd::arithmetic::mul::lemma_mul_is_commutative(n, i / n);
}

/// Distinct in-range coordinate pairs get distinct flat indices.
pub proof fn lemma_flat_index_injective(x1: int, y1: int, x2: int, y2: int, n: int)
    requires
        0 <= x1 < n,
        0 <= y1 < n,
        0 <= x2 < n,
        0 <= y2 < n,
        y1 * n + x1 == y2 * n + x2,
    ensures
        x1 == x2,
        y1 == y2,
{
    assert(x1 == x2 && y1 == y2) by (nonlinear_arith)
        requires
            0 <= x1 < n,
            0 <= y1 < n,
            0 <= x2 < n,
            0 <= y2 < n,
            y1 * n + x1 == y2 * n + x2;
}

/// Offset of the last cell of a winning run from its first cell: a run
/// spans `VICTORY_CONDITION + 1` consecutive cells of one symbol, and a
/// board smaller than a run cannot be won.
const VICTORY_CONDITION: u8 = 2;

/// The game engine: board contents, board size, and whose turn it is.
pub struct Game {
    /// Flat row-major board: the cell at `(x, y)` is `board[y * board_size + x]`.
    /// A space holds an empty cell, otherwise a player's symbol.
    pub board: Vec<char>,
    /// Side length of the square board.
    pub board_size: u8,
    /// The player about to move.
    pub player: Player,
}

impl Game {
    /// Side length as a mathematical integer.
    pub open spec fn size(self) -> int {
        self.board_size as int
    }

    /// The board always holds exactly `board_size * board_size` cells.
    pub open spec fn wf(self) -> bool {
        self.board@.len() == self.size() * self.size()
    }

    /// Whether `(x, y)` addresses a cell of the board.
    pub open spec fn in_bounds(self, x: int, y: int) -> bool {
        0 <= x < self.size() && 0 <= y < self.size()
    }

    /// The content of the cell at `(x, y)`.
    pub open spec fn cell(self, x: int, y: int) -> char {
        self.board@[y * self.size() + x]
    }

    /// Every cell of the board is taken.
    pub open spec fn board_full(self) -> bool {
        forall|x: int, y: int| self.in_bounds(x, y) ==> self.cell(x, y) != ' '
    }

    /// A winning run of three equal symbols heading east from `(x, y)`:
    /// along increasing `x` at fixed `y`.
    pub open spec fn run_east(self, x: int, y: int) -> bool {
        &&& 0 <= x
        &&& x + 2 < self.size()
        &&& 0 <= y < self.size()
        &&& self.cell(x, y) != ' '
        &&& self.cell(x, y) == self.cell(x + 1, y)
        &&& self.cell(x + 1, y) == self.cell(x + 2, y)
    }

    /// A winning run of three equal symbols heading south from `(x, y)`:
    /// along increasing `y` at fixed `x`.
    pub open spec fn run_south(self, x: int, y: int) -> bool {
        &&& 0 <= x < self.size()
        &&& 0 <= y
        &&& y + 2 < self.size()
        &&& self.cell(x, y) != ' '
        &&& self.cell(x, y) == self.cell(x, y + 1)
        &&& self.cell(x, y + 1) == self.cell(x, y + 2)
    }

    /// A winning run of three equal symbols heading southeast from `(x, y)`:
    /// `x` and `y` increasing together.
    pub open spec fn run_southeast(self, x: int, y: int) -> bool {
        &&& 0 <= x
        &&& x + 2 < self.size()
        &&& 0 <= y
        &&& y + 2 < self.size()
        &&& self.cell(x, y) != ' '
        &&& self.cell(x, y) == self.cell(x + 1, y + 1)
        &&& self.cell(x + 1, y + 1) == self.cell(x + 2, y + 2)
    }

    /// A winning run of three equal symbols heading northeast from `(x, y)`:
    /// `x` increasing while `y` decreases.
    pub open spec fn run_northeast(self, x: int, y: int) -> bool {
        &&& 0 <= x
        &&& x + 2 < self.size()
        &&& 2 <= y < self.size()
        &&& self.cell(x, y) != ' '
        &&& self.cell(x, y) == self.cell(x + 1, y - 1)
        &&& self.cell(x + 1, y - 1) == self.cell(x + 2, y - 2)
    }

    /// A winning run in any of the four scanned directions starts at `(x, y)`.
    pub open spec fn winning_run_at(self, x: int, y: int) -> bool {
        ||| self.run_east(x, y)
        ||| self.run_south(x, y)
        ||| self.run_southeast(x, y)
        ||| self.run_northeast(x, y)
    }

    /// Some winning run lies on the board.
    pub open spec fn has_win(self) -> bool {
        exists|x: int, y: int| self.winning_run_at(x, y)
    }

    /// The state of the board. A full board counts as a draw before any run
    /// is looked for, so a full board is a draw even when it holds a winning
    /// run; on a board with a free cell, a winning run means a win; otherwise
    /// the game is still open.
    pub open spec fn spec_game_state(self) -> GameState {
        if self.board_full() {
            GameState::Draw
        } else if self.has_win() {
            GameState::Win
        } else {
            GameState::InProgress
        }
    }

    /// A fresh engine: no board yet, `X` to move.
    pub fn new() -> (g: Game)
        ensures
            g.wf(),
            g.board_size == 0,
            g.board@.len() == 0,
            g.player == Player::X,
    {
        Game { board: Vec::new(), board_size: 0, player: Player::X }
    }

    /// The symbol of the player who is about to move.
    pub fn get_next_player_symbol(&self) -> (c: char)
        ensures
            c == spec_symbol(self.player),
    {
        match self.player {
            Player::X => 'X',
            Player::O => 'O',
        }
    }

    /// The symbol of the player who just moved (the turn has already flipped).
    pub fn get_prev_player_symbol(&self) -> (c: char)
        ensures
            c == spec_symbol(spec_opponent(self.player)),
    {
        match self.player {
            Player::X => 'O',
            Player::O => 'X',
        }
    }

    /// Reads the cell at `(x, y)`.
    pub fn get_cell(&self, x: u8, y: u8) -> (c: char)
        requires
            self.wf(),
            x < self.board_size,
            y < self.board_size,
        ensures
            c == self.cell(x as int, y as int),
    {
        proof {
            lemma_flat_index_in_range(x as int, y as int, self.board_size as int);
            lemma_cell_count_bound(self.board_size as int);
        }
        let idx: usize = (y as usize) * (self.board_size as usize) + (x as usize);
        self.board[idx]
    }

    /// Replaces any existing board with a fresh, fully empty
    /// `board_size * board_size` grid and gives the first move to `X`.
    pub fn create_board(&mut self, board_size: u8)
        ensures
            final(self).wf(),
            final(self).board_size == board_size,
            final(self).player == Player::X,
            final(self).board@.len() == board_size * board_size,
            forall|x: int, y: int|
                final(self).in_bounds(x, y) ==> final(self).cell(x, y) == ' ',
    {
        proof {
            lemma_cell_count_bound(board_size as int);
        }
        let count: usize = (board_size as usize) * (board_size as usize);
        let mut board: Vec<char> = Vec::new();
        let mut i: usize = 0;
        while i < count
            invariant
                i <= count,
                board@.len() == i,
                forall|k: int| 0 <= k < i ==> board@[k] == ' ',
            decreases count - i,
        {
            board.push(' ');
            i = i + 1;
        }
        self.board = board;
        self.board_size = board_size;
        self.player = Player::X;
        proof {
            let n = board_size as int;
            assert forall|x: int, y: int|
                self.in_bounds(x, y) implies self.cell(x, y) == ' ' by {
                lemma_flat_index_in_range(x, y, n);
            }
        }
    }

    /// Writes the current player's symbol into `(x, y)` if that cell exists
    /// (a write outside the board is silently ignored), flips the turn, and
    /// returns the state of the resulting board. Callers are expected to
    /// aim only at empty in-range cells; the engine itself overwrites
    /// whatever the cell held.
    pub fn player_input(&mut self, x: u8, y: u8) -> (r: GameState)
        requires
            old(self).wf(),
        ensures
            final(self).wf(),
            final(self).board_size == old(self).board_size,
            final(self).player == spec_opponent(old(self).player),
            old(self).in_bounds(x as int, y as int) ==> {
                &&& final(self).cell(x as int, y as int) == spec_symbol(old(self).player)
                &&& forall|i: int, j: int|
                    old(self).in_bounds(i, j) && !(i == x as int && j == y as int)
                        ==> final(self).cell(i, j) == old(self).cell(i, j)
            },
            !old(self).in_bounds(x as int, y as int) ==> final(self).board@ == old(self).board@,
            r == final(self).spec_game_state(),
    {
        let c: char;
        if self.player == Player::X {
            c = 'X';
            self.player = Player::O;
        } else {
            c = 'O';
            self.player = Player::X;
        }

        if x < self.board_size && y < self.board_size {
            proof {
                lemma_flat_index_in_range(x as int, y as int, self.board_size as int);
                lemma_cell_count_bound(self.board_size as int);
            }
            let idx: usize = (y as usize) * (self.board_size as usize) + (x as usize);
            self.board.set(idx, c);
            proof {
                let n = self.board_size as int;
                assert forall|i: int, j: int|
                    old(self).in_bounds(i, j) && !(i == x as int && j == y as int)
                        implies self.cell(i, j) == old(self).cell(i, j) by {
                    lemma_flat_index_in_range(i, j, n);
                    if j * n + i == (y as int) * n + (x as int) {
                        lemma_flat_index_injective(i, j, x as int, y as int, n);
                    }
                }
            }
        }

        self.check_game_state()
    }

    /// Installs a board from a flattened row-major cell list, as a stored
    /// game position is written: entry `i` lands in the cell at
    /// `(i % board_size, i / board_size)`. The turn holder is not touched.
    pub fn load_board(&mut self, board_size: u8, cells: &Vec<char>)
        requires
            cells@.len() == board_size * board_size,
        ensures
            final(self).wf(),
            final(self).board_size == board_size,
            final(self).player == old(self).player,
            final(self).board@.len() == cells@.len(),
            forall|i: int|
                0 <= i < cells@.len()
                    ==> final(self).cell(
                        i % (board_size as int),
                        i / (board_size as int),
                    ) == cells@[i],
    {
        let mut board: Vec<char> = Vec::new();
        let mut i: usize = 0;
        while i < cells.len()
            invariant
                i <= cells@.len(),
                board@.len() == i,
                forall|k: int| 0 <= k < i ==> board@[k] == cells@[k],
            decreases cells@.len() - i,
        {
            board.push(cells[i]);
            i = i + 1;
        }
        assert(board@ =~= cells@);
        self.board = board;
        self.board_size = board_size;
        proof {
            let n = board_size as int;
            assert forall|i: int|
                0 <= i < cells@.len()
                    implies self.cell(i % n, i / n) == cells@[i] by {
                lemma_flat_index_decompose(i, n);
            }
        }
    }

    /// Reads the board back out as a flattened row-major cell list: entry
    /// `i` of the result is the cell at `(i % board_size, i / board_size)`.
    pub fn flatten_board(&self) -> (cells: Vec<char>)
        requires
            self.wf(),
        ensures
            cells@.len() == self.board@.len(),
            forall|i: int|
                0 <= i < cells@.len()
                    ==> cells@[i] == self.cell(
                        i % (self.board_size as int),
                        i / (self.board_size as int),
                    ),
    {
        let mut cells: Vec<char> = Vec::new();
        let mut i: usize = 0;
        while i < self.board.len()
            invariant
                self.wf(),
                i <= self.board@.len(),
                cells@.len() == i,
                forall|k: int| 0 <= k < i ==> cells@[k] == self.board@[k],
            decreases self.board@.len() - i,
        {
            cells.push(self.board[i]);
            i = i + 1;
        }
        assert(cells@ =~= self.board@);
        proof {
            let n = self.board_size as int;
            assert forall|i: int|
                0 <= i < cells@.len()
                    implies cells@[i] == self.cell(i % n, i / n) by {
                lemma_flat_index_decompose(i, n);
            }
        }
        cells
    }

    /// True exactly when no cell of the board is empty.
    fn board_is_full(&self) -> (r: bool)
        requires
            self.wf(),
        ensures
            r == self.board_full(),
    {
        let n: u8 = self.board_size;
        let mut x: u8 = 0;
        while x < n
            invariant
                self.wf(),
                n == self.board_size,
                x <= n,
                forall|i: int, j: int| 0 <= i < x && 0 <= j < n ==> self.cell(i, j) != ' ',
            decreases n - x,
        {
            let mut y: u8 = 0;
            while y < n
                invariant
                    self.wf(),
                    n == self.board_size,
                    x < n,
                    y <= n,
                    forall|j: int| 0 <= j < y ==> self.cell(x as int, j) != ' ',
                decreases n - y,
            {
                if self.get_cell(x, y) == ' ' {
                    return false;
                }
                y = y + 1;
            }
            x = x + 1;
        }
        true
    }

    /// Scans every possible start of an eastward run.
    fn scan_east(&self) -> (found: bool)
        requires
            self.wf(),
        ensures
            found == exists|x: int, y: int| self.run_east(x, y),
    {
        let n: u8 = self.board_size;
        let bound: u8 = if n >= VICTORY_CONDITION {
            n - VICTORY_CONDITION
        } else {
            0
        };
        let mut x: u8 = 0;
        while x < bound
            invariant
                self.wf(),
                n == self.board_size,
                n >= VICTORY_CONDITION ==> bound == n - VICTORY_CONDITION,
                n < VICTORY_CONDITION ==> bound == 0,
                x <= bound,
                forall|i: int, j: int| 0 <= i < x && 0 <= j < n ==> !self.run_east(i, j),
            decreases bound - x,
        {
            let mut y: u8 = 0;
            while y < n
                invariant
                    self.wf(),
                    n == self.board_size,
                    n >= VICTORY_CONDITION ==> bound == n - VICTORY_CONDITION,
                    x < bound,
                    bound >= 1 ==> n >= VICTORY_CONDITION,
                    y <= n,
                    forall|j: int| 0 <= j < y ==> !self.run_east(x as int, j),
                decreases n - y,
            {
                if self.get_cell(x, y) != ' '
                    && self.get_cell(x, y) == self.get_cell(x + 1, y)
                    && self.get_cell(x + 1, y) == self.get_cell(x + 2, y)
                {
                    assert(self.run_east(x as int, y as int));
                    return true;
                }
                y = y + 1;
            }
            x = x + 1;
        }
        proof {
            assert forall|i: int, j: int| !self.run_east(i, j) by {
                if self.run_east(i, j) {
                    assert(0 <= i < bound && 0 <= j < n);
                }
            }
        }
        false
    }

    /// Scans every possible start of a southward run.
    fn scan_south(&self) -> (found: bool)
        requires
            self.wf(),
        ensures
            found == exists|x: int, y: int| self.run_south(x, y),
    {
        let n: u8 = self.board_size;
        let bound: u8 = if n >= VICTORY_CONDITION {
            n - VICTORY_CONDITION
        } else {
            0
        };
        let mut x: u8 = 0;
        while x < n
            invariant
                self.wf(),
                n == self.board_size,
                n >= VICTORY_CONDITION ==> bound == n - VICTORY_CONDITION,
                n < VICTORY_CONDITION ==> bound == 0,
                x <= n,
                forall|i: int, j: int| 0 <= i < x && 0 <= j < bound ==> !self.run_south(i, j),
            decreases n - x,
        {
            let mut y: u8 = 0;
            while y < bound
                invariant
                    self.wf(),
                    n == self.board_size,
                    n >= VICTORY_CONDITION ==> bound == n - VICTORY_CONDITION,
                    n < VICTORY_CONDITION ==> bound == 0,
                    x < n,
                    y <= bound,
                    forall|j: int| 0 <= j < y ==> !self.run_south(x as int, j),
                decreases bound - y,
            {
                if self.get_cell(x, y) != ' '
                    && self.get_cell(x, y) == self.get_cell(x, y + 1)
                    && self.get_cell(x, y + 1) == self.get_cell(x, y + 2)
                {
                    assert(self.run_south(x as int, y as int));
                    return true;
                }
                y = y + 1;
            }
            x = x + 1;
        }
        proof {
            assert forall|i: int, j: int| !self.run_south(i, j) by {
                if self.run_south(i, j) {
                    assert(0 <= i < n && 0 <= j < bound);
                }
            }
        }
        false
    }

    /// Scans every possible start of a southeastward run.
    fn scan_southeast(&self) -> (found: bool)
        requires
            self.wf(),
        ensures
            found == exists|x: int, y: int| self.run_southeast(x, y),
    {
        let n: u8 = self.board_size;
        let bound: u8 = if n >= VICTORY_CONDITION {
            n - VICTORY_CONDITION
        } else {
            0
        };
        let mut x: u8 = 0;
        while x < bound
            invariant
                self.wf(),
                n == self.board_size,
                n >= VICTORY_CONDITION ==> bound == n - VICTORY_CONDITION,
                n < VICTORY_CONDITION ==> bound == 0,
                x <= bound,
                forall|i: int, j: int| 0 <= i < x && 0 <= j < bound ==> !self.run_southeast(i, j),
            decreases bound - x,
        {
            let mut y: u8 = 0;
            while y < bound
                invariant
                    self.wf(),
                    n == self.board_size,
                    n >= VICTORY_CONDITION ==> bound == n - VICTORY_CONDITION,
                    x < bound,
                    bound >= 1 ==> n >= VICTORY_CONDITION,
                    y <= bound,
                    forall|j: int| 0 <= j < y ==> !self.run_southeast(x as int, j),
                decreases bound - y,
            {
                if self.get_cell(x, y) != ' '
                    && self.get_cell(x, y) == self.get_cell(x + 1, y + 1)
                    && self.get_cell(x + 1, y + 1) == self.get_cell(x + 2, y + 2)
                {
                    assert(self.run_southeast(x as int, y as int));
                    return true;
                }
                y = y + 1;
            }
            x = x + 1;
        }
        proof {
            assert forall|i: int, j: int| !self.run_southeast(i, j) by {
                if self.run_southeast(i, j) {
                    assert(0 <= i < bound && 0 <= j < bound);
                }
            }
        }
        false
    }

    /// Scans every possible start of a northeastward run.
    fn scan_northeast(&self) -> (found: bool)
        requires
            self.wf(),
        ensures
            found == exists|x: int, y: int| self.run_northeast(x, y),
    {
        let n: u8 = self.board_size;
        let bound: u8 = if n >= VICTORY_CONDITION {
            n - VICTORY_CONDITION
        } else {
            0
        };
        let mut x: u8 = 0;
        while x < bound
            invariant
                self.wf(),
                n == self.board_size,
                n >= VICTORY_CONDITION ==> bound == n - VICTORY_CONDITION,
                n < VICTORY_CONDITION ==> bound == 0,
                x <= bound,
                forall|i: int, j: int|
                    0 <= i < x && VICTORY_CONDITION <= j < n ==> !self.run_northeast(i, j),
            decreases bound - x,
        {
            let mut y: u8 = VICTORY_CONDITION;
            while y < n
                invariant
                    self.wf(),
                    n == self.board_size,
                    n >= VICTORY_CONDITION ==> bound == n - VICTORY_CONDITION,
                    x < bound,
                    bound >= 1 ==> n >= VICTORY_CONDITION,
                    VICTORY_CONDITION <= y <= n,
                    forall|j: int|
                        VICTORY_CONDITION <= j < y ==> !self.run_northeast(x as int, j),
                decreases n - y,
            {
                if self.get_cell(x, y) != ' '
                    && self.get_cell(x, y) == self.get_cell(x + 1, y - 1)
                    && self.get_cell(x + 1, y - 1) == self.get_cell(x + 2, y - 2)
                {
                    assert(self.run_northeast(x as int, y as int));
                    return true;
                }
                y = y + 1;
            }
            x = x + 1;
        }
        proof {
            assert forall|i: int, j: int| !self.run_northeast(i, j) by {
                if self.run_northeast(i, j) {
                    assert(0 <= i < bound && VICTORY_CONDITION <= j < n);
                }
            }
        }
        false
    }

    /// Evaluates the board: a full board is a draw (checked before any run
    /// is looked for), then the four directions are scanned for a winning
    /// run, and otherwise the game is still in progress.
    pub fn check_game_state(&self) -> (r: GameState)
        requires
            self.wf(),
        ensures
            r == self.spec_game_state(),
    {
        if self.board_is_full() {
            return GameState::Draw;
        }

        if self.scan_east() {
            proof {
                let (x, y) = choose|x: int, y: int| self.run_east(x, y);
                assert(self.winning_run_at(x, y));
            }
            return GameState::Win;
        }
        if self.scan_south() {
            proof {
                let (x, y) = choose|x: int, y: int| self.run_south(x, y);
                assert(self.winning_run_at(x, y));
            }
            return GameState::Win;
        }
        if self.scan_southeast() {
            proof {
                let (x, y) = choose|x: int, y: int| self.run_southeast(x, y);
                assert(self.winning_run_at(x, y));
            }
            return GameState::Win;
        }
        if self.scan_northeast() {
            proof {
                let (x, y) = choose|x: int, y: int| self.run_northeast(x, y);
                assert(self.winning_run_at(x, y));
            }
            return GameState::Win;
        }

        proof {
            if self.has_win() {
                let (x, y) = choose|x: int, y: int| self.winning_run_at(x, y);
                assert(!self.run_east(x, y));
                assert(!self.run_south(x, y));
                assert(!self.run_southeast(x, y));
                assert(!self.run_northeast(x, y));
            }
        }
        GameState::InProgress
    }
}

/// A board that holds one complete winning run and nothing else is won:
/// if the three cells from `(x, y)` along one of the four scanned
/// directions hold the same symbol and every other cell is empty, the
/// board's state is `Win`.
pub proof fn lemma_lone_run_wins(g: Game, x: int, y: int, dx: int, dy: int)
    requires
        g.wf(),
        g.size() >= 3,
        (dx == 1 && dy == 0) || (dx == 0 && dy == 1) || (dx == 1 && dy == 1) || (dx == 1
            && dy == -1),
        g.in_bounds(x, y),
        g.in_bounds(x + 2 * dx, y + 2 * dy),
        g.cell(x, y) != ' ',
        g.cell(x + dx, y + dy) == g.cell(x, y),
        g.cell(x + 2 * dx, y + 2 * dy) == g.cell(x, y),
        forall|i: int, j: int|
            g.in_bounds(i, j) && !((i == x && j == y) || (i == x + dx && j == y + dy) || (i == x
                + 2 * dx && j == y + 2 * dy)) ==> g.cell(i, j) == ' ',
    ensures
        g.spec_game_state() == GameState::Win,
{
    assert(g.winning_run_at(x, y));
    assert(!g.board_full()) by {
        if g.board_full() {
            assert(g.in_bounds(0, 0) && g.in_bounds(0, 1) && g.in_bounds(1, 0) && g.in_bounds(
                1,
                1,
            ));
            assert(g.cell(0, 0) != ' ' && g.cell(0, 1) != ' ' && g.cell(1, 0) != ' ' && g.cell(
                1,
                1,
            ) != ' ');
        }
    }
}

/// A completely filled board with no winning run on it is a draw.
pub proof fn lemma_full_board_is_draw(g: Game)
    requires
        g.wf(),
        g.board_full(),
        !g.has_win(),
    ensures
        g.spec_game_state() == GameState::Draw,
{
}

/// A board with at least one free cell and no winning run is still open.
pub proof fn lemma_no_run_still_in_progress(g: Game)
    requires
        g.wf(),
        !g.board_full(),
        !g.has_win(),
    ensures
        g.spec_game_state() == GameState::InProgress,
{
}

/// Turns alternate strictly: whenever a move hands the turn to the
/// opponent, the side to move flips from `X` to `O` or from `O` to `X`,
/// so the reported next-player symbols read X, O, X, O, ... from a fresh
/// board, where `X` starts.
pub proof fn lemma_turns_alternate(before: Game, after: Game)
    requires
        after.player == spec_opponent(before.player),
    ensures
        spec_symbol(before.player) == 'X' ==> spec_symbol(after.player) == 'O',
        spec_symbol(before.player) == 'O' ==> spec_symbol(after.player) == 'X',
{
}

/// After a move (in particular a winning one), the previous-player symbol
/// names the side that actually made the move, not the one about to move.
pub proof fn lemma_prev_symbol_names_mover(before: Game, after: Game)
    requires
        after.player == spec_opponent(before.player),
    ensures
        spec_symbol(spec_opponent(after.player)) == spec_symbol(before.player),
{
}

/// Round trip: a flattened cell list taken apart through the
/// index-to-coordinate mapping and read back in index order reproduces
/// the original list exactly.
pub proof fn lemma_load_flatten_round_trip(g: Game, cells: Seq<char>, out: Seq<char>)
    requires
        g.wf(),
        cells.len() == g.size() * g.size(),
        forall|i: int| 0 <= i < cells.len() ==> g.cell(i % g.size(), i / g.size()) == cells[i],
        out.len() == g.board@.len(),
        forall|i: int| 0 <= i < out.len() ==> out[i] == g.cell(i % g.size(), i / g.size()),
    ensures
        out == cells,
{
    assert(out =~= cells);
}

impl Default for Game {
    /// Same engine as `Game::new`.
    fn default() -> (g: Self)
        ensures
            g.wf(),
            g.board_size == 0,
            g.board@.len() == 0,
            g.player == Player::X,
    {
        Game::new()
    }
}

} // verus!
