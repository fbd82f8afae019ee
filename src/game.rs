//! The game's state machine: construction, cursor steps, removal under the
//! turn lock, the end-of-game check and the change of turn.
use vstd::prelude::*;

use crate::board::{
    grid_present, has_present, lemma_grid_full, lemma_grid_prefix, lemma_grid_replace,
    lemma_row_above, lemma_row_below, lemma_row_prefix, lemma_row_remove,
    lemma_snap_after_removal, lemma_steps, next_present, on_board, prev_present, row_above,
    row_below, row_present, snap_after_removal, step_down, step_left, step_right, step_up,
    triangular,
};

verus! {

/// Position of the highlighted cell on the board.
#[derive(PartialEq, Eq, Structural, Clone, Copy, Debug)]
pub struct PointerToSelected {
    pub row: usize,
    pub column: usize,
}

/// The commands that move the cursor or remove the highlighted cell.
#[derive(PartialEq, Eq, Structural, Clone, Copy, Debug)]
pub enum PossibleMoves {
    Up,
    Down,
    Right,
    Left,
    Select,
}

/// The two players, exactly one of which is on turn.
#[derive(PartialEq, Eq, Structural, Clone, Copy, Debug)]
pub enum PossiblePlayers {
    Player1,
    Player2,
}

impl PossiblePlayers {
    /// The player who is not `self`.
    pub open spec fn other_spec(self) -> PossiblePlayers {
        match self {
            PossiblePlayers::Player1 => PossiblePlayers::Player2,
            PossiblePlayers::Player2 => PossiblePlayers::Player1,
        }
    }

    /// The player who is not `self`.
    pub fn other(self) -> (r: PossiblePlayers)
        ensures
            r == self.other_spec(),
            r != self,
    {
        match self {
            PossiblePlayers::Player1 => PossiblePlayers::Player2,
            PossiblePlayers::Player2 => PossiblePlayers::Player1,
        }
    }
}

/// Cursor after the navigation command `m`; `Select` does not navigate.
pub open spec fn navigated(g: Seq<Seq<bool>>, p: (int, int), m: PossibleMoves) -> (int, int) {
    match m {
        PossibleMoves::Up => step_up(g, p),
        PossibleMoves::Down => step_down(g, p),
        PossibleMoves::Right => step_right(g, p),
        PossibleMoves::Left => step_left(g, p),
        PossibleMoves::Select => p,
    }
}

/// Column of the nearest present cell left of `c`.
fn prev_present_col(row: &Vec<bool>, c: usize) -> (r: Option<usize>)
    requires
        c <= row@.len(),
    ensures
        match r {
            Some(j) => prev_present(row@, c as int) == Some(j as int),
            None => prev_present(row@, c as int) is None,
        },
{
    let mut k: usize = c;
    while k > 0
        invariant
            k <= c <= row@.len(),
            prev_present(row@, c as int) == prev_present(row@, k as int),
        decreases k,
    {
        if row[k - 1] {
            return Some(k - 1);
        }
        k -= 1;
    }
    None
}

/// Column of the nearest present cell right of `c`.
fn next_present_col(row: &Vec<bool>, c: usize) -> (r: Option<usize>)
    requires
        c < row@.len(),
    ensures
        match r {
            Some(j) => next_present(row@, c as int) == Some(j as int),
            None => next_present(row@, c as int) is None,
        },
{
    let last = row.len() - 1;
    let mut k: usize = c;
    while k < last
        invariant
            last == row@.len() - 1,
            c <= k < row@.len(),
            next_present(row@, c as int) == next_present(row@, k as int),
        decreases row@.len() - k,
    {
        if row[k + 1] {
            return Some(k + 1);
        }
        k += 1;
    }
    None
}

/// Whether the row still holds a match.
fn row_has_present(row: &Vec<bool>) -> (r: bool)
    ensures
        r == has_present(row@),
{
    let mut k: usize = 0;
    while k < row.len()
        invariant
            k <= row@.len(),
            forall|j: int| 0 <= j < k ==> !#[trigger] row@[j],
        decreases row@.len() - k,
    {
        if row[k] {
            return true;
        }
        k += 1;
    }
    false
}

/// Why a game could not be set up.
#[derive(PartialEq, Eq, Structural, Clone, Copy, Debug)]
pub enum GameError {
    /// A board needs at least one row.
    InvalidConfiguration,
}

/// Share of the screen height, in percent, given to the margin above and below the board.
pub const MARGIN_PERCENT: u16 = 5;

/// Share of the screen height, in percent, split evenly among the rows.
pub const ROWS_PERCENT: u16 = 90;

/// Vertical layout of a board of `n` rows: a margin, one equal share per row, a margin.
pub open spec fn vertical_percentages(n: nat) -> Seq<u16> {
    seq![MARGIN_PERCENT] + Seq::new(n, |_i: int| (ROWS_PERCENT / n as u16) as u16) + seq![
        MARGIN_PERCENT,
    ]
}

/// A game of matches: players take turns removing matches from one row of a
/// triangular board, and the game is over when one match is left.
pub struct Game {
    /// Row `i` holds `1 + 2 * i` cells; `true` marks a match still present.
    pub matches: Vec<Vec<bool>>,
    pub player_1_number_of_matches: usize,
    pub player_2_number_of_matches: usize,
    pub matches_number_of_rows: usize,
    /// Percent heights of the vertical layout: margin, one per row, margin.
    pub matches_vertical_container_constraints: Vec<u16>,
    pub pointing_to_match: PointerToSelected,
    pub current_player: PossiblePlayers,
    /// The row the current player has taken from during this turn, if any.
    pub last_took_from_row: Option<usize>,
    pub is_finished: bool,
}

impl Game {
    /// The board, row by row.
    pub open spec fn grid(&self) -> Seq<Seq<bool>> {
        self.matches@.map_values(|r: Vec<bool>| r@)
    }

    /// The cursor as (row, column).
    pub open spec fn cursor(&self) -> (int, int) {
        (self.pointing_to_match.row as int, self.pointing_to_match.column as int)
    }

    /// Number of matches still on the board.
    pub open spec fn present_count(&self) -> nat {
        grid_present(self.grid())
    }

    /// The board's shape and the cursor's range.
    pub open spec fn shaped(&self) -> bool {
        &&& 1 <= self.matches_number_of_rows <= 255
        &&& triangular(self.grid(), self.matches_number_of_rows as int)
        &&& on_board(self.grid(), self.cursor())
        &&& self.last_took_from_row matches Some(r) ==> r < self.matches_number_of_rows
    }

    /// The game's invariant.
    pub open spec fn wf(&self) -> bool {
        &&& self.shaped()
        &&& self.present_count() > 0 ==> self.grid()[self.cursor().0][self.cursor().1]
        &&& self.player_1_number_of_matches + self.player_2_number_of_matches
            + self.present_count() == self.matches_number_of_rows * self.matches_number_of_rows
        &&& self.is_finished ==> self.present_count() == 1
    }

    /// All but the cursor is as in `old`.
    pub open spec fn same_but_cursor(&self, old: &Game) -> bool {
        &&& self.matches == old.matches
        &&& self.player_1_number_of_matches == old.player_1_number_of_matches
        &&& self.player_2_number_of_matches == old.player_2_number_of_matches
        &&& self.matches_number_of_rows == old.matches_number_of_rows
        &&& self.matches_vertical_container_constraints == old.matches_vertical_container_constraints
        &&& self.current_player == old.current_player
        &&& self.last_took_from_row == old.last_took_from_row
        &&& self.is_finished == old.is_finished
    }

    /// A fresh game on a board of `number_of_rows` full rows, player one to move.
    pub fn new(number_of_rows: u8) -> (r: Result<Game, GameError>)
        ensures
            number_of_rows == 0 <==> r == Err::<Game, GameError>(GameError::InvalidConfiguration),
            number_of_rows > 0 ==> r is Ok,
            r matches Ok(g) ==> {
                &&& g.wf()
                &&& g.matches_number_of_rows == number_of_rows
                &&& triangular(g.grid(), number_of_rows as int)
                &&& forall|i: int, j: int|
                    0 <= i < g.grid().len() && 0 <= j < g.grid()[i].len() ==> #[trigger] g.grid()[i][j]
                &&& g.present_count() == number_of_rows * number_of_rows
                &&& g.pointing_to_match == PointerToSelected { row: 0, column: 0 }
                &&& g.current_player == PossiblePlayers::Player1
                &&& g.last_took_from_row is None
                &&& g.player_1_number_of_matches == 0
                &&& g.player_2_number_of_matches == 0
                &&& !g.is_finished
                &&& g.matches_vertical_container_constraints@ == vertical_percentages(
                    number_of_rows as nat,
                )
            },
    {
        if number_of_rows == 0 {
            return Err(GameError::InvalidConfiguration);
        }
        let n = number_of_rows as usize;
        let share = ROWS_PERCENT / (number_of_rows as u16);
        let mut constraints: Vec<u16> = Vec::with_capacity(n + 2);
        constraints.push(MARGIN_PERCENT);
        let mut k: usize = 0;
        while k < n
            invariant
                k <= n,
                share == ROWS_PERCENT / n as u16,
                constraints@ == seq![MARGIN_PERCENT] + Seq::new(k as nat, |_i: int| share),
            decreases n - k,
        {
            constraints.push(share);
            k += 1;
            assert(constraints@ =~= seq![MARGIN_PERCENT] + Seq::new(k as nat, |_i: int| share));
        }
        constraints.push(MARGIN_PERCENT);
        assert(constraints@ =~= vertical_percentages(n as nat));

        let mut matches: Vec<Vec<bool>> = Vec::with_capacity(n);
        let mut i: usize = 0;
        while i < n
            invariant
                i <= n <= 255,
                matches@.len() == i,
                forall|a: int| 0 <= a < i ==> (#[trigger] matches@[a])@.len() == 1 + 2 * a,
                forall|a: int, b: int|
                    0 <= a < i && 0 <= b < matches@[a]@.len() ==> #[trigger] matches@[a]@[b],
            decreases n - i,
        {
            let number_of_matches: usize = 1 + i * 2;
            let matches_row = vec![true; number_of_matches];
            matches.push(matches_row);
            i += 1;
        }
        let g = Game {
            matches,
            player_1_number_of_matches: 0,
            player_2_number_of_matches: 0,
            matches_number_of_rows: n,
            matches_vertical_container_constraints: constraints,
            pointing_to_match: PointerToSelected { row: 0, column: 0 },
            current_player: PossiblePlayers::Player1,
            last_took_from_row: None,
            is_finished: false,
        };
        proof {
            lemma_grid_full(g.grid(), n as int);
        }
        Ok(g)
    }

    /// The counters are small: the board never holds more than 255 * 255 cells.
    proof fn lemma_bounds(&self)
        requires
            self.wf(),
        ensures
            self.present_count() <= 65025,
            self.player_1_number_of_matches + self.player_2_number_of_matches <= 65025,
    {
        let n = self.matches_number_of_rows as int;
        assert(n * n <= 255 * 255) by (nonlinear_arith)
            requires
                1 <= n <= 255,
        ;
    }

    /// A removal is accepted: the game goes on, the cursor is on a match,
    /// and the turn has taken from no row yet or from the cursor's row.
    pub open spec fn select_allowed(&self) -> bool {
        &&& !self.is_finished
        &&& self.grid()[self.cursor().0][self.cursor().1]
        &&& match self.last_took_from_row {
            Some(l) => l == self.pointing_to_match.row,
            None => true,
        }
    }

    /// The board with the cursor's cell removed.
    pub open spec fn removed(&self) -> Seq<Seq<bool>> {
        let (r, c) = self.cursor();
        self.grid().update(r, self.grid()[r].update(c, false))
    }

    /// `new` is `old` after a `Select`.
    pub open spec fn selected_from(&self, old: &Game) -> bool {
        if old.select_allowed() {
            &&& self.grid() == old.removed()
            &&& self.cursor() == snap_after_removal(old.removed(), old.cursor())
            &&& self.last_took_from_row == Some(old.pointing_to_match.row)
            &&& match old.current_player {
                PossiblePlayers::Player1 => {
                    &&& self.player_1_number_of_matches == old.player_1_number_of_matches + 1
                    &&& self.player_2_number_of_matches == old.player_2_number_of_matches
                },
                PossiblePlayers::Player2 => {
                    &&& self.player_1_number_of_matches == old.player_1_number_of_matches
                    &&& self.player_2_number_of_matches == old.player_2_number_of_matches + 1
                },
            }
            &&& self.matches_number_of_rows == old.matches_number_of_rows
            &&& self.matches_vertical_container_constraints
                == old.matches_vertical_container_constraints
            &&& self.current_player == old.current_player
            &&& self.is_finished == old.is_finished
        } else {
            *self == *old
        }
    }

    /// Nearest row above `r` that still holds a match.
    fn find_row_above(&self, r: usize) -> (x: Option<usize>)
        requires
            self.shaped(),
            r < self.matches_number_of_rows,
        ensures
            match x {
                Some(y) => row_above(self.grid(), r as int) == Some(y as int),
                None => row_above(self.grid(), r as int) is None,
            },
    {
        let mut k: usize = r;
        while k > 0
            invariant
                self.shaped(),
                k <= r < self.matches_number_of_rows,
                row_above(self.grid(), r as int) == row_above(self.grid(), k as int),
            decreases k,
        {
            if row_has_present(&self.matches[k - 1]) {
                return Some(k - 1);
            }
            k -= 1;
        }
        None
    }

    /// Nearest row below `r` that still holds a match.
    fn find_row_below(&self, r: usize) -> (x: Option<usize>)
        requires
            self.shaped(),
            r < self.matches_number_of_rows,
        ensures
            match x {
                Some(y) => row_below(self.grid(), r as int) == Some(y as int),
                None => row_below(self.grid(), r as int) is None,
            },
    {
        let mut k: usize = r;
        while k + 1 < self.matches.len()
            invariant
                self.shaped(),
                r <= k < self.matches_number_of_rows,
                row_below(self.grid(), r as int) == row_below(self.grid(), k as int),
            decreases self.matches_number_of_rows - k,
        {
            if row_has_present(&self.matches[k + 1]) {
                return Some(k + 1);
            }
            k += 1;
        }
        None
    }

    /// Steps to the nearest match on the left in the cursor's row.
    fn move_left(&mut self)
        requires
            old(self).shaped(),
        ensures
            final(self).shaped(),
            final(self).same_but_cursor(old(self)),
            final(self).cursor() == step_left(old(self).grid(), old(self).cursor()),
    {
        proof {
            lemma_steps(self.grid(), self.cursor());
        }
        let row = self.pointing_to_match.row;
        if let Some(j) = prev_present_col(&self.matches[row], self.pointing_to_match.column) {
            self.pointing_to_match.column = j;
        }
    }

    /// Steps to the nearest match on the right in the cursor's row.
    fn move_right(&mut self)
        requires
            old(self).shaped(),
        ensures
            final(self).shaped(),
            final(self).same_but_cursor(old(self)),
            final(self).cursor() == step_right(old(self).grid(), old(self).cursor()),
    {
        proof {
            lemma_steps(self.grid(), self.cursor());
        }
        let row = self.pointing_to_match.row;
        if let Some(j) = next_present_col(&self.matches[row], self.pointing_to_match.column) {
            self.pointing_to_match.column = j;
        }
    }

    /// Steps to the nearest lower row with a match, then onto a match of it;
    /// stays put when no lower row has one.
    fn move_down(&mut self)
        requires
            old(self).shaped(),
        ensures
            final(self).shaped(),
            final(self).same_but_cursor(old(self)),
            final(self).cursor() == step_down(old(self).grid(), old(self).cursor()),
    {
        proof {
            lemma_steps(self.grid(), self.cursor());
        }
        proof {
            lemma_row_below(self.grid(), self.cursor().0);
        }
        match self.find_row_below(self.pointing_to_match.row) {
            Some(x) => self.pointing_to_match.row = x,
            None => return,
        }
        self.move_right();
        self.move_left();
    }

    /// Steps to the nearest upper row with a match, then onto a match of it;
    /// stays put when no upper row has one.
    fn move_up(&mut self)
        requires
            old(self).shaped(),
        ensures
            final(self).shaped(),
            final(self).same_but_cursor(old(self)),
            final(self).cursor() == step_up(old(self).grid(), old(self).cursor()),
    {
        proof {
            lemma_steps(self.grid(), self.cursor());
        }
        proof {
            lemma_row_above(self.grid(), self.cursor().0);
        }
        match self.find_row_above(self.pointing_to_match.row) {
            Some(x) => self.pointing_to_match.row = x,
            None => return,
        }
        let last_possible_index = self.matches[self.pointing_to_match.row].len() - 1;
        if self.pointing_to_match.column > last_possible_index {
            self.pointing_to_match.column = last_possible_index;
        }
        self.move_right();
        self.move_left();
    }

    /// Removes the match under the cursor for the current player, when allowed,
    /// then moves the cursor to a remaining match.
    fn select(&mut self)
        requires
            old(self).wf(),
        ensures
            final(self).wf(),
            final(self).selected_from(old(self)),
    {
        let row = self.pointing_to_match.row;
        let column = self.pointing_to_match.column;
        if self.is_finished || !self.matches[row][column] {
            return;
        }
        if let Some(locked) = self.last_took_from_row {
            if locked != row {
                return;
            }
        }
        proof {
            self.lemma_bounds();
        }
        let ghost before = *self;
        self.last_took_from_row = Some(row);
        self.matches[row].set(column, false);
        proof {
            let g = before.grid();
            assert(self.grid() =~= before.removed());
            lemma_row_remove(g[row as int], column as int);
            lemma_grid_replace(g, row as int, g[row as int].update(column as int, false));
        }
        match self.current_player {
            PossiblePlayers::Player1 => self.player_1_number_of_matches += 1,
            PossiblePlayers::Player2 => self.player_2_number_of_matches += 1,
        }
        proof {
            lemma_snap_after_removal(self.grid(), self.cursor());
        }
        let previous_pointing_state = self.pointing_to_match;
        self.move_left();
        if previous_pointing_state != self.pointing_to_match {
            return;
        }
        self.move_right();
        if previous_pointing_state != self.pointing_to_match {
            return;
        }
        self.move_down();
        if previous_pointing_state != self.pointing_to_match {
            return;
        }
        self.move_up();
    }

    /// Carries out one command: a step of the cursor, or a removal.
    pub fn make_move(&mut self, move_to_make: PossibleMoves)
        requires
            old(self).wf(),
        ensures
            final(self).wf(),
            old(self).is_finished ==> final(self).is_finished,
            match move_to_make {
                PossibleMoves::Select => final(self).selected_from(old(self)),
                _ => {
                    &&& final(self).same_but_cursor(old(self))
                    &&& final(self).cursor() == navigated(
                        old(self).grid(),
                        old(self).cursor(),
                        move_to_make,
                    )
                },
            },
    {
        proof {
            lemma_steps(self.grid(), self.cursor());
        }
        match move_to_make {
            PossibleMoves::Up => self.move_up(),
            PossibleMoves::Down => self.move_down(),
            PossibleMoves::Right => self.move_right(),
            PossibleMoves::Left => self.move_left(),
            PossibleMoves::Select => self.select(),
        }
    }

    /// Number of matches left on the board.
    pub fn remaining(&self) -> (r: usize)
        requires
            self.wf(),
        ensures
            r == self.present_count(),
    {
        proof {
            self.lemma_bounds();
        }
        let ghost g = self.grid();
        let n = self.matches.len();
        let mut remaining: usize = 0;
        let mut i: usize = 0;
        while i < n
            invariant
                self.wf(),
                g == self.grid(),
                n == g.len(),
                i <= n,
                grid_present(g) <= 65025,
                remaining == grid_present(g.subrange(0, i as int)),
            decreases n - i,
        {
            let row = &self.matches[i];
            let mut j: usize = 0;
            proof {
                lemma_grid_prefix(g, i as int + 1);
                assert(g.subrange(0, i as int + 1).drop_last() =~= g.subrange(0, i as int));
            }
            while j < row.len()
                invariant
                    self.wf(),
                    g == self.grid(),
                    n == g.len(),
                    i < n,
                    row@ == g[i as int],
                    j <= row@.len(),
                    remaining == grid_present(g.subrange(0, i as int)) + row_present(
                        row@.subrange(0, j as int),
                    ),
                    grid_present(g.subrange(0, i as int + 1)) <= grid_present(g),
                    grid_present(g) <= 65025,
                    grid_present(g.subrange(0, i as int + 1)) == grid_present(
                        g.subrange(0, i as int),
                    ) + row_present(row@),
                decreases row@.len() - j,
            {
                proof {
                    lemma_row_prefix(row@, j as int + 1);
                    assert(row@.subrange(0, j as int + 1).drop_last() =~= row@.subrange(
                        0,
                        j as int,
                    ));
                }
                if row[j] {
                    remaining += 1;
                }
                j += 1;
            }
            proof {
                assert(row@.subrange(0, j as int) =~= row@);
            }
            i += 1;
        }
        proof {
            assert(g.subrange(0, n as int) =~= g);
        }
        remaining
    }

    /// Marks the game as over when exactly one match is left.
    pub fn check_win_conditions(&mut self)
        requires
            old(self).wf(),
        ensures
            final(self).wf(),
            final(self).is_finished == (old(self).is_finished || old(self).present_count() == 1),
            final(self).pointing_to_match == old(self).pointing_to_match,
            final(self).matches == old(self).matches,
            final(self).player_1_number_of_matches == old(self).player_1_number_of_matches,
            final(self).player_2_number_of_matches == old(self).player_2_number_of_matches,
            final(self).matches_number_of_rows == old(self).matches_number_of_rows,
            final(self).matches_vertical_container_constraints
                == old(self).matches_vertical_container_constraints,
            final(self).current_player == old(self).current_player,
            final(self).last_took_from_row == old(self).last_took_from_row,
    {
        if self.remaining() == 1 {
            self.is_finished = true;
        }
    }

    /// Passes the turn to the other player, who may take from any row.
    pub fn next_player(&mut self)
        requires
            old(self).wf(),
        ensures
            final(self).wf(),
            final(self).last_took_from_row is None,
            final(self).current_player == old(self).current_player.other_spec(),
            final(self).matches == old(self).matches,
            final(self).pointing_to_match == old(self).pointing_to_match,
            final(self).player_1_number_of_matches == old(self).player_1_number_of_matches,
            final(self).player_2_number_of_matches == old(self).player_2_number_of_matches,
            final(self).matches_number_of_rows == old(self).matches_number_of_rows,
            final(self).matches_vertical_container_constraints
                == old(self).matches_vertical_container_constraints,
            final(self).is_finished == old(self).is_finished,
    {
        self.last_took_from_row = None;
        self.current_player = self.current_player.other();
    }
}

/// Whenever a match is left on the board, the cursor rests on one.
pub proof fn lemma_cursor_on_match(g: &Game)
    requires
        g.wf(),
    ensures
        on_board(g.grid(), g.cursor()),
        g.present_count() > 0 ==> g.grid()[g.cursor().0][g.cursor().1],
{
}

/// Within a turn every removal comes from the row of the turn's first removal,
/// and a removal tried on another row changes nothing.
pub proof fn lemma_turn_lock(a: &Game, b: &Game, locked: usize)
    requires
        a.wf(),
        b.selected_from(a),
        a.last_took_from_row == Some(locked),
    ensures
        b.grid() != a.grid() ==> a.pointing_to_match.row == locked && b.last_took_from_row == Some(
            locked,
        ),
        a.pointing_to_match.row != locked ==> *b == *a,
{
}

/// The first removal of a turn locks the turn to the cursor's row.
pub proof fn lemma_first_removal_locks(a: &Game, b: &Game)
    requires
        a.wf(),
        b.selected_from(a),
        a.last_took_from_row is None,
        b.grid() != a.grid(),
    ensures
        b.last_took_from_row == Some(a.pointing_to_match.row),
{
}

/// The two scores together count the matches removed from the full board,
/// and each removal is scored to the player on turn.
pub proof fn lemma_scores_count_removed(a: &Game, b: &Game)
    requires
        a.wf(),
        b.selected_from(a),
    ensures
        a.player_1_number_of_matches + a.player_2_number_of_matches == a.matches_number_of_rows
            * a.matches_number_of_rows - a.present_count(),
        b.present_count() + 1 == a.present_count() || *b == *a,
        b.present_count() + 1 == a.present_count() ==> match a.current_player {
            PossiblePlayers::Player1 => b.player_1_number_of_matches
                == a.player_1_number_of_matches + 1 && b.player_2_number_of_matches
                == a.player_2_number_of_matches,
            PossiblePlayers::Player2 => b.player_2_number_of_matches
                == a.player_2_number_of_matches + 1 && b.player_1_number_of_matches
                == a.player_1_number_of_matches,
        },
{
    if a.select_allowed() {
        let g = a.grid();
        let (r, c) = a.cursor();
        lemma_row_remove(g[r], c);
        lemma_grid_replace(g, r, g[r].update(c, false));
    }
}

/// Once the game is over no removal changes the board, and it stays over.
pub proof fn lemma_finished_is_final(a: &Game, b: &Game)
    requires
        a.wf(),
        a.is_finished,
        b.selected_from(a),
    ensures
        *b == *a,
        b.present_count() == 1,
{
}

} // verus!
