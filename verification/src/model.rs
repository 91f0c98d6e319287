//! The mathematical model of the game: what a state is, which actions are
//! legal, and what an action does.

use vstd::prelude::*;
use crate::grid::{
    grid_ok, grid_total, lemma_cell_within_total, lemma_grid_total_update, lemma_row_total_update,
};

verus! {

/// A move of the character: 0 is one column right, 1 one column left,
/// 2 one row down, 3 one row up.
pub type Action = usize;

/// The scalar by which search nodes are compared.
pub type ScoreType = i64;

/// Number of moves in the action alphabet.
pub const ACTION_COUNT: usize = 4;

/// A cell of the grid: column `x`, row `y`.
#[derive(Clone, Copy, Debug, PartialEq, Eq, Structural)]
pub struct Coord {
    pub x: usize,
    pub y: usize,
}

/// The mathematical model of a game state.
pub struct MazeView {
    /// Point values by row, then column.
    pub points: Seq<Seq<int>>,
    /// Turns played.
    pub turn: nat,
    /// The turn at which the game is over.
    pub end_turn: nat,
    /// The character's column.
    pub x: int,
    /// The character's row.
    pub y: int,
    /// Points collected.
    pub game_score: int,
    /// The evaluation last given to the state.
    pub evaluated_score: int,
    /// The first action of the branch of a search that led here, if any.
    pub first_action: Option<Action>,
}

/// Column change of an action.
pub open spec fn dx(action: Action) -> int {
    if action == 0 {
        1
    } else if action == 1 {
        -1
    } else {
        0
    }
}

/// Row change of an action.
pub open spec fn dy(action: Action) -> int {
    if action == 2 {
        1
    } else if action == 3 {
        -1
    } else {
        0
    }
}

impl MazeView {
    /// The number of rows.
    pub open spec fn height(self) -> int {
        self.points.len() as int
    }

    /// The number of columns.
    pub open spec fn width(self) -> int {
        if self.points.len() == 0 {
            0
        } else {
            self.points[0].len() as int
        }
    }

    /// The board is sound: a rectangular grid of non-negative values, the
    /// character on it, and room in an `i32` for the score even after every
    /// remaining value has been collected.
    pub open spec fn board_ok(self) -> bool {
        &&& grid_ok(self.points, self.height(), self.width())
        &&& 0 <= self.y < self.height()
        &&& 0 <= self.x < self.width()
        &&& 0 <= self.game_score
        &&& self.game_score + grid_total(self.points) <= i32::MAX
    }

    /// A sound board whose turn counter has not passed the turn limit.
    pub open spec fn wf(self) -> bool {
        &&& self.board_ok()
        &&& self.turn <= self.end_turn
        &&& self.end_turn < usize::MAX
    }

    /// The game is over exactly when the turn counter equals the limit.
    pub open spec fn is_done(self) -> bool {
        self.turn == self.end_turn
    }

    /// The action exists and keeps the character on the grid.
    pub open spec fn legal(self, action: Action) -> bool {
        &&& action < ACTION_COUNT
        &&& 0 <= self.y + dy(action) < self.height()
        &&& 0 <= self.x + dx(action) < self.width()
    }

    /// The legal actions among the first `n` of the alphabet, ascending.
    pub open spec fn legal_below(self, n: nat) -> Seq<Action>
        decreases n,
    {
        if n == 0 {
            Seq::empty()
        } else {
            let rest = self.legal_below((n - 1) as nat);
            if self.legal((n - 1) as usize) {
                rest.push((n - 1) as usize)
            } else {
                rest
            }
        }
    }

    /// All legal actions, ascending.
    pub open spec fn legal_actions(self) -> Seq<Action> {
        self.legal_below(ACTION_COUNT as nat)
    }

    /// No action can be taken.
    pub open spec fn stuck(self) -> bool {
        self.legal_actions().len() == 0
    }

    /// The value lying on the cell that `action` leads to.
    pub open spec fn prize(self, action: Action) -> int {
        self.points[self.y + dy(action)][self.x + dx(action)]
    }

    /// The state after `action`: the character has moved, the value of the
    /// cell it reached is added to the score and taken off the grid, and one
    /// turn has passed.
    pub open spec fn next(self, action: Action) -> MazeView {
        let ny = self.y + dy(action);
        let nx = self.x + dx(action);
        MazeView {
            points: if self.prize(action) > 0 {
                self.points.update(ny, self.points[ny].update(nx, 0))
            } else {
                self.points
            },
            turn: self.turn + 1,
            x: nx,
            y: ny,
            game_score: if self.prize(action) > 0 {
                self.game_score + self.prize(action)
            } else {
                self.game_score
            },
            ..self
        }
    }

    /// The state with its evaluation brought up to date: the evaluation of a
    /// state is its accumulated score.
    pub open spec fn evaluated(self) -> MazeView {
        MazeView { evaluated_score: self.game_score, ..self }
    }

    /// The state carrying `tag` as its first action.
    pub open spec fn tagged(self, tag: Option<Action>) -> MazeView {
        MazeView { first_action: tag, ..self }
    }

    /// A legal action on a sound board leads to a sound board of the same
    /// shape; what the score gains is what the grid loses, the score never
    /// falls, and nothing is left on the cell that the character reached.
    pub proof fn lemma_next_board_ok(self, action: Action)
        requires
            self.board_ok(),
            self.legal(action),
        ensures
            self.next(action).board_ok(),
            self.next(action).height() == self.height(),
            self.next(action).width() == self.width(),
            self.next(action).game_score + grid_total(self.next(action).points)
                == self.game_score + grid_total(self.points),
            self.next(action).game_score == self.game_score + self.prize(action),
            0 <= self.prize(action),
            self.next(action).points[self.next(action).y][self.next(action).x] == 0,
    {
        let ny = self.y + dy(action);
        let nx = self.x + dx(action);
        let after = self.next(action);
        lemma_cell_within_total(self.points, self.height(), self.width(), ny, nx);
        if self.prize(action) > 0 {
            lemma_row_total_update(self.points[ny], nx, 0);
            lemma_grid_total_update(self.points, ny, self.points[ny].update(nx, 0));
            assert(after.points[0].len() == self.width());
            assert forall|y: int| 0 <= y < self.height() implies (#[trigger] after.points[y]).len()
                == self.width() by {
                assert(self.points[y].len() == self.width());
            }
            assert forall|y: int, x: int| 0 <= y < self.height() && 0 <= x < self.width() implies 0
                <= #[trigger] after.points[y][x] by {
                assert(0 <= self.points[y][x]);
            }
        }
    }

    /// A legal action on a well-formed state that is not over leads to a
    /// well-formed state, one turn later.
    pub proof fn lemma_next_wf(self, action: Action)
        requires
            self.wf(),
            !self.is_done(),
            self.legal(action),
        ensures
            self.next(action).wf(),
            self.next(action).turn == self.turn + 1,
            self.next(action).end_turn == self.end_turn,
    {
        self.lemma_next_board_ok(action);
    }

    /// An action is among the first `n` legal actions exactly when it is
    /// one of the first `n` actions and legal; they are listed in ascending
    /// order.
    pub proof fn lemma_legal_below(self, n: nat)
        requires
            n <= ACTION_COUNT,
        ensures
            forall|a: Action|
                #![trigger self.legal_below(n).contains(a)]
                #![trigger self.legal(a)]
                self.legal_below(n).contains(a) <==> (a < n && self.legal(a)),
            forall|i: int, j: int|
                0 <= i < j < self.legal_below(n).len() ==> self.legal_below(n)[i]
                    < self.legal_below(n)[j],
            self.legal_below(n).len() <= n,
        decreases n,
    {
        if n > 0 {
            let rest = self.legal_below((n - 1) as nat);
            self.lemma_legal_below((n - 1) as nat);
            let last = (n - 1) as usize;
            if self.legal(last) {
                let all = rest.push(last);
                assert forall|a: Action| all.contains(a) implies (a < n && self.legal(a)) by {
                    let i = choose|i: int| 0 <= i < all.len() && all[i] == a;
                    if i < rest.len() {
                        assert(rest[i] == a);
                        assert(rest.contains(a));
                    }
                }
                assert forall|a: Action| (a < n && self.legal(a)) implies all.contains(a) by {
                    if a == last {
                        assert(all[rest.len() as int] == a);
                    } else {
                        assert(rest.contains(a));
                        let i = choose|i: int| 0 <= i < rest.len() && rest[i] == a;
                        assert(all[i] == a);
                    }
                }
                assert forall|i: int, j: int| 0 <= i < j < all.len() implies all[i] < all[j] by {
                    assert(rest[i] == all[i]);
                    assert(rest.contains(rest[i]));
                    if j < rest.len() {
                        assert(rest[j] == all[j]);
                    }
                }
            }
        }
    }

    /// An action is among the legal actions exactly when it is legal, and
    /// the legal actions are listed in ascending order.
    pub proof fn lemma_legal_actions(self)
        ensures
            forall|a: Action|
                #![trigger self.legal_actions().contains(a)]
                #![trigger self.legal(a)]
                self.legal_actions().contains(a) <==> self.legal(a),
            forall|i: int, j: int|
                0 <= i < j < self.legal_actions().len() ==> self.legal_actions()[i]
                    < self.legal_actions()[j],
            self.legal_actions().len() <= ACTION_COUNT,
    {
        self.lemma_legal_below(ACTION_COUNT as nat);
    }

    /// On a sound board the character is stuck exactly when the grid is a
    /// single cell; so whether a state is stuck never changes in a game.
    pub proof fn lemma_stuck(self)
        requires
            self.board_ok(),
        ensures
            self.stuck() <==> (self.height() == 1 && self.width() == 1),
    {
        self.lemma_legal_actions();
        let actions = self.legal_actions();
        if self.height() == 1 && self.width() == 1 {
            if actions.len() > 0 {
                assert(actions.contains(actions[0]));
            }
        } else {
            let a: Action = if self.x + 1 < self.width() {
                0
            } else if self.x >= 1 {
                1
            } else if self.y + 1 < self.height() {
                2
            } else {
                3
            };
            assert(self.legal(a));
            assert(actions.contains(a));
        }
    }

    /// Two different legal actions lead from one state to two states that
    /// do not interfere: they stand on different cells, each has gained
    /// what lay on its own cell of the parent's grid, and what the one
    /// collected still lies on the grid of the other.
    pub proof fn lemma_siblings(self, a: Action, b: Action)
        requires
            self.board_ok(),
            self.legal(a),
            self.legal(b),
            a != b,
        ensures
            self.next(a).x != self.next(b).x || self.next(a).y != self.next(b).y,
            self.next(a).game_score == self.game_score + self.prize(a),
            self.next(b).game_score == self.game_score + self.prize(b),
            self.next(a).points[self.next(b).y][self.next(b).x] == self.prize(b),
            self.next(b).points[self.next(a).y][self.next(a).x] == self.prize(a),
    {
        self.lemma_next_board_ok(a);
        self.lemma_next_board_ok(b);
    }
}

} // verus!
