//! The game state as it is held in memory, with its constructors and the
//! operations of the game.

use vstd::prelude::*;
use crate::grid::{
    grid_ok, grid_total, lemma_cell_within_total, lemma_grid_prefix_within,
    lemma_grid_total_at_most, lemma_grid_total_take, lemma_row_prefix_within,
    lemma_row_total_take, row_total,
};
use crate::model::{Action, Coord, MazeView, ScoreType, ACTION_COUNT};

verus! {

/// The grid game: a character on an `H` by `W` grid of point values, which
/// collects the value of each cell it steps on, for `END_TURN` turns.
///
/// A state doubles as a search node: it carries the evaluation it was last
/// given and the first action of the branch that led to it.
#[derive(Clone, Copy, Debug)]
pub struct MazeState<const H: usize, const W: usize, const END_TURN: usize> {
    points: [[i32; W]; H],
    turn: usize,
    character: Coord,
    game_score: i32,
    evaluated_score: ScoreType,
    first_action: Option<Action>,
}

/// The greatest value that a generated grid holds.
pub const MAX_POINT: u32 = 9;

/// The most cells a generated grid can have for its total to fit the score.
pub const MAX_CELLS: usize = 238_609_294;

/// The value that the draws give the cell in row `r` and column `c` of a
/// grid `w` wide whose character stands in row `y` and column `x`. The
/// character's cell gets 0 and no draw; the other cells get, row by row, the
/// draws that follow the first two, each reduced to `0..=MAX_POINT`.
pub open spec fn drawn_cell(draws: Seq<u32>, w: int, r: int, c: int, y: int, x: int) -> int {
    if r == y && c == x {
        0
    } else if r * w + c < y * w + x {
        draws[2 + r * w + c] as int % (MAX_POINT + 1)
    } else {
        draws[1 + r * w + c] as int % (MAX_POINT + 1)
    }
}

/// The values of an array grid, by row, then column.
pub open spec fn grid_of<const H: usize, const W: usize>(points: [[i32; W]; H]) -> Seq<Seq<int>> {
    Seq::new(H as nat, |y: int| Seq::new(W as nat, |x: int| points[y][x] as int))
}

/// The sum of a grid's values, if none of them is negative and the sum is at
/// most `limit`.
fn checked_total<const H: usize, const W: usize>(points: &[[i32; W]; H], limit: i64) -> (total:
    Option<i64>)
    requires
        0 <= limit <= i32::MAX,
    ensures
        match total {
            Some(t) => grid_ok(grid_of(*points), H as int, W as int) && t == grid_total(
                grid_of(*points),
            ) && t <= limit,
            None => !grid_ok(grid_of(*points), H as int, W as int) || grid_total(grid_of(*points))
                > limit,
        },
{
    let ghost grid = grid_of(*points);
    let mut acc: i64 = 0;
    let mut y: usize = 0;
    while y < H
        invariant
            y <= H,
            grid == grid_of(*points),
            0 <= limit <= i32::MAX,
            0 <= acc <= limit,
            acc == grid_total(grid.take(y as int)),
            forall|r: int, c: int| 0 <= r < y && 0 <= c < W ==> 0 <= #[trigger] grid[r][c],
        decreases H - y,
    {
        let ghost before = acc;
        let mut x: usize = 0;
        while x < W
            invariant
                y < H,
                x <= W,
                grid == grid_of(*points),
                0 <= limit <= i32::MAX,
                0 <= before,
                0 <= acc <= limit,
                before == grid_total(grid.take(y as int)),
                acc == before + row_total(grid[y as int].take(x as int)),
                forall|r: int, c: int| 0 <= r < y && 0 <= c < W ==> 0 <= #[trigger] grid[r][c],
                forall|c: int| 0 <= c < x ==> 0 <= #[trigger] grid[y as int][c],
            decreases W - x,
        {
            let value: i32 = points[y][x];
            assert(grid[y as int][x as int] == value);
            if value < 0 {
                return None;
            }
            proof {
                lemma_row_total_take(grid[y as int], x + 1);
            }
            acc = acc + value as i64;
            if acc > limit {
                proof {
                    if grid_ok(grid, H as int, W as int) {
                        lemma_row_prefix_within(grid[y as int], x + 1);
                        lemma_grid_total_take(grid, y + 1);
                        lemma_grid_prefix_within(grid, H as int, W as int, y + 1);
                    }
                }
                return None;
            }
            x += 1;
        }
        proof {
            assert(grid[y as int].take(W as int) =~= grid[y as int]);
            lemma_grid_total_take(grid, y + 1);
        }
        y += 1;
    }
    proof {
        assert(grid.take(H as int) =~= grid);
    }
    Some(acc)
}

impl<const H: usize, const W: usize, const END_TURN: usize> View for MazeState<H, W, END_TURN> {
    type V = MazeView;

    closed spec fn view(&self) -> MazeView {
        MazeView {
            points: grid_of(self.points),
            turn: self.turn as nat,
            end_turn: END_TURN as nat,
            x: self.character.x as int,
            y: self.character.y as int,
            game_score: self.game_score as int,
            evaluated_score: self.evaluated_score as int,
            first_action: self.first_action,
        }
    }
}

impl<const H: usize, const W: usize, const END_TURN: usize> MazeState<H, W, END_TURN> {
    /// What every state has by its type: the grid's shape, the turn limit,
    /// and fields within their machine ranges.
    pub open spec fn typed(v: MazeView) -> bool {
        &&& v.points.len() == H
        &&& forall|y: int| 0 <= y < H ==> (#[trigger] v.points[y]).len() == W
        &&& forall|y: int, x: int|
            0 <= y < H && 0 <= x < W ==> i32::MIN <= #[trigger] v.points[y][x] <= i32::MAX
        &&& v.end_turn == END_TURN
        &&& v.turn <= usize::MAX
        &&& 0 <= v.x <= usize::MAX
        &&& 0 <= v.y <= usize::MAX
        &&& i32::MIN <= v.game_score <= i32::MAX
        &&& i64::MIN <= v.evaluated_score <= i64::MAX
    }

    /// Every state is as its type says.
    pub proof fn lemma_typed(&self)
        ensures
            Self::typed(self@),
    {
    }

    /// The model of a state put together from its parts, not yet evaluated
    /// and without a first action.
    pub open spec fn parts_view(
        points: [[i32; W]; H],
        character: Coord,
        turn: usize,
        game_score: i32,
    ) -> MazeView {
        MazeView {
            points: grid_of(points),
            turn: turn as nat,
            end_turn: END_TURN as nat,
            x: character.x as int,
            y: character.y as int,
            game_score: game_score as int,
            evaluated_score: 0,
            first_action: None,
        }
    }

    /// The state with the given grid, position, turn and score, if that is a
    /// well-formed state.
    pub fn from_parts(
        points: [[i32; W]; H],
        character: Coord,
        turn: usize,
        game_score: i32,
    ) -> (state: Option<Self>)
        ensures
            match state {
                Some(s) => s@ == Self::parts_view(points, character, turn, game_score) && s@.wf(),
                None => !Self::parts_view(points, character, turn, game_score).wf(),
            },
    {
        if character.y >= H || character.x >= W || turn > END_TURN || END_TURN == usize::MAX
            || game_score < 0 {
            return None;
        }
        let limit: i64 = i32::MAX as i64 - game_score as i64;
        match checked_total(&points, limit) {
            Some(_) => Some(
                MazeState {
                    points,
                    turn,
                    character,
                    game_score,
                    evaluated_score: 0,
                    first_action: None,
                },
            ),
            None => None,
        }
    }

    /// Whether the state is well-formed. Every state that the constructors
    /// give is, and stays so as long as no action is taken after the end of
    /// the game.
    pub fn is_well_formed(&self) -> (ok: bool)
        ensures
            ok == self@.wf(),
    {
        Self::from_parts(self.points, self.character, self.turn, self.game_score).is_some()
    }

    /// The grid's shape and the turn limit allow a generated state: there is
    /// a cell, the total of a full grid fits the score, and the turn counter
    /// can pass the limit by one.
    pub open spec fn dims_ok() -> bool {
        &&& 1 <= H
        &&& 1 <= W
        &&& H * W <= MAX_CELLS
        &&& END_TURN < usize::MAX
    }

    /// The number of draws that a generated state takes.
    pub open spec fn draws_needed() -> int {
        H * W + 1
    }

    /// The model of the state generated from `draws`: the first draw places
    /// the character's row, the second its column, and the rest fill the
    /// grid; no turn has been played.
    pub open spec fn generated(draws: Seq<u32>) -> MazeView {
        let y = draws[0] as int % H as int;
        let x = draws[1] as int % W as int;
        MazeView {
            points: Seq::new(
                H as nat,
                |r: int| Seq::new(W as nat, |c: int| drawn_cell(draws, W as int, r, c, y, x)),
            ),
            turn: 0,
            end_turn: END_TURN as nat,
            x,
            y,
            game_score: 0,
            evaluated_score: 0,
            first_action: None,
        }
    }

    /// Whether the grid's shape and the turn limit allow a generated state.
    pub fn dims_fit() -> (fit: bool)
        ensures
            fit == Self::dims_ok(),
    {
        if H < 1 || W < 1 || H > MAX_CELLS || W > MAX_CELLS || END_TURN == usize::MAX {
            proof {
                if H >= 1 && W >= 1 {
                    assert(H * W >= H && H * W >= W) by (nonlinear_arith)
                        requires
                            H >= 1,
                            W >= 1,
                    ;
                }
            }
            return false;
        }
        assert(H * W <= MAX_CELLS * MAX_CELLS) by (nonlinear_arith)
            requires
                H <= MAX_CELLS,
                W <= MAX_CELLS,
        ;
        (H as u64) * (W as u64) <= MAX_CELLS as u64
    }

    /// The state generated from `draws`, if the shape allows one and `draws`
    /// holds exactly the draws it takes.
    pub fn from_draws(draws: &Vec<u32>) -> (state: Option<Self>)
        ensures
            match state {
                Some(s) => {
                    &&& Self::dims_ok()
                    &&& draws@.len() == Self::draws_needed()
                    &&& s@ == Self::generated(draws@)
                    &&& s@.wf()
                },
                None => !(Self::dims_ok() && draws@.len() == Self::draws_needed()),
            },
    {
        if !Self::dims_fit() {
            return None;
        }
        let cells: usize = H * W;
        if draws.len() != cells + 1 {
            return None;
        }
        assert(H * W >= 1) by (nonlinear_arith)
            requires
                H >= 1,
                W >= 1,
        ;
        let y: usize = draws[0] as usize % H;
        let x: usize = draws[1] as usize % W;
        assert(y * W + x < H * W) by (nonlinear_arith)
            requires
                y < H,
                x < W,
        ;
        let own: usize = y * W + x;
        let ghost expected = Self::generated(draws@).points;
        let mut points: [[i32; W]; H] = [[0i32; W]; H];
        let mut flat: usize = 0;
        let mut r: usize = 0;
        while r < H
            invariant
                r <= H,
                y < H,
                x < W,
                own == y * W + x,
                own < cells,
                cells == H * W,
                draws@.len() == cells + 1,
                flat == r * W,
                expected == Self::generated(draws@).points,
                y == draws@[0] as int % H as int,
                x == draws@[1] as int % W as int,
                forall|i: int, j: int|
                    0 <= i < r && 0 <= j < W ==> #[trigger] points[i][j] as int == expected[i][j],
            decreases H - r,
        {
            let mut c: usize = 0;
            assert(r * W + W <= H * W) by (nonlinear_arith)
                requires
                    r < H,
            ;
            while c < W
                invariant
                    r < H,
                    c <= W,
                    y < H,
                    x < W,
                    own == y * W + x,
                    own < cells,
                    cells == H * W,
                    draws@.len() == cells + 1,
                    flat == r * W + c,
                    r * W + W <= H * W,
                    expected == Self::generated(draws@).points,
                    y == draws@[0] as int % H as int,
                    x == draws@[1] as int % W as int,
                    forall|i: int, j: int|
                        0 <= i < r && 0 <= j < W ==> #[trigger] points[i][j] as int
                            == expected[i][j],
                    forall|j: int| 0 <= j < c ==> #[trigger] points[r as int][j] as int
                        == expected[r as int][j],
                decreases W - c,
            {
                proof {
                    if r == y && c != x {
                        assert(flat != own);
                    }
                    if r != y {
                        assert(r * W + c != y * W + x) by (nonlinear_arith)
                            requires
                                r != y,
                                c < W,
                                x < W,
                        ;
                    }
                }
                let value: i32 = if flat == own {
                    0
                } else if flat < own {
                    (draws[2 + flat] % (MAX_POINT + 1)) as i32
                } else {
                    (draws[1 + flat] % (MAX_POINT + 1)) as i32
                };
                assert(value == expected[r as int][c as int]);
                let ghost before = points;
                points[r][c] = value;
                assert forall|i: int, j: int| 0 <= i < r && 0 <= j < W implies #[trigger]
                    points[i][j] as int == expected[i][j] by {
                    assert(points[i][j] == before[i][j]);
                }
                assert forall|j: int| 0 <= j < c + 1 implies #[trigger] points[r as int][j] as int
                    == expected[r as int][j] by {
                    if j < c {
                        assert(points[r as int][j] == before[r as int][j]);
                    }
                }
                c += 1;
                flat += 1;
            }
            assert(r * W + W == (r + 1) * W) by (nonlinear_arith);
            r += 1;
        }
        let state = MazeState {
            points,
            turn: 0,
            character: Coord { x, y },
            game_score: 0,
            evaluated_score: 0,
            first_action: None,
        };
        proof {
            assert(state@.points =~~= expected);
            assert(state@ == Self::generated(draws@));
            lemma_grid_total_at_most(expected, H as int, W as int, MAX_POINT as int);
            assert(MAX_POINT * (H * W) <= i32::MAX);
        }
        Some(state)
    }

    /// The grid of point values, by row, then column.
    pub fn points(&self) -> (points: [[i32; W]; H])
        ensures
            grid_of(points) == self@.points,
    {
        self.points
    }

    /// The number of turns played.
    pub fn turn(&self) -> (turn: usize)
        ensures
            turn == self@.turn,
    {
        self.turn
    }

    /// The cell the character stands on.
    pub fn character(&self) -> (character: Coord)
        ensures
            character.x == self@.x,
            character.y == self@.y,
    {
        self.character
    }

    /// The score collected so far.
    pub fn game_score(&self) -> (score: i32)
        ensures
            score == self@.game_score,
    {
        self.game_score
    }

    /// The evaluation the state was last given.
    pub fn evaluated_score(&self) -> (score: ScoreType)
        ensures
            score == self@.evaluated_score,
    {
        self.evaluated_score
    }

    /// The first action of the branch that led to this state, if it was
    /// reached by search.
    pub fn first_action(&self) -> (tag: Option<Action>)
        ensures
            tag == self@.first_action,
    {
        self.first_action
    }

    /// Replaces the first-action tag.
    pub fn set_first_action(&mut self, tag: Option<Action>)
        ensures
            final(self)@ == old(self)@.tagged(tag),
    {
        self.first_action = tag;
    }

    /// `true` exactly when the turn counter equals the turn limit.
    pub fn is_done(&self) -> (done: bool)
        ensures
            done == self@.is_done(),
    {
        self.turn == END_TURN
    }

    /// Brings the evaluation up to date with the accumulated score.
    pub fn evaluate_score(&mut self)
        ensures
            final(self)@ == old(self)@.evaluated(),
    {
        self.evaluated_score = self.game_score as ScoreType;
    }

    /// The legal actions in ascending order.
    pub fn legal_actions(&self) -> (actions: Vec<Action>)
        requires
            self@.board_ok(),
        ensures
            actions@ == self@.legal_actions(),
    {
        let mut actions: Vec<Action> = Vec::new();
        let mut action: usize = 0;
        while action < ACTION_COUNT
            invariant
                action <= ACTION_COUNT,
                self@.board_ok(),
                actions@ == self@.legal_below(action as nat),
            decreases ACTION_COUNT - action,
        {
            if self.is_legal(action) {
                actions.push(action);
            }
            action += 1;
        }
        actions
    }

    /// Whether `action` exists and keeps the character on the grid.
    pub fn is_legal(&self, action: Action) -> (legal: bool)
        requires
            self@.board_ok(),
        ensures
            legal == self@.legal(action),
    {
        if action == 0 {
            self.character.x + 1 < W
        } else if action == 1 {
            self.character.x >= 1
        } else if action == 2 {
            self.character.y + 1 < H
        } else if action == 3 {
            self.character.y >= 1
        } else {
            false
        }
    }

    /// The state that `action` leads to. `self` stays as it is, so any
    /// number of branches can be explored from one state.
    pub fn advanced(&self, action: Action) -> (next: Self)
        requires
            self@.board_ok(),
            self@.legal(action),
            self@.turn < usize::MAX,
        ensures
            next@ == self@.next(action),
            next@.board_ok(),
            self@.wf() && !self@.is_done() ==> next@.wf(),
    {
        let mut next = *self;
        next.advance(action);
        next
    }

    /// Moves the character by `action`, collects the value of the cell it
    /// reaches, and counts the turn.
    pub fn advance(&mut self, action: Action)
        requires
            old(self)@.board_ok(),
            old(self)@.legal(action),
            old(self)@.turn < usize::MAX,
        ensures
            final(self)@ == old(self)@.next(action),
            final(self)@.board_ok(),
            old(self)@.wf() && !old(self)@.is_done() ==> final(self)@.wf(),
    {
        proof {
            old(self)@.lemma_next_board_ok(action);
        }
        if action == 0 {
            self.character.x = self.character.x + 1;
        } else if action == 1 {
            self.character.x = self.character.x - 1;
        } else if action == 2 {
            self.character.y = self.character.y + 1;
        } else {
            self.character.y = self.character.y - 1;
        }
        let y: usize = self.character.y;
        let x: usize = self.character.x;
        let prize: i32 = self.points[y][x];
        if prize > 0 {
            proof {
                lemma_cell_within_total(old(self)@.points, H as int, W as int, y as int, x as int);
            }
            self.game_score = self.game_score + prize;
            self.points[y][x] = 0;
        }
        self.turn = self.turn + 1;
        assert(final(self)@.points =~~= old(self)@.next(action).points);
    }
}

} // verus!
