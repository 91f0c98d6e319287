//! A state as text.

use vstd::prelude::*;
use crate::maze::MazeState;
use crate::model::MazeView;

verus! {

/// The character that stands for the digit `d`.
pub open spec fn digit_char(d: int) -> char {
    if d == 0 {
        '0'
    } else if d == 1 {
        '1'
    } else if d == 2 {
        '2'
    } else if d == 3 {
        '3'
    } else if d == 4 {
        '4'
    } else if d == 5 {
        '5'
    } else if d == 6 {
        '6'
    } else if d == 7 {
        '7'
    } else if d == 8 {
        '8'
    } else {
        '9'
    }
}

/// The decimal digits of `n`, without leading zeros.
pub open spec fn decimal(n: nat) -> Seq<char>
    decreases n,
{
    if n < 10 {
        seq![digit_char(n as int)]
    } else {
        decimal(n / 10).push(digit_char((n % 10) as int))
    }
}

/// How the cell in row `h` and column `w` is shown: `@` for the character,
/// the digit of a value from 1 to 9, `.` for an empty cell.
pub open spec fn glyph(state: MazeView, h: int, w: int) -> char {
    if state.y == h && state.x == w {
        '@'
    } else if state.points[h][w] > 0 {
        digit_char(state.points[h][w])
    } else {
        '.'
    }
}

/// Every cell but the character's can be shown: no value is above 9.
pub open spec fn printable(state: MazeView) -> bool {
    forall|h: int, w: int|
        0 <= h < state.height() && 0 <= w < state.width() && !(state.y == h && state.x == w)
            ==> #[trigger] state.points[h][w] <= 9
}

/// The glyphs of the first `n` cells of row `h`.
pub open spec fn row_text(state: MazeView, h: int, n: nat) -> Seq<char> {
    Seq::new(n, |w: int| glyph(state, h, w))
}

/// The first `n` rows, each `width` glyphs and a line feed.
pub open spec fn board_text(state: MazeView, n: nat, width: nat) -> Seq<char>
    decreases n,
{
    if n == 0 {
        Seq::empty()
    } else {
        board_text(state, (n - 1) as nat, width) + row_text(state, n - 1, width).push('\n')
    }
}

/// The heading of a rendering up to the number of turns.
pub open spec fn turn_label() -> Seq<char> {
    seq!['t', 'u', 'r', 'n', ':', '\t']
}

/// The heading of a rendering between the turns and the score.
pub open spec fn score_label() -> Seq<char> {
    seq!['\n', 's', 'c', 'o', 'r', 'e', ':', '\t']
}

/// The rendering of a state: the turn, the score, and the board row by row,
/// each on a line of its own.
pub open spec fn rendered(state: MazeView) -> Seq<char> {
    turn_label() + decimal(state.turn) + score_label() + decimal(state.game_score as nat) + seq![
        '\n',
    ] + board_text(state, state.height() as nat, state.width() as nat)
}

fn digit(d: u64) -> (c: char)
    requires
        d < 10,
    ensures
        c == digit_char(d as int),
{
    if d == 0 {
        '0'
    } else if d == 1 {
        '1'
    } else if d == 2 {
        '2'
    } else if d == 3 {
        '3'
    } else if d == 4 {
        '4'
    } else if d == 5 {
        '5'
    } else if d == 6 {
        '6'
    } else if d == 7 {
        '7'
    } else if d == 8 {
        '8'
    } else {
        '9'
    }
}

/// `String::push` appends one character to the text.
pub assume_specification[ String::push ](text: &mut String, ch: char)
    ensures
        final(text)@ == old(text)@.push(ch),
;

/// Appends the decimal digits of `n`.
pub fn push_decimal(out: &mut String, n: u64)
    ensures
        final(out)@ == old(out)@ + decimal(n as nat),
    decreases n,
{
    if n >= 10 {
        push_decimal(out, n / 10);
    }
    out.push(digit(n % 10));
    assert(final(out)@ =~= old(out)@ + decimal(n as nat));
}

/// Appends each character of `label`.
fn push_all(out: &mut String, label: &Vec<char>)
    ensures
        final(out)@ == old(out)@ + label@,
{
    let mut i: usize = 0;
    while i < label.len()
        invariant
            i <= label.len(),
            out@ == old(out)@ + label@.take(i as int),
        decreases label.len() - i,
    {
        out.push(label[i]);
        assert(label@.take(i + 1) =~= label@.take(i as int).push(label@[i as int]));
        i += 1;
    }
    assert(label@.take(i as int) =~= label@);
}

impl<const H: usize, const W: usize, const END_TURN: usize> MazeState<H, W, END_TURN> {
    /// The state as text: a line for the turn, a line for the score, and
    /// the board row by row. There is none where a value above 9 lies on
    /// the grid, for which no glyph exists.
    pub fn render(&self) -> (text: Option<String>)
        requires
            self@.board_ok(),
        ensures
            match text {
                Some(t) => printable(self@) && t@ == rendered(self@),
                None => !printable(self@),
            },
    {
        proof {
            self.lemma_typed();
        }
        let points = self.points();
        let here = self.character();
        let mut out = String::new();
        push_all(&mut out, &vec!['t', 'u', 'r', 'n', ':', '\t']);
        push_decimal(&mut out, self.turn() as u64);
        push_all(&mut out, &vec!['\n', 's', 'c', 'o', 'r', 'e', ':', '\t']);
        push_decimal(&mut out, self.game_score() as u64);
        out.push('\n');
        let ghost head = out@;
        assert(head =~= turn_label() + decimal(self@.turn) + score_label() + decimal(
            self@.game_score as nat,
        ) + seq!['\n']);
        let mut h: usize = 0;
        while h < H
            invariant
                h <= H,
                self@.board_ok(),
                Self::typed(self@),
                crate::maze::grid_of(points) == self@.points,
                here.x == self@.x,
                here.y == self@.y,
                out@ == head + board_text(self@, h as nat, W as nat),
                forall|r: int, c: int|
                    0 <= r < h && 0 <= c < W && !(self@.y == r && self@.x == c)
                        ==> #[trigger] self@.points[r][c] <= 9,
            decreases H - h,
        {
            let ghost before = out@;
            let mut w: usize = 0;
            while w < W
                invariant
                    h < H,
                    w <= W,
                    self@.board_ok(),
                    Self::typed(self@),
                    crate::maze::grid_of(points) == self@.points,
                    here.x == self@.x,
                    here.y == self@.y,
                    out@ == before + row_text(self@, h as int, w as nat),
                    forall|r: int, c: int|
                        0 <= r < h && 0 <= c < W && !(self@.y == r && self@.x == c)
                            ==> #[trigger] self@.points[r][c] <= 9,
                    forall|c: int|
                        0 <= c < w && !(self@.y == h && self@.x == c)
                            ==> #[trigger] self@.points[h as int][c] <= 9,
                decreases W - w,
            {
                let value: i32 = points[h][w];
                assert(self@.points[h as int][w as int] == value);
                let c: char = if here.y == h && here.x == w {
                    '@'
                } else if value > 9 {
                    return None;
                } else if value > 0 {
                    digit(value as u64)
                } else {
                    '.'
                };
                out.push(c);
                assert(row_text(self@, h as int, (w + 1) as nat) =~= row_text(
                    self@,
                    h as int,
                    w as nat,
                ).push(c));
                w += 1;
            }
            out.push('\n');
            assert(out@ =~= head + board_text(self@, (h + 1) as nat, W as nat));
            h += 1;
        }
        Some(out)
    }
}

} // verus!
