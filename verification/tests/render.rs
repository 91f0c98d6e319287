use chokudai_search::maze::MazeState;
use chokudai_search::model::Coord;
use chokudai_search::render::push_decimal;

type Small = MazeState<3, 4, 4>;

const BOARD: [[i32; 4]; 3] = [[0, 1, 2, 3], [4, 0, 6, 7], [8, 9, 1, 2]];

#[test]
fn render_shows_turn_score_and_board() {
    let state = Small::from_parts(BOARD, Coord { x: 1, y: 1 }, 0, 0).unwrap();
    assert_eq!(state.render().unwrap(), "turn:\t0\nscore:\t0\n.123\n4@67\n8912\n");
}

#[test]
fn render_follows_the_game() {
    let mut state = Small::from_parts(BOARD, Coord { x: 1, y: 1 }, 0, 0).unwrap();
    state.advance(2);
    state.advance(1);
    assert_eq!(state.render().unwrap(), "turn:\t2\nscore:\t17\n.123\n4.67\n@.12\n");
}

#[test]
fn render_hides_what_lies_under_the_character() {
    let state = Small::from_parts(BOARD, Coord { x: 3, y: 1 }, 3, 120).unwrap();
    assert_eq!(state.render().unwrap(), "turn:\t3\nscore:\t120\n.123\n4.6@\n8912\n");
}

#[test]
fn render_has_no_glyph_above_nine() {
    let mut points = BOARD;
    points[0][0] = 10;
    let state = Small::from_parts(points, Coord { x: 1, y: 1 }, 0, 0).unwrap();
    assert_eq!(state.render(), None);
    let under = Small::from_parts(points, Coord { x: 0, y: 0 }, 0, 0).unwrap();
    assert_eq!(under.render().unwrap(), "turn:\t0\nscore:\t0\n@123\n4.67\n8912\n");
}

#[test]
fn push_decimal_writes_the_digits() {
    let digits = |n: u64| {
        let mut out = String::from("#");
        push_decimal(&mut out, n);
        out
    };
    assert_eq!(digits(0), "#0");
    assert_eq!(digits(7), "#7");
    assert_eq!(digits(10), "#10");
    assert_eq!(digits(2147483647), "#2147483647");
    assert_eq!(digits(u64::MAX), "#18446744073709551615");
}
