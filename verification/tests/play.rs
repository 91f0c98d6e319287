use chokudai_search::maze::MazeState;
use chokudai_search::model::Coord;
use chokudai_search::play::{play_chokudai, play_greedy, play_random};
use chokudai_search::search::SearchError;
use rand::rngs::SmallRng;
use rand::SeedableRng;
use std::time::Duration;

type Small = MazeState<3, 4, 4>;

const BOARD: [[i32; 4]; 3] = [[0, 1, 2, 3], [4, 0, 6, 7], [8, 9, 1, 2]];

fn small_board() -> Small {
    Small::from_parts(BOARD, Coord { x: 1, y: 1 }, 0, 0).unwrap()
}

#[test]
fn play_greedy_follows_the_one_ply_choices() {
    assert_eq!(play_greedy(&small_board()), 21);
}

#[test]
fn play_greedy_from_the_middle_of_a_game() {
    let state = Small::from_parts(BOARD, Coord { x: 3, y: 0 }, 2, 10).unwrap();
    assert_eq!(play_greedy(&state), 23);
}

#[test]
fn play_greedy_of_a_finished_game_is_its_score() {
    let state = Small::from_parts(BOARD, Coord { x: 1, y: 1 }, 4, 13).unwrap();
    assert_eq!(play_greedy(&state), 13);
}

#[test]
fn play_random_stays_within_what_the_grid_holds() {
    let mut rng = SmallRng::seed_from_u64(3);
    for _ in 0..100 {
        let score = play_random(&small_board(), &mut rng);
        assert!(0 <= score && score <= 43);
    }
}

#[test]
fn play_random_starts_from_the_score_it_is_given() {
    let mut rng = SmallRng::seed_from_u64(4);
    let state = Small::from_parts(BOARD, Coord { x: 0, y: 0 }, 3, 100).unwrap();
    for _ in 0..20 {
        let score = play_random(&state, &mut rng);
        assert!(score == 101 || score == 104);
    }
}

#[test]
fn play_chokudai_finds_the_best_game() {
    let score = play_chokudai(&small_board(), 1, 4, Duration::from_millis(50));
    assert_eq!(score, Ok(24));
}

#[test]
fn play_chokudai_of_a_finished_game_needs_no_search() {
    let state = Small::from_parts(BOARD, Coord { x: 1, y: 1 }, 4, 13).unwrap();
    assert_eq!(play_chokudai(&state, 0, 0, Duration::ZERO), Ok(13));
}

#[test]
fn play_chokudai_fails_as_its_search_does() {
    let zero = Duration::ZERO;
    assert_eq!(play_chokudai(&small_board(), 0, 4, zero), Err(SearchError::Configuration));
    assert_eq!(play_chokudai(&small_board(), 1, 0, zero), Err(SearchError::Configuration));
    let stuck = MazeState::<1, 1, 3>::from_parts([[0]], Coord { x: 0, y: 0 }, 0, 0).unwrap();
    assert_eq!(play_chokudai(&stuck, 1, 4, zero), Err(SearchError::StuckState));
}
