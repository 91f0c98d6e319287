use chokudai_search::maze::MazeState;
use chokudai_search::model::Coord;
use chokudai_search::policy::{greedy_action, pick_action, random_action};
use rand::rngs::SmallRng;
use rand::{RngCore, SeedableRng};

type Small = MazeState<3, 4, 4>;

const BOARD: [[i32; 4]; 3] = [[0, 1, 2, 3], [4, 0, 6, 7], [8, 9, 1, 2]];

fn at(x: usize, y: usize) -> Small {
    Small::from_parts(BOARD, Coord { x, y }, 0, 0).unwrap()
}

#[test]
fn greedy_takes_the_highest_value_next_to_it() {
    assert_eq!(greedy_action(&at(1, 1)), 2);
    assert_eq!(greedy_action(&at(0, 0)), 2);
    assert_eq!(greedy_action(&at(3, 0)), 2);
    assert_eq!(greedy_action(&at(2, 2)), 1);
    assert_eq!(greedy_action(&at(3, 2)), 3);
}

#[test]
fn greedy_takes_the_lowest_action_among_equals() {
    let flat = [[0, 5, 0, 0], [5, 0, 5, 0], [0, 5, 0, 0]];
    let state = Small::from_parts(flat, Coord { x: 1, y: 1 }, 0, 0).unwrap();
    assert_eq!(greedy_action(&state), 0);
    let empty = Small::from_parts([[0; 4]; 3], Coord { x: 0, y: 2 }, 0, 0).unwrap();
    assert_eq!(greedy_action(&empty), 0);
    let two = [[0, 0, 0, 0], [7, 0, 3, 0], [0, 7, 0, 0]];
    let state = Small::from_parts(two, Coord { x: 1, y: 1 }, 0, 0).unwrap();
    assert_eq!(greedy_action(&state), 1);
}

#[test]
fn greedy_works_where_the_game_is_over() {
    let state = Small::from_parts(BOARD, Coord { x: 1, y: 1 }, 4, 0).unwrap();
    assert_eq!(greedy_action(&state), 2);
}

#[test]
fn greedy_leaves_the_state_alone() {
    let state = at(1, 1);
    greedy_action(&state);
    assert_eq!(state.points(), BOARD);
    assert_eq!(state.turn(), 0);
    assert_eq!(state.game_score(), 0);
}

#[test]
fn pick_action_counts_round_the_legal_actions() {
    let middle = at(1, 1);
    assert_eq!(pick_action(&middle, 0), 0);
    assert_eq!(pick_action(&middle, 6), 2);
    assert_eq!(pick_action(&middle, 7), 3);
    assert_eq!(pick_action(&middle, u32::MAX), 3);
    let corner = at(0, 0);
    assert_eq!(pick_action(&corner, 4), 0);
    assert_eq!(pick_action(&corner, 5), 2);
    let edge = at(3, 1);
    assert_eq!(pick_action(&edge, 3), 1);
    assert_eq!(pick_action(&edge, 4), 2);
    assert_eq!(pick_action(&edge, 5), 3);
}

#[test]
fn random_action_is_legal() {
    let mut rng = SmallRng::seed_from_u64(0);
    for y in 0..3 {
        for x in 0..4 {
            let state = at(x, y);
            let legal = state.legal_actions();
            for _ in 0..20 {
                assert!(legal.contains(&random_action(&state, &mut rng)));
            }
        }
    }
}

#[test]
fn random_action_is_the_pick_of_the_next_draw() {
    let mut rng = SmallRng::seed_from_u64(99);
    let mut twin = SmallRng::seed_from_u64(99);
    let state = at(1, 0);
    for _ in 0..50 {
        let draw = twin.next_u32();
        assert_eq!(random_action(&state, &mut rng), pick_action(&state, draw));
    }
}
