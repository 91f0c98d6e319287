use chokudai_search::maze::MazeState;
use chokudai_search::model::Coord;
use chokudai_search::policy::greedy_action;
use chokudai_search::search::{
    chokudai_search_action_with_sweeps, chokudai_search_action_with_time_threshold, FrontierSet,
    SearchError,
};
use std::time::{Duration, Instant};

type Small = MazeState<3, 4, 4>;

const BOARD: [[i32; 4]; 3] = [[0, 1, 2, 3], [4, 0, 6, 7], [8, 9, 1, 2]];

fn small_board() -> Small {
    Small::from_parts(BOARD, Coord { x: 1, y: 1 }, 0, 0).unwrap()
}

/// Every state reached from `state` by `turns` legal actions, with the
/// actions that led to it.
fn all_paths(state: &Small, turns: usize) -> Vec<(Vec<usize>, Small)> {
    let mut reached = vec![(Vec::new(), *state)];
    for _ in 0..turns {
        let mut next = Vec::new();
        for (path, node) in reached.iter() {
            if node.is_done() {
                continue;
            }
            for action in node.legal_actions() {
                let mut longer = path.clone();
                longer.push(action);
                next.push((longer, node.advanced(action)));
            }
        }
        reached = next;
    }
    reached
}

fn same_game(a: &Small, b: &Small) -> bool {
    a.points() == b.points()
        && a.character() == b.character()
        && a.turn() == b.turn()
        && a.game_score() == b.game_score()
}

/// The search written out plainly: each frontier a list kept in the order
/// in which its nodes leave.
fn plain_search(root: &Small, beam_width: usize, depth: usize, sweeps: usize) -> usize {
    let mut seed = *root;
    seed.evaluate_score();
    seed.set_first_action(None);
    let mut levels: Vec<Vec<Small>> = vec![Vec::new(); depth + 1];
    levels[0].push(seed);
    for _ in 0..sweeps {
        for t in 0..depth {
            for _ in 0..beam_width {
                if levels[t].is_empty() || levels[t][0].is_done() {
                    break;
                }
                let node = levels[t].remove(0);
                for action in node.legal_actions() {
                    let mut child = node.advanced(action);
                    child.evaluate_score();
                    if t == 0 {
                        child.set_first_action(Some(action));
                    }
                    let score = child.evaluated_score();
                    let place = levels[t + 1]
                        .iter()
                        .position(|other| other.evaluated_score() < score)
                        .unwrap_or(levels[t + 1].len());
                    levels[t + 1].insert(place, child);
                }
            }
        }
    }
    for t in (0..=depth).rev() {
        if let Some(best) = levels[t].first() {
            return match best.first_action() {
                Some(action) => action,
                None => greedy_action(root),
            };
        }
    }
    unreachable!()
}

#[test]
fn a_width_that_is_not_positive_is_a_configuration_error() {
    let state = small_board();
    for width in [0, -1, i32::MIN] {
        assert_eq!(
            chokudai_search_action_with_sweeps(&state, width, 4, 10),
            Err(SearchError::Configuration)
        );
        assert_eq!(
            chokudai_search_action_with_time_threshold(&state, width, 4, Duration::from_millis(1)),
            Err(SearchError::Configuration)
        );
    }
}

#[test]
fn a_depth_of_zero_is_a_configuration_error() {
    let state = small_board();
    assert_eq!(
        chokudai_search_action_with_sweeps(&state, 1, 0, 10),
        Err(SearchError::Configuration)
    );
    assert_eq!(
        chokudai_search_action_with_time_threshold(&state, 1, 0, Duration::from_millis(1)),
        Err(SearchError::Configuration)
    );
}

#[test]
fn a_root_without_a_legal_action_is_stuck() {
    let stuck = MazeState::<1, 1, 3>::from_parts([[0]], Coord { x: 0, y: 0 }, 0, 0).unwrap();
    assert_eq!(
        chokudai_search_action_with_sweeps(&stuck, 1, 4, 10),
        Err(SearchError::StuckState)
    );
    assert_eq!(
        chokudai_search_action_with_time_threshold(&stuck, 1, 4, Duration::ZERO),
        Err(SearchError::StuckState)
    );
}

#[test]
fn a_bad_configuration_is_reported_before_a_stuck_root() {
    let stuck = MazeState::<1, 1, 3>::from_parts([[0]], Coord { x: 0, y: 0 }, 0, 0).unwrap();
    assert_eq!(
        chokudai_search_action_with_sweeps(&stuck, 0, 4, 10),
        Err(SearchError::Configuration)
    );
    assert_eq!(
        chokudai_search_action_with_time_threshold(&stuck, 1, 0, Duration::ZERO),
        Err(SearchError::Configuration)
    );
}

#[test]
fn search_returns_a_legal_action() {
    for y in 0..3 {
        for x in 0..4 {
            for turn in 0..=4 {
                let state = Small::from_parts(BOARD, Coord { x, y }, turn, 0).unwrap();
                let legal = state.legal_actions();
                for (width, depth) in [(1, 1), (1, 4), (2, 3), (3, 7)] {
                    for sweeps in [0, 1, 2, 50] {
                        let action =
                            chokudai_search_action_with_sweeps(&state, width, depth, sweeps).unwrap();
                        assert!(legal.contains(&action));
                    }
                    let action = chokudai_search_action_with_time_threshold(
                        &state,
                        width,
                        depth,
                        Duration::from_micros(200),
                    )
                    .unwrap();
                    assert!(legal.contains(&action));
                }
            }
        }
    }
}

#[test]
fn without_a_sweep_the_search_is_one_ply() {
    for y in 0..3 {
        for x in 0..4 {
            let state = Small::from_parts(BOARD, Coord { x, y }, 0, 0).unwrap();
            assert_eq!(
                chokudai_search_action_with_sweeps(&state, 1, 4, 0),
                Ok(greedy_action(&state))
            );
        }
    }
}

#[test]
fn one_sweep_follows_the_best_child_down() {
    assert_eq!(chokudai_search_action_with_sweeps(&small_board(), 1, 4, 1), Ok(2));
}

#[test]
fn a_budget_of_zero_still_gives_the_action_of_one_sweep() {
    let state = small_board();
    let started = Instant::now();
    let action = chokudai_search_action_with_time_threshold(&state, 1, 4, Duration::ZERO);
    assert!(started.elapsed() < Duration::from_secs(5));
    assert_eq!(action, Ok(2));
    assert_eq!(action, chokudai_search_action_with_sweeps(&state, 1, 4, 1));
}

#[test]
fn a_root_at_the_end_of_its_game_gets_the_one_ply_choice() {
    let state = Small::from_parts(BOARD, Coord { x: 1, y: 1 }, 4, 0).unwrap();
    assert_eq!(chokudai_search_action_with_sweeps(&state, 1, 4, 20), Ok(2));
    assert_eq!(
        chokudai_search_action_with_time_threshold(&state, 1, 4, Duration::from_millis(2)),
        Ok(2)
    );
}

#[test]
fn an_exhaustive_search_finds_the_first_action_of_the_best_game() {
    let state = small_board();
    let games = all_paths(&state, 4);
    let best = games.iter().map(|(_, end)| end.game_score()).max().unwrap();
    assert_eq!(best, 24);
    let mut firsts: Vec<usize> = games
        .iter()
        .filter(|(_, end)| end.game_score() == best)
        .map(|(path, _)| path[0])
        .collect();
    firsts.sort();
    firsts.dedup();
    assert_eq!(firsts, vec![0]);
    assert_eq!(chokudai_search_action_with_sweeps(&state, 1, 4, 400), Ok(0));
    assert_eq!(
        chokudai_search_action_with_time_threshold(&state, 1, 4, Duration::from_millis(100)),
        Ok(0)
    );
    assert_eq!(greedy_action(&state), 2);
}

#[test]
fn an_exhaustive_search_agrees_with_brute_force_on_every_start() {
    for y in 0..3 {
        for x in 0..4 {
            let state = Small::from_parts(BOARD, Coord { x, y }, 0, 0).unwrap();
            let games = all_paths(&state, 4);
            let best = games.iter().map(|(_, end)| end.game_score()).max().unwrap();
            let action = chokudai_search_action_with_sweeps(&state, 1, 4, 400).unwrap();
            assert!(games
                .iter()
                .any(|(path, end)| path[0] == action && end.game_score() == best));
        }
    }
}

#[test]
fn a_depth_beyond_the_end_of_the_game_changes_nothing() {
    let state = small_board();
    assert_eq!(chokudai_search_action_with_sweeps(&state, 1, 10, 400), Ok(0));
    assert_eq!(
        chokudai_search_action_with_time_threshold(&state, 1, 100, Duration::from_millis(100)),
        Ok(0)
    );
    let late = Small::from_parts(BOARD, Coord { x: 1, y: 1 }, 3, 0).unwrap();
    assert_eq!(chokudai_search_action_with_sweeps(&late, 2, 9, 30), Ok(2));
}

#[test]
fn levels_beyond_the_end_of_the_game_stay_empty() {
    let state = small_board();
    let mut beam = FrontierSet::new(&state, 10);
    assert_eq!(beam.depth(), 10);
    assert!(!beam.is_exhausted());
    for _ in 0..400 {
        beam.sweep(1);
        for t in 5..=10 {
            assert_eq!(beam.level_len(t), 0);
        }
        if let Some(node) = beam.level_best(4) {
            assert!(node.is_done());
        }
    }
    assert_eq!(beam.level_len(0), 0);
    assert_eq!(beam.level_len(1), 0);
    assert_eq!(beam.level_len(2), 0);
    assert_eq!(beam.level_len(3), 0);
    assert_eq!(beam.level_len(4), all_paths(&state, 4).len());
    assert!(beam.is_exhausted());
    assert_eq!(beam.best_tag(), Some(0));
}

#[test]
fn an_exhausted_search_is_changed_by_no_sweep() {
    let state = small_board();
    let mut beam = FrontierSet::new(&state, 3);
    let mut sweeps = 0;
    while !beam.is_exhausted() {
        beam.sweep(2);
        sweeps += 1;
        assert!(sweeps < 1000);
    }
    let lens: Vec<usize> = (0..=3).map(|t| beam.level_len(t)).collect();
    assert_eq!(lens, vec![0, 0, 0, all_paths(&state, 3).len()]);
    let best = beam.level_best(3).unwrap();
    let most = all_paths(&state, 3).iter().map(|(_, end)| end.game_score()).max().unwrap();
    assert_eq!(best.game_score(), most);
    beam.sweep(2);
    let again: Vec<usize> = (0..=3).map(|t| beam.level_len(t)).collect();
    assert_eq!(again, lens);
    assert!(same_game(&beam.level_best(3).unwrap(), &best));
}

#[test]
fn a_search_of_a_finished_game_is_exhausted_at_once() {
    let state = Small::from_parts(BOARD, Coord { x: 1, y: 1 }, 4, 0).unwrap();
    let mut beam = FrontierSet::new(&state, 4);
    assert!(beam.is_exhausted());
    beam.sweep(3);
    assert_eq!(beam.level_len(0), 1);
    assert_eq!(beam.best_tag(), None);
}

#[test]
fn the_start_holds_the_root_alone() {
    let mut root = small_board();
    root.set_first_action(Some(3));
    let beam = FrontierSet::new(&root, 4);
    assert_eq!(beam.depth(), 4);
    assert_eq!(beam.level_len(0), 1);
    for t in 1..=4 {
        assert_eq!(beam.level_len(t), 0);
        assert!(beam.level_best(t).is_none());
    }
    let seed = beam.level_best(0).unwrap();
    assert!(same_game(&seed, &root));
    assert_eq!(seed.first_action(), None);
    assert_eq!(seed.evaluated_score(), 0);
    assert_eq!(beam.best_tag(), None);
}

#[test]
fn the_seed_is_evaluated() {
    let root = Small::from_parts(BOARD, Coord { x: 1, y: 1 }, 1, 12).unwrap();
    assert_eq!(root.evaluated_score(), 0);
    let beam = FrontierSet::new(&root, 2);
    assert_eq!(beam.level_best(0).unwrap().evaluated_score(), 12);
}

#[test]
fn one_sweep_expands_one_node_at_each_depth() {
    let mut beam = FrontierSet::new(&small_board(), 4);
    beam.sweep(1);
    let lens: Vec<usize> = (0..=4).map(|t| beam.level_len(t)).collect();
    assert_eq!(lens, vec![0, 3, 2, 1, 3]);
    let best: Vec<i64> = (1..=4).map(|t| beam.level_best(t).unwrap().evaluated_score()).collect();
    assert_eq!(best, vec![6, 10, 17, 21]);
    assert_eq!(beam.best_tag(), Some(2));
}

#[test]
fn a_wider_beam_expands_more_nodes_in_a_sweep() {
    let mut beam = FrontierSet::new(&small_board(), 2);
    beam.sweep(3);
    assert_eq!(beam.level_len(0), 0);
    assert_eq!(beam.level_len(1), 1);
    assert_eq!(beam.level_len(2), 3 + 4 + 3);
    assert_eq!(beam.level_best(1).unwrap().first_action(), Some(3));
}

#[test]
fn every_tag_is_the_first_action_of_a_path_to_its_node() {
    let root = small_board();
    for width in [1, 2] {
        let mut beam = FrontierSet::new(&root, 4);
        for _ in 0..120 {
            beam.sweep(width);
            for t in 1..=4 {
                if let Some(node) = beam.level_best(t) {
                    let tag = node.first_action().unwrap();
                    assert_eq!(node.turn(), root.turn() + t);
                    assert_eq!(node.evaluated_score(), node.game_score() as i64);
                    assert!(all_paths(&root, t)
                        .iter()
                        .any(|(path, end)| path[0] == tag && same_game(end, &node)));
                    let first_child = root.advanced(tag);
                    assert!(all_paths(&first_child, t - 1)
                        .iter()
                        .any(|(_, end)| same_game(end, &node)));
                }
            }
        }
    }
}

#[test]
fn more_sweeps_never_lower_the_evaluation_reported() {
    for (x, y, width, depth) in [(1, 1, 1, 4), (0, 0, 1, 4), (3, 2, 2, 3), (2, 1, 1, 9)] {
        let root = Small::from_parts(BOARD, Coord { x, y }, 0, 0).unwrap();
        let mut beam = FrontierSet::new(&root, depth);
        let mut last = root.game_score() as i64;
        for _ in 0..150 {
            beam.sweep(width);
            let deepest = (0..=depth).rev().find(|t| beam.level_len(*t) > 0).unwrap();
            let reported = beam.level_best(deepest).unwrap().evaluated_score();
            assert!(reported >= last);
            last = reported;
        }
    }
}

#[test]
fn the_search_is_the_plain_search() {
    for (x, y) in [(1, 1), (0, 0), (3, 1), (2, 2)] {
        let root = Small::from_parts(BOARD, Coord { x, y }, 0, 0).unwrap();
        for width in 1..=3 {
            for depth in 1..=6 {
                for sweeps in 0..40 {
                    assert_eq!(
                        chokudai_search_action_with_sweeps(&root, width, depth, sweeps as u64),
                        Ok(plain_search(&root, width as usize, depth, sweeps))
                    );
                }
            }
        }
    }
}

#[test]
fn the_search_is_the_plain_search_on_a_flat_board() {
    let flat = [[1; 4]; 3];
    let root = Small::from_parts(flat, Coord { x: 2, y: 1 }, 0, 0).unwrap();
    for width in 1..=2 {
        for sweeps in 0..80 {
            assert_eq!(
                chokudai_search_action_with_sweeps(&root, width, 4, sweeps as u64),
                Ok(plain_search(&root, width as usize, 4, sweeps))
            );
        }
    }
}

#[test]
fn the_search_leaves_the_root_alone() {
    let state = small_board();
    chokudai_search_action_with_sweeps(&state, 2, 4, 30).unwrap();
    assert_eq!(state.points(), BOARD);
    assert_eq!(state.turn(), 0);
    assert_eq!(state.game_score(), 0);
    assert_eq!(state.first_action(), None);
}

#[test]
fn a_timed_search_on_a_large_board_ends_and_is_legal() {
    let state = MazeState::<30, 30, 100>::new(0).unwrap();
    let started = Instant::now();
    let action =
        chokudai_search_action_with_time_threshold(&state, 1, 100, Duration::from_millis(10))
            .unwrap();
    assert!(started.elapsed() < Duration::from_secs(10));
    assert!(state.legal_actions().contains(&action));
}

#[test]
fn a_search_of_depth_one_is_one_ply() {
    for board in [BOARD, [[1; 4]; 3], [[0, 5, 0, 0], [5, 0, 5, 0], [0, 5, 0, 0]]] {
        for y in 0..3 {
            for x in 0..4 {
                for turn in [0, 3, 4] {
                    let state = Small::from_parts(board, Coord { x, y }, turn, 0).unwrap();
                    let choice = greedy_action(&state);
                    for width in 1..=4 {
                        for sweeps in 0..4 {
                            assert_eq!(
                                chokudai_search_action_with_sweeps(&state, width, 1, sweeps),
                                Ok(choice)
                            );
                        }
                    }
                }
            }
        }
    }
}
