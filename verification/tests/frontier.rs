use chokudai_search::frontier::Frontier;
use chokudai_search::maze::MazeState;
use chokudai_search::model::Coord;

type Small = MazeState<3, 4, 4>;

fn node(score: i32, tag: usize) -> Small {
    let mut state = Small::from_parts([[0; 4]; 3], Coord { x: 0, y: 0 }, 1, score).unwrap();
    state.evaluate_score();
    state.set_first_action(Some(tag));
    state
}

#[test]
fn a_new_frontier_is_empty() {
    let frontier: Frontier<3, 4, 4> = Frontier::new();
    assert!(frontier.is_empty());
    assert_eq!(frontier.len(), 0);
}

#[test]
fn the_highest_evaluation_leaves_first() {
    let mut frontier = Frontier::new();
    for (tag, score) in [3, 9, 1, 7, 5, 8, 2].into_iter().enumerate() {
        frontier.push(node(score, tag));
    }
    assert_eq!(frontier.len(), 7);
    let mut left = Vec::new();
    while !frontier.is_empty() {
        left.push(frontier.pop().evaluated_score());
    }
    assert_eq!(left, vec![9, 8, 7, 5, 3, 2, 1]);
}

#[test]
fn among_equals_the_first_pushed_leaves_first() {
    let mut frontier = Frontier::new();
    let scores = [5, 3, 5, 1, 5, 3, 5, 1, 3];
    for (tag, score) in scores.into_iter().enumerate() {
        frontier.push(node(score, tag));
    }
    let mut left = Vec::new();
    while !frontier.is_empty() {
        let best = frontier.pop();
        left.push((best.evaluated_score(), best.first_action().unwrap()));
    }
    assert_eq!(
        left,
        vec![(5, 0), (5, 2), (5, 4), (5, 6), (3, 1), (3, 5), (3, 8), (1, 3), (1, 7)]
    );
}

#[test]
fn pushes_and_pops_in_turn_keep_the_order() {
    let mut frontier = Frontier::new();
    frontier.push(node(4, 0));
    frontier.push(node(4, 1));
    frontier.push(node(6, 2));
    assert_eq!(frontier.pop().first_action(), Some(2));
    frontier.push(node(4, 3));
    frontier.push(node(6, 4));
    frontier.push(node(2, 5));
    assert_eq!(frontier.pop().first_action(), Some(4));
    assert_eq!(frontier.pop().first_action(), Some(0));
    frontier.push(node(4, 6));
    assert_eq!(frontier.pop().first_action(), Some(1));
    assert_eq!(frontier.pop().first_action(), Some(3));
    assert_eq!(frontier.pop().first_action(), Some(6));
    assert_eq!(frontier.pop().first_action(), Some(5));
    assert!(frontier.is_empty());
}

#[test]
fn peek_shows_the_best_and_removes_nothing() {
    let mut frontier = Frontier::new();
    frontier.push(node(2, 0));
    frontier.push(node(8, 1));
    frontier.push(node(8, 2));
    assert_eq!(frontier.peek().first_action(), Some(1));
    assert_eq!(frontier.peek().evaluated_score(), 8);
    assert_eq!(frontier.len(), 3);
    assert_eq!(frontier.pop().first_action(), Some(1));
    assert_eq!(frontier.peek().first_action(), Some(2));
    assert_eq!(frontier.len(), 2);
}

#[test]
fn the_order_goes_by_the_evaluation_not_the_score() {
    let mut frontier = Frontier::new();
    let stale = Small::from_parts([[0; 4]; 3], Coord { x: 0, y: 0 }, 1, 50).unwrap();
    frontier.push(stale);
    frontier.push(node(3, 1));
    let best = frontier.pop();
    assert_eq!(best.evaluated_score(), 3);
    assert_eq!(frontier.pop().game_score(), 50);
}

#[test]
fn many_nodes_leave_in_order() {
    let mut frontier = Frontier::new();
    let mut expected = Vec::new();
    let mut x: u64 = 12345;
    for tag in 0..500usize {
        x = x.wrapping_mul(6364136223846793005).wrapping_add(1442695040888963407);
        let score = ((x >> 33) % 20) as i32;
        frontier.push(node(score, tag));
        expected.push((score as i64, tag));
    }
    expected.sort_by(|a, b| b.0.cmp(&a.0).then(a.1.cmp(&b.1)));
    let mut left = Vec::new();
    while !frontier.is_empty() {
        let best = frontier.pop();
        left.push((best.evaluated_score(), best.first_action().unwrap()));
    }
    assert_eq!(left, expected);
}
