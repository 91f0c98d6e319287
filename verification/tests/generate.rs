use chokudai_search::generate::draw_many;
use chokudai_search::maze::{MazeState, MAX_POINT};
use chokudai_search::model::Coord;
use rand::rngs::SmallRng;
use rand::SeedableRng;

type Small = MazeState<3, 4, 4>;

const DRAWS: [u32; 13] = [7, 6, 15, 26, 37, 48, 59, 60, 71, 82, 93, 104, 115];

#[test]
fn from_draws_places_the_character_and_fills_the_grid() {
    let state = Small::from_draws(&DRAWS.to_vec()).unwrap();
    assert_eq!(state.character(), Coord { x: 2, y: 1 });
    assert_eq!(state.points(), [[5, 6, 7, 8], [9, 0, 0, 1], [2, 3, 4, 5]]);
    assert_eq!(state.turn(), 0);
    assert_eq!(state.game_score(), 0);
    assert_eq!(state.evaluated_score(), 0);
    assert_eq!(state.first_action(), None);
}

#[test]
fn from_draws_with_the_character_on_the_first_cell() {
    let mut draws = vec![3, 8];
    draws.extend(1..=11);
    let state = Small::from_draws(&draws).unwrap();
    assert_eq!(state.character(), Coord { x: 0, y: 0 });
    assert_eq!(state.points(), [[0, 1, 2, 3], [4, 5, 6, 7], [8, 9, 0, 1]]);
}

#[test]
fn from_draws_with_the_character_on_the_last_cell() {
    let mut draws = vec![2, 3];
    draws.extend(21..=31);
    let state = Small::from_draws(&draws).unwrap();
    assert_eq!(state.character(), Coord { x: 3, y: 2 });
    assert_eq!(state.points(), [[1, 2, 3, 4], [5, 6, 7, 8], [9, 0, 1, 0]]);
}

#[test]
fn from_draws_reduces_large_draws() {
    let mut draws = vec![u32::MAX, u32::MAX];
    draws.extend([u32::MAX; 11]);
    let state = Small::from_draws(&draws).unwrap();
    assert_eq!(state.character(), Coord { x: 3, y: 0 });
    assert_eq!(state.points(), [[5, 5, 5, 0], [5, 5, 5, 5], [5, 5, 5, 5]]);
}

#[test]
fn from_draws_wants_exactly_its_draws() {
    assert!(Small::from_draws(&DRAWS[..12].to_vec()).is_none());
    let mut longer = DRAWS.to_vec();
    longer.push(1);
    assert!(Small::from_draws(&longer).is_none());
    assert!(Small::from_draws(&Vec::new()).is_none());
}

#[test]
fn from_draws_refuses_a_shape_without_a_cell() {
    assert!(MazeState::<0, 4, 4>::from_draws(&vec![1]).is_none());
    assert!(MazeState::<3, 0, 4>::from_draws(&vec![1]).is_none());
}

#[test]
fn dims_fit_tells_the_shapes_apart() {
    assert!(Small::dims_fit());
    assert!(MazeState::<30, 30, 100>::dims_fit());
    assert!(MazeState::<1, 1, 0>::dims_fit());
    assert!(!MazeState::<0, 4, 4>::dims_fit());
    assert!(!MazeState::<3, 0, 4>::dims_fit());
    assert!(!MazeState::<3, 4, { usize::MAX }>::dims_fit());
    assert!(MazeState::<238_609_294, 1, 4>::dims_fit());
    assert!(!MazeState::<238_609_295, 1, 4>::dims_fit());
    assert!(!MazeState::<20_000, 20_000, 4>::dims_fit());
}

#[test]
fn draw_many_gives_as_many_as_asked() {
    let mut rng = SmallRng::seed_from_u64(7);
    assert_eq!(draw_many(&mut rng, 0).len(), 0);
    assert_eq!(draw_many(&mut rng, 13).len(), 13);
}

#[test]
fn new_is_what_from_draws_makes_of_the_generator() {
    for seed in [0, 1, 42, u64::MAX - 1] {
        let state = Small::new(seed).unwrap();
        let mut rng = SmallRng::seed_from_u64(seed);
        let draws = draw_many(&mut rng, 13);
        let expected = Small::from_draws(&draws).unwrap();
        assert_eq!(state.points(), expected.points());
        assert_eq!(state.character(), expected.character());
    }
}

#[test]
fn new_gives_a_fresh_state_within_bounds() {
    for seed in 0..50 {
        let state = MazeState::<30, 30, 100>::new(seed).unwrap();
        let here = state.character();
        assert!(here.x < 30 && here.y < 30);
        assert_eq!(state.turn(), 0);
        assert_eq!(state.game_score(), 0);
        assert_eq!(state.first_action(), None);
        assert!(!state.is_done());
        let points = state.points();
        assert_eq!(points[here.y][here.x], 0);
        for row in points.iter() {
            for value in row.iter() {
                assert!(0 <= *value && *value <= MAX_POINT as i32);
            }
        }
    }
}

#[test]
fn new_with_one_seed_is_one_state() {
    let a = Small::new(5).unwrap();
    let b = Small::new(5).unwrap();
    assert_eq!(a.points(), b.points());
    assert_eq!(a.character(), b.character());
}

#[test]
fn new_seeded_by_the_system_is_a_fresh_state() {
    if let Some(state) = Small::new(u64::MAX) {
        assert_eq!(state.turn(), 0);
        assert_eq!(state.game_score(), 0);
        let here = state.character();
        assert_eq!(state.points()[here.y][here.x], 0);
    }
}

#[test]
fn new_refuses_a_shape_that_does_not_fit() {
    assert!(MazeState::<0, 4, 4>::new(1).is_none());
    assert!(MazeState::<3, 4, { usize::MAX }>::new(1).is_none());
}
