use forest_fire::forest::Forest;
use forest_fire::geometry::GridPosition;
use forest_fire::model::TreeState;
use forest_fire::probability::Probability;
use rand::rngs::StdRng;
use rand::SeedableRng;

fn percent(pct: u32) -> Probability {
    Probability::from_ratio(pct, 100).unwrap()
}

fn full_grid(width: usize, height: usize) -> Vec<GridPosition> {
    let mut cells = Vec::new();
    for x in 0..width {
        for y in 0..height {
            cells.push(GridPosition::new(x, y));
        }
    }
    cells
}

fn planted(
    width: usize,
    height: usize,
    susceptibility: Probability,
    burn_duration: usize,
    ignitions: &[(usize, usize)],
) -> Forest {
    let ignitions: Vec<GridPosition> =
        ignitions.iter().map(|(x, y)| GridPosition::new(*x, *y)).collect();
    Forest::with_placement(
        width,
        height,
        susceptibility,
        burn_duration,
        &full_grid(width, height),
        &ignitions,
        StdRng::seed_from_u64(1),
    )
}

fn rank(state: TreeState) -> u8 {
    match state {
        TreeState::Uncaught => 0,
        TreeState::Catching => 1,
        TreeState::Burning(_) => 2,
        TreeState::Burnt => 3,
    }
}

fn state(forest: &Forest, x: usize, y: usize) -> Option<TreeState> {
    forest.state_at(GridPosition::new(x, y))
}

fn lit_cells(forest: &Forest) -> Vec<GridPosition> {
    forest
        .cells()
        .into_iter()
        .filter(|(_, s)| matches!(s, TreeState::Catching | TreeState::Burning(_)))
        .map(|(pos, _)| pos)
        .collect()
}

#[test]
fn default_tree_is_uncaught() {
    assert_eq!(TreeState::default(), TreeState::Uncaught);
}

#[test]
fn placement_starts_uncaught_with_ignitions_catching() {
    let forest = planted(3, 2, percent(35), 4, &[(1, 1)]);
    assert_eq!(forest.clock(), 0);
    assert_eq!(forest.burn_duration(), 4);
    assert_eq!(forest.susceptibility(), percent(35));
    assert_eq!(forest.grid_width(), 3);
    assert_eq!(forest.grid_height(), 2);
    assert!(!forest.steady_state());
    let cells = forest.cells();
    assert_eq!(cells.len(), 6);
    for (pos, tree) in cells {
        if pos == GridPosition::new(1, 1) {
            assert_eq!(tree, TreeState::Catching);
        } else {
            assert_eq!(tree, TreeState::Uncaught);
        }
    }
    assert_eq!(forest.active_cells(), vec![GridPosition::new(1, 1)]);
}

#[test]
fn cells_come_in_ascending_order() {
    let trees = vec![
        GridPosition::new(2, 0),
        GridPosition::new(0, 5),
        GridPosition::new(1, 1),
        GridPosition::new(0, 1),
        GridPosition::new(1, 1),
    ];
    let forest = Forest::with_placement(
        3,
        6,
        percent(50),
        1,
        &trees,
        &Vec::new(),
        StdRng::seed_from_u64(3),
    );
    let positions: Vec<GridPosition> = forest.cells().into_iter().map(|(p, _)| p).collect();
    assert_eq!(
        positions,
        vec![
            GridPosition::new(0, 1),
            GridPosition::new(0, 5),
            GridPosition::new(1, 1),
            GridPosition::new(2, 0),
        ]
    );
}

#[test]
fn ignition_plants_its_own_tree() {
    let forest = Forest::with_placement(
        4,
        4,
        percent(50),
        2,
        &vec![GridPosition::new(0, 0)],
        &vec![GridPosition::new(3, 3), GridPosition::new(0, 0)],
        StdRng::seed_from_u64(3),
    );
    assert_eq!(state(&forest, 0, 0), Some(TreeState::Catching));
    assert_eq!(state(&forest, 3, 3), Some(TreeState::Catching));
    assert_eq!(state(&forest, 1, 1), None);
    assert_eq!(
        forest.active_cells(),
        vec![GridPosition::new(0, 0), GridPosition::new(3, 3)]
    );
}

#[test]
fn forest_without_ignition_is_steady() {
    let mut forest = planted(3, 3, Probability::one(), 2, &[]);
    assert!(forest.steady_state());
    forest.tick();
    assert!(forest.steady_state());
    assert_eq!(forest.clock(), 1);
    for (_, tree) in forest.cells() {
        assert_eq!(tree, TreeState::Uncaught);
    }
}

#[test]
fn new_with_density_one_plants_every_cell() {
    let forest = Forest::new(
        4,
        3,
        percent(35),
        5,
        Probability::one(),
        StdRng::seed_from_u64(11),
    );
    let cells = forest.cells();
    assert_eq!(cells.len(), 12);
    for x in 0..4 {
        for y in 0..3 {
            let expected = if (x, y) == (2, 1) {
                TreeState::Catching
            } else {
                TreeState::Uncaught
            };
            assert_eq!(state(&forest, x, y), Some(expected));
        }
    }
    assert_eq!(forest.active_cells(), vec![GridPosition::new(2, 1)]);
    assert_eq!(forest.clock(), 0);
    assert_eq!(forest.grid_width(), 4);
    assert_eq!(forest.grid_height(), 3);
}

#[test]
fn new_with_density_zero_plants_the_ignition_only() {
    let forest = Forest::new(
        10,
        10,
        percent(35),
        5,
        Probability::zero(),
        StdRng::seed_from_u64(11),
    );
    assert_eq!(
        forest.cells(),
        vec![(GridPosition::new(5, 5), TreeState::Catching)]
    );
}

#[test]
fn new_ignites_in_the_middle_of_the_grid() {
    let forest = Forest::new(
        4,
        2,
        percent(35),
        5,
        Probability::one(),
        StdRng::seed_from_u64(11),
    );
    assert_eq!(state(&forest, 2, 1), Some(TreeState::Catching));
    assert_eq!(state(&forest, 2, 2), None);
    assert_eq!(forest.cells().len(), 8);
    assert_eq!(forest.active_cells(), vec![GridPosition::new(2, 1)]);
}

#[test]
fn new_ignites_inside_a_flat_grid() {
    let forest = Forest::new(
        2,
        1,
        percent(35),
        5,
        Probability::one(),
        StdRng::seed_from_u64(11),
    );
    assert_eq!(
        forest.cells(),
        vec![
            (GridPosition::new(0, 0), TreeState::Uncaught),
            (GridPosition::new(1, 0), TreeState::Catching),
        ]
    );
    assert_eq!(forest.active_cells(), vec![GridPosition::new(1, 0)]);
    let tall = Forest::new(
        1,
        9,
        percent(35),
        5,
        Probability::zero(),
        StdRng::seed_from_u64(11),
    );
    assert_eq!(
        tall.cells(),
        vec![(GridPosition::new(0, 4), TreeState::Catching)]
    );
}

#[test]
fn new_on_a_single_cell_ignites_it() {
    let forest = Forest::new(
        1,
        1,
        percent(35),
        1,
        Probability::zero(),
        StdRng::seed_from_u64(11),
    );
    assert_eq!(
        forest.cells(),
        vec![(GridPosition::new(0, 0), TreeState::Catching)]
    );
}

#[test]
fn new_keeps_its_trees_inside_the_grid() {
    for (width, height) in [(12usize, 7usize), (7, 12), (9, 2), (2, 9)] {
        let mut forest = Forest::new(
            width,
            height,
            percent(35),
            5,
            percent(45),
            StdRng::seed_from_u64(2024),
        );
        let cells = forest.cells();
        assert!(cells.len() > 1);
        assert!(cells.len() < width * height);
        for (pos, tree) in cells {
            assert!(pos.x < width && pos.y < height);
            if pos == GridPosition::new(width / 2, height / 2) {
                assert_eq!(tree, TreeState::Catching);
            } else {
                assert_eq!(tree, TreeState::Uncaught);
            }
        }
        for _ in 0..20 {
            forest.tick();
            for (pos, _) in forest.cells() {
                assert!(pos.x < width && pos.y < height);
            }
            for pos in forest.active_cells() {
                assert!(pos.x < width && pos.y < height);
            }
        }
    }
}

#[test]
fn cloned_forest_burns_alike() {
    let mut first = Forest::new(
        16,
        16,
        percent(40),
        3,
        percent(60),
        StdRng::seed_from_u64(8),
    );
    for _ in 0..5 {
        first.tick();
    }
    let mut second = first.clone();
    assert_eq!(first.cells(), second.cells());
    for _ in 0..40 {
        first.tick();
        second.tick();
        assert_eq!(first.cells(), second.cells());
        assert_eq!(first.active_cells(), second.active_cells());
    }
}

#[test]
fn settled_tick_leaves_the_random_source_alone() {
    let mut first = planted(6, 6, percent(50), 2, &[(3, 3)]);
    let mut second = planted(6, 6, percent(50), 2, &[(3, 3)]);
    first.tick_with(&Vec::new());
    first.tick_with(&vec![GridPosition::new(2, 2)]);
    second.tick_with(&Vec::new());
    second.tick_with(&vec![GridPosition::new(2, 2)]);
    assert_eq!(first.cells(), second.cells());
    let mut fresh = planted(6, 6, percent(50), 2, &[(3, 3)]);
    fresh.tick();
    fresh.tick_with(&vec![GridPosition::new(2, 2)]);
    assert_eq!(fresh.cells(), first.cells());
    for _ in 0..10 {
        first.tick();
        second.tick();
        assert_eq!(first.cells(), second.cells());
    }
}

#[test]
fn fire_on_three_by_three_with_full_susceptibility() {
    let mut forest = planted(3, 3, Probability::one(), 1, &[(1, 1)]);

    forest.tick();
    assert_eq!(forest.clock(), 1);
    assert_eq!(state(&forest, 1, 1), Some(TreeState::Burning(1)));
    assert_eq!(lit_cells(&forest), vec![GridPosition::new(1, 1)]);
    assert!(!forest.steady_state());

    forest.tick();
    assert_eq!(forest.clock(), 2);
    for (pos, tree) in forest.cells() {
        if pos == GridPosition::new(1, 1) {
            assert_eq!(tree, TreeState::Burnt);
        } else {
            assert_eq!(tree, TreeState::Catching);
        }
    }
    assert_eq!(forest.active_cells().len(), 8);
    assert!(!forest.steady_state());

    forest.tick();
    for (pos, tree) in forest.cells() {
        if pos == GridPosition::new(1, 1) {
            assert_eq!(tree, TreeState::Burnt);
        } else {
            assert_eq!(tree, TreeState::Burning(3));
        }
    }
    assert!(!forest.steady_state());

    forest.tick();
    assert_eq!(forest.clock(), 4);
    for (_, tree) in forest.cells() {
        assert_eq!(tree, TreeState::Burnt);
    }
    assert!(forest.active_cells().is_empty());
    assert!(forest.steady_state());
}

#[test]
fn new_forest_with_full_susceptibility_burns_down() {
    let mut forest = Forest::new(
        3,
        3,
        Probability::one(),
        1,
        Probability::one(),
        StdRng::seed_from_u64(5),
    );
    let mut ticks = 0;
    while !forest.steady_state() {
        forest.tick();
        ticks += 1;
        assert!(ticks <= 4);
    }
    assert_eq!(ticks, 4);
    for (_, tree) in forest.cells() {
        assert_eq!(tree, TreeState::Burnt);
    }
}

#[test]
fn tick_after_steady_state_only_advances_the_clock() {
    let mut forest = planted(2, 2, Probability::one(), 1, &[(0, 0)]);
    while !forest.steady_state() {
        forest.tick();
    }
    let clock = forest.clock();
    let cells = forest.cells();
    forest.tick();
    forest.tick();
    assert_eq!(forest.clock(), clock + 2);
    assert_eq!(forest.cells(), cells);
    assert!(forest.steady_state());
}

#[test]
fn tree_burns_for_exactly_the_burn_duration() {
    let mut forest = planted(1, 1, percent(35), 3, &[(0, 0)]);
    assert_eq!(state(&forest, 0, 0), Some(TreeState::Catching));
    forest.tick();
    assert_eq!(state(&forest, 0, 0), Some(TreeState::Burning(3)));
    forest.tick();
    assert_eq!(state(&forest, 0, 0), Some(TreeState::Burning(3)));
    forest.tick();
    assert_eq!(forest.clock(), 3);
    assert_eq!(state(&forest, 0, 0), Some(TreeState::Burning(3)));
    assert!(!forest.steady_state());
    forest.tick();
    assert_eq!(forest.clock(), 4);
    assert_eq!(state(&forest, 0, 0), Some(TreeState::Burnt));
    assert!(forest.steady_state());
}

#[test]
fn tree_that_catches_later_burns_until_later() {
    let mut forest = planted(2, 1, Probability::one(), 2, &[(0, 0)]);
    forest.tick();
    assert_eq!(state(&forest, 0, 0), Some(TreeState::Burning(2)));
    assert_eq!(state(&forest, 1, 0), Some(TreeState::Uncaught));
    forest.tick();
    assert_eq!(state(&forest, 0, 0), Some(TreeState::Burning(2)));
    assert_eq!(state(&forest, 1, 0), Some(TreeState::Catching));
    forest.tick();
    assert_eq!(state(&forest, 0, 0), Some(TreeState::Burnt));
    assert_eq!(state(&forest, 1, 0), Some(TreeState::Burning(4)));
    forest.tick();
    assert_eq!(state(&forest, 1, 0), Some(TreeState::Burning(4)));
    forest.tick();
    assert_eq!(forest.clock(), 5);
    assert_eq!(state(&forest, 1, 0), Some(TreeState::Burnt));
    assert!(forest.steady_state());
}

#[test]
fn zero_susceptibility_never_spreads() {
    let mut forest = planted(5, 5, Probability::zero(), 3, &[(2, 2), (0, 4)]);
    for _ in 0..4 {
        assert!(!forest.steady_state());
        forest.tick();
        for (pos, tree) in forest.cells() {
            if pos != GridPosition::new(2, 2) && pos != GridPosition::new(0, 4) {
                assert_eq!(tree, TreeState::Uncaught);
            }
        }
    }
    assert!(forest.steady_state());
    assert_eq!(state(&forest, 2, 2), Some(TreeState::Burnt));
    assert_eq!(state(&forest, 0, 4), Some(TreeState::Burnt));
    assert_eq!(forest.cells().len(), 25);
}

#[test]
fn full_susceptibility_spreads_to_every_neighbor_at_once() {
    let mut forest = planted(5, 5, Probability::one(), 2, &[(2, 2)]);
    forest.tick();
    assert_eq!(state(&forest, 2, 2), Some(TreeState::Burning(2)));
    forest.tick();
    for x in 0..5 {
        for y in 0..5 {
            let near = x >= 1 && x <= 3 && y >= 1 && y <= 3;
            let expected = if (x, y) == (2, 2) {
                TreeState::Burning(2)
            } else if near {
                TreeState::Catching
            } else {
                TreeState::Uncaught
            };
            assert_eq!(state(&forest, x, y), Some(expected));
        }
    }
}

#[test]
fn catching_tree_does_not_spread() {
    let mut forest = planted(3, 3, Probability::one(), 2, &[(1, 1)]);
    assert!(forest.jeopardy().is_empty());
    forest.tick();
    for (pos, tree) in forest.cells() {
        if pos != GridPosition::new(1, 1) {
            assert_eq!(tree, TreeState::Uncaught);
        }
    }
    assert_eq!(forest.jeopardy().len(), 8);
}

#[test]
fn missing_tree_never_appears() {
    let trees = vec![
        GridPosition::new(0, 0),
        GridPosition::new(1, 0),
        GridPosition::new(3, 0),
        GridPosition::new(1, 1),
    ];
    let mut forest = Forest::with_placement(
        4,
        2,
        Probability::one(),
        1,
        &trees,
        &vec![GridPosition::new(0, 0)],
        StdRng::seed_from_u64(9),
    );
    for _ in 0..8 {
        forest.tick();
        assert_eq!(forest.cells().len(), 4);
        assert_eq!(state(&forest, 2, 0), None);
        assert_eq!(state(&forest, 0, 1), None);
        assert_eq!(state(&forest, 2, 1), None);
        assert!(!forest.active_cells().contains(&GridPosition::new(2, 0)));
    }
    assert!(forest.steady_state());
    assert_eq!(state(&forest, 0, 0), Some(TreeState::Burnt));
    assert_eq!(state(&forest, 1, 0), Some(TreeState::Burnt));
    assert_eq!(state(&forest, 1, 1), Some(TreeState::Burnt));
    assert_eq!(state(&forest, 3, 0), Some(TreeState::Uncaught));
}

#[test]
fn jeopardy_lists_chances_by_burning_neighbors() {
    let mut forest = planted(3, 3, percent(35), 2, &[(0, 0), (2, 0)]);
    forest.tick();
    let list = forest.jeopardy();
    assert_eq!(
        list,
        vec![
            (GridPosition::new(0, 1), Probability::new(650_000_000).unwrap()),
            (GridPosition::new(1, 0), Probability::new(422_500_000).unwrap()),
            (GridPosition::new(1, 1), Probability::new(422_500_000).unwrap()),
            (GridPosition::new(2, 1), Probability::new(650_000_000).unwrap()),
        ]
    );
    assert_eq!(forest.clock(), 1);
    assert_eq!(state(&forest, 1, 1), Some(TreeState::Uncaught));
}

#[test]
fn jeopardy_of_three_burning_neighbors() {
    let mut forest = planted(3, 2, percent(35), 2, &[(0, 0), (1, 0), (2, 0)]);
    forest.tick();
    let list = forest.jeopardy();
    assert_eq!(
        list,
        vec![
            (GridPosition::new(0, 1), Probability::new(422_500_000).unwrap()),
            (GridPosition::new(1, 1), Probability::new(274_625_000).unwrap()),
            (GridPosition::new(2, 1), Probability::new(422_500_000).unwrap()),
        ]
    );
}

#[test]
fn settled_tick_ignites_exactly_the_chosen_trees() {
    let mut forest = planted(3, 3, percent(35), 2, &[(0, 0), (2, 0)]);
    forest.tick();
    let caught = vec![
        GridPosition::new(1, 1),
        GridPosition::new(2, 2),
        GridPosition::new(7, 7),
    ];
    forest.tick_with(&caught);
    assert_eq!(forest.clock(), 2);
    assert_eq!(state(&forest, 0, 0), Some(TreeState::Burning(2)));
    assert_eq!(state(&forest, 2, 0), Some(TreeState::Burning(2)));
    assert_eq!(state(&forest, 1, 1), Some(TreeState::Catching));
    assert_eq!(state(&forest, 0, 1), Some(TreeState::Uncaught));
    assert_eq!(state(&forest, 1, 0), Some(TreeState::Uncaught));
    assert_eq!(state(&forest, 2, 1), Some(TreeState::Uncaught));
    assert_eq!(state(&forest, 2, 2), Some(TreeState::Uncaught));
    assert_eq!(state(&forest, 7, 7), None);
    assert_eq!(
        forest.active_cells(),
        vec![
            GridPosition::new(0, 0),
            GridPosition::new(1, 1),
            GridPosition::new(2, 0),
        ]
    );
}

#[test]
fn settled_tick_with_nothing_caught_lets_the_fire_die() {
    let mut forest = planted(3, 3, Probability::one(), 1, &[(1, 1)]);
    forest.tick_with(&Vec::new());
    forest.tick_with(&Vec::new());
    assert!(forest.steady_state());
    for (pos, tree) in forest.cells() {
        if pos == GridPosition::new(1, 1) {
            assert_eq!(tree, TreeState::Burnt);
        } else {
            assert_eq!(tree, TreeState::Uncaught);
        }
    }
}

#[test]
fn states_never_move_back() {
    let mut forest = Forest::new(
        15,
        15,
        percent(35),
        3,
        percent(70),
        StdRng::seed_from_u64(77),
    );
    let mut before = forest.cells();
    let mut ticks = 0;
    while !forest.steady_state() && ticks < 200 {
        forest.tick();
        ticks += 1;
        let after = forest.cells();
        assert_eq!(after.len(), before.len());
        for (old, new) in before.iter().zip(after.iter()) {
            assert_eq!(old.0, new.0);
            assert!(rank(old.1) <= rank(new.1));
            if let (TreeState::Burning(a), TreeState::Burning(b)) = (old.1, new.1) {
                assert_eq!(a, b);
            }
            if old.1 == TreeState::Catching {
                assert_eq!(new.1, TreeState::Burning(ticks - 1 + 3));
            }
        }
        before = after;
    }
    assert!(forest.steady_state());
    assert!(ticks > 4);
}

#[test]
fn active_cells_are_the_trees_on_fire() {
    let mut forest = Forest::new(
        12,
        12,
        percent(50),
        2,
        percent(80),
        StdRng::seed_from_u64(123),
    );
    assert_eq!(forest.active_cells(), lit_cells(&forest));
    for _ in 0..40 {
        forest.tick();
        let active = forest.active_cells();
        assert_eq!(active, lit_cells(&forest));
        assert_eq!(forest.steady_state(), active.is_empty());
    }
}

#[test]
fn same_seed_gives_the_same_fire() {
    let mut first = Forest::new(
        20,
        20,
        percent(35),
        5,
        percent(45),
        StdRng::seed_from_u64(42),
    );
    let mut second = Forest::new(
        20,
        20,
        percent(35),
        5,
        percent(45),
        StdRng::seed_from_u64(42),
    );
    assert_eq!(first.cells(), second.cells());
    for _ in 0..60 {
        first.tick();
        second.tick();
        assert_eq!(first.cells(), second.cells());
        assert_eq!(first.active_cells(), second.active_cells());
        assert_eq!(first.clock(), second.clock());
    }
}

#[test]
fn fire_spreads_under_middling_susceptibility() {
    let mut forest = planted(9, 9, percent(50), 4, &[(4, 4)]);
    for _ in 0..12 {
        forest.tick();
    }
    let touched = forest
        .cells()
        .into_iter()
        .filter(|(_, tree)| *tree != TreeState::Uncaught)
        .count();
    assert!(touched > 1);
}

#[test]
fn clock_leaves_room_for_ticks() {
    let mut forest = planted(2, 2, percent(35), 5, &[(0, 0)]);
    assert!(forest.can_tick());
    forest.tick();
    assert!(forest.can_tick());
    let wide = planted(1, 1, percent(35), usize::MAX, &[(0, 0)]);
    assert!(wide.can_tick());
    let mut wide = wide;
    wide.tick();
    assert_eq!(wide.state_at(GridPosition::new(0, 0)), Some(TreeState::Burning(usize::MAX)));
    assert!(!wide.can_tick());
}
