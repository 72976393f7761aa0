use antsim::graph::ColonyGraph;
use antsim::rng::pick;
use antsim::sim::AntSimulation;

fn name(text: &str) -> Vec<char> {
    text.chars().collect()
}

fn text(line: &[char]) -> String {
    line.iter().collect()
}

fn graph(names: &[&str], adjacency: Vec<Vec<usize>>) -> ColonyGraph {
    ColonyGraph::from_adjacency(names.iter().map(|n| name(n)).collect(), &adjacency)
}

/// Colonies A, B, C with the edges A -> B and C -> B.
fn funnel() -> ColonyGraph {
    graph(&["A", "B", "C"], vec![vec![1], vec![], vec![1]])
}

/// Colonies A, B, C, T where each of A, B, C has its one edge to T.
fn three_way() -> ColonyGraph {
    graph(&["A", "B", "C", "T"], vec![vec![3], vec![3], vec![3], vec![]])
}

/// Eight colonies on a ring with a few chords.
fn ring() -> ColonyGraph {
    let mut adjacency = Vec::new();
    for s in 0..8usize {
        adjacency.push(vec![(s + 1) % 8, (s + 7) % 8, (s + 3) % 8]);
    }
    graph(&["a", "b", "c", "d", "e", "f", "g", "h"], adjacency)
}

fn occupancy(sim: &AntSimulation) -> Vec<usize> {
    (0..sim.total_colonies()).map(|s| sim.occupancy(s)).collect()
}

fn lines(sim: &AntSimulation) -> Vec<String> {
    sim.remaining_world().iter().map(|l| text(l)).collect()
}

/// Checks on a concrete state what the invariant says.
fn check_invariant(sim: &AntSimulation) {
    let mut listed = vec![0usize; sim.total_ants()];
    for s in 0..sim.total_colonies() {
        let here = sim.occupants(s);
        assert_eq!(sim.occupancy(s), here.len());
        if sim.is_destroyed(s) {
            assert_eq!(here.len(), 0);
        }
        for &a in here.iter() {
            assert!(sim.is_alive(a));
            assert_eq!(sim.position_of(a), s);
            listed[a] += 1;
        }
    }
    let mut alive = 0;
    let mut active = 0;
    for a in 0..sim.total_ants() {
        assert_eq!(listed[a], if sim.is_alive(a) { 1 } else { 0 });
        if sim.is_alive(a) {
            alive += 1;
            if sim.moves_of(a) < sim.max_moves() {
                active += 1;
            }
        }
    }
    assert_eq!(sim.alive_ants(), alive);
    assert_eq!(sim.active_under_budget(), active);
    assert_eq!(sim.stats().0, alive);
}

#[test]
fn two_ants_meet_and_destroy_the_colony() {
    let mut sim = AntSimulation::with_placement(funnel(), vec![0, 2], 10, 7);
    assert_eq!(sim.stats(), (2, 3, 3));
    let ticks = sim.run(10);
    assert_eq!(ticks, 1);
    assert_eq!(sim.stats(), (0, 2, 3));
    assert_eq!(sim.total_ants(), 2);
    assert!(sim.is_destroyed(1));
    assert!(!sim.is_alive(0));
    assert!(!sim.is_alive(1));
    assert_eq!(sim.occupancy(1), 0);
    assert_eq!(lines(&sim), vec!["A".to_string(), "C".to_string()]);
    check_invariant(&sim);
}

#[test]
fn two_ants_meet_step_by_step() {
    let mut sim = AntSimulation::with_placement(funnel(), vec![0, 2], 10, 7);
    let mut buffer = Vec::new();
    assert_eq!(sim.move_ant(0, &mut buffer), Some((0, 1)));
    assert_eq!(buffer, vec![1]);
    assert_eq!(sim.occupancy(1), 1);
    assert_eq!(sim.move_ant(1, &mut buffer), Some((2, 1)));
    assert_eq!(sim.occupancy(1), 2);
    assert_eq!(sim.occupants(1), &vec![0, 1]);
    assert_eq!(sim.moves_of(0), 1);
    assert_eq!(sim.moves_of(1), 1);
    check_invariant(&sim);
    assert_eq!(sim.check_collision(0), None);
    assert_eq!(sim.check_collision(1), Some((0, 1)));
    assert_eq!(sim.check_collision(1), None);
    assert_eq!(sim.stats(), (0, 2, 3));
    assert!(!sim.should_continue());
    check_invariant(&sim);
}

#[test]
fn lone_ant_at_a_dead_end_runs_to_the_ceiling() {
    let island = graph(&["D"], vec![vec![]]);
    let mut sim = AntSimulation::with_placement(island, vec![0], 5, 1);
    assert!(sim.should_continue());
    let ticks = sim.run(40);
    assert_eq!(ticks, 40);
    assert_eq!(sim.stats(), (1, 1, 1));
    assert_eq!(sim.alive_ants(), 1);
    assert_eq!(sim.active_under_budget(), 1);
    assert!(sim.should_continue());
    assert!(sim.is_alive(0));
    assert_eq!(sim.position_of(0), 0);
    assert_eq!(sim.moves_of(0), 0);
    assert_eq!(sim.rng_state(), 1);
    assert_eq!(lines(&sim), vec!["D".to_string()]);
}

#[test]
fn ant_at_a_dead_end_dies_when_a_second_walks_in() {
    let road = graph(&["X", "D"], vec![vec![1], vec![]]);
    let mut sim = AntSimulation::with_placement(road, vec![1, 0], 5, 3);
    sim.run_iteration();
    assert_eq!(sim.position_of(0), 1);
    assert_eq!(sim.moves_of(0), 0);
    assert!(!sim.is_alive(0));
    assert!(sim.is_destroyed(1));
    assert_eq!(sim.stats(), (0, 1, 2));
    check_invariant(&sim);
}

#[test]
fn three_arrivals_do_not_destroy() {
    let mut sim = AntSimulation::with_placement(three_way(), vec![0, 1, 2], 10, 11);
    sim.run_iteration();
    assert_eq!(sim.occupancy(3), 3);
    assert!(!sim.is_destroyed(3));
    assert_eq!(sim.stats(), (3, 4, 4));
    assert_eq!(sim.occupants(3), &vec![0, 1, 2]);
    check_invariant(&sim);
    // all three now stand at a dead end
    let ticks = sim.run(25);
    assert_eq!(ticks, 25);
    assert_eq!(sim.stats(), (3, 4, 4));
    for a in 0..3 {
        assert_eq!(sim.moves_of(a), 1);
        assert_eq!(sim.position_of(a), 3);
    }
}

#[test]
fn fourth_arrival_in_a_later_tick_does_not_destroy_either() {
    // S -> A -> T, so the ant on S reaches T one tick after the others
    let late = graph(
        &["A", "B", "T", "S"],
        vec![vec![2], vec![2], vec![], vec![0]],
    );
    let mut sim = AntSimulation::with_placement(late, vec![0, 1, 3], 10, 5);
    sim.run_iteration();
    // two arrivals at T: destroyed, both dead; the third ant stands on A
    assert!(sim.is_destroyed(2));
    assert_eq!(sim.stats(), (1, 3, 4));
    assert_eq!(sim.position_of(2), 0);
    sim.run_iteration();
    // A's only edge led to T: a dead end now
    assert_eq!(sim.position_of(2), 0);
    assert_eq!(sim.moves_of(2), 1);
    assert!(sim.is_alive(2));
    assert_eq!(lines(&sim), vec!["A".to_string(), "B".to_string(), "S north=A".to_string()]);
}

#[test]
fn valid_moves_skip_destroyed_colonies() {
    let g = graph(
        &["A", "B", "C", "D"],
        vec![vec![1, 2, 3, 1], vec![], vec![], vec![]],
    );
    let mut sim = AntSimulation::with_placement(g, vec![2, 2], 10, 0);
    let mut buffer = vec![9, 9, 9];
    sim.get_valid_moves(0, &mut buffer);
    assert_eq!(buffer, vec![1, 2, 3, 1]);
    assert_eq!(sim.check_collision(2), Some((0, 1)));
    sim.get_valid_moves(0, &mut buffer);
    assert_eq!(buffer, vec![1, 3, 1]);
    sim.get_valid_moves(1, &mut buffer);
    assert_eq!(buffer, Vec::<usize>::new());
    assert_eq!(sim.graph().neighbors(0), &[1, 2, 3, 1]);
    assert_eq!(sim.graph().degree(0), 4);
    assert_eq!(sim.graph().neighbor(0, 2), 3);
    assert_eq!(sim.graph().site_count(), 4);
}

#[test]
fn dead_ants_do_not_move() {
    let g = graph(&["A", "B"], vec![vec![1], vec![0]]);
    let mut sim = AntSimulation::with_placement(g, vec![0, 0, 1], 10, 2);
    assert_eq!(sim.check_collision(0), Some((0, 1)));
    let mut buffer = vec![7];
    let state = sim.rng_state();
    assert_eq!(sim.move_ant(0, &mut buffer), None);
    assert_eq!(buffer, vec![7]);
    // the last ant's only neighbour is destroyed
    assert_eq!(sim.move_ant(2, &mut buffer), None);
    assert_eq!(buffer, Vec::<usize>::new());
    assert_eq!(sim.rng_state(), state);
    assert_eq!(sim.moves_of(2), 0);
    check_invariant(&sim);
}

#[test]
fn relocate_updates_both_colonies() {
    let g = graph(&["A", "B"], vec![vec![1], vec![0]]);
    let mut sim = AntSimulation::with_placement(g, vec![0, 0, 0, 1], 2, 2);
    assert_eq!(sim.occupants(0), &vec![0, 1, 2]);
    sim.relocate(0, 0, 1);
    // the last ant of the list takes the place of the one that left
    assert_eq!(sim.occupants(0), &vec![2, 1]);
    assert_eq!(sim.occupants(1), &vec![3, 0]);
    assert_eq!(occupancy(&sim), vec![2, 2]);
    assert_eq!(sim.position_of(0), 1);
    assert_eq!(sim.moves_of(0), 1);
    assert_eq!(sim.active_under_budget(), 4);
    sim.relocate(0, 1, 0);
    // the second move exhausts the budget of two
    assert_eq!(sim.moves_of(0), 2);
    assert_eq!(sim.active_under_budget(), 3);
    assert_eq!(sim.alive_ants(), 4);
    assert_eq!(sim.occupants(0), &vec![2, 1, 0]);
    sim.relocate(0, 0, 0);
    assert_eq!(sim.moves_of(0), 3);
    assert_eq!(sim.active_under_budget(), 3);
    assert_eq!(sim.occupants(0), &vec![2, 1, 0]);
    check_invariant(&sim);
}

#[test]
fn killing_an_ant_under_budget_lowers_both_counters() {
    let g = graph(&["A", "B"], vec![vec![1], vec![0]]);
    let mut sim = AntSimulation::with_placement(g, vec![0, 1, 1], 1, 2);
    sim.relocate(1, 1, 0);
    // ant 1 has used its budget, ant 0 has not
    assert_eq!(sim.active_under_budget(), 2);
    assert_eq!(sim.check_collision(0), Some((0, 1)));
    assert_eq!(sim.alive_ants(), 1);
    assert_eq!(sim.active_under_budget(), 1);
    check_invariant(&sim);
}

#[test]
fn a_budget_of_zero_leaves_nobody_under_budget() {
    let sim = AntSimulation::with_placement(funnel(), vec![0, 2], 0, 7);
    assert_eq!(sim.alive_ants(), 2);
    assert_eq!(sim.active_under_budget(), 0);
    assert!(!sim.should_continue());
    let mut sim = sim;
    assert_eq!(sim.run(10), 0);
    assert_eq!(sim.stats(), (2, 3, 3));
}

#[test]
fn run_stops_when_the_budget_is_used_up() {
    let g = graph(&["A", "B"], vec![vec![1], vec![0]]);
    let mut sim = AntSimulation::with_placement(g, vec![0], 3, 9);
    let ticks = sim.run(100);
    assert_eq!(ticks, 3);
    assert_eq!(sim.moves_of(0), 3);
    assert_eq!(sim.active_under_budget(), 0);
    assert_eq!(sim.alive_ants(), 1);
    assert_eq!(sim.position_of(0), 1);
    assert!(!sim.should_continue());
}

#[test]
fn run_without_ants_runs_no_tick() {
    let mut sim = AntSimulation::new(funnel(), 0, 10, 3);
    assert_eq!(sim.stats(), (0, 3, 3));
    assert!(!sim.should_continue());
    assert_eq!(sim.run(10), 0);
    let empty = graph(&[], vec![]);
    let mut none = AntSimulation::new(empty, 0, 10, 3);
    assert_eq!(none.stats(), (0, 0, 0));
    none.run_iteration();
    assert_eq!(none.remaining_world().len(), 0);
}

#[test]
fn pick_draws_what_the_generator_draws() {
    for seed in [0u64, 1, 7, 0xdead_beef, u64::MAX] {
        for count in [1usize, 2, 3, 10, 1000] {
            let mut generator = fastrand::Rng::with_seed(seed);
            let value = generator.u64(..count as u64);
            let (index, state) = pick(seed, count);
            assert_eq!(index as u64, value);
            assert!(index < count);
            assert_eq!(state, generator.get_seed());
            assert_ne!(state, seed);
        }
    }
}

#[test]
fn a_move_follows_the_generator() {
    let mut sim = AntSimulation::with_placement(ring(), vec![4], 100, 42);
    let mut generator = fastrand::Rng::with_seed(42);
    let mut buffer = Vec::new();
    let mut at = 4usize;
    for _ in 0..20 {
        let choices = [(at + 1) % 8, (at + 7) % 8, (at + 3) % 8];
        let next = choices[generator.u64(..3) as usize];
        assert_eq!(sim.move_ant(0, &mut buffer), Some((at, next)));
        assert_eq!(buffer, choices.to_vec());
        assert_eq!(sim.rng_state(), generator.get_seed());
        at = next;
    }
    assert_eq!(sim.moves_of(0), 20);
}

#[test]
fn new_places_the_ants_by_the_generator() {
    let sim = AntSimulation::new(ring(), 50, 100, 2024);
    let mut generator = fastrand::Rng::with_seed(2024);
    for a in 0..50 {
        assert_eq!(sim.position_of(a) as u64, generator.u64(..8));
        assert!(sim.is_alive(a));
        assert_eq!(sim.moves_of(a), 0);
    }
    assert_eq!(sim.rng_state(), generator.get_seed());
    assert_eq!(sim.stats(), (50, 8, 8));
    assert_eq!(sim.active_under_budget(), 50);
    assert_eq!(sim.max_moves(), 100);
    check_invariant(&sim);
}

#[test]
fn same_seed_same_run() {
    let mut first = AntSimulation::new(ring(), 12, 50, 99);
    let mut second = AntSimulation::new(ring(), 12, 50, 99);
    for _ in 0..60 {
        assert_eq!(occupancy(&first), occupancy(&second));
        assert_eq!(first.stats(), second.stats());
        assert_eq!(first.should_continue(), second.should_continue());
        first.run_iteration();
        second.run_iteration();
    }
    assert_eq!(occupancy(&first), occupancy(&second));
    assert_eq!(lines(&first), lines(&second));
    assert_eq!(first.rng_state(), second.rng_state());
    for a in 0..12 {
        assert_eq!(first.is_alive(a), second.is_alive(a));
        assert_eq!(first.position_of(a), second.position_of(a));
        assert_eq!(first.moves_of(a), second.moves_of(a));
    }
}

#[test]
fn run_is_a_sequence_of_ticks() {
    let mut whole = AntSimulation::new(ring(), 9, 6, 5);
    let mut stepped = AntSimulation::new(ring(), 9, 6, 5);
    let ticks = whole.run(20);
    let mut count = 0;
    while count < 20 && stepped.should_continue() {
        stepped.run_iteration();
        count += 1;
    }
    assert_eq!(ticks, count);
    assert_eq!(occupancy(&whole), occupancy(&stepped));
    assert_eq!(whole.stats(), stepped.stats());
    assert_eq!(whole.rng_state(), stepped.rng_state());
}

#[test]
fn invariant_holds_tick_by_tick() {
    for seed in 0..20u64 {
        let mut sim = AntSimulation::new(ring(), 10, 7, seed);
        check_invariant(&sim);
        let mut destroyed: Vec<bool> = (0..8).map(|s| sim.is_destroyed(s)).collect();
        let mut alive: Vec<bool> = (0..10).map(|a| sim.is_alive(a)).collect();
        let mut moves: Vec<u32> = (0..10).map(|a| sim.moves_of(a)).collect();
        for _ in 0..15 {
            sim.run_iteration();
            check_invariant(&sim);
            for s in 0..8 {
                assert!(!destroyed[s] || sim.is_destroyed(s));
                destroyed[s] = sim.is_destroyed(s);
            }
            for a in 0..10 {
                assert!(alive[a] || !sim.is_alive(a));
                alive[a] = sim.is_alive(a);
                assert!(sim.moves_of(a) == moves[a] || sim.moves_of(a) == moves[a] + 1);
                moves[a] = sim.moves_of(a);
            }
        }
    }
}

#[test]
fn remaining_world_lists_standing_colonies_and_edges() {
    let g = graph(
        &["Foo", "Bar", "Baz"],
        vec![vec![1, 2], vec![0], vec![1, 0, 2]],
    );
    let mut sim = AntSimulation::with_placement(g, vec![1, 1], 10, 0);
    assert_eq!(
        lines(&sim),
        vec![
            "Foo north=Bar north=Baz".to_string(),
            "Bar north=Foo".to_string(),
            "Baz north=Bar north=Foo north=Baz".to_string(),
        ]
    );
    assert_eq!(sim.check_collision(1), Some((0, 1)));
    assert_eq!(
        lines(&sim),
        vec!["Foo north=Baz".to_string(), "Baz north=Foo north=Baz".to_string()]
    );
    assert_eq!(text(sim.graph().name(1)), "Bar");
}
