use fungus::agent::{Direction, Spore};
use fungus::simulate::{
    choose_move, look, nonzero_moves, random_positions, scent_weights_of, select_move, step_spore, Config, Fungus,
    Move,
};
use fungus::world::{ConfigError, Ratio, World};
use rand::rngs::StdRng;
use rand::SeedableRng;

fn candidates(s: &Spore, w: &World) -> Vec<Move> {
    vec![
        look(s.direction, s, w),
        look(s.direction.left(), s, w),
        look(s.direction.right(), s, w),
    ]
}

fn snapshot(f: &Fungus) -> (Vec<u64>, Vec<((usize, usize), Direction)>) {
    let w = f.world();
    let mut cells = Vec::new();
    for y in 0..w.height() {
        for x in 0..w.width() {
            cells.push(w.get_pheromone(&(x, y)));
        }
    }
    let agents = f.spores().iter().map(|s| (s.position, s.direction)).collect();
    (cells, agents)
}

#[test]
fn look_senses_the_three_cells_ahead() {
    let mut w = World::new(3, 3).unwrap();
    w.deposit_pheromone(&(1, 2), 4);
    let mut s = Spore::with_memory(2);
    s.position = (1, 1);
    s.direction = Direction::N;
    let m = candidates(&s, &w);
    assert_eq!((m[0].position, m[0].direction, m[0].pheromone), ((1, 2), Direction::N, 4));
    assert_eq!((m[1].position, m[1].direction, m[1].pheromone), ((0, 2), Direction::NW, 0));
    assert_eq!((m[2].position, m[2].direction, m[2].pheromone), ((2, 2), Direction::NE, 0));
}

#[test]
fn look_wraps_at_the_edge() {
    let w = World::new(3, 3).unwrap();
    let mut s = Spore::with_memory(0);
    s.position = (0, 0);
    s.direction = Direction::SW;
    let m = look(s.direction, &s, &w);
    assert_eq!(m.position, (2, 2));
}

#[test]
fn remembered_cells_sense_nothing() {
    let mut w = World::new(3, 3).unwrap();
    w.deposit_pheromone(&(1, 2), 9);
    let mut s = Spore::with_memory(4);
    s.position = (1, 2);
    s.move_to((1, 1));
    s.direction = Direction::N;
    let m = candidates(&s, &w);
    assert_eq!(m[0].position, (1, 2));
    assert_eq!(m[0].pheromone, 0);
    assert!(nonzero_moves(&m).is_empty());
    // with nothing scented the choice is uniform over all three
    let mut rng = StdRng::seed_from_u64(3);
    let mut seen = [false; 3];
    for _ in 0..200 {
        let c = choose_move(&m, &mut rng);
        let k = m.iter().position(|x| x.position == c.position).unwrap();
        seen[k] = true;
    }
    assert_eq!(seen, [true, true, true]);
}

#[test]
fn the_only_scented_candidate_is_always_chosen() {
    let moves = vec![
        Move { position: (0, 1), direction: Direction::N, pheromone: 0 },
        Move { position: (1, 1), direction: Direction::NE, pheromone: 5 },
        Move { position: (4, 1), direction: Direction::NW, pheromone: 0 },
    ];
    for seed in 0..100 {
        let mut rng = StdRng::seed_from_u64(seed);
        let c = choose_move(&moves, &mut rng);
        assert_eq!(c.position, (1, 1));
        assert_eq!(c.direction, Direction::NE);
    }
}

#[test]
fn weighted_choice_never_picks_unscented_candidates() {
    let moves = vec![
        Move { position: (0, 1), direction: Direction::N, pheromone: 1 },
        Move { position: (1, 1), direction: Direction::NE, pheromone: 0 },
        Move { position: (4, 1), direction: Direction::NW, pheromone: 1000 },
    ];
    let mut rng = StdRng::seed_from_u64(11);
    let mut heavy = 0;
    for _ in 0..300 {
        let c = choose_move(&moves, &mut rng);
        assert!(c.pheromone > 0);
        if c.pheromone == 1000 {
            heavy += 1;
        }
    }
    assert!(heavy > 250);
}

#[test]
fn nonzero_moves_keeps_order() {
    let moves = vec![
        Move { position: (0, 0), direction: Direction::N, pheromone: 2 },
        Move { position: (1, 0), direction: Direction::E, pheromone: 0 },
        Move { position: (2, 0), direction: Direction::S, pheromone: 3 },
    ];
    let nz = nonzero_moves(&moves);
    assert_eq!(nz.len(), 2);
    assert_eq!(nz[0].pheromone, 2);
    assert_eq!(nz[1].pheromone, 3);
}

#[test]
fn a_step_deposits_then_moves_to_a_candidate() {
    let mut w = World::new(5, 5).unwrap();
    let mut s = Spore::with_memory(2);
    s.position = (2, 2);
    s.direction = Direction::E;
    let allowed = candidates(&s, &w);
    let mut rng = StdRng::seed_from_u64(5);
    step_spore(&mut w, &mut s, 3, &mut rng);
    assert_eq!(w.get_pheromone(&(2, 2)), 3);
    assert_eq!(w.total(), 3);
    assert!(allowed.iter().any(|m| m.position == s.position && m.direction == s.direction));
    assert!(s.history.contains(&(2, 2)));
}

#[test]
fn single_agent_first_tick_on_three_by_three() {
    let config = Config { deposit: 10, diffuse: Ratio { num: 1, den: 1 }, spread: false };
    let mut f = Fungus::new(3, 3).unwrap().with_config(config).unwrap();
    let mut s = Spore::with_memory(6);
    s.position = (1, 1);
    s.direction = Direction::N;
    let allowed = candidates(&s, f.world());
    assert!(allowed.iter().all(|m| m.pheromone == 0));
    f.add_spore(s);
    let mut rng = StdRng::seed_from_u64(1);
    assert!(f.tick_fits());
    f.iterate(&mut rng);
    assert_eq!(f.world().get_pheromone(&(1, 1)), 10);
    assert_eq!(f.world().total(), 10);
    let moved = &f.spores()[0];
    assert!(allowed
        .iter()
        .any(|m| m.position == moved.position && m.direction == moved.direction));
}

#[test]
fn first_ticks_pick_every_candidate_uniformly() {
    let config = Config { deposit: 10, diffuse: Ratio { num: 1, den: 1 }, spread: false };
    let mut seen = std::collections::HashSet::new();
    for seed in 0..60 {
        let mut f = Fungus::new(3, 3).unwrap().with_config(config).unwrap();
        let mut s = Spore::with_memory(6);
        s.position = (1, 1);
        s.direction = Direction::N;
        f.add_spore(s);
        let mut rng = StdRng::seed_from_u64(seed);
        f.iterate(&mut rng);
        seen.insert(f.spores()[0].position);
    }
    assert_eq!(seen.len(), 3);
}

#[test]
fn later_agents_sense_earlier_deposits_in_the_same_tick() {
    let config = Config { deposit: 10, diffuse: Ratio { num: 1, den: 1 }, spread: false };
    let mut f = Fungus::new(5, 5).unwrap().with_config(config).unwrap();
    let mut a = Spore::with_memory(0);
    a.position = (2, 3);
    a.direction = Direction::S;
    let mut b = Spore::with_memory(0);
    b.position = (2, 2);
    b.direction = Direction::N;
    f.add_spore(a);
    f.add_spore(b);
    let mut rng = StdRng::seed_from_u64(9);
    f.iterate(&mut rng);
    // the second agent saw 10 straight ahead and nothing on the diagonals
    assert_eq!(f.spores()[1].position, (2, 3));
    assert_eq!(f.spores()[1].direction, Direction::N);
}

#[test]
fn moves_stay_legal_and_in_bounds() {
    let config = Config { deposit: 50, diffuse: Ratio { num: 3, den: 4 }, spread: true };
    let mut f = Fungus::new(7, 5).unwrap().with_config(config).unwrap();
    let mut rng = StdRng::seed_from_u64(42);
    f.add_random_spores(20, Some(3), &mut rng);
    for _ in 0..30 {
        let before: Vec<Vec<Move>> =
            f.spores().iter().map(|s| candidates(s, f.world())).collect();
        let mass = f.world().total();
        assert!(f.tick_fits());
        f.iterate(&mut rng);
        assert_eq!(f.world().total(), mass + 20 * 50);
        for (s, allowed) in f.spores().iter().zip(before.iter()) {
            assert!(s.position.0 < 7 && s.position.1 < 5);
            assert!(allowed
                .iter()
                .any(|m| m.position == s.position && m.direction == s.direction));
        }
    }
}

#[test]
fn decay_mode_bounds_the_mass() {
    let config = Config { deposit: 40, diffuse: Ratio { num: 1, den: 2 }, spread: false };
    let mut f = Fungus::new(6, 6).unwrap().with_config(config).unwrap();
    let mut rng = StdRng::seed_from_u64(8);
    f.add_random_spores(5, None, &mut rng);
    for _ in 0..10 {
        let mass = f.world().total();
        f.iterate(&mut rng);
        assert!(f.world().total() * 2 <= mass + 5 * 40);
    }
}

#[test]
fn same_seed_same_run() {
    let run = |seed: u64| {
        let config = Config { deposit: 100, diffuse: Ratio { num: 3, den: 4 }, spread: true };
        let mut f = Fungus::new(9, 8).unwrap().with_config(config).unwrap();
        let mut rng = StdRng::seed_from_u64(seed);
        f.add_random_spores(15, Some(6), &mut rng);
        for _ in 0..25 {
            f.iterate(&mut rng);
        }
        snapshot(&f)
    };
    assert_eq!(run(77), run(77));
    assert_ne!(run(77), run(78));
}

#[test]
fn random_spores_are_placed_on_the_grid() {
    let mut f = Fungus::new(4, 3).unwrap();
    let mut rng = StdRng::seed_from_u64(2);
    f.add_random_spores(50, None, &mut rng);
    f.add_random_spores(5, Some(0), &mut rng);
    assert_eq!(f.spores().len(), 55);
    for (i, s) in f.spores().iter().enumerate() {
        assert!(s.position.0 < 4 && s.position.1 < 3);
        assert_eq!(s.history.size(), if i < 50 { 6 } else { 0 });
    }
}

#[test]
fn random_positions_are_in_bounds() {
    let mut rng = StdRng::seed_from_u64(4);
    let p = random_positions(3, 2, 100, &mut rng);
    assert_eq!(p.len(), 100);
    assert!(p.iter().all(|&(x, y)| x < 3 && y < 2));
    assert!(random_positions(3, 2, 0, &mut rng).is_empty());
}

#[test]
fn construction_errors() {
    assert!(matches!(Fungus::new(0, 4), Err(ConfigError::EmptyGrid)));
    assert!(matches!(Fungus::new(4, 0), Err(ConfigError::EmptyGrid)));
    let bad = Config { deposit: 1, diffuse: Ratio { num: 5, den: 4 }, spread: false };
    assert!(matches!(
        Fungus::new(2, 2).unwrap().with_config(bad),
        Err(ConfigError::RetentionOutOfRange)
    ));
    let zero = Config { deposit: 1, diffuse: Ratio { num: 0, den: 0 }, spread: false };
    assert!(matches!(
        Fungus::new(2, 2).unwrap().with_config(zero),
        Err(ConfigError::RetentionOutOfRange)
    ));
}

#[test]
fn default_configuration() {
    let f = Fungus::new(2, 2).unwrap();
    let c = f.config();
    assert_eq!(c.deposit, 100);
    assert_eq!(c.diffuse, Ratio { num: 1, den: 4 });
    assert!(!c.spread);
    assert_eq!(Config::default(), c);
}

#[test]
fn tick_fits_refuses_an_overflowing_tick() {
    let config = Config { deposit: u64::MAX / 2, diffuse: Ratio { num: 1, den: 1 }, spread: false };
    let mut f = Fungus::new(2, 2).unwrap().with_config(config).unwrap();
    f.add_spore(Spore::default());
    f.add_spore(Spore::default());
    assert!(f.tick_fits());
    f.add_spore(Spore::default());
    assert!(!f.tick_fits());
}

#[test]
fn select_move_applies_the_draws() {
    let moves = vec![
        Move { position: (0, 0), direction: Direction::N, pheromone: 0 },
        Move { position: (1, 0), direction: Direction::E, pheromone: 4 },
        Move { position: (2, 0), direction: Direction::S, pheromone: 6 },
    ];
    // the weighted draw indexes the scented candidates only
    assert_eq!(select_move(&moves, Some(0), 0).position, (1, 0));
    assert_eq!(select_move(&moves, Some(1), 0).position, (2, 0));
    // no weighted draw, or an index past the scented ones: the uniform draw decides
    assert_eq!(select_move(&moves, None, 0).position, (0, 0));
    assert_eq!(select_move(&moves, None, 2).position, (2, 0));
    assert_eq!(select_move(&moves, Some(2), 1).position, (1, 0));
}

#[test]
fn scent_weights_are_the_scented_values_in_order() {
    let moves = vec![
        Move { position: (0, 0), direction: Direction::N, pheromone: 7 },
        Move { position: (1, 0), direction: Direction::E, pheromone: 0 },
        Move { position: (2, 0), direction: Direction::S, pheromone: u64::MAX },
    ];
    assert_eq!(scent_weights_of(&moves), vec![7u128, u64::MAX as u128]);
    let none = vec![Move { position: (0, 0), direction: Direction::N, pheromone: 0 }];
    assert!(scent_weights_of(&none).is_empty());
}

#[test]
fn huge_scents_are_still_drawn_by_weight() {
    // on a one-cell torus all three candidates are the same cell
    let moves = vec![
        Move { position: (0, 0), direction: Direction::N, pheromone: u64::MAX },
        Move { position: (0, 0), direction: Direction::NW, pheromone: u64::MAX },
        Move { position: (0, 0), direction: Direction::NE, pheromone: 0 },
    ];
    for seed in 0..50 {
        let mut rng = StdRng::seed_from_u64(seed);
        let c = choose_move(&moves, &mut rng);
        assert_eq!(c.pheromone, u64::MAX);
        assert_ne!(c.direction, Direction::NE);
    }
}

#[test]
fn construction_succeeds_on_valid_input() {
    assert!(World::new(1, 1).is_ok());
    let f = Fungus::new(4, 4).unwrap();
    assert_eq!(f.world().total(), 0);
    assert!(f.spores().is_empty());
    let ok = Config { deposit: 0, diffuse: Ratio { num: 0, den: 7 }, spread: true };
    assert_eq!(f.with_config(ok).unwrap().config(), ok);
}
