use fungus::world::{intensity_level, neighbours, wrap_add, ConfigError, Ratio, World};

fn filled(width: usize, height: usize, values: &[u64]) -> World {
    let mut w = World::new(width, height).unwrap();
    for y in 0..height {
        for x in 0..width {
            w.deposit_pheromone(&(x, y), values[x + y * width]);
        }
    }
    w
}

fn cells(w: &World) -> Vec<u64> {
    let mut r = Vec::new();
    for y in 0..w.height() {
        for x in 0..w.width() {
            r.push(w.get_pheromone(&(x, y)));
        }
    }
    r
}

#[test]
fn new_world_is_zero() {
    let w = World::new(4, 3).unwrap();
    assert_eq!(w.width(), 4);
    assert_eq!(w.height(), 3);
    assert_eq!(w.total(), 0);
    assert!(cells(&w).iter().all(|&v| v == 0));
}

#[test]
fn new_world_rejects_empty_and_oversized_grids() {
    assert_eq!(World::new(0, 3).err(), Some(ConfigError::EmptyGrid));
    assert_eq!(World::new(3, 0).err(), Some(ConfigError::EmptyGrid));
    assert_eq!(World::new(usize::MAX, 2).err(), Some(ConfigError::GridTooLarge));
}

#[test]
fn sampling_wraps_toroidally() {
    let mut w = World::new(5, 4).unwrap();
    w.deposit_pheromone(&(2, 1), 7);
    for k in 0..4usize {
        assert_eq!(w.get_pheromone(&(2 + k * 5, 1)), 7);
        assert_eq!(w.get_pheromone(&(2, 1 + k * 4)), 7);
    }
    assert_eq!(w.get_pheromone(&(3, 1)), 0);
}

#[test]
fn depositing_wraps_toroidally() {
    let mut w = World::new(3, 3).unwrap();
    w.deposit_pheromone(&(4, 7), 9);
    assert_eq!(w.get_pheromone(&(1, 1)), 9);
}

#[test]
fn depositing_twice_accumulates() {
    let mut w = World::new(3, 2).unwrap();
    w.deposit_pheromone(&(1, 1), 6);
    w.deposit_pheromone(&(1, 1), 6);
    let c = cells(&w);
    assert_eq!(c, vec![0, 0, 0, 0, 12, 0]);
    assert_eq!(w.total(), 12);
}

#[test]
fn decay_scales_every_cell_down() {
    let mut w = filled(3, 2, &[10, 3, 0, 7, 100, 1]);
    let before = w.total();
    w.diffuse_pheromone(Ratio { num: 1, den: 4 });
    assert_eq!(cells(&w), vec![2, 0, 0, 1, 25, 0]);
    assert!(w.total() * 4 <= before);
}

#[test]
fn decay_with_full_retention_keeps_the_field() {
    let mut w = filled(2, 2, &[5, 6, 7, 8]);
    w.diffuse_pheromone(Ratio { num: 1, den: 1 });
    assert_eq!(cells(&w), vec![5, 6, 7, 8]);
}

#[test]
fn decay_with_zero_retention_clears_the_field() {
    let mut w = filled(2, 2, &[5, 6, 7, 8]);
    w.diffuse_pheromone(Ratio { num: 0, den: 3 });
    assert_eq!(w.total(), 0);
}

#[test]
fn spreading_a_single_cell() {
    // 8 units of 1/1000, at rate 0.5: 4 stay, 0.5 goes to each neighbour
    let mut w = World::new(5, 5).unwrap();
    w.deposit_pheromone(&(2, 2), 8000);
    w.diffuse_and_spread(Ratio { num: 1, den: 2 });
    assert_eq!(w.get_pheromone(&(2, 2)), 4000);
    for (dx, dy) in neighbours() {
        let p = ((2 + dx) as usize, (2 + dy) as usize);
        assert_eq!(w.get_pheromone(&p), 500);
    }
    assert_eq!(w.get_pheromone(&(0, 0)), 0);
    assert_eq!(w.get_pheromone(&(4, 2)), 0);
    assert_eq!(w.total(), 8000);
}

#[test]
fn spreading_wraps_around_the_corner() {
    let mut w = World::new(4, 4).unwrap();
    w.deposit_pheromone(&(0, 0), 16);
    w.diffuse_and_spread(Ratio { num: 1, den: 2 });
    assert_eq!(w.get_pheromone(&(0, 0)), 8);
    assert_eq!(w.get_pheromone(&(3, 3)), 1);
    assert_eq!(w.get_pheromone(&(3, 0)), 1);
    assert_eq!(w.get_pheromone(&(0, 3)), 1);
    assert_eq!(w.get_pheromone(&(1, 1)), 1);
    assert_eq!(w.get_pheromone(&(2, 2)), 0);
    assert_eq!(w.total(), 16);
}

#[test]
fn spreading_keeps_the_rounding_remainder() {
    let mut w = World::new(3, 3).unwrap();
    w.deposit_pheromone(&(1, 1), 7);
    w.diffuse_and_spread(Ratio { num: 0, den: 1 });
    // 7 / 8 rounds down to no share at all, so the cell keeps everything
    assert_eq!(w.get_pheromone(&(1, 1)), 7);
    assert_eq!(w.total(), 7);
}

#[test]
fn spreading_conserves_mass() {
    let values: Vec<u64> = (0..30).map(|i| (i * 37 + 11) % 101).collect();
    let mut w = filled(6, 5, &values);
    let before = w.total();
    for (num, den) in [(0u64, 1u64), (1, 3), (3, 4), (1, 1)] {
        w.diffuse_and_spread(Ratio { num, den });
        assert_eq!(w.total(), before);
    }
}

#[test]
fn spreading_on_a_one_cell_torus() {
    let mut w = World::new(1, 1).unwrap();
    w.deposit_pheromone(&(0, 0), 800);
    w.diffuse_and_spread(Ratio { num: 1, den: 4 });
    assert_eq!(w.get_pheromone(&(0, 0)), 800);
}

#[test]
fn full_retention_spreading_changes_nothing() {
    let mut w = filled(3, 3, &[1, 2, 3, 4, 5, 6, 7, 8, 9]);
    w.diffuse_and_spread(Ratio { num: 5, den: 5 });
    assert_eq!(cells(&w), vec![1, 2, 3, 4, 5, 6, 7, 8, 9]);
}

#[test]
fn max_and_levels() {
    let w = filled(2, 2, &[0, 10, 5, 3]);
    assert_eq!(w.max(), 10);
    assert_eq!(w.levels(), vec![0, 255, 128, 77]);
    let empty = World::new(2, 1).unwrap();
    assert_eq!(empty.levels(), vec![0, 0]);
}

#[test]
fn intensity_level_rounds_to_nearest() {
    assert_eq!(intensity_level(0, 0), 0);
    assert_eq!(intensity_level(10, 10), 255);
    assert_eq!(intensity_level(5, 10), 128);
    assert_eq!(intensity_level(1, 3), 85);
    assert_eq!(intensity_level(1, 510), 1);
    assert_eq!(intensity_level(0, 7), 0);
}

#[test]
fn neighbour_offsets_in_order() {
    assert_eq!(
        neighbours(),
        vec![(-1, -1), (-1, 0), (-1, 1), (0, -1), (0, 1), (1, -1), (1, 0), (1, 1)]
    );
}

#[test]
fn wrap_add_steps_around_the_edges() {
    assert_eq!(wrap_add(0, -1, 5), 4);
    assert_eq!(wrap_add(4, 1, 5), 0);
    assert_eq!(wrap_add(2, 1, 5), 3);
    assert_eq!(wrap_add(12, 0, 5), 2);
    assert_eq!(wrap_add(0, 1, 1), 0);
}

#[test]
fn ratio_validity() {
    assert!(Ratio { num: 0, den: 1 }.is_valid());
    assert!(Ratio { num: 3, den: 3 }.is_valid());
    assert!(!Ratio { num: 4, den: 3 }.is_valid());
    assert!(!Ratio { num: 0, den: 0 }.is_valid());
}
