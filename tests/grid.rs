use particle_grid::{ParticleGrid, UpdateError};

fn occupied(bytes: &[u8]) -> usize {
    bytes.iter().filter(|b| **b != 0).count()
}

#[test]
fn full_grid_keeps_positions_after_step() {
    let mut g = ParticleGrid::with_seed(4, 2, 1_000_000, 1, Some(vec![1; 16]), 7);
    let before = g.export_grid();
    assert_eq!(before.len(), 16);
    assert!(before.iter().all(|b| *b == 1 || *b == 2));
    g.step();
    let after = g.export_grid();
    assert_eq!(after.len(), 16);
    assert!(after.iter().all(|b| *b == 1 || *b == 2));
}

#[test]
fn empty_grid_step_is_noop() {
    let mut g = ParticleGrid::with_seed(2, 1, 0, 1, None, 3);
    assert_eq!(g.export_grid(), vec![0u8; 4]);
    for _ in 0..10 {
        g.step();
    }
    assert_eq!(g.export_grid(), vec![0u8; 4]);
}

#[test]
fn steps_keep_particle_count() {
    let mut g = ParticleGrid::with_seed(20, 4, 400_000, 2, None, 11);
    let n0 = occupied(&g.export_grid());
    for _ in 0..25 {
        g.step();
        assert_eq!(occupied(&g.export_grid()), n0);
    }
}

#[test]
fn steps_keep_types_in_range() {
    let mut g = ParticleGrid::with_seed(12, 3, 600_000, 1, None, 5);
    for _ in 0..10 {
        g.step();
    }
    assert!(g.export_grid().iter().all(|b| *b <= 3));
}

#[test]
fn few_updates_means_no_change() {
    // 0.2 * 0.1 * 4 * 4 = 0.32, so no particle is sampled
    let mut g = ParticleGrid::with_seed(4, 3, 100_000, 1, None, 9);
    let before = g.export_grid();
    g.step();
    assert_eq!(g.export_grid(), before);
}

#[test]
fn export_has_size_squared_bytes() {
    let g = ParticleGrid::with_seed(7, 2, 500_000, 1, None, 1);
    assert_eq!(g.export_grid().len(), 49);
    let g = ParticleGrid::with_seed(0, 2, 500_000, 1, None, 1);
    assert_eq!(g.export_grid().len(), 0);
}

#[test]
fn entropy_seeded_grid_is_well_formed() {
    let mut g = ParticleGrid::new(6, 2, 1_000_000, 1, None);
    assert!(g.export_grid().iter().all(|b| *b == 1 || *b == 2));
    g.step();
    assert_eq!(occupied(&g.export_grid()), 36);
}

#[test]
fn zero_types_leaves_grid_empty() {
    let mut g = ParticleGrid::with_seed(3, 0, 1_000_000, 1, None, 2);
    assert_eq!(g.export_grid(), vec![0u8; 9]);
    g.step();
    assert_eq!(g.export_grid(), vec![0u8; 9]);
}

#[test]
fn getters_report_configuration() {
    let g = ParticleGrid::with_seed(5, 3, 250_000, 2, None, 4);
    assert_eq!(g.size(), 5);
    assert_eq!(g.num_types(), 3);
    assert_eq!(g.density(), 250_000);
    assert_eq!(g.radius(), 2);
}

#[test]
fn debug_info_text() {
    let g = ParticleGrid::with_seed(4, 2, 1_000_000, 1, None, 8);
    assert_eq!(
        g.debug_info(),
        "Grid 4x4, 2 types, density 1.00, radius 1, particles: 16"
    );
    let g = ParticleGrid::with_seed(3, 5, 0, 2, None, 8);
    assert_eq!(
        g.debug_info(),
        "Grid 3x3, 5 types, density 0.00, radius 2, particles: 0"
    );
    let g = ParticleGrid::with_seed(3, 5, 123_456, 2, Some(vec![1; 36]), 8);
    assert!(g.debug_info().starts_with("Grid 3x3, 5 types, density 0.12, radius 2, particles: "));
}

#[test]
fn short_affinity_update_is_refused() {
    let mut g = ParticleGrid::with_seed(4, 2, 500_000, 1, None, 6);
    assert_eq!(g.update_affinity(vec![1; 8]), Err(UpdateError::SizeMismatch));
    assert_eq!(g.update_affinity(vec![-1; 9]), Ok(()));
    assert_eq!(g.update_affinity(vec![300; 20]), Ok(()));
}

#[test]
fn short_rule_tables_are_refused() {
    let mut g = ParticleGrid::with_seed(4, 2, 500_000, 1, None, 6);
    assert_eq!(
        g.update_copy_replace(vec![0, 2], vec![0, 2, 1]),
        Err(UpdateError::SizeMismatch)
    );
    assert_eq!(
        g.update_copy_replace(vec![0, 2, 1], vec![0, 2]),
        Err(UpdateError::SizeMismatch)
    );
}

#[test]
fn out_of_range_rule_tables_are_refused() {
    let mut g = ParticleGrid::with_seed(4, 2, 500_000, 1, None, 6);
    assert_eq!(
        g.update_copy_replace(vec![0, 3, 1], vec![0, 2, 1]),
        Err(UpdateError::InvalidTypeId)
    );
    assert_eq!(
        g.update_copy_replace(vec![0, 2, 1], vec![0, 0, 1]),
        Err(UpdateError::InvalidTypeId)
    );
    assert_eq!(g.update_copy_replace(vec![0, 2, 1], vec![0, 2, 1]), Ok(()));
}

#[test]
fn replacement_spreads_copy_target() {
    // type 1 copies 2 and replaces 1: next to a 2, every 1 becomes 2
    let mut g = ParticleGrid::with_seed(3, 2, 1_000_000, 1, Some(vec![1; 9]), 12);
    assert_eq!(g.update_copy_replace(vec![0, 2, 2], vec![0, 1, 2]), Ok(()));
    let before = g.export_grid();
    let twos = before.iter().filter(|b| **b == 2).count();
    for _ in 0..5 {
        g.step();
    }
    let after = g.export_grid();
    assert!(after.iter().all(|b| *b != 0));
    if twos > 0 {
        assert!(after.iter().filter(|b| **b == 2).count() >= twos);
    } else {
        assert_eq!(after, before);
    }
}

#[test]
fn initial_cell_follows_draws() {
    assert_eq!(ParticleGrid::initial_cell(0, 0, 1, 3), 1);
    assert_eq!(ParticleGrid::initial_cell(499_999, 2, 500_000, 3), 3);
    assert_eq!(ParticleGrid::initial_cell(500_000, 2, 500_000, 3), 0);
    assert_eq!(ParticleGrid::initial_cell(0, 0, 0, 3), 0);
    assert_eq!(ParticleGrid::initial_cell(0, 0, 1_000_000, 0), 0);
    assert_eq!(ParticleGrid::initial_cell(999_999, 254, 1_000_000, 255), 255);
}
