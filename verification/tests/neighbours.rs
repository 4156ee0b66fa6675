use std::cell::RefCell;

use sph_fluid::grid::ParticleGrid;
use sph_fluid::particle::ParticleKinematics;
use sph_fluid::system::ParticleSystem;

const H: f32 = 0.04;

fn cell_of(p: [f32; 2]) -> [i32; 2] {
    [(p[0] / H).floor() as i32, (p[1] / H).floor() as i32]
}

fn square_distance(a: [f32; 2], b: [f32; 2]) -> f32 {
    let d = [a[0] - b[0], a[1] - b[1]];
    d[0] * d[0] + d[1] * d[1]
}

fn within_reach(a: [f32; 2], b: [f32; 2]) -> bool {
    let r2 = square_distance(a, b);
    r2 < H * H && r2 > 1e-12
}

fn place(count: usize, positions: &[[f32; 2]]) -> (ParticleGrid, Vec<ParticleKinematics>) {
    let mut grid = ParticleGrid::new(count);
    let mut ks: Vec<ParticleKinematics> = positions
        .iter()
        .map(|&p| ParticleKinematics { cell: cell_of(p), next: None })
        .collect();
    for i in 0..ks.len() {
        grid.add(&mut ks[i], i);
    }
    (grid, ks)
}

fn neighbours(
    grid: &ParticleGrid,
    ks: &[ParticleKinematics],
    positions: &[[f32; 2]],
    from: [f32; 2],
) -> Vec<usize> {
    let mut met = Vec::new();
    let mut it = grid.iter_neighbours(ks, cell_of(from), |i| within_reach(positions[i], from));
    while let Some(i) = it.next() {
        met.push(i);
    }
    met
}

fn system_neighbours(system: &ParticleSystem, positions: &[[f32; 2]], from: [f32; 2]) -> Vec<usize> {
    let mut met = Vec::new();
    let mut it = system.iter_neighbours(cell_of(from), |i| within_reach(positions[i], from));
    while let Some(i) = it.next() {
        met.push(i);
    }
    met
}

fn system_at(positions: &[[f32; 2]]) -> ParticleSystem {
    let mut system = ParticleSystem::new(positions.len());
    let cells: Vec<[i32; 2]> = positions.iter().map(|&p| cell_of(p)).collect();
    system.advance(&cells);
    system
}

/// Positions spread over the box by a fixed linear recurrence.
fn spread(count: usize) -> Vec<[f32; 2]> {
    let mut state: u32 = 12345;
    let mut step = || {
        state = state.wrapping_mul(1664525).wrapping_add(1013904223);
        (state >> 8) as f32 / (1u32 << 24) as f32
    };
    (0..count).map(|_| [step() * 0.5 - 0.25, step() * 0.5 - 0.25]).collect()
}

#[test]
fn lone_particle_has_no_neighbour() {
    for position in [[0.0f32, 0.0], [0.37, -0.81], [-1.0, 1.0]] {
        let system = system_at(&[position]);
        assert_eq!(system_neighbours(&system, &[position], position), Vec::<usize>::new());
    }
}

#[test]
fn lone_particle_has_no_neighbour_in_a_large_table() {
    let positions = [[0.013f32, 0.027]];
    let (grid, ks) = place(300, &positions);
    assert_eq!(neighbours(&grid, &ks, &positions, positions[0]), Vec::<usize>::new());
}

#[test]
fn two_close_particles_are_neighbours_of_each_other() {
    let positions = [[0.0f32, 0.0], [0.02, 0.0]];
    let (grid, ks) = place(300, &positions);
    assert_eq!(neighbours(&grid, &ks, &positions, positions[0]), vec![1]);
    assert_eq!(neighbours(&grid, &ks, &positions, positions[1]), vec![0]);
}

#[test]
fn two_buckets_yield_the_neighbour_once() {
    // In a table of two buckets, five of the nine cells around the origin map
    // to the bucket of the origin.
    let positions = [[0.0f32, 0.0], [0.02, 0.0]];
    let system = system_at(&positions);
    assert_eq!(system_neighbours(&system, &positions, positions[0]), vec![1]);
    assert_eq!(system_neighbours(&system, &positions, positions[1]), vec![0]);
    let (grid, ks) = place(2, &positions);
    assert_eq!(neighbours(&grid, &ks, &positions, positions[0]), vec![1]);
    assert_eq!(neighbours(&grid, &ks, &positions, positions[1]), vec![0]);
}

#[test]
fn the_neighbour_comes_once_whatever_the_table_size() {
    let positions = [[0.0f32, 0.0], [0.02, 0.0]];
    for count in 1..=64usize {
        let (grid, ks) = place(count, &positions);
        assert_eq!(neighbours(&grid, &ks, &positions, positions[0]), vec![1]);
        assert_eq!(neighbours(&grid, &ks, &positions, positions[1]), vec![0]);
    }
}

#[test]
fn particles_at_one_place_are_not_neighbours() {
    let positions = [[0.5f32, 0.5], [0.5, 0.5], [0.51, 0.5]];
    let (grid, ks) = place(300, &positions);
    assert_eq!(neighbours(&grid, &ks, &positions, positions[0]), vec![2]);
    assert_eq!(neighbours(&grid, &ks, &positions, positions[1]), vec![2]);
    assert_eq!(neighbours(&grid, &ks, &positions, positions[2]), vec![1, 0]);
}

#[test]
fn particles_across_a_cell_border_are_neighbours() {
    let positions = [[0.039f32, 0.001], [0.041, -0.001]];
    assert_eq!(cell_of(positions[0]), [0, 0]);
    assert_eq!(cell_of(positions[1]), [1, -1]);
    let (grid, ks) = place(300, &positions);
    assert_eq!(neighbours(&grid, &ks, &positions, positions[0]), vec![1]);
    assert_eq!(neighbours(&grid, &ks, &positions, positions[1]), vec![0]);
}

#[test]
fn particle_at_the_smoothing_radius_is_no_neighbour() {
    let positions = [[0.0f32, 0.0], [0.04, 0.0], [0.0399, 0.0]];
    let (grid, ks) = place(300, &positions);
    assert_eq!(neighbours(&grid, &ks, &positions, positions[0]), vec![2]);
}

#[test]
fn neighbours_do_not_depend_on_the_table_size() {
    let positions = spread(120);
    let mut expected: Vec<Vec<usize>> = Vec::new();
    for &from in &positions {
        expected.push(
            (0..positions.len()).filter(|&i| within_reach(positions[i], from)).collect(),
        );
    }
    assert!(expected.iter().any(|found| found.len() > 1));
    for count in [1usize, 2, 3, 17, 120, 300, 4096] {
        let (grid, ks) = place(count, &positions);
        for (at, &from) in positions.iter().enumerate() {
            // The order follows the buckets; each neighbour comes once.
            let mut met = neighbours(&grid, &ks, &positions, from);
            met.sort();
            assert_eq!(met, expected[at]);
        }
    }
}

#[test]
fn every_table_yields_each_neighbour_once() {
    let positions = spread(120);
    for count in [1usize, 2, 5, 120, 300] {
        let (grid, ks) = place(count, &positions);
        for &from in &positions {
            let mut met = neighbours(&grid, &ks, &positions, from);
            let total = met.len();
            met.sort();
            met.dedup();
            assert_eq!(met.len(), total);
        }
    }
}

#[test]
fn wall_transform_reflects_a_particle_through_constrain() {
    let positions = RefCell::new(vec![[1.05f32, 0.0], [0.3, -1.2], [0.0, 0.0]]);
    let velocities = RefCell::new(vec![[2.0f32, 0.0], [0.5, -3.0], [1.0, 1.0]]);
    let mut system = system_at(&positions.borrow());
    assert_eq!(system.iter()[0].cell, [26, 0]);
    system.constrain(|i, _| {
        let p = &mut positions.borrow_mut()[i];
        let v = &mut velocities.borrow_mut()[i];
        for axis in 0..2 {
            if p[axis] <= -1.0 {
                p[axis] = -1.0;
                v[axis] = -0.5 * v[axis];
            } else if p[axis] >= 1.0 {
                p[axis] = 1.0;
                v[axis] = -0.5 * v[axis];
            }
        }
        cell_of(*p)
    });
    assert_eq!(positions.borrow()[0], [1.0, 0.0]);
    assert_eq!(velocities.borrow()[0], [-1.0, 0.0]);
    assert_eq!(positions.borrow()[1], [0.3, -1.0]);
    assert_eq!(velocities.borrow()[1], [0.5, 1.5]);
    assert_eq!(positions.borrow()[2], [0.0, 0.0]);
    assert_eq!(velocities.borrow()[2], [1.0, 1.0]);
    let cells: Vec<[i32; 2]> = system.iter().iter().map(|k| k.cell).collect();
    assert_eq!(cells, vec![[25, 0], [7, -25], [0, 0]]);
    // The table follows: a walk around the wall meets the particle there.
    let mut at_the_wall = system.iter_neighbours([25, 1], |i| i == 0);
    assert_eq!(at_the_wall.next(), Some(0));
    assert_eq!(at_the_wall.next(), None);
}

#[test]
fn same_placement_gives_the_same_neighbours() {
    let positions = spread(60);
    let a = system_at(&positions);
    let mut b = ParticleSystem::new(positions.len());
    b.advance(&vec![[3, 3]; positions.len()]);
    let cells: Vec<[i32; 2]> = positions.iter().map(|&p| cell_of(p)).collect();
    b.advance(&cells);
    for &from in &positions {
        assert_eq!(
            system_neighbours(&a, &positions, from),
            system_neighbours(&b, &positions, from)
        );
    }
}
