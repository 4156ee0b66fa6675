use sph_fluid::particle::ParticleKinematics;
use sph_fluid::system::ParticleSystem;

fn walk(system: &ParticleSystem, center: [i32; 2]) -> Vec<usize> {
    let mut met = Vec::new();
    let mut it = system.iter_neighbours(center, |_| true);
    while let Some(i) = it.next() {
        met.push(i);
    }
    met
}

fn cells(system: &ParticleSystem) -> Vec<[i32; 2]> {
    system.iter().iter().map(|k| k.cell).collect()
}

fn links(system: &ParticleSystem) -> Vec<Option<usize>> {
    system.iter().iter().map(|k| k.next).collect()
}

#[test]
fn new_system_holds_its_particles_at_the_origin() {
    let system = ParticleSystem::new(4);
    assert_eq!(system.len(), 4);
    assert_eq!(cells(&system), vec![[0, 0]; 4]);
    assert_eq!(links(&system), vec![None, Some(0), Some(1), Some(2)]);
}

#[test]
fn new_system_is_indexed_from_the_start() {
    let system = ParticleSystem::new(4);
    assert_eq!(walk(&system, [0, 0]), vec![3, 2, 1, 0]);
    assert_eq!(walk(&system, [1, 1]), vec![3, 2, 1, 0]);
    assert_eq!(walk(&system, [7, -7]), Vec::<usize>::new());
    let mut placed = ParticleSystem::new(4);
    placed.advance(&[[0, 0]; 4]);
    assert_eq!(links(&system), links(&placed));
}

#[test]
fn empty_system_does_nothing() {
    let mut system = ParticleSystem::new(0);
    assert_eq!(system.len(), 0);
    system.advance(&[]);
    system.constrain(|_, cell| cell);
    assert_eq!(system.len(), 0);
    assert!(system.iter().is_empty());
}

#[test]
fn len_stays_through_steps() {
    let mut system = ParticleSystem::new(5);
    system.advance(&[[0, 0], [3, 1], [0, 0], [1, 1], [3, 1]]);
    assert_eq!(system.len(), 5);
    system.constrain(|_, cell| [cell[0] + 1, cell[1]]);
    assert_eq!(system.len(), 5);
    system.advance(&[[1, 0], [1, 0], [2, 2], [-4, 7], [0, 0]]);
    assert_eq!(system.len(), 5);
}

#[test]
fn advance_places_the_particles_in_index_order() {
    let mut system = ParticleSystem::new(5);
    let placed = [[0, 0], [3, 1], [0, 0], [1, 1], [3, 1]];
    system.advance(&placed);
    assert_eq!(cells(&system), placed.to_vec());
    assert_eq!(links(&system), vec![None, None, Some(0), Some(2), Some(1)]);
    assert_eq!(walk(&system, [0, 0]), vec![3, 2, 0]);
    assert_eq!(walk(&system, [3, 1]), vec![4, 1]);
    assert_eq!(walk(&system, [2, 1]), vec![4, 1, 3]);
}

#[test]
fn advance_forgets_the_former_cells() {
    let mut system = ParticleSystem::new(5);
    system.advance(&[[0, 0], [3, 1], [0, 0], [1, 1], [3, 1]]);
    let moved = [[1, 0], [1, 0], [2, 2], [-4, 7], [0, 0]];
    system.advance(&moved);
    assert_eq!(cells(&system), moved.to_vec());
    assert_eq!(links(&system), vec![None, Some(0), None, None, Some(2)]);
    assert_eq!(walk(&system, [0, 0]), vec![1, 0, 4]);
    assert_eq!(walk(&system, [3, 1]), vec![2]);
}

#[test]
fn constrain_moves_particles_and_rebuilds_the_table() {
    let mut system = ParticleSystem::new(5);
    system.advance(&[[0, 0], [3, 1], [0, 0], [1, 1], [3, 1]]);
    assert_eq!(links(&system), vec![None, None, Some(0), Some(2), Some(1)]);
    system.constrain(|i, cell| [cell[0] + i as i32, -cell[1]]);
    let moved = vec![[0, 0], [4, -1], [2, 0], [4, -1], [7, -1]];
    assert_eq!(cells(&system), moved);
    // Particles 1 and 3 share the cell (4, -1) now; no other two share a
    // bucket.
    assert_eq!(links(&system), vec![None, None, None, Some(1), None]);
    assert_eq!(walk(&system, [0, 0]), vec![0]);
    assert_eq!(walk(&system, [4, -1]), vec![3, 1]);
    assert_eq!(walk(&system, [3, 0]), vec![3, 1, 2]);
    // What the table holds is what placing the new cells gives.
    let mut placed = ParticleSystem::new(5);
    placed.advance(&moved);
    assert_eq!(links(&system), links(&placed));
    for center in moved {
        assert_eq!(walk(&system, center), walk(&placed, center));
    }
}

#[test]
fn constrain_brings_a_particle_into_the_walk_around_its_new_cell() {
    // With 64 buckets the block around the origin does not reach bucket 5,
    // that of cell (5, 0).
    let mut system = ParticleSystem::new(64);
    let mut placed = vec![[5, 0]];
    for i in 1..64 {
        placed.push([100 + i, 100]);
    }
    system.advance(&placed);
    let mut before = system.iter_neighbours([0, 0], |i| i == 0);
    assert_eq!(before.next(), None);
    system.constrain(|i, cell| if i == 0 { [1, 0] } else { cell });
    assert_eq!(system.iter()[0].cell, [1, 0]);
    let mut after = system.iter_neighbours([0, 0], |i| i == 0);
    assert_eq!(after.next(), Some(0));
    assert_eq!(after.next(), None);
    let mut left = system.iter_neighbours([5, 0], |i| i == 0);
    assert_eq!(left.next(), None);
}

#[test]
fn constrain_that_moves_nothing_keeps_the_walks() {
    let mut system = ParticleSystem::new(5);
    system.advance(&[[0, 0], [3, 1], [0, 0], [1, 1], [3, 1]]);
    let before_links = links(&system);
    let before_walk = walk(&system, [0, 0]);
    system.constrain(|_, cell| cell);
    assert_eq!(links(&system), before_links);
    assert_eq!(walk(&system, [0, 0]), before_walk);
}

#[test]
fn constrain_visits_every_particle_with_its_index() {
    let mut system = ParticleSystem::new(3);
    system.constrain(|i, _| [i as i32, 2 * i as i32]);
    assert_eq!(cells(&system), vec![[0, 0], [1, 2], [2, 4]]);
    // The table follows the transform.
    assert_eq!(walk(&system, [2, 3]), vec![1, 2]);
    assert_eq!(walk(&system, [0, 0]), vec![0]);
}

#[test]
fn constrain_clamps_cells_to_a_box() {
    let mut system = ParticleSystem::new(4);
    system.advance(&[[26, 0], [-30, 3], [5, 25], [0, -26]]);
    system.constrain(|_, cell| [cell[0].clamp(-25, 25), cell[1].clamp(-25, 25)]);
    assert_eq!(cells(&system), vec![[25, 0], [-25, 3], [5, 25], [0, -25]]);
}

#[test]
fn advance_after_constrain_places_by_the_cells_given() {
    let mut system = ParticleSystem::new(2);
    system.advance(&[[0, 0], [9, 9]]);
    system.constrain(|_, _| [50, 50]);
    system.advance(&[[0, 0], [1, 1]]);
    assert_eq!(cells(&system), vec![[0, 0], [1, 1]]);
    assert_eq!(walk(&system, [0, 0]), vec![1, 0]);
}

#[test]
fn single_particle_meets_only_itself() {
    let mut system = ParticleSystem::new(1);
    system.advance(&[[12, -7]]);
    assert_eq!(walk(&system, [12, -7]), vec![0]);
    let mut others = system.iter_neighbours([12, -7], |i| i != 0);
    assert_eq!(others.next(), None);
}

#[test]
fn two_particles_in_one_cell_meet_each_other() {
    // Positions (0, 0) and (0.02, 0) with a cell edge of 0.04 share the cell
    // of the origin.
    let mut system = ParticleSystem::new(2);
    system.advance(&[[0, 0], [0, 0]]);
    assert_eq!(links(&system), vec![None, Some(0)]);
    // Five cells of the block map to the bucket of the origin in a table of
    // two buckets: its chain is followed once.
    assert_eq!(walk(&system, [0, 0]), vec![1, 0]);
    let mut only_other = system.iter_neighbours([0, 0], |i| i == 1);
    assert_eq!(only_other.next(), Some(1));
    assert_eq!(only_other.next(), None);
}

#[test]
fn iter_is_stable_and_can_be_repeated() {
    let mut system = ParticleSystem::new(3);
    system.advance(&[[1, 1], [2, 2], [1, 1]]);
    let first: Vec<ParticleKinematics> = system.iter().to_vec();
    let second: Vec<ParticleKinematics> = system.iter().to_vec();
    assert_eq!(first.len(), 3);
    for (a, b) in first.iter().zip(second.iter()) {
        assert_eq!(a.cell, b.cell);
        assert_eq!(a.next, b.next);
    }
    // In a table of three buckets the cells (1, 1) and (2, 2) share bucket 0.
    assert_eq!(first[2].cell, [1, 1]);
    assert_eq!(first[2].next, Some(1));
    assert_eq!(first[1].next, Some(0));
    assert_eq!(first[0].next, None);
}

#[test]
fn same_cells_give_the_same_state() {
    let steps: [[[i32; 2]; 4]; 3] = [
        [[0, 0], [1, 0], [0, 1], [5, 5]],
        [[0, 0], [0, 0], [0, 0], [0, 0]],
        [[-3, 2], [4, 4], [-3, 2], [4, 5]],
    ];
    let mut a = ParticleSystem::new(4);
    let mut b = ParticleSystem::new(4);
    b.advance(&[[9, 9], [8, 8], [7, 7], [6, 6]]);
    for step in steps {
        a.advance(&step);
        b.advance(&step);
        assert_eq!(cells(&a), cells(&b));
        assert_eq!(links(&a), links(&b));
        for center in step {
            assert_eq!(walk(&a, center), walk(&b, center));
        }
    }
}
