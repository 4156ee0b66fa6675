//! The particles together with the table that indexes them.

use vstd::prelude::*;
use crate::cell::{block_fits, bucket_of};
use crate::grid::{scan_from, ParticleGrid, ParticleGridNeighbours};
use crate::laws::lemma_met_once;
use crate::particle::{cells_of, ParticleKinematics};
use crate::placement::{
    latest_in_bucket, lemma_descending_chains_terminate, lemma_placed_descends, lemma_placed_walk,
    placed, walk_of,
};

verus! {

/// A fixed number of particles and a table with one bucket for each of them,
/// which indexes the particles by the cells that they are in at all times.
pub struct ParticleSystem {
    kinematics: Vec<ParticleKinematics>,
    grid: ParticleGrid,
}

impl ParticleSystem {
    /// The particles, in index order.
    pub closed spec fn particles(&self) -> Seq<ParticleKinematics> {
        self.kinematics@
    }

    /// The heads of the buckets.
    pub closed spec fn buckets(&self) -> Seq<Option<usize>> {
        self.grid@
    }

    /// Whether the table indexes the particles by the cells that they are in:
    /// it is what emptying it and adding the particles in index order gives.
    pub open spec fn is_current(&self) -> bool {
        placed(self.buckets(), self.particles())
    }

    /// Whether the table has one bucket for each particle and indexes the
    /// particles by the cells that they are in. Every chain is then finite
    /// and without a cycle: every link points to a particle of smaller index.
    pub open spec fn wf(&self) -> bool {
        &&& self.buckets().len() == self.particles().len()
        &&& self.particles().len() <= usize::MAX
        &&& self.is_current()
    }

    /// The particles that a walk around `center` meets, in order: the chains
    /// of the buckets of the nine cells around `center`, each bucket once.
    /// Those that are in none of the nine cells are dropped untested.
    pub open spec fn candidates(&self, center: [i32; 2]) -> Seq<usize> {
        scan_from(self.buckets(), self.particles(), center, 0)
    }

    /// A system of `count` particles, all in the cell of the origin, with the
    /// table built from that placement.
    pub fn new(count: usize) -> (system: Self)
        ensures
            system.wf(),
            system.particles().len() == count,
            forall|i: int| 0 <= i < count ==> (#[trigger] system.particles()[i]).is_at_origin(),
            count > 0 ==> forall|center: [i32; 2]|
                #[trigger] system.candidates(center) == walk_of(
                    cells_of(system.particles()),
                    count as int,
                    center,
                    0,
                ),
            count > 0 ==> forall|center: [i32; 2]|
                (#[trigger] system.candidates(center)).no_duplicates(),
    {
        let mut kinematics: Vec<ParticleKinematics> = Vec::new();
        let mut made: usize = 0;
        while made < count
            invariant
                made <= count,
                kinematics@.len() == made,
                forall|i: int| 0 <= i < made ==> (#[trigger] kinematics@[i]).is_at_origin(),
            decreases count - made,
        {
            kinematics.push(ParticleKinematics::default());
            made += 1;
        }
        let mut system = ParticleSystem { kinematics, grid: ParticleGrid::new(count) };
        system.rebuild();
        system
    }

    /// The number of particles.
    pub fn len(&self) -> (count: usize)
        ensures
            count == self.particles().len(),
    {
        self.kinematics.len()
    }

    /// Moves particle `i` to `cells[i]`, for every particle, and rebuilds the
    /// table from the new cells: the table is emptied, then the particles are
    /// added in index order. A walk then meets every particle of the block
    /// around its center, and no particle twice.
    pub fn advance(&mut self, cells: &[[i32; 2]])
        requires
            old(self).wf(),
            cells@.len() == old(self).particles().len(),
        ensures
            final(self).wf(),
            final(self).particles().len() == cells@.len(),
            forall|i: int|
                0 <= i < cells@.len() ==> (#[trigger] final(self).particles()[i]).cell == cells@[i],
            cells_of(final(self).particles()) == cells@,
            cells@.len() > 0 ==> forall|center: [i32; 2]|
                #[trigger] final(self).candidates(center) == walk_of(
                    cells@,
                    cells@.len() as int,
                    center,
                    0,
                ),
            cells@.len() > 0 ==> forall|center: [i32; 2]|
                (#[trigger] final(self).candidates(center)).no_duplicates(),
    {
        self.grid.clear();
        let count = self.kinematics.len();
        let mut i: usize = 0;
        while i < count
            invariant
                i <= count,
                count == self.kinematics@.len(),
                count == cells@.len(),
                count == self.grid@.len(),
                forall|j: int| 0 <= j < i ==> (#[trigger] self.kinematics@[j]).cell == cells@[j],
                forall|b: int|
                    0 <= b < count ==> #[trigger] self.grid@[b] == latest_in_bucket(
                        cells@,
                        count as int,
                        b,
                        i as int,
                    ),
                forall|j: int|
                    0 <= j < i ==> (#[trigger] self.kinematics@[j]).next == latest_in_bucket(
                        cells@,
                        count as int,
                        bucket_of(cells@[j], count as int),
                        j,
                    ),
            decreases count - i,
        {
            let mut k = self.kinematics[i];
            k.cell = cells[i];
            self.grid.add(&mut k, i);
            self.kinematics.set(i, k);
            i += 1;
        }
        proof {
            assert(cells_of(self.kinematics@) =~= cells@);
            lemma_placed_descends(self.grid@, self.kinematics@);
            if count > 0 {
                assert forall|center: [i32; 2]| #[trigger]
                    self.candidates(center) == walk_of(cells@, count as int, center, 0)
                    && self.candidates(center).no_duplicates() by {
                    lemma_placed_walk(self.grid@, self.kinematics@, center, 0);
                    lemma_met_once(self.grid@, self.kinematics@, center, 0);
                }
            }
        }
    }

    /// Starts a walk over the neighbours of `center`: the particles in the
    /// nine cells around `center` that pass the test `near`, each once.
    pub fn iter_neighbours<F: Fn(usize) -> bool>(&self, center: [i32; 2], near: F) -> (walk:
        ParticleGridNeighbours<'_, F>)
        requires
            self.wf(),
            self.particles().len() > 0,
            block_fits(center),
            forall|i: usize| i < self.particles().len() ==> call_requires(near, (i,)),
        ensures
            walk.wf(),
            walk.test() == near,
            walk.center() == center,
            walk.particles() == self.particles(),
            walk.remaining() == self.candidates(center),
    {
        proof {
            lemma_placed_descends(self.grid@, self.kinematics@);
            lemma_descending_chains_terminate(self.grid@, self.kinematics@);
        }
        self.grid.iter_neighbours(self.kinematics.as_slice(), center, near)
    }

    /// Moves every particle to the cell that `transform` gives for its index
    /// and its cell, then rebuilds the table from the new cells, as
    /// [`ParticleSystem::advance`] does: the walks that follow meet the
    /// particles where the transform has put them.
    pub fn constrain<F: Fn(usize, [i32; 2]) -> [i32; 2]>(&mut self, transform: F)
        requires
            old(self).wf(),
            forall|i: int|
                0 <= i < old(self).particles().len() ==> call_requires(
                    transform,
                    (i as usize, #[trigger] old(self).particles()[i].cell),
                ),
        ensures
            final(self).wf(),
            final(self).particles().len() == old(self).particles().len(),
            forall|i: int|
                0 <= i < old(self).particles().len() ==> call_ensures(
                    transform,
                    (i as usize, old(self).particles()[i].cell),
                    #[trigger] final(self).particles()[i].cell,
                ),
            final(self).particles().len() > 0 ==> forall|center: [i32; 2]|
                #[trigger] final(self).candidates(center) == walk_of(
                    cells_of(final(self).particles()),
                    final(self).particles().len() as int,
                    center,
                    0,
                ),
            final(self).particles().len() > 0 ==> forall|center: [i32; 2]|
                (#[trigger] final(self).candidates(center)).no_duplicates(),
    {
        let count = self.kinematics.len();
        let mut i: usize = 0;
        while i < count
            invariant
                i <= count,
                count == self.kinematics@.len(),
                count == old(self).kinematics@.len(),
                count == self.grid@.len(),
                forall|j: int|
                    i <= j < count ==> (#[trigger] self.kinematics@[j]).cell == old(
                        self,
                    ).kinematics@[j].cell,
                forall|j: int|
                    0 <= j < i ==> call_ensures(
                        transform,
                        (j as usize, old(self).kinematics@[j].cell),
                        #[trigger] self.kinematics@[j].cell,
                    ),
                forall|j: int|
                    0 <= j < count ==> call_requires(
                        transform,
                        (j as usize, #[trigger] old(self).kinematics@[j].cell),
                    ),
            decreases count - i,
        {
            let mut k = self.kinematics[i];
            k.cell = transform(i, k.cell);
            self.kinematics.set(i, k);
            i += 1;
        }
        self.rebuild();
    }

    /// Empties the table, then adds the particles in index order, each under
    /// the cell that it is in.
    fn rebuild(&mut self)
        requires
            old(self).kinematics@.len() == old(self).grid@.len(),
        ensures
            final(self).wf(),
            final(self).particles().len() == old(self).particles().len(),
            forall|i: int|
                0 <= i < old(self).particles().len() ==> (#[trigger] final(self).particles()[i]).cell
                    == old(self).particles()[i].cell,
            final(self).particles().len() > 0 ==> forall|center: [i32; 2]|
                #[trigger] final(self).candidates(center) == walk_of(
                    cells_of(final(self).particles()),
                    final(self).particles().len() as int,
                    center,
                    0,
                ),
            final(self).particles().len() > 0 ==> forall|center: [i32; 2]|
                (#[trigger] final(self).candidates(center)).no_duplicates(),
    {
        let ghost cells = cells_of(self.kinematics@);
        self.grid.clear();
        let count = self.kinematics.len();
        let mut i: usize = 0;
        while i < count
            invariant
                i <= count,
                count == self.kinematics@.len(),
                count == old(self).kinematics@.len(),
                count == self.grid@.len(),
                cells == cells_of(old(self).kinematics@),
                forall|j: int|
                    0 <= j < count ==> (#[trigger] self.kinematics@[j]).cell == old(
                        self,
                    ).kinematics@[j].cell,
                forall|b: int|
                    0 <= b < count ==> #[trigger] self.grid@[b] == latest_in_bucket(
                        cells,
                        count as int,
                        b,
                        i as int,
                    ),
                forall|j: int|
                    0 <= j < i ==> (#[trigger] self.kinematics@[j]).next == latest_in_bucket(
                        cells,
                        count as int,
                        bucket_of(cells[j], count as int),
                        j,
                    ),
            decreases count - i,
        {
            let mut k = self.kinematics[i];
            self.grid.add(&mut k, i);
            self.kinematics.set(i, k);
            i += 1;
        }
        proof {
            assert(cells_of(self.kinematics@) =~= cells);
            lemma_placed_descends(self.grid@, self.kinematics@);
            if count > 0 {
                assert forall|center: [i32; 2]| #[trigger]
                    self.candidates(center) == walk_of(cells, count as int, center, 0)
                    && self.candidates(center).no_duplicates() by {
                    lemma_placed_walk(self.grid@, self.kinematics@, center, 0);
                    lemma_met_once(self.grid@, self.kinematics@, center, 0);
                }
            }
        }
    }

    /// The particles, in index order.
    pub fn iter(&self) -> (particles: &[ParticleKinematics])
        ensures
            particles@ == self.particles(),
    {
        self.kinematics.as_slice()
    }
}

} // verus!
