//! The bucket table and the walk over the neighbours of a cell.

use vstd::prelude::*;
use crate::cell::{
    block_column, block_fits, block_row, bucket_of, cell_at, cell_in_block, in_block,
    spec_cell_hash, word_modulus,
};
use crate::particle::{
    chain_of, lemma_chain_of_none, lemma_chain_of_some, terminates, ParticleKinematics,
};

verus! {

/// The chains of the buckets that the block around `center` maps to, each
/// bucket once, one after the other in scan order, from the `k`-th cell of
/// the block on.
pub open spec fn scan_from(
    heads: Seq<Option<usize>>,
    ks: Seq<ParticleKinematics>,
    center: [i32; 2],
    k: int,
) -> Seq<usize>
    decreases 9 - k,
{
    if 0 <= k < 9 {
        block_chain(heads, ks, center, k) + scan_from(heads, ks, center, k + 1)
    } else {
        Seq::empty()
    }
}

/// The bucket of the `k`-th cell of the block around `center`.
pub open spec fn block_bucket(center: [i32; 2], k: int, buckets: int) -> int {
    spec_cell_hash(block_column(center[0] as int, k), block_row(center[1] as int, k), buckets)
}

/// Whether the `k`-th cell of the block around `center` is the first cell of
/// the block, in scan order, that maps to its bucket.
pub open spec fn first_of_bucket(center: [i32; 2], k: int, buckets: int) -> bool {
    forall|j: int|
        0 <= j < k ==> #[trigger] block_bucket(center, j, buckets) != block_bucket(
            center,
            k,
            buckets,
        )
}

/// What a walk around `center` follows at the `k`-th cell of the block: the
/// chain of the bucket of the cell, unless an earlier cell of the block maps
/// to the same bucket, whose chain the walk has followed then.
pub open spec fn block_chain(
    heads: Seq<Option<usize>>,
    ks: Seq<ParticleKinematics>,
    center: [i32; 2],
    k: int,
) -> Seq<usize> {
    if first_of_bucket(center, k, heads.len() as int) {
        chain_of(ks, heads[block_bucket(center, k, heads.len() as int)])
    } else {
        Seq::empty()
    }
}

/// Whether `i` is a particle in one of the nine cells around `center`: what
/// a walk around `center` asks of a candidate before it tests it.
pub open spec fn is_of_block(ks: Seq<ParticleKinematics>, center: [i32; 2], i: usize) -> bool {
    i < ks.len() && in_block(ks[i as int].cell, center)
}

/// [`is_of_block`] as a test on the particles.
pub open spec fn of_block(ks: Seq<ParticleKinematics>, center: [i32; 2]) -> spec_fn(usize) -> bool {
    |i: usize| is_of_block(ks, center, i)
}

/// Whether every bucket of `heads` starts a finite chain without a cycle.
pub open spec fn chains_terminate(heads: Seq<Option<usize>>, ks: Seq<ParticleKinematics>) -> bool {
    forall|b: int| 0 <= b < heads.len() ==> terminates(ks, #[trigger] heads[b])
}

/// A table of buckets. Each bucket is empty or holds the index of the particle
/// that was added to it last; the particles added before are reached through
/// the links of the particles.
pub struct ParticleGrid {
    buckets: Vec<Option<usize>>,
}

impl View for ParticleGrid {
    type V = Seq<Option<usize>>;

    /// The heads of the buckets.
    closed spec fn view(&self) -> Seq<Option<usize>> {
        self.buckets@
    }
}

impl ParticleGrid {
    /// Whether every chain of the table, through the links of `ks`, is finite
    /// and without a cycle.
    pub open spec fn wf(&self, ks: Seq<ParticleKinematics>) -> bool {
        chains_terminate(self@, ks)
    }

    /// The particles that a walk around `center` meets, in the order in which
    /// it meets them: the chains of the buckets of the nine cells, each bucket
    /// once, however many cells of the block map to it. Those that are in
    /// none of the nine cells are dropped untested.
    pub open spec fn candidates(&self, ks: Seq<ParticleKinematics>, center: [i32; 2]) -> Seq<usize> {
        scan_from(self@, ks, center, 0)
    }

    /// A table of `count` empty buckets.
    pub fn new(count: usize) -> (grid: Self)
        ensures
            grid@.len() == count,
            forall|b: int| 0 <= b < count ==> grid@[b] is None,
    {
        let mut buckets: Vec<Option<usize>> = Vec::new();
        let mut filled: usize = 0;
        while filled < count
            invariant
                filled <= count,
                buckets@.len() == filled,
                forall|b: int| 0 <= b < filled ==> buckets@[b] is None,
            decreases count - filled,
        {
            buckets.push(None);
            filled += 1;
        }
        ParticleGrid { buckets }
    }

    /// The bucket that `cell` maps to.
    pub fn cell_hash(&self, cell: [i32; 2]) -> (index: usize)
        requires
            self@.len() > 0,
        ensures
            index == bucket_of(cell, self@.len() as int),
            index < self@.len(),
    {
        let mixed: i64 = (cell[0] as i64) + (cell[1] as i64) * 87119;
        let word: u64 = if mixed >= 0 {
            mixed as u64
        } else {
            u64::MAX - ((-(mixed + 1)) as u64)
        };
        assert(word == (mixed as int) % word_modulus()) by {
            if mixed < 0 {
                assert(word == mixed + word_modulus());
            }
        }
        (word % (self.buckets.len() as u64)) as usize
    }

    /// Puts particle `i` at the head of the bucket of its cell, and links it
    /// to the particle that was there before.
    pub fn add(&mut self, k: &mut ParticleKinematics, i: usize)
        requires
            old(self)@.len() > 0,
        ensures
            final(self)@ == old(self)@.update(
                bucket_of(old(k).cell, old(self)@.len() as int),
                Some(i),
            ),
            final(k).next == old(self)@[bucket_of(old(k).cell, old(self)@.len() as int)],
            final(k).cell == old(k).cell,
    {
        let index = self.cell_hash(k.cell);
        k.next = self.buckets[index];
        self.buckets.set(index, Some(i));
    }

    /// Empties every bucket.
    pub fn clear(&mut self)
        ensures
            final(self)@.len() == old(self)@.len(),
            forall|b: int| 0 <= b < final(self)@.len() ==> final(self)@[b] is None,
    {
        let count = self.buckets.len();
        let mut done: usize = 0;
        while done < count
            invariant
                done <= count,
                self.buckets@.len() == count,
                forall|b: int| 0 <= b < done ==> self.buckets@[b] is None,
            decreases count - done,
        {
            self.buckets.set(done, None);
            done += 1;
        }
    }

    /// Starts a walk over the neighbours of `center`: the particles chained
    /// in the buckets of the nine cells around `center` whose cell is one of
    /// the nine and that pass the test `near`. A bucket may hold particles of
    /// cells far away: the walk drops them by their cell, without testing
    /// them. Each bucket is followed once. So the size of the table does not
    /// show in what the walk yields.
    pub fn iter_neighbours<'a, F: Fn(usize) -> bool>(
        &'a self,
        particles: &'a [ParticleKinematics],
        center: [i32; 2],
        near: F,
    ) -> (walk: ParticleGridNeighbours<'a, F>)
        requires
            self@.len() > 0,
            self.wf(particles@),
            block_fits(center),
            forall|i: usize| i < particles@.len() ==> call_requires(near, (i,)),
        ensures
            walk.wf(),
            walk.test() == near,
            walk.center() == center,
            walk.particles() == particles@,
            walk.remaining() == self.candidates(particles@, center),
    {
        proof {
            lemma_chain_of_none(particles@);
        }
        ParticleGridNeighbours {
            grid: self,
            particles,
            near,
            state: 0,
            current: None,
            center,
            visited: [0; 9],
        }
    }
}

/// A walk over the chains of the buckets of the nine cells around a cell,
/// which yields the particles of those cells that pass a test. A bucket that
/// several cells of the block map to is followed once, at the first of them.
pub struct ParticleGridNeighbours<'a, F> {
    grid: &'a ParticleGrid,
    particles: &'a [ParticleKinematics],
    near: F,
    state: i32,
    current: Option<usize>,
    center: [i32; 2],
    visited: [usize; 9],
}

impl<'a, F: Fn(usize) -> bool> ParticleGridNeighbours<'a, F> {
    /// Whether the walk stands on a finite chain of a table whose chains are
    /// all finite, and the test can be made on every particle.
    pub closed spec fn wf(&self) -> bool {
        &&& 0 <= self.state <= 9
        &&& self.grid@.len() > 0
        &&& block_fits(self.center)
        &&& self.grid.wf(self.particles@)
        &&& terminates(self.particles@, self.current)
        &&& forall|i: usize| i < self.particles@.len() ==> call_requires(self.near, (i,))
        &&& forall|j: int|
            0 <= j < self.state ==> #[trigger] self.visited[j] == block_bucket(
                self.center,
                j,
                self.grid@.len() as int,
            )
    }

    /// The test that tells the neighbours from the other particles of the
    /// block.
    pub closed spec fn test(&self) -> F {
        self.near
    }

    /// The cell around which the walk goes.
    pub closed spec fn center(&self) -> [i32; 2] {
        self.center
    }

    /// Whether `i` is a particle in one of the nine cells around the center.
    pub open spec fn in_reach(&self, i: usize) -> bool {
        is_of_block(self.particles(), self.center(), i)
    }

    /// Whether the walk drops the candidate `i`: its cell is none of the nine
    /// around the center, or it fails the test.
    pub open spec fn drops(&self, i: usize) -> bool {
        !self.in_reach(i) || call_ensures(self.test(), (i,), false)
    }

    /// The particles through whose links the walk goes.
    pub closed spec fn particles(&self) -> Seq<ParticleKinematics> {
        self.particles@
    }

    /// The candidates that the walk has yet to look at, in order.
    pub closed spec fn remaining(&self) -> Seq<usize> {
        chain_of(self.particles@, self.current) + scan_from(
            self.grid@,
            self.particles@,
            self.center,
            self.state as int,
        )
    }

    /// Whether an earlier cell of the block maps to the bucket `index`.
    fn was_visited(&self, index: usize) -> (found: bool)
        requires
            self.wf(),
            self.state < 9,
        ensures
            found == exists|j: int|
                0 <= j < self.state && #[trigger] block_bucket(
                    self.center,
                    j,
                    self.grid@.len() as int,
                ) == index,
    {
        let mut j: usize = 0;
        while j < self.state as usize
            invariant
                self.wf(),
                0 <= j <= self.state < 9,
                forall|l: int|
                    0 <= l < j ==> #[trigger] block_bucket(
                        self.center,
                        l,
                        self.grid@.len() as int,
                    ) != index,
            decreases self.state - j,
        {
            if self.visited[j] == index {
                return true;
            }
            j += 1;
        }
        false
    }

    /// Whether the walk drops each of the first `n` candidates that remain.
    pub open spec fn none_passes_before(&self, n: int) -> bool {
        forall|m: int| 0 <= m < n ==> self.drops(#[trigger] self.remaining()[m])
    }

    /// Whether `i` is the candidate at position `n` of those that remain, and
    /// the first of them that is in reach and passes the test.
    pub open spec fn first_passing(&self, n: int, i: usize) -> bool {
        &&& 0 <= n < self.remaining().len()
        &&& self.remaining()[n] == i
        &&& self.in_reach(i)
        &&& call_ensures(self.test(), (i,), true)
        &&& self.none_passes_before(n)
    }

    /// Yields the next candidate that is in one of the nine cells around the
    /// center and passes the test, or `None` when the chains are exhausted.
    /// The candidates before it are dropped: those of other cells untested,
    /// the others because they have failed the test.
    pub fn next(&mut self) -> (item: Option<usize>)
        requires
            old(self).wf(),
        ensures
            final(self).wf(),
            final(self).test() == old(self).test(),
            final(self).center() == old(self).center(),
            final(self).particles() == old(self).particles(),
            item matches Some(i) ==> i < old(self).particles().len() && exists|n: int|
                #[trigger] old(self).first_passing(n, i) && final(self).remaining() == old(
                    self,
                ).remaining().skip(n + 1),
            item is None ==> old(self).none_passes_before(old(self).remaining().len() as int)
                && final(self).remaining().len() == 0,
    {
        let ghost mut dropped: int = 0;
        loop
            invariant
                self.wf(),
                self.test() == old(self).test(),
                self.center() == old(self).center(),
                self.particles() == old(self).particles(),
                0 <= dropped <= old(self).remaining().len(),
                self.remaining() == old(self).remaining().skip(dropped),
                old(self).none_passes_before(dropped),
            decreases 9 - self.state, chain_of(self.particles@, self.current).len(),
        {
            if let Some(i) = self.current {
                proof {
                    lemma_chain_of_some(self.particles@, i);
                }
                let ghost before = self.remaining();
                let k = self.particles[i];
                self.current = k.next;
                assert(before[0] == i && self.remaining() == before.skip(1));
                if cell_in_block(k.cell, self.center) && (self.near)(i) {
                    assert(old(self).first_passing(dropped, i));
                    return Some(i);
                }
                assert(old(self).drops(i));
                proof {
                    dropped = dropped + 1;
                }
            } else if self.state < 9 {
                let column: i32 = self.state % 3 - 1;
                let row: i32 = self.state / 3 - 1;
                let cell = cell_at(self.center, [column, row]);
                let index = self.grid.cell_hash(cell);
                proof {
                    lemma_chain_of_none(self.particles@);
                }
                if !self.was_visited(index) {
                    self.current = self.grid.buckets[index];
                }
                self.visited[self.state as usize] = index;
                self.state += 1;
            } else {
                proof {
                    lemma_chain_of_none(self.particles@);
                }
                return None;
            }
        }
    }
}

} // verus!
