//! The part of a particle that the index reads, and the chains that the
//! particles' links form.

use vstd::prelude::*;

verus! {

/// What the index keeps of a particle's kinematics: the lattice cell that its
/// position falls in, and the particle that follows it in its bucket's chain.
#[derive(Clone, Copy, Debug)]
pub struct ParticleKinematics {
    /// Column and row of the cell.
    pub cell: [i32; 2],
    /// Index of the next particle of the same bucket, if there is one.
    pub next: Option<usize>,
}

impl ParticleKinematics {
    /// Whether the particle is in the cell of the origin.
    pub open spec fn is_at_origin(&self) -> bool {
        &&& self.cell[0] == 0
        &&& self.cell[1] == 0
    }

    /// Whether the particle is in the cell of the origin and has no link.
    pub open spec fn is_unplaced(&self) -> bool {
        &&& self.is_at_origin()
        &&& self.next is None
    }
}

impl Default for ParticleKinematics {
    /// A particle in the cell of the origin, with no link.
    fn default() -> (k: Self)
        ensures
            k.is_unplaced(),
    {
        ParticleKinematics { cell: [0, 0], next: None }
    }
}

/// The cells of the particles, in index order.
pub open spec fn cells_of(ks: Seq<ParticleKinematics>) -> Seq<[i32; 2]> {
    Seq::new(ks.len(), |i: int| ks[i].cell)
}

/// Whether following the links from `start` reaches the end of a chain in at
/// most `fuel` steps, through valid indices only.
pub open spec fn chain_ends(ks: Seq<ParticleKinematics>, start: Option<usize>, fuel: nat) -> bool
    decreases fuel,
{
    match start {
        None => true,
        Some(i) => fuel > 0 && i < ks.len() && chain_ends(ks, ks[i as int].next, (fuel - 1) as nat),
    }
}

/// The particles met by following the links from `start`, at most `fuel` of
/// them.
pub open spec fn chain(ks: Seq<ParticleKinematics>, start: Option<usize>, fuel: nat) -> Seq<usize>
    decreases fuel,
{
    match start {
        None => Seq::empty(),
        Some(i) => if fuel > 0 && i < ks.len() {
            seq![i] + chain(ks, ks[i as int].next, (fuel - 1) as nat)
        } else {
            Seq::empty()
        },
    }
}

/// Whether the links from `start` form a finite list without a cycle.
pub open spec fn terminates(ks: Seq<ParticleKinematics>, start: Option<usize>) -> bool {
    exists|fuel: nat| chain_ends(ks, start, fuel)
}

/// The whole chain that starts at `start`, for links that terminate.
pub open spec fn chain_of(ks: Seq<ParticleKinematics>, start: Option<usize>) -> Seq<usize> {
    chain(ks, start, choose|fuel: nat| chain_ends(ks, start, fuel))
}

/// A chain that ends within `f` steps ends within any more.
pub proof fn lemma_chain_ends_within(
    ks: Seq<ParticleKinematics>,
    start: Option<usize>,
    f: nat,
    g: nat,
)
    requires
        chain_ends(ks, start, f),
        f <= g,
    ensures
        chain_ends(ks, start, g),
    decreases f,
{
    if let Some(i) = start {
        lemma_chain_ends_within(ks, ks[i as int].next, (f - 1) as nat, (g - 1) as nat);
    }
}

/// A chain that ends within some fuel is the same for any other fuel within
/// which it ends.
pub proof fn lemma_chain_fuel(ks: Seq<ParticleKinematics>, start: Option<usize>, f: nat, g: nat)
    requires
        chain_ends(ks, start, f),
        chain_ends(ks, start, g),
    ensures
        chain(ks, start, f) == chain(ks, start, g),
    decreases f,
{
    if let Some(i) = start {
        lemma_chain_fuel(ks, ks[i as int].next, (f - 1) as nat, (g - 1) as nat);
    }
}

/// A chain that ends within `f` steps is the whole chain.
pub proof fn lemma_chain_of(ks: Seq<ParticleKinematics>, start: Option<usize>, f: nat)
    requires
        chain_ends(ks, start, f),
    ensures
        terminates(ks, start),
        chain_of(ks, start) == chain(ks, start, f),
{
    let g = choose|fuel: nat| chain_ends(ks, start, fuel);
    lemma_chain_fuel(ks, start, f, g);
}

/// The chain from nowhere is empty.
pub proof fn lemma_chain_of_none(ks: Seq<ParticleKinematics>)
    ensures
        terminates(ks, None),
        chain_of(ks, None) == Seq::<usize>::empty(),
{
    assert(chain_ends(ks, None, 0));
    lemma_chain_of(ks, None, 0);
}

/// A terminating chain from a particle is that particle, then the chain from
/// its link, which terminates too.
pub proof fn lemma_chain_of_some(ks: Seq<ParticleKinematics>, i: usize)
    requires
        terminates(ks, Some(i)),
    ensures
        i < ks.len(),
        terminates(ks, ks[i as int].next),
        chain_of(ks, Some(i)) == seq![i] + chain_of(ks, ks[i as int].next),
{
    let f = choose|fuel: nat| chain_ends(ks, Some(i), fuel);
    assert(chain_ends(ks, ks[i as int].next, (f - 1) as nat));
    lemma_chain_of(ks, ks[i as int].next, (f - 1) as nat);
}

/// Every particle of a terminating chain is a valid index.
pub proof fn lemma_chain_in_range(ks: Seq<ParticleKinematics>, start: Option<usize>, f: nat)
    ensures
        forall|x: usize| chain(ks, start, f).contains(x) ==> x < ks.len(),
    decreases f,
{
    if let Some(i) = start {
        if f > 0 && i < ks.len() {
            let rest = chain(ks, ks[i as int].next, (f - 1) as nat);
            lemma_chain_in_range(ks, ks[i as int].next, (f - 1) as nat);
            assert forall|x: usize| chain(ks, start, f).contains(x) implies x < ks.len() by {
                let at = choose|at: int|
                    0 <= at < chain(ks, start, f).len() && chain(ks, start, f)[at] == x;
                if at > 0 {
                    assert(rest[at - 1] == x);
                    assert(rest.contains(x));
                }
            }
        }
    }
}

} // verus!
