//! What holds of the walks over a table that indexes its particles.

use vstd::prelude::*;
use vstd::seq_lib::{lemma_no_dup_in_concat, to_multiset_contains};
use crate::cell::{bucket_of, in_block};
use crate::grid::{
    block_bucket, block_chain, chains_terminate, first_of_bucket, is_of_block, of_block, scan_from,
};
use crate::particle::{
    chain, chain_ends, chain_of, lemma_chain_in_range, lemma_chain_of, lemma_chain_of_none,
};
use crate::particle::{cells_of, terminates, ParticleKinematics};
use crate::placement::{bucket_members, lemma_bucket_members, lemma_placed_chain, placed};
use crate::system::ParticleSystem;

verus! {

/// A value occurs in two sequences joined if it occurs in one of them.
pub proof fn lemma_concat_contains(a: Seq<usize>, b: Seq<usize>, x: usize)
    ensures
        (a + b).contains(x) <==> a.contains(x) || b.contains(x),
{
    if a.contains(x) {
        let i = choose|i: int| 0 <= i < a.len() && a[i] == x;
        assert((a + b)[i] == x);
    }
    if b.contains(x) {
        let j = choose|j: int| 0 <= j < b.len() && b[j] == x;
        assert((a + b)[a.len() + j] == x);
    }
    if (a + b).contains(x) {
        let i = choose|i: int| 0 <= i < (a + b).len() && (a + b)[i] == x;
        if i < a.len() {
            assert(a[i] == x);
        } else {
            assert(b[i - a.len()] == x);
        }
    }
}

/// A walk meets a particle if one of the chains that it has yet to follow
/// holds the particle.
pub proof fn lemma_scan_contains(
    heads: Seq<Option<usize>>,
    ks: Seq<ParticleKinematics>,
    center: [i32; 2],
    from: int,
    x: usize,
)
    requires
        0 <= from <= 9,
    ensures
        scan_from(heads, ks, center, from).contains(x) <==> exists|k: int|
            from <= k < 9 && (#[trigger] block_chain(heads, ks, center, k)).contains(x),
    decreases 9 - from,
{
    if from < 9 {
        let first = block_chain(heads, ks, center, from);
        let rest = scan_from(heads, ks, center, from + 1);
        lemma_scan_contains(heads, ks, center, from + 1, x);
        lemma_concat_contains(first, rest, x);
        if exists|k: int| from <= k < 9 && (#[trigger] block_chain(heads, ks, center, k)).contains(x) {
            let k = choose|k: int|
                from <= k < 9 && (#[trigger] block_chain(heads, ks, center, k)).contains(x);
            if k != from {
                assert(from + 1 <= k < 9 && block_chain(heads, ks, center, k).contains(x));
            }
        }
    }
}

/// A walk over a table of empty buckets, as a new table and a cleared table
/// are, meets nothing.
pub proof fn lemma_empty_table_walk(
    heads: Seq<Option<usize>>,
    ks: Seq<ParticleKinematics>,
    center: [i32; 2],
    from: int,
)
    requires
        heads.len() > 0,
        forall|b: int| 0 <= b < heads.len() ==> (#[trigger] heads[b]) is None,
    ensures
        scan_from(heads, ks, center, from) == Seq::<usize>::empty(),
    decreases 9 - from,
{
    if 0 <= from < 9 {
        let b = block_bucket(center, from, heads.len() as int);
        assert(heads[b] is None);
        lemma_chain_of_none(ks);
        lemma_empty_table_walk(heads, ks, center, from + 1);
    }
}

/// The position in the scan of a cell of the block around `center`.
pub open spec fn block_position(cell: [i32; 2], center: [i32; 2]) -> int {
    (cell[1] - center[1] + 1) * 3 + (cell[0] - center[0] + 1)
}

/// A cell of the block around `center` maps to the bucket of its position.
pub proof fn lemma_block_position(cell: [i32; 2], center: [i32; 2], buckets: int)
    requires
        in_block(cell, center),
    ensures
        0 <= block_position(cell, center) < 9,
        block_bucket(center, block_position(cell, center), buckets) == bucket_of(cell, buckets),
{
}

/// Every cell of the block has a first cell of its bucket: a cell of the
/// block, not after it in scan order, that maps to the same bucket and is the
/// first to do so.
pub proof fn lemma_first_of_bucket(center: [i32; 2], k: int, buckets: int) -> (j: int)
    requires
        0 <= k < 9,
    ensures
        0 <= j <= k,
        first_of_bucket(center, j, buckets),
        block_bucket(center, j, buckets) == block_bucket(center, k, buckets),
    decreases k,
{
    if first_of_bucket(center, k, buckets) {
        k
    } else {
        let l = choose|l: int|
            0 <= l < k && #[trigger] block_bucket(center, l, buckets) == block_bucket(
                center,
                k,
                buckets,
            );
        lemma_first_of_bucket(center, l, buckets)
    }
}

/// No neighbour is missed: among particles placed in index order, a walk
/// around `center` meets every particle whose cell is in the block around
/// `center`, whatever else maps to the same buckets.
pub proof fn lemma_block_is_met(
    heads: Seq<Option<usize>>,
    ks: Seq<ParticleKinematics>,
    center: [i32; 2],
    i: usize,
)
    requires
        placed(heads, ks),
        heads.len() > 0,
        ks.len() <= usize::MAX,
        i < ks.len(),
        in_block(ks[i as int].cell, center),
    ensures
        scan_from(heads, ks, center, 0).contains(i),
{
    let buckets = heads.len() as int;
    let k = block_position(ks[i as int].cell, center);
    let b = bucket_of(ks[i as int].cell, buckets);
    lemma_block_position(ks[i as int].cell, center, buckets);
    let j = lemma_first_of_bucket(center, k, buckets);
    lemma_placed_chain(heads, ks, b);
    lemma_bucket_members(cells_of(ks), buckets, b, ks.len() as int, i);
    assert(block_chain(heads, ks, center, j).contains(i));
    lemma_scan_contains(heads, ks, center, 0, i);
}

/// Whatever a walk meets is a particle: over a table whose chains end, every
/// candidate is a valid index into the particles.
pub proof fn lemma_met_is_a_particle(
    heads: Seq<Option<usize>>,
    ks: Seq<ParticleKinematics>,
    center: [i32; 2],
    x: usize,
)
    requires
        heads.len() > 0,
        chains_terminate(heads, ks),
        scan_from(heads, ks, center, 0).contains(x),
    ensures
        x < ks.len(),
{
    lemma_scan_contains(heads, ks, center, 0, x);
    let k = choose|k: int| 0 <= k < 9 && (#[trigger] block_chain(heads, ks, center, k)).contains(x);
    let start = heads[block_bucket(center, k, heads.len() as int)];
    assert(block_chain(heads, ks, center, k) == chain_of(ks, start));
    assert(terminates(ks, start));
    let f = choose|f: nat| chain_ends(ks, start, f);
    lemma_chain_of(ks, start, f);
    lemma_chain_in_range(ks, start, f);
}

/// A particle alone has no neighbour but itself. In a system of one particle
/// every candidate of a walk is that particle, so a walk whose test the
/// particle itself fails, as it fails a test that asks for a distance above
/// nil, yields nothing.
pub proof fn lemma_lone_particle_meets_itself(
    heads: Seq<Option<usize>>,
    ks: Seq<ParticleKinematics>,
    center: [i32; 2],
    x: usize,
)
    requires
        heads.len() > 0,
        chains_terminate(heads, ks),
        ks.len() == 1,
        scan_from(heads, ks, center, 0).contains(x),
    ensures
        x == 0,
{
    lemma_met_is_a_particle(heads, ks, center, x);
}

/// Only the visited buckets are read: among particles placed in index order,
/// every particle that a walk around `center` meets is a particle whose cell
/// maps to the bucket of one of the nine cells of the block.
pub proof fn lemma_met_is_in_block_bucket(
    heads: Seq<Option<usize>>,
    ks: Seq<ParticleKinematics>,
    center: [i32; 2],
    j: usize,
)
    requires
        placed(heads, ks),
        heads.len() > 0,
        ks.len() <= usize::MAX,
        scan_from(heads, ks, center, 0).contains(j),
    ensures
        j < ks.len(),
        exists|k: int|
            0 <= k < 9 && bucket_of(ks[j as int].cell, heads.len() as int) == #[trigger] block_bucket(
                center,
                k,
                heads.len() as int,
            ),
{
    let buckets = heads.len() as int;
    lemma_scan_contains(heads, ks, center, 0, j);
    let k = choose|k: int| 0 <= k < 9 && (#[trigger] block_chain(heads, ks, center, k)).contains(j);
    let b = block_bucket(center, k, buckets);
    assert(block_chain(heads, ks, center, k) == chain_of(ks, heads[b]));
    lemma_placed_chain(heads, ks, b);
    lemma_bucket_members(cells_of(ks), buckets, b, ks.len() as int, j);
}

/// Each neighbour is met exactly once: among particles placed in index order
/// into a table of any size, a particle whose cell is in the block around
/// `center` occurs once among the candidates of a walk around `center`.
pub proof fn lemma_block_is_met_once(
    heads: Seq<Option<usize>>,
    ks: Seq<ParticleKinematics>,
    center: [i32; 2],
    i: usize,
)
    requires
        placed(heads, ks),
        heads.len() > 0,
        ks.len() <= usize::MAX,
        i < ks.len(),
        in_block(ks[i as int].cell, center),
    ensures
        scan_from(heads, ks, center, 0).to_multiset().count(i) == 1,
{
    let met = scan_from(heads, ks, center, 0);
    lemma_block_is_met(heads, ks, center, i);
    lemma_met_once(heads, ks, center, 0);
    to_multiset_contains(met, i);
    met.lemma_multiset_has_no_duplicates();
}

/// The size of the table does not show in the neighbours. Take the same
/// particles, placed in index order into two tables of any two sizes, and
/// the walks around the same cell. Neither walk meets a particle twice, and
/// the candidates that the walks do not drop by their cell are the same
/// multiset for both tables: the particles of the nine cells, once each. What
/// the one walk hands to the test of the caller, the other hands to it too.
pub proof fn lemma_table_size_is_transparent(
    heads: Seq<Option<usize>>,
    ks: Seq<ParticleKinematics>,
    other_heads: Seq<Option<usize>>,
    other_ks: Seq<ParticleKinematics>,
    center: [i32; 2],
)
    requires
        placed(heads, ks),
        placed(other_heads, other_ks),
        heads.len() > 0,
        other_heads.len() > 0,
        cells_of(ks) == cells_of(other_ks),
        ks.len() <= usize::MAX,
    ensures
        scan_from(heads, ks, center, 0).no_duplicates(),
        scan_from(other_heads, other_ks, center, 0).no_duplicates(),
        forall|i: usize| #[trigger] is_of_block(ks, center, i) == is_of_block(other_ks, center, i),
        forall|i: usize| #[trigger]
            is_of_block(ks, center, i) ==> scan_from(heads, ks, center, 0).to_multiset().count(i)
                == 1 && scan_from(other_heads, other_ks, center, 0).to_multiset().count(i) == 1,
        scan_from(heads, ks, center, 0).to_multiset().filter(of_block(ks, center)) == scan_from(
            other_heads,
            other_ks,
            center,
            0,
        ).to_multiset().filter(of_block(ks, center)),
{
    let met = scan_from(heads, ks, center, 0);
    let other_met = scan_from(other_heads, other_ks, center, 0);
    assert(ks.len() == cells_of(ks).len());
    assert(other_ks.len() == cells_of(other_ks).len());
    lemma_met_once(heads, ks, center, 0);
    lemma_met_once(other_heads, other_ks, center, 0);
    assert forall|i: usize| #[trigger]
        is_of_block(ks, center, i) == is_of_block(other_ks, center, i) by {
        if i < ks.len() {
            assert(ks[i as int].cell == cells_of(ks)[i as int]);
            assert(other_ks[i as int].cell == cells_of(other_ks)[i as int]);
        }
    }
    assert forall|i: usize| #[trigger] is_of_block(ks, center, i) implies met.to_multiset().count(
        i,
    ) == 1 && other_met.to_multiset().count(i) == 1 by {
        lemma_block_is_met_once(heads, ks, center, i);
        lemma_block_is_met_once(other_heads, other_ks, center, i);
    }
    assert(met.to_multiset().filter(of_block(ks, center)) =~= other_met.to_multiset().filter(
        of_block(ks, center),
    ));
}

/// Placing is determined by the cells: the same particles' cells, placed in
/// index order into tables of the same size, leave the same heads and the
/// same particles.
pub proof fn lemma_placement_is_determined(
    heads: Seq<Option<usize>>,
    ks: Seq<ParticleKinematics>,
    other_heads: Seq<Option<usize>>,
    other_ks: Seq<ParticleKinematics>,
)
    requires
        placed(heads, ks),
        placed(other_heads, other_ks),
        heads.len() == other_heads.len(),
        cells_of(ks) == cells_of(other_ks),
    ensures
        heads == other_heads,
        ks == other_ks,
{
    assert(ks.len() == cells_of(ks).len());
    assert(other_ks.len() == cells_of(other_ks).len());
    assert forall|i: int| 0 <= i < ks.len() implies ks[i] == other_ks[i] by {
        assert(ks[i].cell == cells_of(ks)[i]);
        assert(other_ks[i].cell == cells_of(other_ks)[i]);
    }
    assert(ks =~= other_ks);
    assert(heads =~= other_heads);
}

/// Two systems whose particles are in the same cells are in the same state,
/// and their walks around any cell are the same.
pub proof fn lemma_systems_agree(a: ParticleSystem, b: ParticleSystem, center: [i32; 2])
    requires
        a.wf(),
        b.wf(),
        cells_of(a.particles()) == cells_of(b.particles()),
    ensures
        a.particles() == b.particles(),
        a.buckets() == b.buckets(),
        a.candidates(center) == b.candidates(center),
{
    assert(a.particles().len() == cells_of(a.particles()).len());
    assert(b.particles().len() == cells_of(b.particles()).len());
    lemma_placement_is_determined(a.buckets(), a.particles(), b.buckets(), b.particles());
}

/// The members of a bucket are listed once each.
pub proof fn lemma_bucket_members_once(cells: Seq<[i32; 2]>, buckets: int, b: int, upto: int)
    requires
        upto <= usize::MAX,
    ensures
        bucket_members(cells, buckets, b, upto).no_duplicates(),
    decreases upto,
{
    if upto > 0 {
        lemma_bucket_members_once(cells, buckets, b, upto - 1);
        let rest = bucket_members(cells, buckets, b, upto - 1);
        if bucket_of(cells[upto - 1], buckets) == b {
            let first = seq![(upto - 1) as usize];
            assert forall|i: int, j: int| 0 <= i < first.len() && 0 <= j < rest.len() implies first[i]
                != rest[j] by {
                lemma_bucket_members(cells, buckets, b, upto - 1, rest[j]);
                assert(rest.contains(rest[j]));
            }
            lemma_no_dup_in_concat(first, rest);
        }
    }
}

/// No particle is met twice: a walk over particles placed in index order
/// into a table of any size follows each bucket of the block once, and a
/// bucket lists each of its particles once.
pub proof fn lemma_met_once(
    heads: Seq<Option<usize>>,
    ks: Seq<ParticleKinematics>,
    center: [i32; 2],
    from: int,
)
    requires
        placed(heads, ks),
        heads.len() > 0,
        ks.len() <= usize::MAX,
        0 <= from <= 9,
    ensures
        scan_from(heads, ks, center, from).no_duplicates(),
    decreases 9 - from,
{
    if from < 9 {
        let buckets = heads.len() as int;
        let b = block_bucket(center, from, buckets);
        let first = block_chain(heads, ks, center, from);
        let rest = scan_from(heads, ks, center, from + 1);
        lemma_met_once(heads, ks, center, from + 1);
        lemma_placed_chain(heads, ks, b);
        lemma_bucket_members_once(cells_of(ks), buckets, b, ks.len() as int);
        assert forall|i: int, j: int| 0 <= i < first.len() && 0 <= j < rest.len() implies first[i]
            != rest[j] by {
            let x = rest[j];
            assert(rest.contains(x));
            lemma_scan_contains(heads, ks, center, from + 1, x);
            let l = choose|l: int|
                from + 1 <= l < 9 && (#[trigger] block_chain(heads, ks, center, l)).contains(x);
            let c = block_bucket(center, l, buckets);
            assert(first_of_bucket(center, l, buckets));
            assert(block_bucket(center, from, buckets) != c);
            lemma_placed_chain(heads, ks, c);
            lemma_bucket_members(cells_of(ks), buckets, c, ks.len() as int, x);
            if first[i] == x {
                assert(first.contains(x));
                lemma_bucket_members(cells_of(ks), buckets, b, ks.len() as int, x);
            }
        }
        lemma_no_dup_in_concat(first, rest);
    }
}

/// A chain does not change when a particle that is not on it changes.
pub proof fn lemma_chain_skips(
    ks: Seq<ParticleKinematics>,
    i: usize,
    k: ParticleKinematics,
    start: Option<usize>,
    f: nat,
)
    requires
        i < ks.len(),
        chain_ends(ks, start, f),
        !chain(ks, start, f).contains(i),
    ensures
        chain_ends(ks.update(i as int, k), start, f),
        chain(ks.update(i as int, k), start, f) == chain(ks, start, f),
    decreases f,
{
    if let Some(j) = start {
        let all = chain(ks, start, f);
        let rest = chain(ks, ks[j as int].next, (f - 1) as nat);
        assert(all[0] == j);
        if rest.contains(i) {
            let at = choose|at: int| 0 <= at < rest.len() && rest[at] == i;
            assert(all[at + 1] == i);
        }
        lemma_chain_skips(ks, i, k, ks[j as int].next, (f - 1) as nat);
    }
}

/// Adding pushes onto the head of a chain. Take a table whose chains end and
/// a particle `i` that is on none of them. Make `i` the head of bucket `b`
/// and link it to the former head, as `ParticleGrid::add` does. Then the
/// chains still end, the chain of `b` is `i` followed by the former chain of
/// `b`, and the other chains are as they were.
pub proof fn lemma_add_pushes(
    heads: Seq<Option<usize>>,
    ks: Seq<ParticleKinematics>,
    b: int,
    i: usize,
    k: ParticleKinematics,
)
    requires
        chains_terminate(heads, ks),
        0 <= b < heads.len(),
        i < ks.len(),
        forall|c: int| 0 <= c < heads.len() ==> !chain_of(ks, #[trigger] heads[c]).contains(i),
        k.next == heads[b],
    ensures
        chains_terminate(heads.update(b, Some(i)), ks.update(i as int, k)),
        chain_of(ks.update(i as int, k), heads.update(b, Some(i))[b]) == seq![i] + chain_of(
            ks,
            heads[b],
        ),
        forall|c: int|
            0 <= c < heads.len() && c != b ==> chain_of(
                ks.update(i as int, k),
                #[trigger] heads.update(b, Some(i))[c],
            ) == chain_of(ks, heads[c]),
{
    let new_ks = ks.update(i as int, k);
    let new_heads = heads.update(b, Some(i));
    assert forall|c: int| 0 <= c < heads.len() implies terminates(new_ks, #[trigger] heads[c])
        && chain_of(new_ks, heads[c]) == chain_of(ks, heads[c]) by {
        assert(terminates(ks, heads[c]));
        let f = choose|f: nat| chain_ends(ks, heads[c], f);
        lemma_chain_of(ks, heads[c], f);
        lemma_chain_skips(ks, i, k, heads[c], f);
        lemma_chain_of(new_ks, heads[c], f);
    }
    let f = choose|f: nat| chain_ends(new_ks, heads[b], f);
    assert(chain_ends(new_ks, Some(i), f + 1));
    lemma_chain_of(new_ks, Some(i), f + 1);
    lemma_chain_of(new_ks, heads[b], f);
    assert forall|c: int| 0 <= c < new_heads.len() implies terminates(
        new_ks,
        #[trigger] new_heads[c],
    ) by {
        if c != b {
            assert(terminates(new_ks, heads[c]));
        }
    }
}

} // verus!
