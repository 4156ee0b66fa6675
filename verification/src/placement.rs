//! What the table and the links hold once the particles have been placed in
//! index order.

use vstd::prelude::*;
use crate::cell::bucket_of;
use crate::grid::{block_bucket, block_chain, first_of_bucket, scan_from};
use crate::particle::{
    cells_of, chain, chain_ends, chain_of, lemma_chain_ends_within, lemma_chain_fuel, lemma_chain_of,
    terminates, ParticleKinematics,
};

verus! {

/// The last particle before `upto` whose cell maps to bucket `b`, in a table
/// of `buckets` buckets.
pub open spec fn latest_in_bucket(cells: Seq<[i32; 2]>, buckets: int, b: int, upto: int) -> Option<
    usize,
>
    decreases upto,
{
    if upto <= 0 {
        None
    } else if bucket_of(cells[upto - 1], buckets) == b {
        Some((upto - 1) as usize)
    } else {
        latest_in_bucket(cells, buckets, b, upto - 1)
    }
}

/// The particles before `upto` whose cell maps to bucket `b`, last first.
pub open spec fn bucket_members(cells: Seq<[i32; 2]>, buckets: int, b: int, upto: int) -> Seq<
    usize,
>
    decreases upto,
{
    if upto <= 0 {
        Seq::empty()
    } else if bucket_of(cells[upto - 1], buckets) == b {
        seq![(upto - 1) as usize] + bucket_members(cells, buckets, b, upto - 1)
    } else {
        bucket_members(cells, buckets, b, upto - 1)
    }
}

/// What a walk around `center` meets once the particles in `cells` have been
/// placed in index order into a table of `buckets` buckets: for each of the
/// nine cells of the block from the `k`-th on, in scan order, the particles
/// whose cell maps to the same bucket as that cell, last first, unless an
/// earlier cell of the block maps to that bucket.
pub open spec fn walk_of(cells: Seq<[i32; 2]>, buckets: int, center: [i32; 2], k: int) -> Seq<
    usize,
>
    decreases 9 - k,
{
    if 0 <= k < 9 {
        block_members(cells, buckets, center, k) + walk_of(cells, buckets, center, k + 1)
    } else {
        Seq::empty()
    }
}

/// The particles in `cells` that a walk around `center` meets at the `k`-th
/// cell of the block: those whose cell maps to the bucket of that cell, last
/// first, unless an earlier cell of the block maps to that bucket.
pub open spec fn block_members(cells: Seq<[i32; 2]>, buckets: int, center: [i32; 2], k: int) -> Seq<
    usize,
> {
    if first_of_bucket(center, k, buckets) {
        bucket_members(cells, buckets, block_bucket(center, k, buckets), cells.len() as int)
    } else {
        Seq::empty()
    }
}

/// Whether `heads` and the links of `ks` are what placing the particles of
/// `ks` in index order into an empty table leaves: each bucket holds the last
/// particle of the bucket, and each particle is linked to the last particle of
/// its bucket before it.
pub open spec fn placed(heads: Seq<Option<usize>>, ks: Seq<ParticleKinematics>) -> bool {
    &&& forall|b: int|
        0 <= b < heads.len() ==> #[trigger] heads[b] == latest_in_bucket(
            cells_of(ks),
            heads.len() as int,
            b,
            ks.len() as int,
        )
    &&& forall|i: int|
        0 <= i < ks.len() ==> (#[trigger] ks[i]).next == latest_in_bucket(
            cells_of(ks),
            heads.len() as int,
            bucket_of(ks[i].cell, heads.len() as int),
            i,
        )
}

/// Whether every link points to a particle of smaller index.
pub open spec fn links_descend(ks: Seq<ParticleKinematics>) -> bool {
    forall|i: int| 0 <= i < ks.len() ==> ((#[trigger] ks[i]).next matches Some(j) ==> j < i)
}

/// Whether every bucket is empty or holds the index of a particle.
pub open spec fn heads_in_range(heads: Seq<Option<usize>>, count: int) -> bool {
    forall|b: int| 0 <= b < heads.len() ==> ((#[trigger] heads[b]) matches Some(h) ==> h < count)
}

/// The last particle of a bucket before `upto`, if there is one, lies before
/// `upto` and in that bucket.
pub proof fn lemma_latest_in_bucket(cells: Seq<[i32; 2]>, buckets: int, b: int, upto: int)
    requires
        upto <= usize::MAX,
    ensures
        latest_in_bucket(cells, buckets, b, upto) matches Some(j) ==> 0 <= j < upto && bucket_of(
            cells[j as int],
            buckets,
        ) == b,
    decreases upto,
{
    if upto > 0 && bucket_of(cells[upto - 1], buckets) != b {
        lemma_latest_in_bucket(cells, buckets, b, upto - 1);
    }
}

/// Links that descend end within as many steps as the index they start from,
/// and one more.
pub proof fn lemma_descending_chain_ends(ks: Seq<ParticleKinematics>, h: usize)
    requires
        links_descend(ks),
        h < ks.len(),
    ensures
        chain_ends(ks, Some(h), (h + 1) as nat),
    decreases h,
{
    if let Some(j) = ks[h as int].next {
        lemma_descending_chain_ends(ks, j);
        lemma_chain_ends_within(ks, Some(j), (j + 1) as nat, h as nat);
    }
    assert(chain_ends(ks, ks[h as int].next, h as nat));
}

/// Heads that are particles and links that descend make every chain of the
/// table finite and without a cycle.
pub proof fn lemma_descending_chains_terminate(
    heads: Seq<Option<usize>>,
    ks: Seq<ParticleKinematics>,
)
    requires
        heads_in_range(heads, ks.len() as int),
        links_descend(ks),
    ensures
        forall|b: int| 0 <= b < heads.len() ==> terminates(ks, #[trigger] heads[b]),
{
    assert forall|b: int| 0 <= b < heads.len() implies terminates(ks, #[trigger] heads[b]) by {
        match heads[b] {
            None => {
                assert(chain_ends(ks, None, 0));
            },
            Some(h) => {
                lemma_descending_chain_ends(ks, h);
            },
        }
    }
}

/// Particles that were placed in index order have heads that are particles
/// and links that descend.
pub proof fn lemma_placed_descends(heads: Seq<Option<usize>>, ks: Seq<ParticleKinematics>)
    requires
        placed(heads, ks),
        ks.len() <= usize::MAX,
    ensures
        heads_in_range(heads, ks.len() as int),
        links_descend(ks),
{
    let cells = cells_of(ks);
    let buckets = heads.len() as int;
    assert forall|b: int| 0 <= b < heads.len() implies ((#[trigger] heads[b]) matches Some(h)
        ==> h < ks.len()) by {
        lemma_latest_in_bucket(cells, buckets, b, ks.len() as int);
    }
    assert forall|i: int| 0 <= i < ks.len() implies ((#[trigger] ks[i]).next matches Some(j) ==> j
        < i) by {
        lemma_latest_in_bucket(cells, buckets, bucket_of(ks[i].cell, buckets), i);
    }
}

/// Among particles placed in index order, the chain from the last particle of
/// a bucket before `upto` lists the particles of the bucket before `upto`,
/// last first.
pub proof fn lemma_latest_chain(
    heads: Seq<Option<usize>>,
    ks: Seq<ParticleKinematics>,
    b: int,
    upto: int,
)
    requires
        placed(heads, ks),
        0 <= upto <= ks.len() <= usize::MAX,
    ensures
        chain_ends(
            ks,
            latest_in_bucket(cells_of(ks), heads.len() as int, b, upto),
            upto as nat,
        ),
        chain(ks, latest_in_bucket(cells_of(ks), heads.len() as int, b, upto), upto as nat)
            == bucket_members(cells_of(ks), heads.len() as int, b, upto),
    decreases upto,
{
    let cells = cells_of(ks);
    let buckets = heads.len() as int;
    if upto > 0 {
        lemma_latest_chain(heads, ks, b, upto - 1);
        let before = latest_in_bucket(cells, buckets, b, upto - 1);
        if bucket_of(cells[upto - 1], buckets) == b {
            assert(ks[upto - 1].next == before);
        } else {
            lemma_chain_ends_within(ks, before, (upto - 1) as nat, upto as nat);
            lemma_chain_fuel(ks, before, (upto - 1) as nat, upto as nat);
        }
    }
}

/// Among particles placed in index order, the chain of a bucket lists the
/// particles whose cell maps to the bucket, last first.
pub proof fn lemma_placed_chain(heads: Seq<Option<usize>>, ks: Seq<ParticleKinematics>, b: int)
    requires
        placed(heads, ks),
        ks.len() <= usize::MAX,
        0 <= b < heads.len(),
    ensures
        terminates(ks, heads[b]),
        chain_of(ks, heads[b]) == bucket_members(
            cells_of(ks),
            heads.len() as int,
            b,
            ks.len() as int,
        ),
{
    lemma_latest_chain(heads, ks, b, ks.len() as int);
    lemma_chain_of(ks, heads[b], ks.len());
}

/// The members of a bucket before `upto` are the particles before `upto`
/// whose cell maps to the bucket.
pub proof fn lemma_bucket_members(
    cells: Seq<[i32; 2]>,
    buckets: int,
    b: int,
    upto: int,
    i: usize,
)
    requires
        upto <= usize::MAX,
    ensures
        bucket_members(cells, buckets, b, upto).contains(i) <==> (i < upto && bucket_of(
            cells[i as int],
            buckets,
        ) == b),
    decreases upto,
{
    if upto > 0 {
        lemma_bucket_members(cells, buckets, b, upto - 1, i);
        let rest = bucket_members(cells, buckets, b, upto - 1);
        if bucket_of(cells[upto - 1], buckets) == b {
            let all = seq![(upto - 1) as usize] + rest;
            if rest.contains(i) {
                let at = choose|at: int| 0 <= at < rest.len() && rest[at] == i;
                assert(all[at + 1] == i);
            }
            if i == upto - 1 {
                assert(all[0] == i);
            }
            if all.contains(i) {
                let at = choose|at: int| 0 <= at < all.len() && all[at] == i;
                if at > 0 {
                    assert(rest[at - 1] == i);
                }
            }
        }
    }
}

/// Among particles placed in index order, a walk meets what the cells alone
/// say: the members of the buckets of the block, each bucket once, one bucket
/// after the other.
pub proof fn lemma_placed_walk(
    heads: Seq<Option<usize>>,
    ks: Seq<ParticleKinematics>,
    center: [i32; 2],
    from: int,
)
    requires
        placed(heads, ks),
        heads.len() > 0,
        ks.len() <= usize::MAX,
    ensures
        scan_from(heads, ks, center, from) == walk_of(
            cells_of(ks),
            heads.len() as int,
            center,
            from,
        ),
    decreases 9 - from,
{
    if 0 <= from < 9 {
        lemma_placed_chain(heads, ks, block_bucket(center, from, heads.len() as int));
        lemma_placed_walk(heads, ks, center, from + 1);
        assert(block_chain(heads, ks, center, from) == block_members(
            cells_of(ks),
            heads.len() as int,
            center,
            from,
        ));
    }
}

} // verus!
