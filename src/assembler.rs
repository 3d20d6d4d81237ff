use vstd::prelude::*;
use crate::generator::GenerationError;
use crate::hand::{HandRestrictions, TileGroup};
use crate::pool::{initial_count, total, TilePool};
use crate::rng::SeededRng;
use crate::shanten::{kind_number, lemma_total_update, same_suit_ahead};
use crate::types::{KIND_COUNT, MAX_COPIES};

verus! {

/// Every copy of an allowed kind is either in the hand or still in the pool.
pub open spec fn conserved(hand: Seq<u8>, pool: Seq<u8>, restrictions: HandRestrictions) -> bool {
    &&& hand.len() == KIND_COUNT
    &&& pool.len() == KIND_COUNT
    &&& forall|k: int|
        #![trigger hand[k]]
        #![trigger pool[k]]
        0 <= k < KIND_COUNT ==> hand[k] + pool[k] == initial_count(restrictions, k as nat)
}

/// Whether a group of type `g` starting at kind `k` can be drawn from `pool`; with
/// `distinct`, its kinds must also be absent from `hand`.
pub open spec fn group_fits(g: TileGroup, k: int, pool: Seq<u8>, hand: Seq<u8>, distinct: bool) -> bool {
    &&& 0 <= k < KIND_COUNT
    &&& match g {
        TileGroup::Shuntsu => same_suit_ahead(k, 2) && pool[k] >= 1 && pool[k + 1] >= 1 && pool[k
            + 2] >= 1 && (!distinct || (hand[k] == 0 && hand[k + 1] == 0 && hand[k + 2] == 0)),
        _ => pool[k] >= g.size() && (!distinct || hand[k] == 0),
    }
}

/// `hand` with a group of type `g` starting at kind `k` added.
pub open spec fn add_group(hand: Seq<u8>, g: TileGroup, k: int) -> Seq<u8> {
    match g {
        TileGroup::Shuntsu => hand.update(k, (hand[k] + 1) as u8).update(
            k + 1,
            (hand[k + 1] + 1) as u8,
        ).update(k + 2, (hand[k + 2] + 1) as u8),
        _ => hand.update(k, (hand[k] + g.size()) as u8),
    }
}

/// Moves one copy of kind `k` from the pool into the hand.
pub fn move_to_hand(hand: &mut Vec<u8>, pool: &mut TilePool, k: usize, restrictions: &HandRestrictions)
    requires
        old(pool).wf(),
        conserved(old(hand)@, old(pool)@, *restrictions),
        k < KIND_COUNT,
        old(pool)@[k as int] > 0,
    ensures
        final(pool).wf(),
        conserved(final(hand)@, final(pool)@, *restrictions),
        final(hand)@ == old(hand)@.update(k as int, (old(hand)@[k as int] + 1) as u8),
        final(pool)@ == old(pool)@.update(k as int, (old(pool)@[k as int] - 1) as u8),
        total(final(hand)@) == total(old(hand)@) + 1,
{
    proof {
        lemma_total_update(hand@, k as int, (hand@[k as int] + 1) as u8);
    }
    let drawn = pool.draw(k);
    assert(drawn);
    let c = hand[k];
    hand.set(k, c + 1);
}

/// Moves one copy of kind `k` from the hand back into the pool.
pub fn move_to_pool(hand: &mut Vec<u8>, pool: &mut TilePool, k: usize, restrictions: &HandRestrictions)
    requires
        old(pool).wf(),
        conserved(old(hand)@, old(pool)@, *restrictions),
        k < KIND_COUNT,
        old(hand)@[k as int] > 0,
    ensures
        final(pool).wf(),
        conserved(final(hand)@, final(pool)@, *restrictions),
        final(hand)@ == old(hand)@.update(k as int, (old(hand)@[k as int] - 1) as u8),
        final(pool)@ == old(pool)@.update(k as int, (old(pool)@[k as int] + 1) as u8),
        total(final(hand)@) == total(old(hand)@) - 1,
{
    proof {
        lemma_total_update(hand@, k as int, (hand@[k as int] - 1) as u8);
    }
    pool.return_tile(k);
    let c = hand[k];
    hand.set(k, c - 1);
}

pub fn group_fits_at(g: TileGroup, k: usize, pool: &TilePool, hand: &Vec<u8>, distinct: bool) -> (r: bool)
    requires
        pool.wf(),
        hand@.len() == KIND_COUNT,
        k < KIND_COUNT,
    ensures
        r == group_fits(g, k as int, pool@, hand@, distinct),
{
    match g {
        TileGroup::Shuntsu => {
            if k >= 27 || kind_number(k) + 2 > 9 {
                false
            } else {
                pool.remaining(k) >= 1 && pool.remaining(k + 1) >= 1 && pool.remaining(k + 2) >= 1
                    && (!distinct || (hand[k] == 0 && hand[k + 1] == 0 && hand[k + 2] == 0))
            }
        },
        _ => pool.remaining(k) >= g.tile_count() && (!distinct || hand[k] == 0),
    }
}

/// Draws one group of type `g` from the pool into the hand, its starting kind picked at
/// random among those that fit. Fails with `PoolExhausted`, changing nothing, when none fits.
pub fn assemble_group(
    hand: &mut Vec<u8>,
    pool: &mut TilePool,
    g: TileGroup,
    distinct: bool,
    restrictions: &HandRestrictions,
    rng: &mut SeededRng,
) -> (r: Result<(), GenerationError>)
    requires
        old(pool).wf(),
        conserved(old(hand)@, old(pool)@, *restrictions),
    ensures
        final(pool).wf(),
        conserved(final(hand)@, final(pool)@, *restrictions),
        r is Ok == exists|k: int| group_fits(g, k, old(pool)@, old(hand)@, distinct),
        r is Err ==> r == Err::<(), GenerationError>(GenerationError::PoolExhausted),
        r is Ok ==> exists|k: int|
            group_fits(g, k, old(pool)@, old(hand)@, distinct) && final(hand)@ == add_group(
                old(hand)@,
                g,
                k,
            ),
        r is Ok ==> total(final(hand)@) == total(old(hand)@) + g.size(),
        r is Err ==> final(hand)@ == old(hand)@ && final(pool)@ == old(pool)@,
{
    let mut candidates: Vec<usize> = Vec::new();
    let mut k: usize = 0;
    while k < KIND_COUNT
        invariant
            k <= KIND_COUNT,
            pool.wf(),
            hand@.len() == KIND_COUNT,
            forall|i: int| 0 <= i < candidates@.len() ==> candidates@[i] < KIND_COUNT && group_fits(g, candidates@[i] as int, pool@, hand@, distinct),
            forall|j: int| 0 <= j < k && group_fits(g, j, pool@, hand@, distinct) ==> candidates@.contains(j as usize),
        decreases KIND_COUNT - k,
    {
        let ghost before = candidates@;
        if group_fits_at(g, k, pool, hand, distinct) {
            candidates.push(k);
        }
        proof {
            assert forall|j: int|
                0 <= j < k + 1 && group_fits(g, j, pool@, hand@, distinct) implies candidates@.contains(
                j as usize,
            ) by {
                if j < k {
                    let i = choose|i: int| 0 <= i < before.len() && before[i] == j as usize;
                    assert(candidates@[i] == j as usize);
                } else {
                    assert(candidates@[candidates@.len() - 1] == k);
                }
            }
        }
        k = k + 1;
    }
    if candidates.len() == 0 {
        assert forall|j: int| !group_fits(g, j, pool@, hand@, distinct) by {
            if group_fits(g, j, pool@, hand@, distinct) {
                assert(candidates@.contains(j as usize));
            }
        }
        return Err(GenerationError::PoolExhausted);
    }
    let pick = rng.below(candidates.len() as u64) as usize;
    let start = candidates[pick];
    let ghost hand_before = hand@;
    let ghost pool_before = pool@;
    assert(group_fits(g, start as int, pool_before, hand_before, distinct));
    match g {
        TileGroup::Shuntsu => {
            move_to_hand(hand, pool, start, restrictions);
            move_to_hand(hand, pool, start + 1, restrictions);
            move_to_hand(hand, pool, start + 2, restrictions);
        },
        _ => {
            let n = g.tile_count();
            assert(pool_before[start as int] >= n);
            assert(hand_before[start as int] + pool_before[start as int] <= MAX_COPIES);
            let mut j: u8 = 0;
            while j < n
                invariant
                    n == g.size(),
                    j <= n,
                    start < KIND_COUNT,
                    pool_before.len() == KIND_COUNT,
                    hand_before.len() == KIND_COUNT,
                    hand_before[start as int] + pool_before[start as int] <= MAX_COPIES,
                    pool.wf(),
                    conserved(hand@, pool@, *restrictions),
                    pool_before[start as int] >= n,
                    hand@ == hand_before.update(start as int, (hand_before[start as int] + j) as u8),
                    pool@ == pool_before.update(start as int, (pool_before[start as int] - j) as u8),
                    total(hand@) == total(hand_before) + j,
                decreases n - j,
            {
                move_to_hand(hand, pool, start, restrictions);
                j = j + 1;
                assert(hand@ =~= hand_before.update(start as int, (hand_before[start as int] + j) as u8));
                assert(pool@ =~= pool_before.update(start as int, (pool_before[start as int] - j) as u8));
            }
        },
    }
    assert(hand@ =~= add_group(hand_before, g, start as int));
    Ok(())
}

} // verus!
