use vstd::prelude::*;
use crate::hand::HandRestrictions;
use crate::types::{
    dragon_of_kind, dragon_offset, number_of_kind, valid_number, suit_of_kind, suit_offset, wind_of_kind,
    wind_offset, DragonColor, NumberedSuit, WindDirection, KIND_COUNT, MAX_COPIES,
};

verus! {

/// Sum of a list of counts.
pub open spec fn total(s: Seq<u8>) -> int
    decreases s.len(),
{
    if s.len() == 0 {
        0
    } else {
        total(s.drop_last()) + s.last()
    }
}

/// Number of kinds below `n` that the restrictions allow.
pub open spec fn allowed_kind_count(restrictions: HandRestrictions, n: nat) -> nat
    decreases n,
{
    if n == 0 {
        0
    } else {
        allowed_kind_count(restrictions, (n - 1) as nat) + if restrictions.allows_kind(
            (n - 1) as nat,
        ) {
            1nat
        } else {
            0nat
        }
    }
}

/// What a fresh pool holds of kind `k`: every copy of an allowed kind, none of another.
pub open spec fn initial_count(restrictions: HandRestrictions, k: nat) -> u8 {
    if restrictions.allows_kind(k) {
        4
    } else {
        0
    }
}

/// The numbers of `v` that name a suited tile, 1 to 9.
pub fn valid_numbers(v: &Vec<u8>) -> (r: Vec<u8>)
    ensures
        forall|i: int| 0 <= i < r@.len() ==> valid_number(#[trigger] r@[i]),
        forall|n: u8| valid_number(n) ==> (r@.contains(n) <==> v@.contains(n)),
{
    let mut r: Vec<u8> = Vec::new();
    let mut i: usize = 0;
    while i < v.len()
        invariant
            i <= v@.len(),
            forall|j: int| 0 <= j < r@.len() ==> valid_number(#[trigger] r@[j]),
            forall|n: u8|
                valid_number(n) ==> (r@.contains(n) <==> exists|j: int| 0 <= j < i && v@[j] == n),
        decreases v@.len() - i,
    {
        let ghost before = r@;
        let n = v[i];
        if 1 <= n && n <= 9 {
            r.push(n);
        }
        proof {
            assert forall|m: u8|
                valid_number(m) implies (r@.contains(m) <==> exists|j: int|
                    0 <= j < i + 1 && v@[j] == m) by {
                if r@.contains(m) {
                    let x = choose|x: int| 0 <= x < r@.len() && r@[x] == m;
                    if x < before.len() {
                        assert(before[x] == m);
                        assert(before.contains(m));
                    } else {
                        assert(v@[i as int] == m);
                    }
                }
                if exists|j: int| 0 <= j < i + 1 && v@[j] == m {
                    let j = choose|j: int| 0 <= j < i + 1 && v@[j] == m;
                    if j < i {
                        let x = choose|x: int| 0 <= x < before.len() && before[x] == m;
                        assert(r@[x] == m);
                    } else {
                        assert(r@[r@.len() - 1] == m);
                    }
                }
            }
        }
        i = i + 1;
    }
    proof {
        assert forall|n: u8| valid_number(n) implies (r@.contains(n) <==> v@.contains(n)) by {
            if v@.contains(n) {
                let j = choose|j: int| 0 <= j < v@.len() && v@[j] == n;
                assert(exists|j: int| 0 <= j < i && v@[j] == n);
            }
        }
    }
    r
}

/// The remaining copies of each tile kind during one generation.
pub struct TilePool {
    pool: Vec<u8>,
}

impl View for TilePool {
    type V = Seq<u8>;

    closed spec fn view(&self) -> Seq<u8> {
        self.pool@
    }
}

impl TilePool {
    /// One count per kind, none above four.
    pub open spec fn wf(&self) -> bool {
        &&& self@.len() == KIND_COUNT
        &&& forall|k: int| 0 <= k < KIND_COUNT ==> self@[k] <= MAX_COPIES
    }

    pub fn new(restrictions: &HandRestrictions) -> (r: TilePool)
        ensures
            r.wf(),
            forall|k: int| 0 <= k < KIND_COUNT ==> r@[k] == initial_count(*restrictions, k as nat),
    {
        let mut tile_pool: Vec<u8> = Vec::new();
        let mut i: usize = 0;
        while i < KIND_COUNT
            invariant
                i <= KIND_COUNT,
                tile_pool@.len() == i,
                forall|k: int| 0 <= k < i ==> tile_pool@[k] == 0,
            decreases KIND_COUNT - i,
        {
            tile_pool.push(0);
            i = i + 1;
        }
        let suits = restrictions.suit_variants_allowed();
        let listed = restrictions.suit_numbers_allowed();
        let numbers = valid_numbers(&listed);
        Self::fill_pool_with_suit_tiles(&mut tile_pool, &suits, &numbers);
        let winds = restrictions.wind_directions_allowed();
        let dragons = restrictions.dragon_colors_allowed();
        Self::fill_pool_with_honor_tiles(&mut tile_pool, &winds, &dragons);
        let r = TilePool { pool: tile_pool };
        assert forall|k: int| 0 <= k < KIND_COUNT implies r@[k] == initial_count(
            *restrictions,
            k as nat,
        ) by {
            if k < 27 {
                assert(valid_number(number_of_kind(k as nat) as u8));
            } else if k < 31 {
            } else {
            }
        }
        r
    }

    /// Copies in a fresh pool: four for each allowed kind.
    pub fn compute_total_tiles_available_with(restrictions: &HandRestrictions) -> (r: u32)
        ensures
            r == 4 * allowed_kind_count(*restrictions, KIND_COUNT as nat),
    {
        let pool = TilePool::new(restrictions);
        let mut sum: u32 = 0;
        let mut k: usize = 0;
        while k < KIND_COUNT
            invariant
                k <= KIND_COUNT,
                pool.wf(),
                forall|j: int| 0 <= j < KIND_COUNT ==> pool@[j] == initial_count(*restrictions, j as nat),
                sum == 4 * allowed_kind_count(*restrictions, k as nat),
                sum <= 4 * k,
            decreases KIND_COUNT - k,
        {
            sum = sum + pool.remaining(k) as u32;
            k = k + 1;
        }
        sum
    }

    /// Puts four copies of each tile of the given suits and numbers that the pool does not
    /// hold yet; kinds already held keep their count.
    pub fn fill_pool_with_suit_tiles(
        pool: &mut Vec<u8>,
        suits_allowed: &Vec<NumberedSuit>,
        numbers_allowed: &Vec<u8>,
    )
        requires
            old(pool)@.len() == KIND_COUNT,
            forall|i: int| 0 <= i < numbers_allowed@.len() ==> valid_number(#[trigger] numbers_allowed@[i]),
        ensures
            final(pool)@.len() == KIND_COUNT,
            forall|k: int|
                0 <= k < KIND_COUNT ==> final(pool)@[k] == if k < 27 && suits_allowed@.contains(
                    suit_of_kind(k as nat),
                ) && numbers_allowed@.contains(number_of_kind(k as nat) as u8) && old(pool)@[k] == 0 {
                    4
                } else {
                    old(pool)@[k]
                },
    {
        let ghost start = pool@;
        let mut i: usize = 0;
        while i < suits_allowed.len()
            invariant
                i <= suits_allowed@.len(),
                pool@.len() == KIND_COUNT,
                forall|k: int|
                    0 <= k < KIND_COUNT ==> pool@[k] == if k < 27 && (exists|a: int|
                        0 <= a < i && suits_allowed@[a] == suit_of_kind(k as nat))
                        && numbers_allowed@.contains(number_of_kind(k as nat) as u8) && start[k] == 0 {
                        4
                    } else {
                        start[k]
                    },
            decreases suits_allowed@.len() - i,
        {
            let suit = suits_allowed[i];
            let mut j: usize = 0;
            while j < numbers_allowed.len()
                invariant
                    i < suits_allowed@.len(),
                    suit == suits_allowed@[i as int],
                    j <= numbers_allowed@.len(),
                    pool@.len() == KIND_COUNT,
                    forall|k: int|
                        0 <= k < KIND_COUNT ==> pool@[k] == if k < 27 && (((exists|a: int|
                            0 <= a < i && suits_allowed@[a] == suit_of_kind(k as nat))
                            && numbers_allowed@.contains(number_of_kind(k as nat) as u8)) || (
                        suit == suit_of_kind(k as nat) && exists|b: int|
                            0 <= b < j && numbers_allowed@[b] == number_of_kind(k as nat) as u8))
                            && start[k] == 0 {
                            4
                        } else {
                            start[k]
                        },
                decreases numbers_allowed@.len() - j,
            {
                let number = numbers_allowed[j];
                if 1 <= number && number <= 9 {
                    let idx: usize = match suit {
                        NumberedSuit::Characters => (number - 1) as usize,
                        NumberedSuit::Circles => (number + 8) as usize,
                        NumberedSuit::Bamboos => (number + 17) as usize,
                    };
                    assert(idx == suit_offset(suit) + number - 1);
                    if pool[idx] == 0 {
                        pool.set(idx, MAX_COPIES);
                    }
                }
                j = j + 1;
                assert forall|k: int| 0 <= k < 27 && suit == suit_of_kind(k as nat) && numbers_allowed@[j - 1] == #[trigger] number_of_kind(k as nat) as u8
                    implies exists|b: int| 0 <= b < j && numbers_allowed@[b] == number_of_kind(k as nat) as u8 by {
                    assert(numbers_allowed@[j - 1] == number_of_kind(k as nat) as u8);
                }
            }
            i = i + 1;
            assert forall|k: int| 0 <= k < 27 && suits_allowed@[i - 1] == #[trigger] suit_of_kind(k as nat)
                implies exists|a: int| 0 <= a < i && suits_allowed@[a] == suit_of_kind(k as nat) by {
                assert(suits_allowed@[i - 1] == suit_of_kind(k as nat));
            }
        }
    }

    /// Puts four copies of each tile of the given winds and dragons that the pool does not
    /// hold yet; kinds already held keep their count.
    pub fn fill_pool_with_honor_tiles(
        pool: &mut Vec<u8>,
        wind_directions_allowed: &Vec<WindDirection>,
        dragon_colors_allowed: &Vec<DragonColor>,
    )
        requires
            old(pool)@.len() == KIND_COUNT,
        ensures
            final(pool)@.len() == KIND_COUNT,
            forall|k: int|
                0 <= k < KIND_COUNT ==> final(pool)@[k] == if ((27 <= k < 31
                    && wind_directions_allowed@.contains(wind_of_kind(k as nat))) || (31 <= k
                    && dragon_colors_allowed@.contains(dragon_of_kind(k as nat)))) && old(pool)@[k]
                    == 0 {
                    4
                } else {
                    old(pool)@[k]
                },
    {
        let ghost start = pool@;
        let mut i: usize = 0;
        while i < wind_directions_allowed.len()
            invariant
                i <= wind_directions_allowed@.len(),
                pool@.len() == KIND_COUNT,
                forall|k: int|
                    0 <= k < KIND_COUNT ==> pool@[k] == if 27 <= k < 31 && (exists|a: int|
                        0 <= a < i && wind_directions_allowed@[a] == wind_of_kind(k as nat))
                        && start[k] == 0 {
                        4
                    } else {
                        start[k]
                    },
            decreases wind_directions_allowed@.len() - i,
        {
            let direction = wind_directions_allowed[i];
            let idx: usize = match direction {
                WindDirection::East => 27,
                WindDirection::South => 28,
                WindDirection::West => 29,
                WindDirection::North => 30,
            };
            assert(idx == 27 + wind_offset(direction));
            if pool[idx] == 0 {
                pool.set(idx, MAX_COPIES);
            }
            i = i + 1;
            assert(wind_directions_allowed@[i - 1] == wind_of_kind(idx as nat));
        }
        let mut j: usize = 0;
        while j < dragon_colors_allowed.len()
            invariant
                j <= dragon_colors_allowed@.len(),
                pool@.len() == KIND_COUNT,
                forall|k: int|
                    0 <= k < KIND_COUNT ==> pool@[k] == if ((27 <= k < 31
                        && wind_directions_allowed@.contains(wind_of_kind(k as nat))) || (31 <= k
                        && exists|a: int|
                        0 <= a < j && dragon_colors_allowed@[a] == dragon_of_kind(k as nat)))
                        && start[k] == 0 {
                        4
                    } else {
                        start[k]
                    },
            decreases dragon_colors_allowed@.len() - j,
        {
            let color = dragon_colors_allowed[j];
            let idx: usize = match color {
                DragonColor::White => 31,
                DragonColor::Green => 32,
                DragonColor::Red => 33,
            };
            assert(idx == 31 + dragon_offset(color));
            if pool[idx] == 0 {
                pool.set(idx, MAX_COPIES);
            }
            j = j + 1;
            assert(dragon_colors_allowed@[j - 1] == dragon_of_kind(idx as nat));
        }
    }

    pub fn remaining(&self, k: usize) -> (r: u8)
        requires
            self.wf(),
            k < KIND_COUNT,
        ensures
            r == self@[k as int],
    {
        self.pool[k]
    }

    /// Takes one copy of kind `k`; fails, changing nothing, when none is left.
    pub fn draw(&mut self, k: usize) -> (r: bool)
        requires
            old(self).wf(),
            k < KIND_COUNT,
        ensures
            final(self).wf(),
            r == (old(self)@[k as int] > 0),
            r ==> final(self)@ == old(self)@.update(k as int, (old(self)@[k as int] - 1) as u8),
            !r ==> final(self)@ == old(self)@,
    {
        let c = self.pool[k];
        if c > 0 {
            self.pool.set(k, c - 1);
            true
        } else {
            false
        }
    }

    /// Puts one copy of kind `k` back. A fifth copy is a bookkeeping error that callers rule out.
    pub fn return_tile(&mut self, k: usize)
        requires
            old(self).wf(),
            k < KIND_COUNT,
            old(self)@[k as int] < MAX_COPIES,
        ensures
            final(self).wf(),
            final(self)@ == old(self)@.update(k as int, (old(self)@[k as int] + 1) as u8),
    {
        let c = self.pool[k];
        self.pool.set(k, c + 1);
    }

    pub fn total_remaining(&self) -> (r: u32)
        requires
            self.wf(),
        ensures
            r == total(self@),
    {
        let mut sum: u32 = 0;
        let mut k: usize = 0;
        while k < KIND_COUNT
            invariant
                k <= KIND_COUNT,
                self.wf(),
                sum == total(self@.take(k as int)),
                sum <= 4 * k,
            decreases KIND_COUNT - k,
        {
            assert(self@.take(k + 1).drop_last() =~= self@.take(k as int));
            sum = sum + self.pool[k] as u32;
            k = k + 1;
        }
        assert(self@.take(KIND_COUNT as int) =~= self@);
        sum
    }
}

} // verus!
