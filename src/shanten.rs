use vstd::prelude::*;
use vstd::math::min;
use crate::pool::total;
use crate::types::{number_of_kind, KIND_COUNT};
use crate::variants::copy_list;

verus! {

/// Shanten of a decomposition into `m` complete groups, `t` partial groups and `h` heads
/// (0 or 1): a regular hand holds four groups and a head, and partial groups beyond the
/// four group slots do not count.
pub open spec fn decomposition_value(m: int, t: int, h: int) -> int {
    8 - 2 * m - (if m + t > 4 { 4 - m } else { t }) - h
}

/// Whether kinds `i` and `i + d` are suited tiles of the same suit.
pub open spec fn same_suit_ahead(i: int, d: int) -> bool {
    0 <= i < 27 && number_of_kind(i as nat) + d <= 9
}

/// The best decomposition value over every way to split the tiles of kinds `i..34` into
/// complete groups (triplets, runs), partial groups (pairs, adjacent or one-apart suited
/// tiles), at most one head and isolated tiles, given `m`, `t` and `h` so far.
pub open spec fn regular_search(c: Seq<u8>, i: int, m: int, t: int, h: int) -> int
    decreases 34 - i, c[i] as int,
{
    if i >= 34 || c.len() != 34 || i < 0 {
        decomposition_value(m, t, h)
    } else if c[i] == 0 {
        regular_search(c, i + 1, m, t, h)
    } else {
        let ci = c[i];
        let isolated = regular_search(c.update(i, (ci - 1) as u8), i, m, t, h);
        let a = if ci >= 3 {
            min(isolated, regular_search(c.update(i, (ci - 3) as u8), i, m + 1, t, h))
        } else {
            isolated
        };
        let b = if same_suit_ahead(i, 2) && c[i + 1] > 0 && c[i + 2] > 0 {
            min(
                a,
                regular_search(
                    c.update(i, (ci - 1) as u8).update(i + 1, (c[i + 1] - 1) as u8).update(
                        i + 2,
                        (c[i + 2] - 1) as u8,
                    ),
                    i,
                    m + 1,
                    t,
                    h,
                ),
            )
        } else {
            a
        };
        let d = if ci >= 2 && h == 0 {
            min(b, regular_search(c.update(i, (ci - 2) as u8), i, m, t, 1))
        } else {
            b
        };
        let e = if ci >= 2 {
            min(d, regular_search(c.update(i, (ci - 2) as u8), i, m, t + 1, h))
        } else {
            d
        };
        let f = if same_suit_ahead(i, 1) && c[i + 1] > 0 {
            min(
                e,
                regular_search(
                    c.update(i, (ci - 1) as u8).update(i + 1, (c[i + 1] - 1) as u8),
                    i,
                    m,
                    t + 1,
                    h,
                ),
            )
        } else {
            e
        };
        if same_suit_ahead(i, 2) && c[i + 2] > 0 {
            min(
                f,
                regular_search(
                    c.update(i, (ci - 1) as u8).update(i + 2, (c[i + 2] - 1) as u8),
                    i,
                    m,
                    t + 1,
                    h,
                ),
            )
        } else {
            f
        }
    }
}

/// Number of kinds below `n` held at least `at_least` times.
pub open spec fn kinds_with(c: Seq<u8>, n: int, at_least: u8) -> int
    decreases n,
{
    if n <= 0 {
        0
    } else {
        kinds_with(c, n - 1, at_least) + if c[n - 1] >= at_least {
            1int
        } else {
            0int
        }
    }
}

/// Shanten toward seven distinct pairs.
pub open spec fn seven_pairs_shanten(c: Seq<u8>) -> int {
    let pairs = kinds_with(c, 34, 2);
    let kinds = kinds_with(c, 34, 1);
    6 - pairs + if kinds < 7 {
        7 - kinds
    } else {
        0
    }
}

/// Shanten of a hand given by its count per kind: the fewest exchanges that separate it
/// from a winning hand, over the regular shape and seven pairs; -1 is a winning hand.
pub open spec fn shanten(c: Seq<u8>) -> int {
    min(regular_search(c, 0, 0, 0, 0), seven_pairs_shanten(c))
}

pub proof fn lemma_total_nonnegative(s: Seq<u8>)
    ensures
        total(s) >= 0,
    decreases s.len(),
{
    if s.len() > 0 {
        lemma_total_nonnegative(s.drop_last());
    }
}

pub proof fn lemma_total_zero(s: Seq<u8>)
    requires
        forall|k: int| 0 <= k < s.len() ==> s[k] == 0,
    ensures
        total(s) == 0,
    decreases s.len(),
{
    if s.len() > 0 {
        lemma_total_zero(s.drop_last());
    }
}

pub proof fn lemma_total_update(s: Seq<u8>, i: int, v: u8)
    requires
        0 <= i < s.len(),
    ensures
        total(s.update(i, v)) == total(s) - s[i] + v,
    decreases s.len(),
{
    if i == s.len() - 1 {
        assert(s.update(i, v).drop_last() =~= s.drop_last());
    } else {
        assert(s.update(i, v).drop_last() =~= s.drop_last().update(i, v));
        lemma_total_update(s.drop_last(), i, v);
    }
}

pub(crate) fn kind_number(i: usize) -> (r: usize)
    requires
        i < 27,
    ensures
        r == number_of_kind(i as nat),
{
    if i < 9 {
        i + 1
    } else if i < 18 {
        i - 8
    } else {
        i - 17
    }
}

fn min_i32(a: i32, b: i32) -> (r: i32)
    ensures
        r == min(a as int, b as int),
{
    if a < b {
        a
    } else {
        b
    }
}

fn search(c: &mut Vec<u8>, i: usize, m: u8, t: u8, h: u8) -> (r: i32)
    requires
        old(c)@.len() == KIND_COUNT,
        i <= KIND_COUNT,
        h <= 1,
        total(old(c)@) + 3 * m + 2 * t + 2 * h <= 14,
    ensures
        final(c)@ == old(c)@,
        r == regular_search(old(c)@, i as int, m as int, t as int, h as int),
    decreases 34 - i, old(c)@[i as int] as int,
{
    let ghost c0 = c@;
    proof {
        lemma_total_nonnegative(c0);
    }
    if i >= KIND_COUNT {
        return 8 - 2 * (m as i32) - (if m + t > 4 { 4 - m as i32 } else { t as i32 }) - h as i32;
    }
    let ci = c[i];
    if ci == 0 {
        return search(c, i + 1, m, t, h);
    }
    proof {
        lemma_total_update(c0, i as int, (ci - 1) as u8);
        lemma_total_nonnegative(c0.update(i as int, (ci - 1) as u8));
    }
    c.set(i, ci - 1);
    let mut best = search(c, i, m, t, h);
    c.set(i, ci);
    assert(c@ =~= c0);
    if ci >= 3 {
        proof {
            lemma_total_update(c0, i as int, (ci - 3) as u8);
        }
        c.set(i, ci - 3);
        let v = search(c, i, m + 1, t, h);
        c.set(i, ci);
        assert(c@ =~= c0);
        best = min_i32(best, v);
    }
    let run_fits = i < 27 && kind_number(i) + 2 <= 9;
    if run_fits && c[i + 1] > 0 && c[i + 2] > 0 {
        let c1 = c[i + 1];
        let c2 = c[i + 2];
        c.set(i, ci - 1);
        proof {
            lemma_total_update(c@, i + 1, (c1 - 1) as u8);
        }
        c.set(i + 1, c1 - 1);
        proof {
            lemma_total_update(c@, i + 2, (c2 - 1) as u8);
        }
        c.set(i + 2, c2 - 1);
        assert(c@ =~= c0.update(i as int, (ci - 1) as u8).update(i + 1, (c1 - 1) as u8).update(
            i + 2,
            (c2 - 1) as u8,
        ));
        let v = search(c, i, m + 1, t, h);
        c.set(i, ci);
        c.set(i + 1, c1);
        c.set(i + 2, c2);
        assert(c@ =~= c0);
        best = min_i32(best, v);
    }
    if ci >= 2 && h == 0 {
        proof {
            lemma_total_update(c0, i as int, (ci - 2) as u8);
        }
        c.set(i, ci - 2);
        let v = search(c, i, m, t, 1);
        c.set(i, ci);
        assert(c@ =~= c0);
        best = min_i32(best, v);
    }
    if ci >= 2 {
        proof {
            lemma_total_update(c0, i as int, (ci - 2) as u8);
        }
        c.set(i, ci - 2);
        let v = search(c, i, m, t + 1, h);
        c.set(i, ci);
        assert(c@ =~= c0);
        best = min_i32(best, v);
    }
    let next_fits = i < 27 && kind_number(i) + 1 <= 9;
    if next_fits && c[i + 1] > 0 {
        let c1 = c[i + 1];
        c.set(i, ci - 1);
        proof {
            lemma_total_update(c@, i + 1, (c1 - 1) as u8);
        }
        c.set(i + 1, c1 - 1);
        assert(c@ =~= c0.update(i as int, (ci - 1) as u8).update(i + 1, (c1 - 1) as u8));
        let v = search(c, i, m, t + 1, h);
        c.set(i, ci);
        c.set(i + 1, c1);
        assert(c@ =~= c0);
        best = min_i32(best, v);
    }
    if run_fits && c[i + 2] > 0 {
        let c2 = c[i + 2];
        c.set(i, ci - 1);
        proof {
            lemma_total_update(c@, i + 2, (c2 - 1) as u8);
        }
        c.set(i + 2, c2 - 1);
        assert(c@ =~= c0.update(i as int, (ci - 1) as u8).update(i + 2, (c2 - 1) as u8));
        let v = search(c, i, m, t + 1, h);
        c.set(i, ci);
        c.set(i + 2, c2);
        assert(c@ =~= c0);
        best = min_i32(best, v);
    }
    best
}

fn count_kinds_with(c: &Vec<u8>, at_least: u8) -> (r: i32)
    requires
        c@.len() == KIND_COUNT,
    ensures
        r == kinds_with(c@, 34, at_least),
        0 <= r <= 34,
{
    let mut n: i32 = 0;
    let mut k: usize = 0;
    while k < KIND_COUNT
        invariant
            k <= KIND_COUNT,
            c@.len() == KIND_COUNT,
            n == kinds_with(c@, k as int, at_least),
            0 <= n <= k,
        decreases KIND_COUNT - k,
    {
        if c[k] >= at_least {
            n = n + 1;
        }
        k = k + 1;
    }
    n
}

/// Shanten of a hand of at most fourteen tiles given by its count per kind.
pub fn compute_shanten(c: &Vec<u8>) -> (r: i32)
    requires
        c@.len() == KIND_COUNT,
        total(c@) <= 14,
    ensures
        r == shanten(c@),
{
    let mut work = copy_list(c);
    let regular = search(&mut work, 0, 0, 0, 0);
    let pairs = count_kinds_with(c, 2);
    let kinds = count_kinds_with(c, 1);
    let seven = 6 - pairs + if kinds < 7 {
        7 - kinds
    } else {
        0
    };
    min_i32(regular, seven)
}

/// The complete hand that a hand is built and judged toward.
#[derive(Clone, Copy, Debug, PartialEq, Eq, Hash, Structural)]
pub struct HandTarget {
    /// Whether the hand is judged against the groups below on distinct kinds, instead of
    /// the regular shape and seven pairs.
    pub irregular: bool,
    pub singles: u8,
    pub pairs: u8,
    pub triplets: u8,
}

impl HandTarget {
    /// The regular shape: four groups and a pair, or seven pairs.
    pub fn regular() -> (r: HandTarget)
        ensures
            r == (HandTarget { irregular: false, singles: 0, pairs: 0, triplets: 0 }),
    {
        HandTarget { irregular: false, singles: 0, pairs: 0, triplets: 0 }
    }
}

/// Tiles in the groups of an irregular target.
pub open spec fn slot_tiles(t: HandTarget) -> int {
    t.singles + 2 * t.pairs + 3 * t.triplets
}

/// The most tiles of `c` that can stay in place toward the groups of `t`, each group on a
/// kind of its own. Matching the most held kinds to the largest groups is best, and it keeps,
/// at each depth `d` from 1 to 3, as many tiles as the smaller of the number of kinds held
/// at least `d` times and the number of groups of at least `d` tiles.
pub open spec fn shape_keep(c: Seq<u8>, t: HandTarget) -> int {
    min(kinds_with(c, 34, 1), t.singles + t.pairs + t.triplets) + min(
        kinds_with(c, 34, 2),
        t.pairs + t.triplets,
    ) + min(kinds_with(c, 34, 3), t.triplets as int)
}

/// Shanten toward the groups of an irregular target: tiles to exchange, less the one that
/// wins; -1 is a complete hand.
pub open spec fn shape_shanten(c: Seq<u8>, t: HandTarget) -> int {
    slot_tiles(t) - 1 - shape_keep(c, t)
}

/// Shanten of `c` toward the target `t`.
pub open spec fn distance(t: HandTarget, c: Seq<u8>) -> int {
    if t.irregular {
        shape_shanten(c, t)
    } else {
        shanten(c)
    }
}

/// The largest shanten that a hand of thirteen tiles can have toward `t`.
pub open spec fn distance_cap(t: HandTarget) -> int {
    if t.irregular {
        13
    } else {
        6
    }
}

pub fn max_distance(t: &HandTarget) -> (r: u8)
    ensures
        r == distance_cap(*t),
{
    if t.irregular {
        13
    } else {
        6
    }
}

/// Shanten toward `t` of a hand of at most fourteen tiles given by its count per kind.
pub fn target_distance(t: &HandTarget, c: &Vec<u8>) -> (r: i32)
    requires
        c@.len() == KIND_COUNT,
        total(c@) <= 14,
    ensures
        r == distance(*t, c@),
{
    if t.irregular {
        let kinds = count_kinds_with(c, 1);
        let pairs = count_kinds_with(c, 2);
        let triples = count_kinds_with(c, 3);
        let groups = t.singles as i32 + t.pairs as i32 + t.triplets as i32;
        let keep = min_i32(kinds, groups) + min_i32(pairs, t.pairs as i32 + t.triplets as i32)
            + min_i32(triples, t.triplets as i32);
        t.singles as i32 + 2 * t.pairs as i32 + 3 * t.triplets as i32 - 1 - keep
    } else {
        compute_shanten(c)
    }
}

} // verus!
