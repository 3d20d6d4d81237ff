use vstd::prelude::*;
use crate::pool::{total, TilePool};
use crate::shanten::{
    distance, target_distance, HandTarget, kinds_with, lemma_total_nonnegative, lemma_total_update, lemma_total_zero,
    shanten,
};
use crate::variants::copy_list;
use crate::types::{lemma_of_kind, Tile, KIND_COUNT};

verus! {

/// A tile of the hand and how good a discard it is.
#[derive(Clone, Copy, Debug, PartialEq, Eq, Structural)]
pub struct DiscardCandidate {
    pub tile: Tile,
    pub score: u32,
}

/// Whether drawing a tile of kind `j` lowers the shanten of `h`.
pub open spec fn improves(t: HandTarget, h: Seq<u8>, j: int) -> bool {
    distance(t, h.update(j, (h[j] + 1) as u8)) < distance(t, h)
}

/// Copies left in `pool` of the kinds below `n` whose draw lowers the shanten of `h`.
pub open spec fn ukeire(t: HandTarget, h: Seq<u8>, pool: Seq<u8>, n: int) -> int
    decreases n,
{
    if n <= 0 {
        0
    } else {
        ukeire(t, h, pool, n - 1) + if pool[n - 1] > 0 && improves(t, h, n - 1) {
            pool[n - 1] as int
        } else {
            0
        }
    }
}

/// The score of discarding one tile of kind `k`: the ukeire of what is left.
pub open spec fn discard_score(t: HandTarget, h: Seq<u8>, pool: Seq<u8>, k: int) -> int {
    ukeire(t, h.update(k, (h[k] - 1) as u8), pool, KIND_COUNT as int)
}

/// The score of each kind held in `h`; zero for the others.
pub open spec fn discard_scores(t: HandTarget, h: Seq<u8>, pool: Seq<u8>) -> Seq<u32> {
    Seq::new(
        KIND_COUNT as nat,
        |k: int|
            if h[k] > 0 {
                discard_score(t, h, pool, k) as u32
            } else {
                0u32
            },
    )
}

/// The held kind below `n` with the highest score, the lowest such kind on a tie; -1 if none.
pub open spec fn best_kind(c: Seq<u8>, s: Seq<u32>, n: int) -> int
    decreases n,
{
    if n <= 0 {
        -1
    } else {
        let b = best_kind(c, s, n - 1);
        if c[n - 1] > 0 && (b < 0 || s[n - 1] > s[b]) {
            n - 1
        } else {
            b
        }
    }
}

/// The hand's tiles ranked by score, highest first, ties by ascending kind, taking at most
/// `rounds` kinds.
pub open spec fn ranking(c: Seq<u8>, s: Seq<u32>, rounds: nat) -> Seq<DiscardCandidate>
    decreases rounds,
{
    if rounds == 0 {
        Seq::empty()
    } else {
        let b = best_kind(c, s, KIND_COUNT as int);
        if b < 0 {
            Seq::empty()
        } else {
            Seq::new(c[b] as nat, |_i: int| DiscardCandidate { tile: Tile::of_kind(b as nat), score: s[b] })
                + ranking(c.update(b, 0), s, (rounds - 1) as nat)
        }
    }
}

proof fn lemma_best_kind(c: Seq<u8>, s: Seq<u32>, n: int)
    requires
        0 <= n <= c.len(),
        c.len() == s.len(),
    ensures
        best_kind(c, s, n) < n,
        best_kind(c, s, n) >= 0 ==> c[best_kind(c, s, n)] > 0,
        forall|j: int| 0 <= j < n && c[j] > 0 ==> best_kind(c, s, n) >= 0,
        forall|j: int| 0 <= j < n && c[j] > 0 ==> s[j] <= s[best_kind(c, s, n)],
        forall|j: int| 0 <= j < best_kind(c, s, n) && c[j] > 0 ==> s[j] < s[best_kind(c, s, n)],
    decreases n,
{
    if n > 0 {
        lemma_best_kind(c, s, n - 1);
    }
}

pub proof fn lemma_held_kinds_nonnegative(c: Seq<u8>, n: int)
    ensures
        0 <= kinds_with(c, n, 1),
        n >= 0 ==> kinds_with(c, n, 1) <= n,
    decreases n,
{
    if n > 0 {
        lemma_held_kinds_nonnegative(c, n - 1);
    }
}

proof fn lemma_held_kinds_clear(c: Seq<u8>, b: int, n: int)
    requires
        0 <= b < c.len(),
        0 <= n <= c.len(),
        c[b] > 0,
    ensures
        kinds_with(c.update(b, 0), n, 1) == kinds_with(c, n, 1) - if b < n {
            1int
        } else {
            0int
        },
    decreases n,
{
    if n > 0 {
        lemma_held_kinds_clear(c, b, n - 1);
    }
}

proof fn lemma_ranking_covers(c: Seq<u8>, s: Seq<u32>, rounds: nat, k: int)
    requires
        c.len() == KIND_COUNT,
        s.len() == KIND_COUNT,
        0 <= k < KIND_COUNT,
        c[k] > 0,
        rounds >= kinds_with(c, KIND_COUNT as int, 1),
    ensures
        ranking(c, s, rounds).contains(DiscardCandidate { tile: Tile::of_kind(k as nat), score: s[k] }),
    decreases rounds,
{
    let cand = DiscardCandidate { tile: Tile::of_kind(k as nat), score: s[k] };
    lemma_best_kind(c, s, KIND_COUNT as int);
    let b = best_kind(c, s, KIND_COUNT as int);
    lemma_held_kinds_clear(c, b, KIND_COUNT as int);
    lemma_held_kinds_nonnegative(c.update(b, 0), KIND_COUNT as int);
    let block = Seq::new(
        c[b] as nat,
        |_i: int| DiscardCandidate { tile: Tile::of_kind(b as nat), score: s[b] },
    );
    let rest = ranking(c.update(b, 0), s, (rounds - 1) as nat);
    assert(ranking(c, s, rounds) == block + rest);
    if b == k {
        assert((block + rest)[0] == cand);
    } else {
        lemma_ranking_covers(c.update(b, 0), s, (rounds - 1) as nat, k);
        let i = choose|i: int| 0 <= i < rest.len() && rest[i] == cand;
        assert((block + rest)[block.len() + i] == cand);
    }
}

proof fn lemma_ranking_bounded(c: Seq<u8>, s: Seq<u32>, rounds: nat, bound: u32)
    requires
        c.len() == KIND_COUNT,
        s.len() == KIND_COUNT,
        forall|j: int| 0 <= j < KIND_COUNT && c[j] > 0 ==> s[j] <= bound,
    ensures
        forall|i: int| 0 <= i < ranking(c, s, rounds).len() ==> ranking(c, s, rounds)[i].score <= bound,
    decreases rounds,
{
    if rounds > 0 {
        lemma_best_kind(c, s, KIND_COUNT as int);
        let b = best_kind(c, s, KIND_COUNT as int);
        if b >= 0 {
            lemma_ranking_bounded(c.update(b, 0), s, (rounds - 1) as nat, bound);
        }
    }
}

proof fn lemma_ranking_entries(c: Seq<u8>, s: Seq<u32>, rounds: nat)
    requires
        c.len() == KIND_COUNT,
        s.len() == KIND_COUNT,
    ensures
        forall|i: int|
            #![trigger ranking(c, s, rounds)[i]]
            0 <= i < ranking(c, s, rounds).len() ==> {
                let e = ranking(c, s, rounds)[i];
                &&& e.tile.kind() < KIND_COUNT
                &&& c[e.tile.kind() as int] > 0
                &&& e.score == s[e.tile.kind() as int]
            },
    decreases rounds,
{
    if rounds > 0 {
        lemma_best_kind(c, s, KIND_COUNT as int);
        let b = best_kind(c, s, KIND_COUNT as int);
        if b >= 0 {
            lemma_of_kind(b as nat);
            let block = Seq::new(
                c[b] as nat,
                |_i: int| DiscardCandidate { tile: Tile::of_kind(b as nat), score: s[b] },
            );
            let rest = ranking(c.update(b, 0), s, (rounds - 1) as nat);
            lemma_ranking_entries(c.update(b, 0), s, (rounds - 1) as nat);
            let r = ranking(c, s, rounds);
            assert(r == block + rest);
            assert forall|i: int| #![trigger r[i]] 0 <= i < r.len() implies {
                let e = r[i];
                &&& e.tile.kind() < KIND_COUNT
                &&& c[e.tile.kind() as int] > 0
                &&& e.score == s[e.tile.kind() as int]
            } by {
                if i >= block.len() {
                    assert(r[i] == rest[i - block.len()]);
                }
            }
        }
    }
}

/// Equal scores come in ascending kind order.
pub proof fn lemma_ranking_ties(c: Seq<u8>, s: Seq<u32>, rounds: nat)
    requires
        c.len() == KIND_COUNT,
        s.len() == KIND_COUNT,
    ensures
        forall|i: int, j: int|
            0 <= i < j < ranking(c, s, rounds).len() && ranking(c, s, rounds)[i].score == ranking(
                c,
                s,
                rounds,
            )[j].score ==> ranking(c, s, rounds)[i].tile.kind() <= ranking(c, s, rounds)[j].tile.kind(),
    decreases rounds,
{
    if rounds > 0 {
        lemma_best_kind(c, s, KIND_COUNT as int);
        let b = best_kind(c, s, KIND_COUNT as int);
        if b >= 0 {
            lemma_of_kind(b as nat);
            let block = Seq::new(
                c[b] as nat,
                |_i: int| DiscardCandidate { tile: Tile::of_kind(b as nat), score: s[b] },
            );
            let rest = ranking(c.update(b, 0), s, (rounds - 1) as nat);
            lemma_ranking_ties(c.update(b, 0), s, (rounds - 1) as nat);
            lemma_ranking_entries(c.update(b, 0), s, (rounds - 1) as nat);
            let r = ranking(c, s, rounds);
            assert(r == block + rest);
            assert forall|i: int, j: int|
                0 <= i < j < r.len() && r[i].score == r[j].score implies r[i].tile.kind()
                <= r[j].tile.kind() by {
                if j < block.len() {
                } else if i < block.len() {
                    assert(r[j] == rest[j - block.len()]);
                    let k = rest[j - block.len()].tile.kind() as int;
                    assert(c.update(b, 0)[k] > 0);
                } else {
                    assert(r[i] == rest[i - block.len()]);
                    assert(r[j] == rest[j - block.len()]);
                }
            }
        }
    }
}

/// The ranking is ordered: scores never rise from one entry to the next.
pub proof fn lemma_ranking_sorted(c: Seq<u8>, s: Seq<u32>, rounds: nat)
    requires
        c.len() == KIND_COUNT,
        s.len() == KIND_COUNT,
    ensures
        forall|i: int, j: int|
            0 <= i < j < ranking(c, s, rounds).len() ==> ranking(c, s, rounds)[i].score >= ranking(
                c,
                s,
                rounds,
            )[j].score,
    decreases rounds,
{
    if rounds > 0 {
        lemma_best_kind(c, s, KIND_COUNT as int);
        let b = best_kind(c, s, KIND_COUNT as int);
        if b >= 0 {
            let block = Seq::new(
                c[b] as nat,
                |_i: int| DiscardCandidate { tile: Tile::of_kind(b as nat), score: s[b] },
            );
            let rest = ranking(c.update(b, 0), s, (rounds - 1) as nat);
            lemma_ranking_sorted(c.update(b, 0), s, (rounds - 1) as nat);
            lemma_ranking_bounded(c.update(b, 0), s, (rounds - 1) as nat, s[b]);
            let r = ranking(c, s, rounds);
            assert(r == block + rest);
            assert forall|i: int, j: int| 0 <= i < j < r.len() implies r[i].score >= r[j].score by {
                if j < block.len() {
                } else if i < block.len() {
                    assert(r[j] == rest[j - block.len()]);
                } else {
                    assert(r[i] == rest[i - block.len()]);
                    assert(r[j] == rest[j - block.len()]);
                }
            }
        }
    }
}

/// Ranking every held kind lists each tile of the hand once.
pub proof fn lemma_ranking_length(c: Seq<u8>, s: Seq<u32>, rounds: nat)
    requires
        c.len() == KIND_COUNT,
        s.len() == KIND_COUNT,
        rounds >= kinds_with(c, KIND_COUNT as int, 1),
    ensures
        ranking(c, s, rounds).len() == total(c),
    decreases rounds,
{
    lemma_best_kind(c, s, KIND_COUNT as int);
    let b = best_kind(c, s, KIND_COUNT as int);
    if b < 0 {
        lemma_total_zero(c);
    } else {
        lemma_held_kinds_clear(c, b, KIND_COUNT as int);
        lemma_held_kinds_nonnegative(c.update(b, 0), KIND_COUNT as int);
        lemma_ranking_length(c.update(b, 0), s, (rounds - 1) as nat);
        lemma_total_update(c, b, 0);
    }
}

/// Entries of `r` for tile `t`.
pub open spec fn tally(r: Seq<DiscardCandidate>, t: Tile) -> nat
    decreases r.len(),
{
    if r.len() == 0 {
        0
    } else {
        tally(r.drop_last(), t) + if r.last().tile == t {
            1nat
        } else {
            0nat
        }
    }
}

proof fn lemma_tally_concat(a: Seq<DiscardCandidate>, b: Seq<DiscardCandidate>, t: Tile)
    ensures
        tally(a + b, t) == tally(a, t) + tally(b, t),
    decreases b.len(),
{
    if b.len() == 0 {
        assert(a + b =~= a);
    } else {
        assert((a + b).drop_last() =~= a + b.drop_last());
        lemma_tally_concat(a, b.drop_last(), t);
    }
}

proof fn lemma_tally_block(n: nat, x: DiscardCandidate, t: Tile)
    ensures
        tally(Seq::new(n, |_i: int| x), t) == if x.tile == t {
            n
        } else {
            0
        },
    decreases n,
{
    if n > 0 {
        assert(Seq::new(n, |_i: int| x).drop_last() =~= Seq::new((n - 1) as nat, |_i: int| x));
        lemma_tally_block((n - 1) as nat, x, t);
    }
}

proof fn lemma_ranking_tally(c: Seq<u8>, s: Seq<u32>, rounds: nat, t: Tile)
    requires
        c.len() == KIND_COUNT,
        s.len() == KIND_COUNT,
        rounds >= kinds_with(c, KIND_COUNT as int, 1),
    ensures
        tally(ranking(c, s, rounds), t) == if t.valid() && t.kind() < KIND_COUNT && t
            == Tile::of_kind(t.kind()) {
            c[t.kind() as int] as nat
        } else {
            0
        },
    decreases rounds,
{
    lemma_best_kind(c, s, KIND_COUNT as int);
    let b = best_kind(c, s, KIND_COUNT as int);
    if t.valid() && t.kind() < KIND_COUNT {
        lemma_of_kind(t.kind());
    }
    if b < 0 {
        assert(ranking(c, s, rounds) =~= Seq::empty());
    } else {
        lemma_of_kind(b as nat);
        lemma_held_kinds_clear(c, b, KIND_COUNT as int);
        lemma_held_kinds_nonnegative(c.update(b, 0), KIND_COUNT as int);
        let x = DiscardCandidate { tile: Tile::of_kind(b as nat), score: s[b] };
        let block = Seq::new(c[b] as nat, |_i: int| x);
        let rest = ranking(c.update(b, 0), s, (rounds - 1) as nat);
        assert(block =~= Seq::new(
            c[b] as nat,
            |_i: int| DiscardCandidate { tile: Tile::of_kind(b as nat), score: s[b] },
        ));
        assert(ranking(c, s, rounds) == block + rest);
        lemma_tally_concat(block, rest, t);
        lemma_tally_block(c[b] as nat, x, t);
        lemma_ranking_tally(c.update(b, 0), s, (rounds - 1) as nat, t);
    }
}

/// The ranking lists each tile of the hand exactly as often as the hand holds it, and no
/// other tile: it is a reordering of the hand.
pub proof fn lemma_ranking_permutes_hand(shape: HandTarget, hand: Seq<u8>, pool: Seq<u8>, t: Tile)
    requires
        hand.len() == KIND_COUNT,
    ensures
        tally(ranking(hand, discard_scores(shape, hand, pool), KIND_COUNT as nat), t) == if t.valid()
            && t.kind() < KIND_COUNT && t == Tile::of_kind(t.kind()) {
            hand[t.kind() as int] as nat
        } else {
            0
        },
{
    lemma_held_kinds_nonnegative(hand, KIND_COUNT as int);
    lemma_ranking_tally(hand, discard_scores(shape, hand, pool), KIND_COUNT as nat, t);
}

/// Every tile of the hand receives a score: each held kind appears in the ranking, with
/// the score of discarding it.
pub proof fn lemma_every_tile_scored(shape: HandTarget, hand: Seq<u8>, pool: Seq<u8>, k: int)
    requires
        hand.len() == KIND_COUNT,
        0 <= k < KIND_COUNT,
        hand[k] > 0,
    ensures
        ranking(hand, discard_scores(shape, hand, pool), KIND_COUNT as nat).contains(
            DiscardCandidate {
                tile: Tile::of_kind(k as nat),
                score: discard_score(shape, hand, pool, k) as u32,
            },
        ),
{
    lemma_held_kinds_nonnegative(hand, KIND_COUNT as int);
    lemma_ranking_covers(hand, discard_scores(shape, hand, pool), KIND_COUNT as nat, k);
}

/// Scoring is idempotent: ranking the same hand against the same pool twice gives the same
/// list, since the ranking is a function of the two alone.
pub proof fn lemma_scoring_idempotent(
    shape: HandTarget,
    hand: Seq<u8>,
    pool: Seq<u8>,
    first: Seq<DiscardCandidate>,
    second: Seq<DiscardCandidate>,
)
    requires
        first == ranking(hand, discard_scores(shape, hand, pool), KIND_COUNT as nat),
        second == ranking(hand, discard_scores(shape, hand, pool), KIND_COUNT as nat),
    ensures
        first == second,
{
}

proof fn lemma_element_below_total(s: Seq<u8>, j: int)
    requires
        0 <= j < s.len(),
    ensures
        s[j] <= total(s),
{
    lemma_total_update(s, j, 0);
    lemma_total_nonnegative(s.update(j, 0));
}

/// Score of discarding one tile of kind `k` from `hand`.
pub fn score_discard(shape: &HandTarget, hand: &Vec<u8>, pool: &TilePool, k: usize) -> (r: u32)
    requires
        hand@.len() == KIND_COUNT,
        pool.wf(),
        total(hand@) <= 14,
        k < KIND_COUNT,
        hand@[k as int] > 0,
    ensures
        r == discard_score(*shape, hand@, pool@, k as int),
{
    let mut rest = copy_list(hand);
    rest.set(k, hand[k] - 1);
    proof {
        lemma_total_update(hand@, k as int, (hand@[k as int] - 1) as u8);
    }
    let ghost h = rest@;
    let base = target_distance(shape, &rest);
    let mut sum: u32 = 0;
    let mut j: usize = 0;
    while j < KIND_COUNT
        invariant
            j <= KIND_COUNT,
            pool.wf(),
            h.len() == KIND_COUNT,
            total(h) <= 13,
            rest@ == h,
            base == distance(*shape, h),
            sum == ukeire(*shape, h, pool@, j as int),
            sum <= 4 * j,
        decreases KIND_COUNT - j,
    {
        let left = pool.remaining(j);
        if left > 0 {
            proof {
                lemma_element_below_total(h, j as int);
                lemma_total_update(h, j as int, (h[j as int] + 1) as u8);
            }
            let cj = rest[j];
            rest.set(j, cj + 1);
            let s = target_distance(shape, &rest);
            rest.set(j, cj);
            assert(rest@ =~= h);
            if s < base {
                sum = sum + left as u32;
            }
        }
        j = j + 1;
    }
    sum
}

fn best_held_kind(c: &Vec<u8>, s: &Vec<u32>) -> (r: Option<usize>)
    requires
        c@.len() == KIND_COUNT,
        s@.len() == KIND_COUNT,
    ensures
        r is None ==> best_kind(c@, s@, KIND_COUNT as int) < 0,
        r is Some ==> r->0 == best_kind(c@, s@, KIND_COUNT as int) && r->0 < KIND_COUNT,
{
    let mut best: Option<usize> = None;
    let mut k: usize = 0;
    while k < KIND_COUNT
        invariant
            k <= KIND_COUNT,
            c@.len() == KIND_COUNT,
            s@.len() == KIND_COUNT,
            best is None ==> best_kind(c@, s@, k as int) < 0,
            best is Some ==> best->0 == best_kind(c@, s@, k as int) && best->0 < k,
        decreases KIND_COUNT - k,
    {
        if c[k] > 0 {
            match best {
                None => {
                    best = Some(k);
                },
                Some(b) => {
                    if s[k] > s[b] {
                        best = Some(k);
                    }
                },
            }
        }
        k = k + 1;
    }
    best
}

/// Ranks every tile of `hand` by the score of discarding it, highest first; equal scores
/// keep ascending kind order. Neither the hand nor the pool changes.
pub fn rank_discards(shape: &HandTarget, hand: &Vec<u8>, pool: &TilePool) -> (r: Vec<DiscardCandidate>)
    requires
        hand@.len() == KIND_COUNT,
        pool.wf(),
        total(hand@) <= 14,
    ensures
        r@ == ranking(hand@, discard_scores(*shape, hand@, pool@), KIND_COUNT as nat),
        r@.len() == total(hand@),
{
    proof {
        lemma_held_kinds_nonnegative(hand@, KIND_COUNT as int);
        lemma_ranking_length(hand@, discard_scores(*shape, hand@, pool@), KIND_COUNT as nat);
    }
    let ghost want = discard_scores(*shape, hand@, pool@);
    let mut scores: Vec<u32> = Vec::new();
    let mut k: usize = 0;
    while k < KIND_COUNT
        invariant
            k <= KIND_COUNT,
            hand@.len() == KIND_COUNT,
            pool.wf(),
            total(hand@) <= 14,
            want == discard_scores(*shape, hand@, pool@),
            scores@ == want.take(k as int),
        decreases KIND_COUNT - k,
    {
        let v = if hand[k] > 0 {
            score_discard(shape, hand, pool, k)
        } else {
            0
        };
        scores.push(v);
        k = k + 1;
        assert(scores@ =~= want.take(k as int));
    }
    assert(scores@ =~= want);
    let mut left = copy_list(hand);
    let mut out: Vec<DiscardCandidate> = Vec::new();
    let mut round: usize = 0;
    while round < KIND_COUNT
        invariant
            round <= KIND_COUNT,
            left@.len() == KIND_COUNT,
            want == discard_scores(*shape, hand@, pool@),
            want.len() == KIND_COUNT,
            ranking(hand@, want, KIND_COUNT as nat).len() == total(hand@),
            scores@ == want,
            out@ + ranking(left@, want, (KIND_COUNT - round) as nat) == ranking(
                hand@,
                want,
                KIND_COUNT as nat,
            ),
        decreases KIND_COUNT - round,
    {
        let ghost before = out@;
        match best_held_kind(&left, &scores) {
            None => {
                assert(ranking(left@, want, (KIND_COUNT - round) as nat) =~= Seq::empty());
                assert(out@ =~= out@ + ranking(left@, want, (KIND_COUNT - round) as nat));
                return out;
            },
            Some(b) => {
                let tile = Tile::from_kind(b);
                let cand = DiscardCandidate { tile, score: scores[b] };
                let n = left[b];
                let ghost block = Seq::new(
                    n as nat,
                    |_i: int| DiscardCandidate { tile: Tile::of_kind(b as nat), score: want[b as int] },
                );
                assert(forall|i: int| 0 <= i < n ==> block[i] == cand);
                let mut j: u8 = 0;
                while j < n
                    invariant
                        j <= n,
                        block.len() == n,
                        forall|i: int| 0 <= i < n ==> block[i] == cand,
                        out@ == before + block.take(j as int),
                    decreases n - j,
                {
                    out.push(cand);
                    j = j + 1;
                    assert(out@ =~= before + block.take(j as int));
                }
                assert(block.take(n as int) =~= block);
                let ghost rest_before = left@;
                left.set(b, 0);
                round = round + 1;
                assert(ranking(rest_before, want, (KIND_COUNT - round + 1) as nat) == block
                    + ranking(left@, want, (KIND_COUNT - round) as nat));
                assert(out@ + ranking(left@, want, (KIND_COUNT - round) as nat) =~= before + (block
                    + ranking(left@, want, (KIND_COUNT - round) as nat)));
            },
        }
    }
    assert(ranking(left@, want, 0) =~= Seq::empty());
    assert(out@ =~= out@ + ranking(left@, want, 0));
    out
}

} // verus!
