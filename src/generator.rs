use vstd::prelude::*;
use crate::assembler::{add_group, assemble_group, conserved, group_fits, move_to_hand, move_to_pool};
use crate::hand::{HandRestrictions, HandShape, ShapeGroup, TileGroup, TileRequirement};
use crate::pool::{allowed_kind_count, initial_count, total, TilePool};
use crate::rng::SeededRng;
use crate::scorer::{
    discard_scores, lemma_ranking_permutes_hand, lemma_ranking_sorted, lemma_ranking_ties, rank_discards, ranking, tally,
    DiscardCandidate,
};
use crate::shanten::{
    distance, distance_cap, kinds_with, shape_keep, slot_tiles, lemma_total_update, max_distance, target_distance,
    HandTarget,
};
use crate::types::{lemma_of_kind, Tile, FIRST_HONOR_KIND, KIND_COUNT};

verus! {

/// Tiles in a complete hand: four groups of three and a pair, or seven pairs.
pub const COMPLETE_HAND_SIZE: u32 = 14;

/// Tiles in a generated hand.
pub const HAND_SIZE: usize = 13;

/// Fresh pools that the composer tries, and hands that generation draws, before giving up.
pub const MAX_COMPOSE_ATTEMPTS: u32 = 64;

#[derive(Clone, Copy, Debug, PartialEq, Eq, Structural)]
pub enum GenerationError {
    /// No hand can meet the restrictions.
    RestrictionConflict,
    /// A single group could not be drawn from the pool.
    PoolExhausted,
    /// Every attempt at a complete hand failed, or the hand lacks a required category.
    GenerationInfeasible,
    /// The requested shanten could not be reached.
    ShantenUnreachable,
}

/// A discard exercise: a hand, the shanten it was built for, and its ranked discards.
#[derive(Debug)]
pub struct GeneratedProblem {
    pub hand: Vec<Tile>,
    /// The complete hand that the hand was built from and its shanten is counted toward.
    pub target: HandTarget,
    pub shanten: u8,
    pub discards: Vec<DiscardCandidate>,
}

/// Occurrences of tile `t` in `s`.
pub open spec fn occurrences(s: Seq<Tile>, t: Tile) -> nat
    decreases s.len(),
{
    if s.len() == 0 {
        0
    } else {
        occurrences(s.drop_last(), t) + if s.last() == t {
            1nat
        } else {
            0nat
        }
    }
}

/// Whether `t` is the plain tile of a kind below `n`.
pub open spec fn plain_below(t: Tile, n: int) -> bool {
    t.valid() && t == Tile::of_kind(t.kind()) && t.kind() < n
}

pub struct HandGenerator {
    restrictions: HandRestrictions,
}

impl HandGenerator {
    pub closed spec fn restrictions(&self) -> HandRestrictions {
        self.restrictions
    }

    pub fn new(restrictions: HandRestrictions) -> (r: HandGenerator)
        ensures
            r.restrictions() == restrictions,
    {
        HandGenerator { restrictions }
    }

    /// Builds a hand of thirteen tiles at exactly `shanten` under the restrictions, with its
    /// discards ranked; `seed` fixes every random choice.
    ///
    /// Errors come in this order: restrictions that forbid both categories conflict; then
    /// fewer than fourteen reachable tiles make generation infeasible, whatever the shape asks
    /// for; only then does a shape that can make no hand conflict. A hand missing a required
    /// category is drawn again, and after the last attempt generation is infeasible.
    pub fn generate(&self, shanten: u8, seed: u64) -> (r: Result<GeneratedProblem, GenerationError>)
        ensures
            ({
                let restr = self.restrictions();
                &&& restrictions_conflict(restr) ==> r == Err::<GeneratedProblem, GenerationError>(
                    GenerationError::RestrictionConflict,
                )
                &&& (restr.honors_possible() || restr.suits_possible()) && 4 * allowed_kind_count(
                    restr,
                    KIND_COUNT as nat,
                ) < COMPLETE_HAND_SIZE ==> r == Err::<GeneratedProblem, GenerationError>(
                    GenerationError::GenerationInfeasible,
                )
                &&& r is Ok ==> {
                    let p = r->Ok_0;
                    &&& p.hand@.len() == HAND_SIZE
                    &&& forall|t: Tile| #[trigger] occurrences(p.hand@, t) <= 4
                    &&& forall|i: int| 0 <= i < p.hand@.len() ==> (#[trigger] p.hand@[i]).valid()
                    &&& !restr.honors_possible() ==> forall|i: int|
                        0 <= i < p.hand@.len() ==> !(#[trigger] p.hand@[i]).honor()
                    &&& !restr.suits_possible() ==> forall|i: int|
                        0 <= i < p.hand@.len() ==> (#[trigger] p.hand@[i]).honor()
                    &&& distance(p.target, hand_counts(p.hand@)) == shanten
                    &&& restr.hand_shape == HandShape::Regular ==> !p.target.irregular
                    &&& p.shanten == shanten
                    &&& p.discards@.len() == HAND_SIZE
                    &&& discards_ranked(restr, p)
                    &&& requirements_met(restr, hand_counts(p.hand@))
                    &&& forall|t: Tile| #[trigger] tally(p.discards@, t) == occurrences(p.hand@, t)
                    &&& forall|i: int, j: int|
                        0 <= i < j < p.discards@.len() ==> (#[trigger] p.discards@[i]).score
                            >= (#[trigger] p.discards@[j]).score
                    &&& forall|i: int, j: int|
                        0 <= i < j < p.discards@.len() && (#[trigger] p.discards@[i]).score
                            == (#[trigger] p.discards@[j]).score ==> p.discards@[i].tile.kind()
                            <= p.discards@[j].tile.kind()
                }
                &&& single_kind_shape_possible(restr) && shanten == 0 && restr.honor_tiles != Some(
                    TileRequirement::Required,
                ) && restr.suit_tiles != Some(TileRequirement::Required) ==> r is Ok
                    && r->Ok_0.target == irregular_target_of(restr.irregular_shape->0@)
                &&& seven_pairs_possible(restr) && shanten == 0 && restr.honor_tiles != Some(
                    TileRequirement::Required,
                ) && restr.suit_tiles != Some(TileRequirement::Required) ==> r is Ok
                    && r->Ok_0.target == seven_pairs_target() && kinds_with(
                    hand_counts(r->Ok_0.hand@),
                    34,
                    2,
                ) == 6 && kinds_with(hand_counts(r->Ok_0.hand@), 34, 1) == 7 && kinds_with(
                    hand_counts(r->Ok_0.hand@),
                    34,
                    3,
                ) == 0
                &&& r == Err::<GeneratedProblem, GenerationError>(
                    GenerationError::ShantenUnreachable,
                ) ==> exists|t: HandTarget|
                    #![trigger distance_cap(t)]
                    shanten > distance_cap(t) || stuck_below(restr, t, shanten as int)
                        || complete_without_ready(restr, t)
            }),
    {
        let mut rng = SeededRng::new(seed);
        let restrictions = &self.restrictions;
        proof {
            if seven_pairs_possible(*restrictions) {
                lemma_seven_pairs_single_kind(*restrictions);
            }
        }
        let mut attempt: u32 = 0;
        while attempt < MAX_COMPOSE_ATTEMPTS
            invariant
                restrictions == &self.restrictions,
                attempt > 0 ==> !restrictions_conflict(*restrictions) && (4 * allowed_kind_count(
                    *restrictions,
                    KIND_COUNT as nat,
                ) >= COMPLETE_HAND_SIZE || (!restrictions.honors_possible()
                    && !restrictions.suits_possible())),
                seven_pairs_possible(*restrictions) ==> single_kind_shape_possible(*restrictions)
                    && irregular_target_of(restrictions.irregular_shape->0@)
                    == seven_pairs_target(),
                single_kind_shape_possible(*restrictions) && shanten == 0
                    && restrictions.honor_tiles != Some(TileRequirement::Required) && restrictions.suit_tiles != Some(
                    TileRequirement::Required,
                ) ==> attempt == 0,
            decreases MAX_COMPOSE_ATTEMPTS - attempt,
        {
            let (mut hand, mut pool, target) = match compose(restrictions, &mut rng) {
                Ok(v) => v,
                Err(e) => {
                    return Err(e);
                },
            };
            proof {
                if seven_pairs_possible(*restrictions) {
                    lemma_seven_pairs_single_kind(*restrictions);
                }
                if single_kind_shape_possible(*restrictions) && shanten == 0 {
                    lemma_held_exists(hand@, 34, 1);
                    let k = choose|k: int| 0 <= k < 34 && hand@[k] >= 1;
                    lemma_kinds_with_update(hand@, k, 0, 34, 4);
                    lemma_kinds_with_nonnegative_at(hand@.update(k, 0), 34, 4);
                    let h2 = hand@.update(k, (hand@[k] - 1) as u8);
                    lemma_kinds_with_update(hand@, k, (hand@[k] - 1) as u8, 34, 1);
                    lemma_kinds_with_update(hand@, k, (hand@[k] - 1) as u8, 34, 2);
                    lemma_kinds_with_update(hand@, k, (hand@[k] - 1) as u8, 34, 3);
                    assert(hand@[k] < 4);
                    assert(shape_keep(h2, target) == 13);
                    assert(distance(target, h2) == 0);
                }
            }
            if !degrade(&target, &mut hand, &mut pool, shanten, restrictions, &mut rng) {
                assert(shanten > distance_cap(target) || stuck_below(
                    *restrictions,
                    target,
                    shanten as int,
                ) || complete_without_ready(*restrictions, target));
                return Err(GenerationError::ShantenUnreachable);
            }
            let honors_met = !matches!(restrictions.honor_tiles, Some(TileRequirement::Required))
                || holds_kind_between(&hand, FIRST_HONOR_KIND, KIND_COUNT);
            let suits_met = !matches!(restrictions.suit_tiles, Some(TileRequirement::Required))
                || holds_kind_between(&hand, 0, FIRST_HONOR_KIND);
            if honors_met && suits_met {
                proof {
                    if seven_pairs_possible(*restrictions) && shanten == 0 {
                        lemma_kinds_total(hand@);
                        lemma_kinds_with_nonnegative_at(hand@, 34, 3);
                    }
                }
                return Ok(finish(restrictions, hand, pool, target, shanten));
            }
            attempt = attempt + 1;
        }
        Err(GenerationError::GenerationInfeasible)
    }
}

/// The problem for a finished hand: its tiles and its ranked discards.
fn finish(
    restrictions: &HandRestrictions,
    hand: Vec<u8>,
    pool: TilePool,
    target: HandTarget,
    shanten: u8,
) -> (p: GeneratedProblem)
    requires
        pool.wf(),
        conserved(hand@, pool@, *restrictions),
        total(hand@) == HAND_SIZE,
        distance(target, hand@) == shanten,
    ensures
        p.target == target,
        p.shanten == shanten,
        hand_counts(p.hand@) == hand@,
        p.hand@.len() == HAND_SIZE,
        forall|t: Tile| #[trigger] occurrences(p.hand@, t) <= 4,
        forall|i: int| 0 <= i < p.hand@.len() ==> (#[trigger] p.hand@[i]).valid(),
        !restrictions.honors_possible() ==> forall|i: int|
            0 <= i < p.hand@.len() ==> !(#[trigger] p.hand@[i]).honor(),
        !restrictions.suits_possible() ==> forall|i: int|
            0 <= i < p.hand@.len() ==> (#[trigger] p.hand@[i]).honor(),
        p.discards@.len() == HAND_SIZE,
        discards_ranked(*restrictions, p),
        forall|t: Tile| #[trigger] tally(p.discards@, t) == occurrences(p.hand@, t),
        forall|i: int, j: int|
            0 <= i < j < p.discards@.len() ==> (#[trigger] p.discards@[i]).score
                >= (#[trigger] p.discards@[j]).score,
        forall|i: int, j: int|
            0 <= i < j < p.discards@.len() && (#[trigger] p.discards@[i]).score
                == (#[trigger] p.discards@[j]).score ==> p.discards@[i].tile.kind()
                <= p.discards@[j].tile.kind(),
{
        let discards = rank_discards(&target, &hand, &pool);
        let tiles = expand_hand(&hand, &pool, restrictions);
        proof {
            assert forall|k: int| 0 <= k < KIND_COUNT implies hand_counts(tiles@)[k] == hand@[k] by {
                lemma_of_kind(k as nat);
                assert(plain_below(Tile::of_kind(k as nat), KIND_COUNT as int));
            }
            assert(hand_counts(tiles@) =~= hand@);
            assert(conserved(hand_counts(tiles@), pool@, *restrictions));
            assert(discards@ == ranking(
                hand_counts(tiles@),
                discard_scores(target, hand_counts(tiles@), pool@),
                KIND_COUNT as nat,
            ));
            assert forall|t: Tile| #[trigger] tally(discards@, t) == occurrences(tiles@, t) by {
                lemma_ranking_permutes_hand(target, hand@, pool@, t);
            }
            lemma_ranking_sorted(hand@, discard_scores(target, hand@, pool@), KIND_COUNT as nat);
            lemma_ranking_ties(hand@, discard_scores(target, hand@, pool@), KIND_COUNT as nat);
            assert forall|i: int| 0 <= i < tiles@.len() implies {
                &&& (!restrictions.honors_possible() ==> !tiles@[i].honor())
                &&& (!restrictions.suits_possible() ==> tiles@[i].honor())
            } by {
                let k = tiles@[i].kind();
                lemma_of_kind(k);
                assert(initial_count(*restrictions, k) > 0);
            }
        }
        let p = GeneratedProblem { hand: tiles, target, shanten, discards };
        assert(discards_ranked(*restrictions, p)) by {
            assert(hand_counts(p.hand@) == hand@);
            assert(conserved(hand_counts(p.hand@), pool@, *restrictions));
        }
        p
}

/// Groups of type `g` that a list of irregular groups asks for.
pub open spec fn groups_of(groups: Seq<ShapeGroup>, g: TileGroup) -> int
    decreases groups.len(),
{
    if groups.len() == 0 {
        0
    } else {
        groups_of(groups.drop_last(), g) + if groups.last().group_type == g {
            groups.last().group_count as int
        } else {
            0
        }
    }
}

proof fn lemma_groups_of_prefix(groups: Seq<ShapeGroup>, g: TileGroup, i: int)
    requires
        0 <= i <= groups.len(),
    ensures
        0 <= groups_of(groups.take(i), g) <= groups_of(groups, g),
    decreases groups.len(),
{
    if groups.len() > 0 {
        if i == groups.len() {
            assert(groups.take(i) =~= groups);
            lemma_groups_of_prefix(groups.drop_last(), g, i - 1);
            assert(groups.drop_last().take(i - 1) =~= groups.drop_last());
        } else {
            lemma_groups_of_prefix(groups.drop_last(), g, i);
            assert(groups.drop_last().take(i) =~= groups.take(i));
        }
    }
}

/// Whether a list of irregular groups makes a complete hand of fourteen tiles, a quad
/// counting as a triplet. Groups of one kind each (single tiles, pairs, triplets, quads)
/// may come in any mix; with runs the list is four runs or triplets and a pair.
pub open spec fn irregular_shape_fits(groups: Seq<ShapeGroup>) -> bool {
    let runs = groups_of(groups, TileGroup::Shuntsu);
    let triplets = groups_of(groups, TileGroup::Koutsu) + groups_of(groups, TileGroup::Kantsu);
    let pairs = groups_of(groups, TileGroup::Jantou);
    let singles = groups_of(groups, TileGroup::Shinguru);
    ||| (runs == 0 && singles + 2 * pairs + 3 * triplets == COMPLETE_HAND_SIZE)
    ||| (singles == 0 && runs > 0 && runs + triplets == 4 && pairs == 1)
}

/// The target that a fitting list of irregular groups describes.
pub open spec fn irregular_target_of(groups: Seq<ShapeGroup>) -> HandTarget {
    if groups_of(groups, TileGroup::Shuntsu) == 0 {
        HandTarget {
            irregular: true,
            singles: groups_of(groups, TileGroup::Shinguru) as u8,
            pairs: groups_of(groups, TileGroup::Jantou) as u8,
            triplets: (groups_of(groups, TileGroup::Koutsu) + groups_of(
                groups,
                TileGroup::Kantsu,
            )) as u8,
        }
    } else {
        HandTarget { irregular: false, singles: 0, pairs: 0, triplets: 0 }
    }
}

/// Whether the restrictions leave a regular hand neither runs, triplets nor quads. In a
/// concealed hand of fourteen tiles a quad is drawn as its triplet.
pub open spec fn lacks_regular_groups(restr: HandRestrictions) -> bool {
    match restr.shapes_allowed {
        Some(v) => !v@.contains(TileGroup::Shuntsu) && !v@.contains(TileGroup::Koutsu)
            && !v@.contains(TileGroup::Kantsu),
        None => false,
    }
}

/// Whether the restrictions name no irregular shape, or one whose groups do not make a complete
/// hand of fourteen tiles (a quad counting as a triplet), or one that mixes runs with more
/// than triplets and a single pair.
pub open spec fn irregular_shape_unfit(restr: HandRestrictions) -> bool {
    match restr.irregular_shape {
        Some(v) => !irregular_shape_fits(v@),
        None => true,
    }
}

/// Whether the restrictions themselves rule out every hand.
pub open spec fn restrictions_conflict(restr: HandRestrictions) -> bool {
    ||| (!restr.honors_possible() && !restr.suits_possible())
    ||| (4 * allowed_kind_count(restr, KIND_COUNT as nat) >= COMPLETE_HAND_SIZE && (
    (restr.hand_shape == HandShape::Regular && lacks_regular_groups(restr)) || (restr.hand_shape
        == HandShape::Irregular && irregular_shape_unfit(restr))))
}

/// Whether `h` holds a tile of some kind in `lo..hi`.
pub open spec fn holds_between(h: Seq<u8>, lo: int, hi: int) -> bool {
    exists|k: int| lo <= k < hi && #[trigger] h[k] > 0
}

/// Whether `h` holds the categories that the restrictions mark as required.
pub open spec fn requirements_met(restr: HandRestrictions, h: Seq<u8>) -> bool {
    &&& restr.honor_tiles == Some(TileRequirement::Required) ==> holds_between(
        h,
        FIRST_HONOR_KIND as int,
        KIND_COUNT as int,
    )
    &&& restr.suit_tiles == Some(TileRequirement::Required) ==> holds_between(
        h,
        0,
        FIRST_HONOR_KIND as int,
    )
}

/// Whether some thirteen-tile hand drawn under the restrictions sits below `target` with
/// no single swap that adds one to its shanten.
pub open spec fn stuck_below(restr: HandRestrictions, shape: HandTarget, target: int) -> bool {
    exists|h: Seq<u8>, pool: Seq<u8>|
        #[trigger] conserved(h, pool, restr) && total(h) == HAND_SIZE && distance(shape, h) < target
            && !swap_reaches(shape, h, pool, distance(shape, h) + 1)
}

/// Whether some complete hand drawn under the restrictions has no tile whose removal
/// leaves it one tile from winning.
pub open spec fn complete_without_ready(restr: HandRestrictions, shape: HandTarget) -> bool {
    exists|h: Seq<u8>, pool: Seq<u8>|
        #[trigger] conserved(h, pool, restr) && total(h) == COMPLETE_HAND_SIZE && distance(shape, h)
            == -1 && !(exists|k: int|
            0 <= k < KIND_COUNT && h[k] > 0 && #[trigger] distance(shape, h.update(k, (h[k] - 1) as u8))
                == 0)
}

fn holds_kind_between(h: &Vec<u8>, lo: usize, hi: usize) -> (r: bool)
    requires
        h@.len() == KIND_COUNT,
        hi <= KIND_COUNT,
    ensures
        r == holds_between(h@, lo as int, hi as int),
{
    let mut k: usize = lo;
    while k < hi
        invariant
            lo <= k,
            h@.len() == KIND_COUNT,
            hi <= KIND_COUNT,
            forall|j: int| lo <= j < k ==> h@[j] == 0,
        decreases hi - k,
    {
        if h[k] > 0 {
            return true;
        }
        k = k + 1;
    }
    false
}

/// The count per kind of a list of tiles, counting plain tiles.
pub open spec fn hand_counts(tiles: Seq<Tile>) -> Seq<u8> {
    Seq::new(KIND_COUNT as nat, |k: int| occurrences(tiles, Tile::of_kind(k as nat)) as u8)
}

/// The discards of `p` are its tiles ranked against the pool that its hand leaves.
pub open spec fn discards_ranked(restr: HandRestrictions, p: GeneratedProblem) -> bool {
    exists|pool: Seq<u8>|
        #[trigger] conserved(hand_counts(p.hand@), pool, restr) && p.discards@ == ranking(
            hand_counts(p.hand@),
            discard_scores(p.target, hand_counts(p.hand@), pool),
            KIND_COUNT as nat,
        )
}

/// A list of zero counts, one per kind.
fn empty_counts() -> (r: Vec<u8>)
    ensures
        r@.len() == KIND_COUNT,
        forall|k: int| 0 <= k < KIND_COUNT ==> r@[k] == 0,
{
    let mut r: Vec<u8> = Vec::new();
    let mut i: usize = 0;
    while i < KIND_COUNT
        invariant
            i <= KIND_COUNT,
            r@.len() == i,
            forall|k: int| 0 <= k < i ==> r@[k] == 0,
        decreases KIND_COUNT - i,
    {
        r.push(0);
        i = i + 1;
    }
    r
}

/// Number of tiles in a hand given by its counts.
pub fn tile_total(v: &Vec<u8>) -> (r: u32)
    requires
        v@.len() == KIND_COUNT,
    ensures
        r == total(v@),
{
    let mut sum: u32 = 0;
    let mut k: usize = 0;
    while k < KIND_COUNT
        invariant
            k <= KIND_COUNT,
            v@.len() == KIND_COUNT,
            sum == total(v@.take(k as int)),
            sum <= 255 * k,
        decreases KIND_COUNT - k,
    {
        assert(v@.take(k + 1).drop_last() =~= v@.take(k as int));
        sum = sum + v[k] as u32;
        k = k + 1;
    }
    assert(v@.take(KIND_COUNT as int) =~= v@);
    sum
}

fn list_contains(v: &Vec<TileGroup>, g: TileGroup) -> (r: bool)
    ensures
        r == v@.contains(g),
{
    let mut i: usize = 0;
    while i < v.len()
        invariant
            i <= v@.len(),
            forall|j: int| 0 <= j < i ==> v@[j] != g,
        decreases v@.len() - i,
    {
        if v[i] == g {
            return true;
        }
        i = i + 1;
    }
    false
}

/// The target of a list of irregular groups, or `None` when it makes no complete hand.
fn irregular_target(groups: &Vec<ShapeGroup>) -> (r: Option<HandTarget>)
    ensures
        r is Some == irregular_shape_fits(groups@),
        r is Some ==> r->0 == irregular_target_of(groups@),
{
    let mut runs: u32 = 0;
    let mut triplets: u32 = 0;
    let mut quads: u32 = 0;
    let mut pairs: u32 = 0;
    let mut singles: u32 = 0;
    let mut i: usize = 0;
    while i < groups.len()
        invariant
            i <= groups@.len(),
            runs == groups_of(groups@.take(i as int), TileGroup::Shuntsu),
            triplets == groups_of(groups@.take(i as int), TileGroup::Koutsu),
            quads == groups_of(groups@.take(i as int), TileGroup::Kantsu),
            pairs == groups_of(groups@.take(i as int), TileGroup::Jantou),
            singles == groups_of(groups@.take(i as int), TileGroup::Shinguru),
            runs <= 14 && triplets <= 14 && quads <= 14 && pairs <= 14 && singles <= 14,
        decreases groups@.len() - i,
    {
        assert(groups@.take(i + 1).drop_last() =~= groups@.take(i as int));
        let g = groups[i];
        let n = g.group_count as u32;
        match g.group_type {
            TileGroup::Shuntsu => {
                runs = runs + n;
            },
            TileGroup::Koutsu => {
                triplets = triplets + n;
            },
            TileGroup::Kantsu => {
                quads = quads + n;
            },
            TileGroup::Jantou => {
                pairs = pairs + n;
            },
            TileGroup::Shinguru => {
                singles = singles + n;
            },
        }
        if runs > 14 || triplets > 14 || quads > 14 || pairs > 14 || singles > 14 {
            proof {
                lemma_groups_of_prefix(groups@, TileGroup::Shuntsu, i + 1);
                lemma_groups_of_prefix(groups@, TileGroup::Koutsu, i + 1);
                lemma_groups_of_prefix(groups@, TileGroup::Kantsu, i + 1);
                lemma_groups_of_prefix(groups@, TileGroup::Jantou, i + 1);
                lemma_groups_of_prefix(groups@, TileGroup::Shinguru, i + 1);
                lemma_groups_of_prefix(groups@, TileGroup::Shuntsu, i as int);
                lemma_groups_of_prefix(groups@, TileGroup::Koutsu, i as int);
                lemma_groups_of_prefix(groups@, TileGroup::Kantsu, i as int);
                lemma_groups_of_prefix(groups@, TileGroup::Jantou, i as int);
                lemma_groups_of_prefix(groups@, TileGroup::Shinguru, i as int);
            }
            return None;
        }
        i = i + 1;
    }
    assert(groups@.take(i as int) =~= groups@);
    let melds = triplets + quads;
    if runs == 0 && singles + 2 * pairs + 3 * melds == COMPLETE_HAND_SIZE {
        Some(
            HandTarget {
                irregular: true,
                singles: singles as u8,
                pairs: pairs as u8,
                triplets: melds as u8,
            },
        )
    } else if singles == 0 && runs > 0 && runs + melds == 4 && pairs == 1 {
        Some(HandTarget::regular())
    } else {
        None
    }
}

/// Fills `hand` with four groups of three and a pair. Runs and triplets are the
/// group types that `runs` and `triplets` allow; a failed type is retried as the other.
fn fill_regular(
    hand: &mut Vec<u8>,
    pool: &mut TilePool,
    runs: bool,
    triplets: bool,
    restrictions: &HandRestrictions,
    rng: &mut SeededRng,
) -> (r: bool)
    requires
        old(pool).wf(),
        conserved(old(hand)@, old(pool)@, *restrictions),
    ensures
        final(pool).wf(),
        conserved(final(hand)@, final(pool)@, *restrictions),
        r ==> total(final(hand)@) == total(old(hand)@) + COMPLETE_HAND_SIZE,
{
    let ghost start_total = total(hand@);
    let mut i: u32 = 0;
    while i < 4
        invariant
            i <= 4,
            pool.wf(),
            conserved(hand@, pool@, *restrictions),
            total(hand@) == start_total + 3 * i,
        decreases 4 - i,
    {
        let first_run = if runs && triplets {
            rng.below(2) == 0
        } else {
            runs
        };
        let first = if first_run {
            TileGroup::Shuntsu
        } else {
            TileGroup::Koutsu
        };
        let second = if first_run {
            TileGroup::Koutsu
        } else {
            TileGroup::Shuntsu
        };
        if assemble_group(hand, pool, first, false, restrictions, rng).is_err() {
            let second_allowed = if first_run {
                triplets
            } else {
                runs
            };
            if !second_allowed || assemble_group(hand, pool, second, false, restrictions, rng).is_err() {
                return false;
            }
        }
        i = i + 1;
    }
    assemble_group(hand, pool, TileGroup::Jantou, false, restrictions, rng).is_ok()
}

/// Whether every kind has a count of zero.
pub open spec fn all_zero(h: Seq<u8>) -> bool {
    forall|k: int| 0 <= k < h.len() ==> h[k] == 0
}

/// Whether every group of the list is a pair.
pub open spec fn pairs_only(groups: Seq<ShapeGroup>) -> bool {
    forall|i: int| 0 <= i < groups.len() ==> (#[trigger] groups[i]).group_type == TileGroup::Jantou
}

/// Restrictions that ask for seven pairs on distinct kinds while allowing at least seven kinds.
pub open spec fn seven_pairs_possible(restr: HandRestrictions) -> bool {
    &&& restr.hand_shape == HandShape::Irregular
    &&& restr.irregular_shape is Some
    &&& pairs_only(restr.irregular_shape->0@)
    &&& groups_of(restr.irregular_shape->0@, TileGroup::Jantou) == 7
    &&& allowed_kind_count(restr, KIND_COUNT as nat) >= 7
    &&& (restr.honors_possible() || restr.suits_possible())
}

/// Whether no group of the list is a run.
pub open spec fn no_runs(groups: Seq<ShapeGroup>) -> bool {
    forall|i: int| 0 <= i < groups.len() ==> (#[trigger] groups[i]).group_type != TileGroup::Shuntsu
}

/// Groups of three tiles that a list asks for, a quad counting as a triplet.
pub open spec fn triplets_of(groups: Seq<ShapeGroup>) -> int {
    groups_of(groups, TileGroup::Koutsu) + groups_of(groups, TileGroup::Kantsu)
}

/// Groups of any size that a list without runs asks for.
pub open spec fn single_kind_groups(groups: Seq<ShapeGroup>) -> int {
    groups_of(groups, TileGroup::Shinguru) + groups_of(groups, TileGroup::Jantou) + triplets_of(
        groups,
    )
}

/// Restrictions that ask for an irregular hand of single tiles, pairs and triplets on
/// distinct kinds, making fourteen tiles, while allowing a kind for every group.
pub open spec fn single_kind_shape_possible(restr: HandRestrictions) -> bool {
    &&& restr.hand_shape == HandShape::Irregular
    &&& restr.irregular_shape is Some
    &&& no_runs(restr.irregular_shape->0@)
    &&& groups_of(restr.irregular_shape->0@, TileGroup::Shinguru) + 2 * groups_of(
        restr.irregular_shape->0@,
        TileGroup::Jantou,
    ) + 3 * triplets_of(restr.irregular_shape->0@) == COMPLETE_HAND_SIZE
    &&& allowed_kind_count(restr, KIND_COUNT as nat) >= single_kind_groups(
        restr.irregular_shape->0@,
    )
    &&& (restr.honors_possible() || restr.suits_possible())
}

/// The target of seven pairs on distinct kinds.
pub open spec fn seven_pairs_target() -> HandTarget {
    HandTarget { irregular: true, singles: 0, pairs: 7, triplets: 0 }
}

proof fn lemma_groups_absent(groups: Seq<ShapeGroup>, g: TileGroup)
    requires
        forall|i: int| 0 <= i < groups.len() ==> (#[trigger] groups[i]).group_type != g,
    ensures
        groups_of(groups, g) == 0,
    decreases groups.len(),
{
    if groups.len() > 0 {
        assert(groups.last() == groups[groups.len() - 1]);
        assert forall|i: int| 0 <= i < groups.drop_last().len() implies (
        #[trigger] groups.drop_last()[i]).group_type != g by {
            assert(groups.drop_last()[i] == groups[i]);
        }
        lemma_groups_absent(groups.drop_last(), g);
    }
}

proof fn lemma_seven_pairs_single_kind(restr: HandRestrictions)
    requires
        seven_pairs_possible(restr),
    ensures
        single_kind_shape_possible(restr),
        irregular_target_of(restr.irregular_shape->0@) == seven_pairs_target(),
{
    let v = restr.irregular_shape->0@;
    lemma_groups_absent(v, TileGroup::Shuntsu);
    lemma_groups_absent(v, TileGroup::Shinguru);
    lemma_groups_absent(v, TileGroup::Koutsu);
    lemma_groups_absent(v, TileGroup::Kantsu);
}

proof fn lemma_kinds_with_update(c: Seq<u8>, k: int, v: u8, n: int, d: u8)
    requires
        0 <= k < c.len(),
        0 <= n <= c.len(),
    ensures
        kinds_with(c.update(k, v), n, d) == kinds_with(c, n, d) - (if k < n && c[k] >= d {
            1int
        } else {
            0int
        }) + (if k < n && v >= d {
            1int
        } else {
            0int
        }),
    decreases n,
{
    if n > 0 {
        lemma_kinds_with_update(c, k, v, n - 1, d);
    }
}

proof fn lemma_kinds_with_zero(c: Seq<u8>, n: int, d: u8)
    requires
        d >= 1,
        0 <= n <= c.len(),
        forall|j: int| 0 <= j < n ==> c[j] == 0,
    ensures
        kinds_with(c, n, d) == 0,
    decreases n,
{
    if n > 0 {
        lemma_kinds_with_zero(c, n - 1, d);
    }
}

proof fn lemma_kinds_with_nonnegative_at(c: Seq<u8>, n: int, d: u8)
    ensures
        kinds_with(c, n, d) >= 0,
    decreases n,
{
    if n > 0 {
        lemma_kinds_with_nonnegative_at(c, n - 1, d);
    }
}

proof fn lemma_kinds_with_prefix(a: Seq<u8>, b: Seq<u8>, n: int, d: u8)
    requires
        0 <= n <= a.len(),
        n <= b.len(),
        forall|j: int| 0 <= j < n ==> a[j] == b[j],
    ensures
        kinds_with(a, n, d) == kinds_with(b, n, d),
    decreases n,
{
    if n > 0 {
        lemma_kinds_with_prefix(a, b, n - 1, d);
    }
}

/// Kinds held once, twice and three times take at least that many tiles, and a kind held
/// twice is also held once.
proof fn lemma_kinds_total(c: Seq<u8>)
    ensures
        kinds_with(c, c.len() as int, 1) + kinds_with(c, c.len() as int, 2) + kinds_with(
            c,
            c.len() as int,
            3,
        ) <= total(c),
        kinds_with(c, c.len() as int, 2) <= kinds_with(c, c.len() as int, 1),
    decreases c.len(),
{
    if c.len() > 0 {
        let d = c.drop_last();
        lemma_kinds_total(d);
        lemma_kinds_with_prefix(c, d, d.len() as int, 1);
        lemma_kinds_with_prefix(c, d, d.len() as int, 2);
        lemma_kinds_with_prefix(c, d, d.len() as int, 3);
    }
}

proof fn lemma_held_exists(c: Seq<u8>, n: int, d: u8)
    requires
        0 <= n <= c.len(),
        kinds_with(c, n, d) > 0,
    ensures
        exists|k: int| 0 <= k < n && c[k] >= d,
    decreases n,
{
    if n > 0 && c[n - 1] < d {
        lemma_held_exists(c, n - 1, d);
    }
}

proof fn lemma_unheld_allowed(restr: HandRestrictions, hand: Seq<u8>, n: nat)
    requires
        n <= KIND_COUNT,
        hand.len() == KIND_COUNT,
        allowed_kind_count(restr, n) > kinds_with(hand, n as int, 1),
    ensures
        exists|k: int| 0 <= k < n && restr.allows_kind(k as nat) && hand[k] == 0,
    decreases n,
{
    crate::scorer::lemma_held_kinds_nonnegative(hand, (n - 1) as int);
    if !(restr.allows_kind((n - 1) as nat) && hand[n - 1] == 0) {
        lemma_unheld_allowed(restr, hand, (n - 1) as nat);
    }
}

/// Fills `hand` with the groups of an irregular shape, each group on kinds not yet held.
fn fill_irregular(
    hand: &mut Vec<u8>,
    pool: &mut TilePool,
    groups: &Vec<ShapeGroup>,
    restrictions: &HandRestrictions,
    rng: &mut SeededRng,
) -> (r: bool)
    requires
        old(pool).wf(),
        conserved(old(hand)@, old(pool)@, *restrictions),
    ensures
        final(pool).wf(),
        conserved(final(hand)@, final(pool)@, *restrictions),
        no_runs(groups@) && single_kind_groups(groups@) <= allowed_kind_count(
            *restrictions,
            KIND_COUNT as nat,
        ) && all_zero(old(hand)@) ==> r && filled_as(final(hand)@, groups@),
{
    let ghost special = no_runs(groups@) && single_kind_groups(groups@) <= allowed_kind_count(
        *restrictions,
        KIND_COUNT as nat,
    ) && all_zero(hand@);
    proof {
        if special {
            lemma_kinds_with_zero(hand@, 34, 1);
            lemma_kinds_with_zero(hand@, 34, 2);
            lemma_kinds_with_zero(hand@, 34, 3);
            lemma_kinds_with_zero(hand@, 34, 4);
            crate::shanten::lemma_total_zero(hand@);
            assert(groups@.take(0) =~= Seq::<ShapeGroup>::empty());
        }
    }
    let mut i: usize = 0;
    while i < groups.len()
        invariant
            i <= groups@.len(),
            pool.wf(),
            conserved(hand@, pool@, *restrictions),
            special == (no_runs(groups@) && single_kind_groups(groups@) <= allowed_kind_count(
                *restrictions,
                KIND_COUNT as nat,
            ) && all_zero(old(hand)@)),
            special ==> filled_as(hand@, groups@.take(i as int)),
        decreases groups@.len() - i,
    {
        let g = groups[i];
        let ghost prefix = groups@.take(i as int);
        let ghost hand_start = hand@;
        proof {
            if special {
                assert(groups@.take(i + 1).drop_last() =~= prefix);
                assert(groups@.take(i + 1).last() == g);
                lemma_groups_of_prefix(groups@, TileGroup::Shinguru, i + 1);
                lemma_groups_of_prefix(groups@, TileGroup::Jantou, i + 1);
                lemma_groups_of_prefix(groups@, TileGroup::Koutsu, i + 1);
                lemma_groups_of_prefix(groups@, TileGroup::Kantsu, i + 1);
                assert(g.group_type != TileGroup::Shuntsu);
            }
        }
        let drawn = match g.group_type {
            TileGroup::Kantsu => TileGroup::Koutsu,
            other => other,
        };
        let mut n: u8 = 0;
        while n < g.group_count
            invariant
                i < groups@.len(),
                g == groups@[i as int],
                drawn == (if g.group_type == TileGroup::Kantsu {
                    TileGroup::Koutsu
                } else {
                    g.group_type
                }),
                n <= g.group_count,
                pool.wf(),
                conserved(hand@, pool@, *restrictions),
                special == (no_runs(groups@) && single_kind_groups(groups@) <= allowed_kind_count(
                    *restrictions,
                    KIND_COUNT as nat,
                ) && all_zero(old(hand)@)),
                special ==> g.group_type != TileGroup::Shuntsu && filled_as(hand_start, prefix)
                    && single_kind_groups(prefix) + g.group_count <= single_kind_groups(groups@)
                    && groups@.take(i + 1).drop_last() == prefix && groups@.take(i + 1).last() == g,
                special ==> {
                    &&& kinds_with(hand@, 34, 1) == kinds_with(hand_start, 34, 1) + n
                    &&& kinds_with(hand@, 34, 2) == kinds_with(hand_start, 34, 2) + (if drawn
                        != TileGroup::Shinguru {
                        n as int
                    } else {
                        0
                    })
                    &&& kinds_with(hand@, 34, 3) == kinds_with(hand_start, 34, 3) + (if drawn
                        == TileGroup::Koutsu {
                        n as int
                    } else {
                        0
                    })
                    &&& kinds_with(hand@, 34, 4) == 0
                    &&& total(hand@) == total(hand_start) + n * drawn.size()
                },
            decreases g.group_count - n,
        {
            proof {
                if special {
                    lemma_unheld_allowed(*restrictions, hand@, KIND_COUNT as nat);
                    let k = choose|k: int|
                        0 <= k < KIND_COUNT && restrictions.allows_kind(k as nat) && hand@[k] == 0;
                    assert(group_fits(drawn, k, pool@, hand@, true));
                }
            }
            let ghost hand_before = hand@;
            let ghost pool_before = pool@;
            let res = assemble_group(hand, pool, drawn, true, restrictions, rng);
            if res.is_err() {
                assert(!special);
                return false;
            }
            proof {
                if special {
                    let k = choose|k: int|
                        group_fits(drawn, k, pool_before, hand_before, true) && hand@ == add_group(
                            hand_before,
                            drawn,
                            k,
                        );
                    let v = drawn.size() as u8;
                    lemma_kinds_with_update(hand_before, k, v, 34, 1);
                    lemma_kinds_with_update(hand_before, k, v, 34, 2);
                    lemma_kinds_with_update(hand_before, k, v, 34, 3);
                    lemma_kinds_with_update(hand_before, k, v, 34, 4);
                    assert((n + 1) * drawn.size() == n * drawn.size() + drawn.size()) by (
                    nonlinear_arith);
                }
            }
            n = n + 1;
        }
        proof {
            if special {
                assert(g.group_count * drawn.size() == (if drawn == TileGroup::Shinguru {
                    g.group_count as int
                } else if drawn == TileGroup::Jantou {
                    2 * g.group_count
                } else {
                    3 * g.group_count
                })) by (nonlinear_arith)
                    requires
                        drawn.size() == (if drawn == TileGroup::Shinguru {
                            1int
                        } else if drawn == TileGroup::Jantou {
                            2int
                        } else {
                            3int
                        }),
                ;
            }
        }
        i = i + 1;
    }
    proof {
        if special {
            assert(groups@.take(i as int) =~= groups@);
        }
    }
    true
}

/// Whether `h` holds exactly the groups of the list, each on a kind of its own.
pub open spec fn filled_as(h: Seq<u8>, groups: Seq<ShapeGroup>) -> bool {
    &&& kinds_with(h, 34, 1) == single_kind_groups(groups)
    &&& kinds_with(h, 34, 2) == groups_of(groups, TileGroup::Jantou) + triplets_of(groups)
    &&& kinds_with(h, 34, 3) == triplets_of(groups)
    &&& kinds_with(h, 34, 4) == 0
    &&& total(h) == groups_of(groups, TileGroup::Shinguru) + 2 * groups_of(groups, TileGroup::Jantou)
        + 3 * triplets_of(groups)
}

/// Builds a complete hand of fourteen tiles from a fresh pool, trying again with a new
/// pool after a failed attempt.
fn compose(restrictions: &HandRestrictions, rng: &mut SeededRng) -> (r: Result<
    (Vec<u8>, TilePool, HandTarget),
    GenerationError,
>)
    ensures
        restrictions_conflict(*restrictions) ==> r == Err::<(Vec<u8>, TilePool, HandTarget), GenerationError>(
            GenerationError::RestrictionConflict,
        ),
        (restrictions.honors_possible() || restrictions.suits_possible()) && 4 * allowed_kind_count(
            *restrictions,
            KIND_COUNT as nat,
        ) < COMPLETE_HAND_SIZE ==> r == Err::<(Vec<u8>, TilePool, HandTarget), GenerationError>(
            GenerationError::GenerationInfeasible,
        ),
        r is Err ==> r->Err_0 == GenerationError::RestrictionConflict || r->Err_0
            == GenerationError::GenerationInfeasible,
        r is Ok ==> ({
            let (hand, pool, target) = r->Ok_0;
            &&& pool.wf()
            &&& conserved(hand@, pool@, *restrictions)
            &&& total(hand@) == COMPLETE_HAND_SIZE
            &&& distance(target, hand@) == -1
            &&& restrictions.hand_shape == HandShape::Regular ==> !target.irregular
        }),
        single_kind_shape_possible(*restrictions) ==> r is Ok && ({
            let (hand, pool, target) = r->Ok_0;
            &&& target == irregular_target_of(restrictions.irregular_shape->0@)
            &&& filled_as(hand@, restrictions.irregular_shape->0@)
        }),
{
    proof {
        if single_kind_shape_possible(*restrictions) {
            let v = restrictions.irregular_shape->0@;
            lemma_groups_of_prefix(v, TileGroup::Shinguru, 0);
            lemma_groups_of_prefix(v, TileGroup::Jantou, 0);
            lemma_groups_of_prefix(v, TileGroup::Koutsu, 0);
            lemma_groups_of_prefix(v, TileGroup::Kantsu, 0);
            assert(v.take(0) =~= Seq::<ShapeGroup>::empty());
            assert(4 * allowed_kind_count(*restrictions, KIND_COUNT as nat) >= COMPLETE_HAND_SIZE);
        }
    }
    if !restrictions.can_contain_honors() && !restrictions.can_contain_suits() {
        return Err(GenerationError::RestrictionConflict);
    }
    if TilePool::compute_total_tiles_available_with(restrictions) < COMPLETE_HAND_SIZE {
        return Err(GenerationError::GenerationInfeasible);
    }
    let shapes: Vec<TileGroup> = match restrictions.shapes_allowed() {
        Some(v) => crate::variants::copy_list(v),
        None => vec![TileGroup::Jantou, TileGroup::Shuntsu, TileGroup::Koutsu],
    };
    let runs = list_contains(&shapes, TileGroup::Shuntsu);
    let triplets = list_contains(&shapes, TileGroup::Koutsu) || list_contains(
        &shapes,
        TileGroup::Kantsu,
    );
    let irregular: Option<&Vec<ShapeGroup>> = restrictions.irregular_shape_set();
    let use_irregular = match restrictions.hand_shape() {
        HandShape::Regular => false,
        HandShape::Irregular => true,
        HandShape::Both => irregular.is_some() && rng.below(2) == 0,
    };
    proof {
        if single_kind_shape_possible(*restrictions) {
            let v = restrictions.irregular_shape->0@;
            lemma_groups_absent(v, TileGroup::Shuntsu);
            lemma_groups_of_prefix(v, TileGroup::Shinguru, 0);
            lemma_groups_of_prefix(v, TileGroup::Jantou, 0);
            lemma_groups_of_prefix(v, TileGroup::Koutsu, 0);
            lemma_groups_of_prefix(v, TileGroup::Kantsu, 0);
            assert(v.take(0) =~= Seq::<ShapeGroup>::empty());
        }
    }
    let mut target = HandTarget::regular();
    if use_irregular {
        match irregular {
            None => {
                return Err(GenerationError::RestrictionConflict);
            },
            Some(groups) => {
                match irregular_target(groups) {
                    Some(t) => {
                        target = t;
                    },
                    None => {
                        return Err(GenerationError::RestrictionConflict);
                    },
                }
            },
        }
    } else if !runs && !triplets {
        return Err(GenerationError::RestrictionConflict);
    }
    let mut attempt: u32 = 0;
    while attempt < MAX_COMPOSE_ATTEMPTS
        invariant
            use_irregular ==> irregular is Some,
            !use_irregular ==> !target.irregular,
            restrictions.hand_shape == HandShape::Regular ==> !use_irregular,
            single_kind_shape_possible(*restrictions) ==> attempt == 0 && use_irregular
                && target == irregular_target_of(restrictions.irregular_shape->0@)
                && irregular is Some && irregular->0@ == restrictions.irregular_shape->0@
                && slot_tiles(target) == COMPLETE_HAND_SIZE && target.irregular && target.singles
                + target.pairs + target.triplets == single_kind_groups(
                restrictions.irregular_shape->0@,
            ) && target.pairs + target.triplets == groups_of(
                restrictions.irregular_shape->0@,
                TileGroup::Jantou,
            ) + triplets_of(restrictions.irregular_shape->0@) && target.triplets == triplets_of(
                restrictions.irregular_shape->0@,
            ),
            !restrictions_conflict(*restrictions),
            4 * allowed_kind_count(*restrictions, KIND_COUNT as nat) >= COMPLETE_HAND_SIZE,
        decreases MAX_COMPOSE_ATTEMPTS - attempt,
    {
        let mut pool = TilePool::new(restrictions);
        let mut hand = empty_counts();
        assert(conserved(hand@, pool@, *restrictions));
        assert(all_zero(hand@));
        let filled = if use_irregular {
            match irregular {
                Some(groups) => fill_irregular(&mut hand, &mut pool, groups, restrictions, rng),
                None => false,
            }
        } else {
            fill_regular(&mut hand, &mut pool, runs, triplets, restrictions, rng)
        };
        if filled && tile_total(&hand) == COMPLETE_HAND_SIZE {
            if target_distance(&target, &hand) == -1 {
                return Ok((hand, pool, target));
            }
        }
        attempt = attempt + 1;
    }
    Err(GenerationError::GenerationInfeasible)
}

/// The kind `j` places after `start`, wrapping round.
pub open spec fn rotated(start: int, j: int) -> int {
    if start + j < KIND_COUNT {
        start + j
    } else {
        start + j - KIND_COUNT
    }
}

fn rotate(start: usize, j: usize) -> (r: usize)
    requires
        start < KIND_COUNT,
        j < KIND_COUNT,
    ensures
        r == rotated(start as int, j as int),
        r < KIND_COUNT,
{
    if start + j < KIND_COUNT {
        start + j
    } else {
        start + j - KIND_COUNT
    }
}

/// Whether swapping one held tile of kind `out` for a pool tile of kind `inn` puts the hand
/// at shanten `goal`.
pub open spec fn swap_gives(shape: HandTarget, h: Seq<u8>, pool: Seq<u8>, out: int, inn: int, goal: int) -> bool {
    &&& 0 <= out < KIND_COUNT
    &&& 0 <= inn < KIND_COUNT
    &&& out != inn
    &&& h[out] > 0
    &&& pool[inn] > 0
    &&& distance(shape, h.update(out, (h[out] - 1) as u8).update(inn, (h[inn] + 1) as u8)) == goal
}

/// Whether some single swap puts the hand at shanten `goal`.
pub open spec fn swap_reaches(shape: HandTarget, h: Seq<u8>, pool: Seq<u8>, goal: int) -> bool {
    exists|out: int, inn: int| #[trigger] swap_gives(shape, h, pool, out, inn, goal)
}

/// Swaps the held tile of kind `out` for a pool tile whose arrival puts the hand at
/// shanten `goal`, trying every kind from a random start; on failure the hand and pool are
/// as before, and no such tile exists.
fn swap_for_shanten(
    shape: &HandTarget,
    hand: &mut Vec<u8>,
    pool: &mut TilePool,
    out: usize,
    goal: i32,
    restrictions: &HandRestrictions,
    rng: &mut SeededRng,
) -> (r: bool)
    requires
        old(pool).wf(),
        conserved(old(hand)@, old(pool)@, *restrictions),
        total(old(hand)@) == HAND_SIZE,
        out < KIND_COUNT,
        old(hand)@[out as int] > 0,
    ensures
        final(pool).wf(),
        conserved(final(hand)@, final(pool)@, *restrictions),
        total(final(hand)@) == HAND_SIZE,
        r ==> distance(*shape, final(hand)@) == goal,
        !r ==> final(hand)@ == old(hand)@ && final(pool)@ == old(pool)@,
        !r ==> forall|inn: int| !swap_gives(*shape, old(hand)@, old(pool)@, out as int, inn, goal as int),
{
    let ghost hand_before = hand@;
    let ghost pool_before = pool@;
    move_to_pool(hand, pool, out, restrictions);
    let ghost hand_between = hand@;
    let ghost pool_between = pool@;
    let start = rng.below(KIND_COUNT as u64) as usize;
    let mut i: usize = 0;
    while i < KIND_COUNT
        invariant
            i <= KIND_COUNT,
            start < KIND_COUNT,
            out < KIND_COUNT,
            pool.wf(),
            conserved(hand@, pool@, *restrictions),
            hand@ == hand_between,
            pool@ == pool_between,
            total(hand_between) == HAND_SIZE - 1,
            hand_between == hand_before.update(out as int, (hand_before[out as int] - 1) as u8),
            pool_between[out as int] > 0,
            conserved(hand_before, pool_before, *restrictions),
            pool_between == pool_before.update(out as int, (pool_before[out as int] + 1) as u8),
            forall|j: int|
                0 <= j < i ==> !swap_gives(*shape, 
                    hand_before,
                    pool_before,
                    out as int,
                    #[trigger] rotated(start as int, j),
                    goal as int,
                ),
        decreases KIND_COUNT - i,
    {
        let k = rotate(start, i);
        if k != out && pool.remaining(k) > 0 {
            move_to_hand(hand, pool, k, restrictions);
            let s = target_distance(shape, hand);
            if s == goal {
                return true;
            }
            move_to_pool(hand, pool, k, restrictions);
            assert(hand@ =~= hand_between);
            assert(pool@ =~= pool_between);
        }
        i = i + 1;
    }
    proof {
        assert forall|inn: int| !swap_gives(*shape, hand_before, pool_before, out as int, inn, goal as int) by {
            if 0 <= inn < KIND_COUNT {
                let j = if inn >= start {
                    inn - start
                } else {
                    inn + KIND_COUNT - start
                };
                assert(rotated(start as int, j) == inn);
            }
        }
    }
    move_to_hand(hand, pool, out, restrictions);
    assert(hand@ =~= hand_before);
    assert(pool@ =~= pool_before);
    false
}

/// Adds exactly one to the shanten of a thirteen-tile hand by one swap, trying every held
/// kind from a random start; on failure nothing changes and no such swap exists.
fn step_up(
    shape: &HandTarget,
    hand: &mut Vec<u8>,
    pool: &mut TilePool,
    goal: i32,
    restrictions: &HandRestrictions,
    rng: &mut SeededRng,
) -> (r: bool)
    requires
        old(pool).wf(),
        conserved(old(hand)@, old(pool)@, *restrictions),
        total(old(hand)@) == HAND_SIZE,
    ensures
        final(pool).wf(),
        conserved(final(hand)@, final(pool)@, *restrictions),
        total(final(hand)@) == HAND_SIZE,
        r ==> distance(*shape, final(hand)@) == goal,
        !r ==> final(hand)@ == old(hand)@ && final(pool)@ == old(pool)@,
        !r ==> !swap_reaches(*shape, old(hand)@, old(pool)@, goal as int),
{
    let ghost hand_before = hand@;
    let ghost pool_before = pool@;
    let start = rng.below(KIND_COUNT as u64) as usize;
    let mut i: usize = 0;
    while i < KIND_COUNT
        invariant
            i <= KIND_COUNT,
            start < KIND_COUNT,
            pool.wf(),
            conserved(hand@, pool@, *restrictions),
            total(hand@) == HAND_SIZE,
            hand@ == hand_before,
            pool@ == pool_before,
            forall|j: int, inn: int|
                0 <= j < i ==> !#[trigger] swap_gives(*shape, 
                    hand_before,
                    pool_before,
                    rotated(start as int, j),
                    inn,
                    goal as int,
                ),
        decreases KIND_COUNT - i,
    {
        let out = rotate(start, i);
        if hand[out] > 0 {
            if swap_for_shanten(shape, hand, pool, out, goal, restrictions, rng) {
                return true;
            }
        }
        i = i + 1;
    }
    proof {
        assert forall|out: int, inn: int| !swap_gives(*shape, hand_before, pool_before, out, inn, goal as int) by {
            if 0 <= out < KIND_COUNT {
                let j = if out >= start {
                    out - start
                } else {
                    out + KIND_COUNT - start
                };
                assert(rotated(start as int, j) == out);
            }
        }
    }
    false
}

/// The held kinds whose removal leaves `hand` one tile from winning.
fn ready_discards(shape: &HandTarget, hand: &Vec<u8>) -> (r: Vec<usize>)
    requires
        hand@.len() == KIND_COUNT,
        total(hand@) == COMPLETE_HAND_SIZE,
    ensures
        forall|i: int|
            0 <= i < r@.len() ==> r@[i] < KIND_COUNT && hand@[r@[i] as int] > 0 && distance(*shape, 
                hand@.update(r@[i] as int, (hand@[r@[i] as int] - 1) as u8),
            ) == 0,
        (exists|k: int|
            0 <= k < KIND_COUNT && hand@[k] > 0 && #[trigger] distance(*shape, 
                hand@.update(k, (hand@[k] - 1) as u8),
            ) == 0) ==> r@.len() > 0,
{
    let mut work = crate::variants::copy_list(hand);
    let mut r: Vec<usize> = Vec::new();
    let mut k: usize = 0;
    while k < KIND_COUNT
        invariant
            k <= KIND_COUNT,
            hand@.len() == KIND_COUNT,
            total(hand@) == COMPLETE_HAND_SIZE,
            work@ == hand@,
            forall|i: int|
                0 <= i < r@.len() ==> r@[i] < KIND_COUNT && hand@[r@[i] as int] > 0 && distance(*shape, 
                    hand@.update(r@[i] as int, (hand@[r@[i] as int] - 1) as u8),
                ) == 0,
            forall|j: int|
                0 <= j < k && hand@[j] > 0 && #[trigger] distance(*shape, hand@.update(j, (hand@[j] - 1) as u8))
                    == 0 ==> r@.len() > 0,
        decreases KIND_COUNT - k,
    {
        let c = work[k];
        if c > 0 {
            proof {
                lemma_total_update(hand@, k as int, (c - 1) as u8);
            }
            work.set(k, c - 1);
            let s = target_distance(shape, &work);
            work.set(k, c);
            assert(work@ =~= hand@);
            if s == 0 {
                r.push(k);
            }
        }
        k = k + 1;
    }
    r
}

/// Takes a complete hand of fourteen tiles to thirteen tiles at shanten `target`: one tile
/// goes back to the pool, then each step swaps one tile for one that adds exactly one to
/// the shanten.
fn degrade(
    shape: &HandTarget,
    hand: &mut Vec<u8>,
    pool: &mut TilePool,
    target: u8,
    restrictions: &HandRestrictions,
    rng: &mut SeededRng,
) -> (r: bool)
    requires
        old(pool).wf(),
        conserved(old(hand)@, old(pool)@, *restrictions),
        total(old(hand)@) == COMPLETE_HAND_SIZE,
    ensures
        final(pool).wf(),
        conserved(final(hand)@, final(pool)@, *restrictions),
        r ==> total(final(hand)@) == HAND_SIZE && distance(*shape, final(hand)@) == target,
        !r && target <= distance_cap(*shape) && total(final(hand)@) == HAND_SIZE ==> distance(*shape, final(hand)@)
            < target && !swap_reaches(*shape, final(hand)@, final(pool)@, distance(*shape, final(hand)@) + 1),
        !r && target <= distance_cap(*shape) && total(final(hand)@) != HAND_SIZE ==> final(hand)@ == old(
            hand,
        )@ && !(exists|k: int|
            0 <= k < KIND_COUNT && old(hand)@[k] > 0 && #[trigger] distance(*shape, 
                old(hand)@.update(k, (old(hand)@[k] - 1) as u8),
            ) == 0),
        target == 0 && (exists|k: int|
            0 <= k < KIND_COUNT && old(hand)@[k] > 0 && #[trigger] distance(*shape, 
                old(hand)@.update(k, (old(hand)@[k] - 1) as u8),
            ) == 0) ==> r,
{
    if target > max_distance(shape) {
        return false;
    }
    let ready = ready_discards(shape, hand);
    if ready.len() == 0 {
        return false;
    }
    let pick = rng.below(ready.len() as u64) as usize;
    move_to_pool(hand, pool, ready[pick], restrictions);
    let mut current: i32 = 0;
    while current < target as i32
        invariant
            pool.wf(),
            conserved(hand@, pool@, *restrictions),
            total(hand@) == HAND_SIZE,
            distance(*shape, hand@) == current,
            0 <= current <= target,
        decreases target - current,
    {
        let stepped = step_up(shape, hand, pool, current + 1, restrictions, rng);
        if !stepped {
            return false;
        }
        current = current + 1;
    }
    true
}

/// The tiles of a hand given by its counts, in ascending kind order.
fn expand_hand(hand: &Vec<u8>, pool: &TilePool, restrictions: &HandRestrictions) -> (r: Vec<Tile>)
    requires
        conserved(hand@, pool@, *restrictions),
    ensures
        r@.len() == total(hand@),
        forall|t: Tile| #[trigger]
            occurrences(r@, t) == if plain_below(t, KIND_COUNT as int) {
                hand@[t.kind() as int] as nat
            } else {
                0
            },
        forall|i: int|
            #![trigger r@[i]]
            0 <= i < r@.len() ==> plain_below(r@[i], KIND_COUNT as int) && hand@[r@[i].kind() as int] > 0,
{
    let mut out: Vec<Tile> = Vec::new();
    let mut k: usize = 0;
    while k < KIND_COUNT
        invariant
            k <= KIND_COUNT,
            hand@.len() == KIND_COUNT,
            out@.len() == total(hand@.take(k as int)),
            forall|t: Tile| #[trigger]
                occurrences(out@, t) == if plain_below(t, k as int) {
                    hand@[t.kind() as int] as nat
                } else {
                    0
                },
            forall|i: int|
                #![trigger out@[i]]
                0 <= i < out@.len() ==> plain_below(out@[i], k as int) && hand@[out@[i].kind() as int] > 0,
        decreases KIND_COUNT - k,
    {
        let tile = Tile::from_kind(k);
        let n = hand[k];
        let mut j: u8 = 0;
        while j < n
            invariant
                k < KIND_COUNT,
                hand@.len() == KIND_COUNT,
                n == hand@[k as int],
                j <= n,
                tile == Tile::of_kind(k as nat),
                tile.valid(),
                tile.kind() == k,
                out@.len() == total(hand@.take(k as int)) + j,
                forall|t: Tile| #[trigger]
                    occurrences(out@, t) == if plain_below(t, k as int) {
                        hand@[t.kind() as int] as nat
                    } else if t == tile {
                        j as nat
                    } else {
                        0
                    },
                forall|i: int|
                    #![trigger out@[i]]
                    0 <= i < out@.len() ==> plain_below(out@[i], k + 1) && hand@[out@[i].kind() as int] > 0,
            decreases n - j,
        {
            let ghost before = out@;
            out.push(tile);
            j = j + 1;
            assert forall|t: Tile| #[trigger]
                occurrences(out@, t) == occurrences(before, t) + if t == tile {
                    1nat
                } else {
                    0nat
                } by {
                assert(out@.drop_last() =~= before);
            }
        }
        assert(hand@.take(k + 1).drop_last() =~= hand@.take(k as int));
        k = k + 1;
        assert forall|t: Tile| #[trigger]
            occurrences(out@, t) == if plain_below(t, k as int) {
                hand@[t.kind() as int] as nat
            } else {
                0
            } by {
            if t == tile {
                assert(plain_below(t, k as int));
            }
        }
    }
    assert(hand@.take(KIND_COUNT as int) =~= hand@);
    out
}

} // verus!
