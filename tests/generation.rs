use wwyd::generator::{GenerationError, HandGenerator};
use wwyd::hand::{HandRestrictions, HandShape, ShapeGroup, TileGroup, TileRequirement};
use wwyd::shanten::{compute_shanten, target_distance, HandTarget};
use wwyd::types::{NumberedSuit, Tile};

fn base_restrictions() -> HandRestrictions {
    HandRestrictions {
        honor_tiles: None,
        honor_variants: None,
        honor_wind_directions_allowed: None,
        honor_dragon_colors_allowed: None,
        suit_tiles: None,
        suit_variants: None,
        suit_variants_allowed: None,
        suit_numbers_allowed: None,
        shapes_allowed: None,
        hand_shape: HandShape::Regular,
        irregular_shape: None,
    }
}

fn one_suit_runs() -> HandRestrictions {
    let mut r = base_restrictions();
    r.honor_tiles = Some(TileRequirement::Forbidden);
    r.suit_tiles = Some(TileRequirement::Required);
    r.suit_variants_allowed = Some(vec![NumberedSuit::Characters]);
    r.suit_numbers_allowed = Some(vec![1, 2, 3, 4, 5, 6, 7, 8, 9]);
    r.shapes_allowed = Some(vec![TileGroup::Shuntsu, TileGroup::Jantou]);
    r
}

fn seven_honor_pairs() -> HandRestrictions {
    let mut r = base_restrictions();
    r.suit_tiles = Some(TileRequirement::Forbidden);
    r.hand_shape = HandShape::Irregular;
    r.irregular_shape = Some(vec![ShapeGroup { group_type: TileGroup::Jantou, group_count: 7 }]);
    r
}

fn counts_of(tiles: &[Tile]) -> Vec<u8> {
    let mut c = vec![0u8; 34];
    for t in tiles {
        c[t.kind_index()] += 1;
    }
    c
}

#[test]
fn one_suit_regular_hand_is_tenpai() {
    let generator = HandGenerator::new(one_suit_runs());
    let p = generator.generate(0, 7).expect("a hand");
    assert_eq!(p.hand.len(), 13);
    assert_eq!(p.shanten, 0);
    assert!(p.hand.iter().all(|t| matches!(t, Tile::Character { .. })));
    assert_eq!(compute_shanten(&counts_of(&p.hand)), 0);
    assert_eq!(p.discards.len(), 13);
    for w in p.discards.windows(2) {
        assert!(w[0].score >= w[1].score);
    }
}

#[test]
fn honor_seven_pairs_is_six_pairs_and_a_single() {
    let generator = HandGenerator::new(seven_honor_pairs());
    let p = generator.generate(0, 11).expect("a hand");
    assert_eq!(p.hand.len(), 13);
    assert!(p.hand.iter().all(|t| t.is_honor()));
    let c = counts_of(&p.hand);
    assert_eq!(c.iter().filter(|&&n| n == 2).count(), 6);
    assert_eq!(c.iter().filter(|&&n| n == 1).count(), 1);
    assert_eq!(compute_shanten(&c), 0);
    assert_eq!(target_distance(&p.target, &c), 0);
}

#[test]
fn too_few_tiles_is_infeasible() {
    let mut r = base_restrictions();
    r.honor_tiles = Some(TileRequirement::Forbidden);
    r.suit_variants_allowed = Some(vec![NumberedSuit::Bamboos]);
    r.suit_numbers_allowed = Some(vec![1, 2, 3]);
    let generator = HandGenerator::new(r);
    assert_eq!(generator.generate(0, 1).err(), Some(GenerationError::GenerationInfeasible));
}

#[test]
fn both_categories_forbidden_is_a_conflict() {
    let mut r = base_restrictions();
    r.honor_tiles = Some(TileRequirement::Forbidden);
    r.suit_tiles = Some(TileRequirement::Forbidden);
    let generator = HandGenerator::new(r);
    assert_eq!(generator.generate(1, 1).err(), Some(GenerationError::RestrictionConflict));
}

#[test]
fn irregular_shape_of_wrong_size_is_a_conflict() {
    let mut r = base_restrictions();
    r.hand_shape = HandShape::Irregular;
    r.irregular_shape = Some(vec![ShapeGroup { group_type: TileGroup::Jantou, group_count: 6 }]);
    let generator = HandGenerator::new(r);
    assert_eq!(generator.generate(0, 1).err(), Some(GenerationError::RestrictionConflict));
}

#[test]
fn no_group_types_is_a_conflict() {
    let mut r = base_restrictions();
    r.shapes_allowed = Some(vec![TileGroup::Jantou]);
    let generator = HandGenerator::new(r);
    assert_eq!(generator.generate(0, 1).err(), Some(GenerationError::RestrictionConflict));
}

#[test]
fn unreachable_shanten_is_reported() {
    let generator = HandGenerator::new(base_restrictions());
    assert_eq!(generator.generate(7, 3).err(), Some(GenerationError::ShantenUnreachable));
}

#[test]
fn generated_hands_meet_every_bound() {
    for seed in 1..6u64 {
        for target in 0..3u8 {
            let generator = HandGenerator::new(base_restrictions());
            let p = generator.generate(target, seed).expect("a hand");
            assert_eq!(p.hand.len(), 13);
            let c = counts_of(&p.hand);
            assert!(c.iter().all(|&n| n <= 4));
            assert_eq!(compute_shanten(&c), target as i32);
            assert_eq!(p.discards.len(), 13);
        }
    }
}

#[test]
fn forbidden_honors_never_appear() {
    let mut r = base_restrictions();
    r.honor_tiles = Some(TileRequirement::Forbidden);
    let generator = HandGenerator::new(r);
    let p = generator.generate(1, 5).expect("a hand");
    assert!(p.hand.iter().all(|t| !t.is_honor()));
}

#[test]
fn forbidden_suits_never_appear() {
    let mut r = base_restrictions();
    r.suit_tiles = Some(TileRequirement::Forbidden);
    r.shapes_allowed = Some(vec![TileGroup::Koutsu, TileGroup::Jantou]);
    let generator = HandGenerator::new(r);
    let p = generator.generate(0, 9).expect("a hand");
    assert!(p.hand.iter().all(|t| t.is_honor()));
}

#[test]
fn same_seed_gives_same_problem() {
    let a = HandGenerator::new(base_restrictions()).generate(1, 42).expect("a hand");
    let b = HandGenerator::new(base_restrictions()).generate(1, 42).expect("a hand");
    assert_eq!(a.hand, b.hand);
    assert_eq!(a.discards, b.discards);
}

#[test]
fn quads_are_drawn_as_triplets() {
    let mut r = base_restrictions();
    r.shapes_allowed = Some(vec![TileGroup::Kantsu, TileGroup::Jantou]);
    let generator = HandGenerator::new(r);
    let p = generator.generate(0, 1).expect("a hand");
    assert_eq!(p.target, HandTarget::regular());
    assert_eq!(compute_shanten(&counts_of(&p.hand)), 0);
}

#[test]
fn single_tiles_and_a_pair_build_a_hand() {
    let mut r = base_restrictions();
    r.hand_shape = HandShape::Irregular;
    r.irregular_shape = Some(vec![
        ShapeGroup { group_type: TileGroup::Shinguru, group_count: 12 },
        ShapeGroup { group_type: TileGroup::Jantou, group_count: 1 },
    ]);
    let generator = HandGenerator::new(r);
    let p = generator.generate(0, 1).expect("a hand");
    assert_eq!(p.target, HandTarget { irregular: true, singles: 12, pairs: 1, triplets: 0 });
    let c = counts_of(&p.hand);
    assert_eq!(target_distance(&p.target, &c), 0);
    assert_eq!(c.iter().filter(|&&n| n > 0).count() >= 12, true);
    let p2 = generator.generate(2, 5).expect("a hand");
    assert_eq!(target_distance(&p2.target, &counts_of(&p2.hand)), 2);
}

#[test]
fn irregular_shape_of_wrong_total_is_a_conflict() {
    let mut r = base_restrictions();
    r.hand_shape = HandShape::Irregular;
    r.irregular_shape = Some(vec![ShapeGroup { group_type: TileGroup::Shinguru, group_count: 13 }]);
    let generator = HandGenerator::new(r);
    assert_eq!(generator.generate(0, 1).err(), Some(GenerationError::RestrictionConflict));
}

#[test]
fn irregular_groups_and_a_pair_build_a_hand() {
    let mut r = base_restrictions();
    r.hand_shape = HandShape::Irregular;
    r.irregular_shape = Some(vec![
        ShapeGroup { group_type: TileGroup::Koutsu, group_count: 4 },
        ShapeGroup { group_type: TileGroup::Jantou, group_count: 1 },
    ]);
    let generator = HandGenerator::new(r);
    let p = generator.generate(0, 4).expect("a hand");
    assert_eq!(target_distance(&p.target, &counts_of(&p.hand)), 0);
}

#[test]
fn required_honors_are_present() {
    let mut r = base_restrictions();
    r.honor_tiles = Some(TileRequirement::Required);
    let generator = HandGenerator::new(r);
    for seed in 1..4u64 {
        let p = generator.generate(1, seed).expect("a hand");
        assert!(p.hand.iter().any(|t| t.is_honor()));
    }
}
