use wwyd::assembler::assemble_group;
use wwyd::generator::GenerationError;
use wwyd::hand::{HandRestrictions, HandShape, ShapeGroup, TileGroup, TileRequirement};
use wwyd::pool::TilePool;
use wwyd::rng::SeededRng;
use wwyd::scorer::rank_discards;
use wwyd::shanten::{compute_shanten, target_distance, HandTarget};
use wwyd::types::{DragonColor, NumberedSuit, Tile, WindDirection};
use wwyd::variants::EnumExpander;

fn open_restrictions() -> HandRestrictions {
    HandRestrictions {
        honor_tiles: None,
        honor_variants: None,
        honor_wind_directions_allowed: None,
        honor_dragon_colors_allowed: None,
        suit_tiles: None,
        suit_variants: None,
        suit_variants_allowed: None,
        suit_numbers_allowed: None,
        shapes_allowed: None,
        hand_shape: HandShape::Both,
        irregular_shape: Some(vec![ShapeGroup { group_type: TileGroup::Jantou, group_count: 7 }]),
    }
}

fn counts(kinds: &[usize]) -> Vec<u8> {
    let mut c = vec![0u8; 34];
    for &k in kinds {
        c[k] += 1;
    }
    c
}

#[test]
fn numbered_tiles_are_built_and_checked() {
    let t = Tile::new_numbered(NumberedSuit::Circles, 7, false);
    assert_eq!(t, Tile::Circle { number: 7, is_red: false });
    assert!(t.is_valid());
    assert_eq!(t.kind_index(), 15);
    assert!(!Tile::Bamboo { number: 13, is_red: false }.is_valid());
    assert!(!Tile::Character { number: 0, is_red: true }.is_valid());
}

#[test]
fn honor_tiles_are_built() {
    assert_eq!(Tile::new_wind(WindDirection::South), Tile::Wind(WindDirection::South));
    assert_eq!(Tile::new_dragon(DragonColor::Red), Tile::Dragon(DragonColor::Red));
    assert_eq!(Tile::new_wind(WindDirection::North).kind_index(), 30);
    assert_eq!(Tile::new_dragon(DragonColor::White).kind_index(), 31);
    assert!(Tile::new_dragon(DragonColor::Green).is_valid());
}

#[test]
fn kinds_round_trip() {
    for k in 0..34 {
        assert_eq!(Tile::from_kind(k).kind_index(), k);
    }
    assert_eq!(Tile::from_kind(26), Tile::Bamboo { number: 9, is_red: false });
}

#[test]
fn wildcards_expand_to_every_variant() {
    assert_eq!(WindDirection::get_all_variants().len(), 4);
    assert_eq!(DragonColor::get_all_variants(), vec![DragonColor::White, DragonColor::Green, DragonColor::Red]);
    assert_eq!(NumberedSuit::get_all_variants().len(), 3);
    assert_eq!(TileGroup::get_all_variants().len(), 5);
    assert!(TileGroup::get_all_variants().contains(&TileGroup::Shinguru));
}

#[test]
fn restriction_queries_resolve_defaults() {
    let mut r = open_restrictions();
    assert!(r.can_contain_honors());
    assert!(r.can_contain_suits());
    assert_eq!(r.usable_honor_variants_count(), 7);
    assert_eq!(r.usable_suit_variants_count(), 3);
    assert_eq!(r.wind_directions_allowed().len(), 4);
    assert_eq!(r.dragon_colors_allowed().len(), 3);
    assert_eq!(r.suit_variants_allowed().len(), 3);
    assert_eq!(r.suit_numbers_allowed(), vec![1, 2, 3, 4, 5, 6, 7, 8, 9]);
    assert!(r.shapes_allowed().is_none());
    assert_eq!(r.hand_shape(), HandShape::Both);
    assert_eq!(r.irregular_shape_set().map(|v| v.len()), Some(1));
    r.honor_tiles = Some(TileRequirement::Forbidden);
    r.suit_variants_allowed = Some(vec![NumberedSuit::Characters, NumberedSuit::Bamboos]);
    r.hand_shape = HandShape::Regular;
    assert!(!r.can_contain_honors());
    assert_eq!(r.usable_honor_variants_count(), 0);
    assert_eq!(r.usable_suit_variants_count(), 2);
    assert!(r.wind_directions_allowed().is_empty());
    assert!(r.dragon_colors_allowed().is_empty());
    assert!(r.irregular_shape_set().is_none());
}

#[test]
fn pool_starts_with_four_of_each_allowed_kind() {
    let mut r = open_restrictions();
    r.suit_variants_allowed = Some(vec![NumberedSuit::Bamboos]);
    r.suit_numbers_allowed = Some(vec![2, 5]);
    r.honor_dragon_colors_allowed = Some(vec![DragonColor::Green]);
    r.honor_wind_directions_allowed = Some(vec![]);
    let pool = TilePool::new(&r);
    assert_eq!(pool.remaining(19), 4);
    assert_eq!(pool.remaining(22), 4);
    assert_eq!(pool.remaining(32), 4);
    assert_eq!(pool.remaining(0), 0);
    assert_eq!(pool.remaining(27), 0);
    assert_eq!(pool.total_remaining(), 12);
    assert_eq!(TilePool::compute_total_tiles_available_with(&r), 12);
    assert_eq!(TilePool::compute_total_tiles_available_with(&open_restrictions()), 136);
}

#[test]
fn pool_draws_and_returns() {
    let mut r = open_restrictions();
    r.suit_tiles = Some(TileRequirement::Forbidden);
    let mut pool = TilePool::new(&r);
    assert_eq!(pool.total_remaining(), 28);
    for _ in 0..4 {
        assert!(pool.draw(27));
    }
    assert!(!pool.draw(27));
    assert!(!pool.draw(3));
    assert_eq!(pool.remaining(27), 0);
    pool.return_tile(27);
    assert_eq!(pool.remaining(27), 1);
    assert_eq!(pool.total_remaining(), 25);
}

#[test]
fn pool_fill_helpers_set_exactly_the_named_kinds() {
    let mut v = vec![0u8; 34];
    TilePool::fill_pool_with_suit_tiles(&mut v, &vec![NumberedSuit::Characters], &vec![1, 9]);
    TilePool::fill_pool_with_honor_tiles(&mut v, &vec![WindDirection::West], &vec![DragonColor::Red]);
    let set: Vec<usize> = (0..34).filter(|&k| v[k] == 4).collect();
    assert_eq!(set, vec![0, 8, 29, 33]);
    v[0] = 1;
    v[29] = 2;
    TilePool::fill_pool_with_suit_tiles(&mut v, &vec![NumberedSuit::Characters], &vec![1, 2]);
    TilePool::fill_pool_with_honor_tiles(&mut v, &vec![WindDirection::West], &vec![]);
    assert_eq!(v[0], 1);
    assert_eq!(v[1], 4);
    assert_eq!(v[29], 2);
}

#[test]
fn shanten_of_known_hands() {
    // 123m 456m 789m 123p 55p: complete.
    assert_eq!(compute_shanten(&counts(&[0, 1, 2, 3, 4, 5, 6, 7, 8, 9, 10, 11, 13, 13])), -1);
    // 123m 456m 789m 123p 5p: waiting on 5p.
    assert_eq!(compute_shanten(&counts(&[0, 1, 2, 3, 4, 5, 6, 7, 8, 9, 10, 11, 13])), 0);
    // six pairs and a single honor: waiting on the seventh pair.
    assert_eq!(compute_shanten(&counts(&[27, 27, 28, 28, 29, 29, 30, 30, 31, 31, 32, 32, 33])), 0);
    // thirteen unrelated tiles.
    assert_eq!(compute_shanten(&counts(&[0, 4, 8, 9, 13, 17, 18, 22, 26, 27, 28, 29, 30])), 6);
    // 1m 4m 7m 2p 5p 8p 3s 6s 9s and four winds: far from anything.
    assert_eq!(compute_shanten(&counts(&[0, 3, 6, 10, 13, 16, 20, 23, 26, 27, 28, 29, 30])), 6);
    // 11m 23m 56p 789s 1z1z 2z: one step from tenpai.
    assert_eq!(compute_shanten(&counts(&[0, 0, 1, 2, 13, 14, 24, 25, 26, 27, 27, 28, 31])), 2);
}

#[test]
fn discards_are_ranked_and_stable() {
    let mut r = open_restrictions();
    r.honor_tiles = Some(TileRequirement::Forbidden);
    let mut pool = TilePool::new(&r);
    // 123m 456m 789m 123p 5p 9s: dropping 9s leaves a wait on the three 5p still in the pool.
    let kinds = [0, 1, 2, 3, 4, 5, 6, 7, 8, 9, 10, 11, 13, 26];
    for &k in &kinds {
        assert!(pool.draw(k));
    }
    let hand = counts(&kinds);
    let first = rank_discards(&HandTarget::regular(), &hand, &pool);
    let second = rank_discards(&HandTarget::regular(), &hand, &pool);
    assert_eq!(first, second);
    assert_eq!(first.len(), 14);
    let nine = first.iter().find(|d| d.tile == Tile::Bamboo { number: 9, is_red: false }).unwrap();
    assert_eq!(nine.score, 3);
    let five = first.iter().find(|d| d.tile == Tile::Circle { number: 5, is_red: false }).unwrap();
    assert_eq!(five.score, 3);
    let one = first.iter().find(|d| d.tile == Tile::Character { number: 1, is_red: false }).unwrap();
    assert!(one.score > 3);
    for w in first.windows(2) {
        assert!(w[0].score >= w[1].score);
    }
}

#[test]
fn seeded_generator_repeats_and_stays_in_range() {
    let mut a = SeededRng::new(5);
    let mut b = SeededRng::new(5);
    for _ in 0..20 {
        let x = a.below(34);
        assert!(x < 34);
        assert_eq!(x, b.below(34));
    }
    let mut z = SeededRng::new(0);
    assert_ne!(z.next_u64(), 0);
}

#[test]
fn group_sizes() {
    assert_eq!(TileGroup::Kantsu.tile_count(), 4);
    assert_eq!(TileGroup::Jantou.tile_count(), 2);
    assert_eq!(TileGroup::Shinguru.tile_count(), 1);
    assert_eq!(TileGroup::Shuntsu.tile_count(), 3);
}

#[test]
fn assembler_draws_whole_groups_or_nothing() {
    let mut r = open_restrictions();
    r.suit_tiles = Some(TileRequirement::Forbidden);
    r.honor_wind_directions_allowed = Some(vec![WindDirection::West]);
    r.honor_dragon_colors_allowed = Some(vec![]);
    let mut pool = TilePool::new(&r);
    let mut hand = vec![0u8; 34];
    let mut rng = SeededRng::new(3);
    assert_eq!(assemble_group(&mut hand, &mut pool, TileGroup::Koutsu, false, &r, &mut rng), Ok(()));
    assert_eq!(hand[29], 3);
    assert_eq!(pool.remaining(29), 1);
    assert_eq!(
        assemble_group(&mut hand, &mut pool, TileGroup::Jantou, false, &r, &mut rng),
        Err(GenerationError::PoolExhausted)
    );
    assert_eq!(hand[29], 3);
    assert_eq!(
        assemble_group(&mut hand, &mut pool, TileGroup::Shuntsu, false, &r, &mut rng),
        Err(GenerationError::PoolExhausted)
    );
    assert_eq!(assemble_group(&mut hand, &mut pool, TileGroup::Shinguru, false, &r, &mut rng), Ok(()));
    assert_eq!(hand[29], 4);
    assert_eq!(pool.total_remaining(), 0);
}

#[test]
fn out_of_range_numbers_name_no_tile_in_a_fresh_pool() {
    let mut r = open_restrictions();
    r.honor_tiles = Some(TileRequirement::Forbidden);
    r.suit_variants_allowed = Some(vec![NumberedSuit::Circles]);
    r.suit_numbers_allowed = Some(vec![0, 3, 10]);
    let pool = TilePool::new(&r);
    assert_eq!(pool.total_remaining(), 4);
    assert_eq!(pool.remaining(11), 4);
}

#[test]
fn distance_toward_single_tiles_and_a_pair() {
    let t = HandTarget { irregular: true, singles: 12, pairs: 1, triplets: 0 };
    // twelve distinct kinds and one more: waiting for any pair.
    let ready = counts(&[0, 8, 9, 17, 18, 26, 27, 28, 29, 30, 31, 32, 33]);
    assert_eq!(target_distance(&t, &ready), 0);
    let done = counts(&[0, 8, 9, 17, 18, 26, 27, 28, 29, 30, 31, 32, 33, 33]);
    assert_eq!(target_distance(&t, &done), -1);
    // ten kinds, three of them doubled: three tiles short of thirteen kinds.
    let far = counts(&[0, 0, 8, 8, 9, 9, 17, 18, 26, 27, 28, 29, 30]);
    assert_eq!(target_distance(&t, &far), 2);
    let pairs = HandTarget { irregular: true, singles: 0, pairs: 7, triplets: 0 };
    assert_eq!(target_distance(&pairs, &counts(&[27, 27, 28, 28, 29, 29, 30, 30, 31, 31, 32, 32, 33])), 0);
    assert_eq!(target_distance(&HandTarget::regular(), &ready), compute_shanten(&ready));
}
