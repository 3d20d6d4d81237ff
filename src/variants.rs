use vstd::prelude::*;
use crate::hand::TileGroup;
use crate::types::{DragonColor, NumberedSuit, WindDirection};

verus! {

/// An enumeration whose wildcard ("every variant") expands to an explicit list.
pub trait EnumExpander: Sized {
    /// The variants that the wildcard stands for, in a fixed order.
    spec fn all_variants() -> Seq<Self>;

    fn get_all_variants() -> (r: Vec<Self>)
        ensures
            r@ == Self::all_variants(),
    ;
}

impl EnumExpander for WindDirection {
    open spec fn all_variants() -> Seq<WindDirection> {
        seq![WindDirection::East, WindDirection::South, WindDirection::West, WindDirection::North]
    }

    fn get_all_variants() -> (r: Vec<WindDirection>) {
        let r = vec![WindDirection::East, WindDirection::South, WindDirection::West, WindDirection::North];
        assert(r@ =~= Self::all_variants());
        r
    }
}

impl EnumExpander for DragonColor {
    open spec fn all_variants() -> Seq<DragonColor> {
        seq![DragonColor::White, DragonColor::Green, DragonColor::Red]
    }

    fn get_all_variants() -> (r: Vec<DragonColor>) {
        let r = vec![DragonColor::White, DragonColor::Green, DragonColor::Red];
        assert(r@ =~= Self::all_variants());
        r
    }
}

impl EnumExpander for NumberedSuit {
    open spec fn all_variants() -> Seq<NumberedSuit> {
        seq![NumberedSuit::Characters, NumberedSuit::Circles, NumberedSuit::Bamboos]
    }

    fn get_all_variants() -> (r: Vec<NumberedSuit>) {
        let r = vec![NumberedSuit::Characters, NumberedSuit::Circles, NumberedSuit::Bamboos];
        assert(r@ =~= Self::all_variants());
        r
    }
}

impl EnumExpander for TileGroup {
    open spec fn all_variants() -> Seq<TileGroup> {
        seq![
            TileGroup::Jantou,
            TileGroup::Shuntsu,
            TileGroup::Koutsu,
            TileGroup::Kantsu,
            TileGroup::Shinguru,
        ]
    }

    fn get_all_variants() -> (r: Vec<TileGroup>) {
        let r = vec![
            TileGroup::Jantou,
            TileGroup::Shuntsu,
            TileGroup::Koutsu,
            TileGroup::Kantsu,
            TileGroup::Shinguru,
        ];
        assert(r@ =~= Self::all_variants());
        r
    }
}

/// A copy of a list of plain values.
pub fn copy_list<T: Copy>(v: &Vec<T>) -> (r: Vec<T>)
    ensures
        r@ == v@,
{
    let mut r: Vec<T> = Vec::new();
    let mut i: usize = 0;
    while i < v.len()
        invariant
            i <= v@.len(),
            r@ == v@.take(i as int),
        decreases v@.len() - i,
    {
        r.push(v[i]);
        i = i + 1;
        assert(r@ =~= v@.take(i as int));
    }
    assert(v@.take(i as int) =~= v@);
    r
}

} // verus!
