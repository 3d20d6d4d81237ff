use vstd::prelude::*;
use crate::types::{
    dragon_of_kind, number_of_kind, suit_of_kind, wind_of_kind, DragonColor, NumberedSuit,
    WindDirection,
};
use crate::variants::{EnumExpander, copy_list};

verus! {

#[derive(Clone, Copy, Debug, PartialEq, Eq, Hash, Structural)]
pub enum TileRequirement {
    Required,
    Optional,
    Forbidden,
}

#[derive(Clone, Copy, Debug, PartialEq, Eq, Hash, Structural)]
pub enum HandShape {
    Regular,
    Irregular,
    Both,
}

/// A structural group: run, triplet, quad, pair or single tile.
#[derive(Clone, Copy, Debug, PartialEq, Eq, Hash, Structural)]
pub enum TileGroup {
    Shuntsu,
    Koutsu,
    Kantsu,
    Jantou,
    Shinguru,
}

impl TileGroup {
    pub open spec fn size(self) -> nat {
        match self {
            TileGroup::Shuntsu => 3,
            TileGroup::Koutsu => 3,
            TileGroup::Kantsu => 4,
            TileGroup::Jantou => 2,
            TileGroup::Shinguru => 1,
        }
    }

    /// Number of tiles in a group of this type.
    pub fn tile_count(&self) -> (r: u8)
        ensures
            r == self.size(),
            1 <= r <= 4,
    {
        match self {
            TileGroup::Shuntsu => 3,
            TileGroup::Koutsu => 3,
            TileGroup::Kantsu => 4,
            TileGroup::Jantou => 2,
            TileGroup::Shinguru => 1,
        }
    }
}

/// A group type together with how many groups of it an irregular hand holds.
#[derive(Clone, Copy, Debug, PartialEq, Eq, Hash, Structural)]
pub struct ShapeGroup {
    pub group_type: TileGroup,
    pub group_count: u8,
}

/// The restrictions on the tiles and shapes of a generated hand. An absent
/// allow-list means that every variant of its category is allowed.
#[derive(Debug)]
pub struct HandRestrictions {
    pub honor_tiles: Option<TileRequirement>,
    pub honor_variants: Option<u8>,
    pub honor_wind_directions_allowed: Option<Vec<WindDirection>>,
    pub honor_dragon_colors_allowed: Option<Vec<DragonColor>>,
    pub suit_tiles: Option<TileRequirement>,
    pub suit_variants: Option<u8>,
    pub suit_variants_allowed: Option<Vec<NumberedSuit>>,
    pub suit_numbers_allowed: Option<Vec<u8>>,
    pub shapes_allowed: Option<Vec<TileGroup>>,
    pub hand_shape: HandShape,
    pub irregular_shape: Option<Vec<ShapeGroup>>,
}

#[derive(Debug)]
pub struct HandDefinition {
    pub name: String,
    pub kanji: Option<String>,
    pub description: Option<String>,
    pub restrictions: HandRestrictions,
}

#[derive(Debug)]
pub struct HandList {
    pub hands: Vec<HandDefinition>,
}

pub open spec fn all_numbers() -> Seq<u8> {
    seq![1u8, 2u8, 3u8, 4u8, 5u8, 6u8, 7u8, 8u8, 9u8]
}

impl HandRestrictions {
    pub open spec fn honors_possible(&self) -> bool {
        self.honor_tiles != Some(TileRequirement::Forbidden)
    }

    pub open spec fn suits_possible(&self) -> bool {
        self.suit_tiles != Some(TileRequirement::Forbidden)
    }

    pub open spec fn winds(&self) -> Seq<WindDirection> {
        if !self.honors_possible() {
            Seq::empty()
        } else {
            match self.honor_wind_directions_allowed {
                Some(v) => v@,
                None => WindDirection::all_variants(),
            }
        }
    }

    pub open spec fn dragons(&self) -> Seq<DragonColor> {
        if !self.honors_possible() {
            Seq::empty()
        } else {
            match self.honor_dragon_colors_allowed {
                Some(v) => v@,
                None => DragonColor::all_variants(),
            }
        }
    }

    pub open spec fn suits(&self) -> Seq<NumberedSuit> {
        if !self.suits_possible() {
            Seq::empty()
        } else {
            match self.suit_variants_allowed {
                Some(v) => v@,
                None => NumberedSuit::all_variants(),
            }
        }
    }

    pub open spec fn numbers(&self) -> Seq<u8> {
        if !self.suits_possible() {
            Seq::empty()
        } else {
            match self.suit_numbers_allowed {
                Some(v) => v@,
                None => all_numbers(),
            }
        }
    }

    /// Whether tiles of kind `k` may appear in a hand under these restrictions.
    pub open spec fn allows_kind(&self, k: nat) -> bool {
        if k < 27 {
            self.suits().contains(suit_of_kind(k)) && self.numbers().contains(number_of_kind(k) as u8)
        } else if k < 31 {
            self.winds().contains(wind_of_kind(k))
        } else if k < 34 {
            self.dragons().contains(dragon_of_kind(k))
        } else {
            false
        }
    }

    #[inline]
    pub fn can_contain_honors(&self) -> (r: bool)
        ensures
            r == self.honors_possible(),
    {
        !matches!(self.honor_tiles, Some(TileRequirement::Forbidden))
    }

    pub fn usable_honor_variants_count(&self) -> (r: u8)
        ensures
            r == (if self.honors_possible() {
                match self.honor_variants {
                    Some(n) => n,
                    None => 7u8,
                }
            } else {
                0u8
            }),
    {
        if self.can_contain_honors() {
            match self.honor_variants {
                Some(n) => n,
                None => 7,
            }
        } else {
            0
        }
    }

    pub fn wind_directions_allowed(&self) -> (r: Vec<WindDirection>)
        ensures
            r@ == self.winds(),
    {
        if self.can_contain_honors() {
            match &self.honor_wind_directions_allowed {
                Some(v) => copy_list(v),
                None => WindDirection::get_all_variants(),
            }
        } else {
            Vec::new()
        }
    }

    pub fn dragon_colors_allowed(&self) -> (r: Vec<DragonColor>)
        ensures
            r@ == self.dragons(),
    {
        if self.can_contain_honors() {
            match &self.honor_dragon_colors_allowed {
                Some(v) => copy_list(v),
                None => DragonColor::get_all_variants(),
            }
        } else {
            Vec::new()
        }
    }

    #[inline]
    pub fn can_contain_suits(&self) -> (r: bool)
        ensures
            r == self.suits_possible(),
    {
        !matches!(self.suit_tiles, Some(TileRequirement::Forbidden))
    }

    /// How many suits a hand may use; a list longer than 255 reads as 255.
    pub fn usable_suit_variants_count(&self) -> (r: u8)
        ensures
            r == (if self.suits().len() > 255 {
                255
            } else {
                self.suits().len()
            }),
    {
        let suits = self.suit_variants_allowed();
        if suits.len() > 255 {
            255
        } else {
            suits.len() as u8
        }
    }

    pub fn suit_variants_allowed(&self) -> (r: Vec<NumberedSuit>)
        ensures
            r@ == self.suits(),
    {
        if self.can_contain_suits() {
            match &self.suit_variants_allowed {
                Some(v) => copy_list(v),
                None => NumberedSuit::get_all_variants(),
            }
        } else {
            Vec::new()
        }
    }

    pub fn suit_numbers_allowed(&self) -> (r: Vec<u8>)
        ensures
            r@ == self.numbers(),
    {
        if self.can_contain_suits() {
            match &self.suit_numbers_allowed {
                Some(v) => copy_list(v),
                None => {
                    let r = vec![1u8, 2u8, 3u8, 4u8, 5u8, 6u8, 7u8, 8u8, 9u8];
                    assert(r@ =~= all_numbers());
                    r
                },
            }
        } else {
            Vec::new()
        }
    }

    pub fn shapes_allowed(&self) -> (r: Option<&Vec<TileGroup>>)
        ensures
            r is Some == self.shapes_allowed is Some,
            r is Some ==> r->0@ == self.shapes_allowed->0@,
    {
        self.shapes_allowed.as_ref()
    }

    pub fn hand_shape(&self) -> (r: HandShape)
        ensures
            r == self.hand_shape,
    {
        self.hand_shape
    }

    /// The group list of an irregular shape; none for a regular-only hand.
    pub fn irregular_shape_set(&self) -> (r: Option<&Vec<ShapeGroup>>)
        ensures
            self.hand_shape == HandShape::Regular ==> r is None,
            self.hand_shape != HandShape::Regular ==> (r is Some == self.irregular_shape is Some),
            r is Some ==> r->0@ == self.irregular_shape->0@,
    {
        match self.hand_shape {
            HandShape::Regular => None,
            _ => self.irregular_shape.as_ref(),
        }
    }
}

} // verus!
