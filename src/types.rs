use vstd::prelude::*;

verus! {

/// Number of distinct tile kinds: 27 suited (3 suits x 9 numbers), 4 winds, 3 dragons.
pub const KIND_COUNT: usize = 34;

/// Physical copies of each tile kind in a full set.
pub const MAX_COPIES: u8 = 4;

/// Index of the first honor kind; kinds below it are suited.
pub const FIRST_HONOR_KIND: usize = 27;

#[derive(Clone, Copy, Debug, PartialEq, Eq, Hash, Structural)]
pub enum NumberedSuit {
    Characters,
    Circles,
    Bamboos,
}

#[derive(Clone, Copy, Debug, PartialEq, Eq, Hash, Structural)]
pub enum HonorSuit {
    Winds,
    Dragons,
}

#[derive(Clone, Copy, Debug, PartialEq, Eq, Hash, Structural)]
pub enum WindDirection {
    East,
    South,
    West,
    North,
}

#[derive(Clone, Copy, Debug, PartialEq, Eq, Hash, Structural)]
pub enum DragonColor {
    White,
    Green,
    Red,
}

#[derive(Clone, Copy, Debug, PartialEq, Eq, Hash, Structural)]
pub enum Tile {
    Character { number: u8, is_red: bool },
    Circle { number: u8, is_red: bool },
    Bamboo { number: u8, is_red: bool },
    Dragon(DragonColor),
    Wind(WindDirection),
}

pub open spec fn suit_offset(suit: NumberedSuit) -> nat {
    match suit {
        NumberedSuit::Characters => 0,
        NumberedSuit::Circles => 9,
        NumberedSuit::Bamboos => 18,
    }
}

pub open spec fn wind_offset(direction: WindDirection) -> nat {
    match direction {
        WindDirection::East => 0,
        WindDirection::South => 1,
        WindDirection::West => 2,
        WindDirection::North => 3,
    }
}

pub open spec fn dragon_offset(color: DragonColor) -> nat {
    match color {
        DragonColor::White => 0,
        DragonColor::Green => 1,
        DragonColor::Red => 2,
    }
}

/// The suit of a suited kind (`k < 27`).
pub open spec fn suit_of_kind(k: nat) -> NumberedSuit {
    if k < 9 {
        NumberedSuit::Characters
    } else if k < 18 {
        NumberedSuit::Circles
    } else {
        NumberedSuit::Bamboos
    }
}

/// The number (1 to 9) of a suited kind.
pub open spec fn number_of_kind(k: nat) -> nat {
    if k < 9 {
        k + 1
    } else if k < 18 {
        (k - 8) as nat
    } else {
        (k - 17) as nat
    }
}

pub open spec fn wind_of_kind(k: nat) -> WindDirection {
    if k == 27 {
        WindDirection::East
    } else if k == 28 {
        WindDirection::South
    } else if k == 29 {
        WindDirection::West
    } else {
        WindDirection::North
    }
}

pub open spec fn dragon_of_kind(k: nat) -> DragonColor {
    if k == 31 {
        DragonColor::White
    } else if k == 32 {
        DragonColor::Green
    } else {
        DragonColor::Red
    }
}

pub open spec fn is_honor_kind(k: nat) -> bool {
    27 <= k
}

pub open spec fn valid_number(number: u8) -> bool {
    1 <= number <= 9
}

/// The plain tile of a kind is valid, of that kind, and an honor exactly for honor kinds.
pub proof fn lemma_of_kind(k: nat)
    requires
        k < 34,
    ensures
        Tile::of_kind(k).valid(),
        Tile::of_kind(k).kind() == k,
        Tile::of_kind(k).honor() == is_honor_kind(k),
{
}

impl Tile {
    /// A suited tile has a number from 1 to 9; honor tiles are always valid.
    pub open spec fn valid(self) -> bool {
        match self {
            Tile::Character { number, .. } => valid_number(number),
            Tile::Circle { number, .. } => valid_number(number),
            Tile::Bamboo { number, .. } => valid_number(number),
            _ => true,
        }
    }

    /// The shape-matching kind of a valid tile, in `0..34`; the red flag does not change it.
    pub open spec fn kind(self) -> nat {
        match self {
            Tile::Character { number, .. } => (number - 1) as nat,
            Tile::Circle { number, .. } => (9 + number - 1) as nat,
            Tile::Bamboo { number, .. } => (18 + number - 1) as nat,
            Tile::Wind(d) => 27 + wind_offset(d),
            Tile::Dragon(c) => 31 + dragon_offset(c),
        }
    }

    pub open spec fn honor(self) -> bool {
        self is Wind || self is Dragon
    }

    /// The plain (not red) tile of kind `k`.
    pub open spec fn of_kind(k: nat) -> Tile {
        if k < 9 {
            Tile::Character { number: (k + 1) as u8, is_red: false }
        } else if k < 18 {
            Tile::Circle { number: (k - 8) as u8, is_red: false }
        } else if k < 27 {
            Tile::Bamboo { number: (k - 17) as u8, is_red: false }
        } else if k < 31 {
            Tile::Wind(wind_of_kind(k))
        } else {
            Tile::Dragon(dragon_of_kind(k))
        }
    }

    pub fn new_numbered(suit: NumberedSuit, number: u8, is_red: bool) -> (r: Tile)
        requires
            valid_number(number),
        ensures
            r.valid(),
            r.kind() == suit_offset(suit) + number - 1,
            r == (match suit {
                NumberedSuit::Characters => Tile::Character { number, is_red },
                NumberedSuit::Circles => Tile::Circle { number, is_red },
                NumberedSuit::Bamboos => Tile::Bamboo { number, is_red },
            }),
    {
        match suit {
            NumberedSuit::Characters => Tile::Character { number, is_red },
            NumberedSuit::Circles => Tile::Circle { number, is_red },
            NumberedSuit::Bamboos => Tile::Bamboo { number, is_red },
        }
    }

    pub fn new_wind(direction: WindDirection) -> (r: Tile)
        ensures
            r == Tile::Wind(direction),
            r.kind() == 27 + wind_offset(direction),
    {
        Tile::Wind(direction)
    }

    pub fn new_dragon(color: DragonColor) -> (r: Tile)
        ensures
            r == Tile::Dragon(color),
            r.kind() == 31 + dragon_offset(color),
    {
        Tile::Dragon(color)
    }

    pub fn is_valid(&self) -> (r: bool)
        ensures
            r == self.valid(),
    {
        match self {
            Tile::Character { number, .. } => 1 <= *number && *number <= 9,
            Tile::Circle { number, .. } => 1 <= *number && *number <= 9,
            Tile::Bamboo { number, .. } => 1 <= *number && *number <= 9,
            _ => true,
        }
    }

    pub fn is_honor(&self) -> (r: bool)
        ensures
            r == self.honor(),
    {
        match self {
            Tile::Wind(_) => true,
            Tile::Dragon(_) => true,
            _ => false,
        }
    }

    pub fn kind_index(&self) -> (r: usize)
        requires
            self.valid(),
        ensures
            r == self.kind(),
            r < KIND_COUNT,
    {
        match self {
            Tile::Character { number, .. } => (*number - 1) as usize,
            Tile::Circle { number, .. } => (*number + 8) as usize,
            Tile::Bamboo { number, .. } => (*number + 17) as usize,
            Tile::Wind(d) => match d {
                WindDirection::East => 27,
                WindDirection::South => 28,
                WindDirection::West => 29,
                WindDirection::North => 30,
            },
            Tile::Dragon(c) => match c {
                DragonColor::White => 31,
                DragonColor::Green => 32,
                DragonColor::Red => 33,
            },
        }
    }

    /// The plain tile of a kind, the inverse of `kind_index` on plain tiles.
    pub fn from_kind(k: usize) -> (r: Tile)
        requires
            k < KIND_COUNT,
        ensures
            r == Tile::of_kind(k as nat),
            r.valid(),
            r.kind() == k,
            r.honor() == is_honor_kind(k as nat),
    {
        if k < 9 {
            Tile::Character { number: (k + 1) as u8, is_red: false }
        } else if k < 18 {
            Tile::Circle { number: (k - 8) as u8, is_red: false }
        } else if k < 27 {
            Tile::Bamboo { number: (k - 17) as u8, is_red: false }
        } else if k == 27 {
            Tile::Wind(WindDirection::East)
        } else if k == 28 {
            Tile::Wind(WindDirection::South)
        } else if k == 29 {
            Tile::Wind(WindDirection::West)
        } else if k == 30 {
            Tile::Wind(WindDirection::North)
        } else if k == 31 {
            Tile::Dragon(DragonColor::White)
        } else if k == 32 {
            Tile::Dragon(DragonColor::Green)
        } else {
            Tile::Dragon(DragonColor::Red)
        }
    }
}

} // verus!
