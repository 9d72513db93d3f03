use vstd::prelude::*;

verus! {

/// The routing behaviour of one grid cell.
#[derive(Clone, Copy, Debug, PartialEq, Eq, Structural)]
pub enum Tile {
    Up,
    Down,
    Left,
    Right,
    Hold,
    Block,
    DuplicateH,
    FilterR,
    Destroy,
    Empty,
    FilterU,
    FilterD,
    FilterL,
    DuplicateV,
}

/// The tile that every cell of a fresh chunk holds.
pub open spec fn default_tile() -> Tile {
    Tile::Down
}

/// The storage code of a tile.
pub open spec fn tile_code(t: Tile) -> u8 {
    match t {
        Tile::Up => 0,
        Tile::Down => 1,
        Tile::Left => 2,
        Tile::Right => 3,
        Tile::Hold => 4,
        Tile::Block => 5,
        Tile::DuplicateH => 6,
        Tile::FilterR => 7,
        Tile::Destroy => 8,
        Tile::Empty => 9,
        Tile::FilterU => 10,
        Tile::FilterD => 11,
        Tile::FilterL => 12,
        Tile::DuplicateV => 13,
    }
}

/// The tile that a storage code stands for, if any.
pub open spec fn tile_of_code(code: u8) -> Option<Tile> {
    if code == 0 {
        Some(Tile::Up)
    } else if code == 1 {
        Some(Tile::Down)
    } else if code == 2 {
        Some(Tile::Left)
    } else if code == 3 {
        Some(Tile::Right)
    } else if code == 4 {
        Some(Tile::Hold)
    } else if code == 5 {
        Some(Tile::Block)
    } else if code == 6 {
        Some(Tile::DuplicateH)
    } else if code == 7 {
        Some(Tile::FilterR)
    } else if code == 8 {
        Some(Tile::Destroy)
    } else if code == 9 {
        Some(Tile::Empty)
    } else if code == 10 {
        Some(Tile::FilterU)
    } else if code == 11 {
        Some(Tile::FilterD)
    } else if code == 12 {
        Some(Tile::FilterL)
    } else if code == 13 {
        Some(Tile::DuplicateV)
    } else {
        None
    }
}

/// Decoding as a result: the tile of a code below fourteen, an error for any
/// other code.
pub open spec fn decode_tile(code: u8) -> Result<Tile, ()> {
    match tile_of_code(code) {
        Some(t) => Ok(t),
        None => Err(()),
    }
}

/// The tile read from a stored code; a code that stands for no tile reads as
/// the default tile.
pub open spec fn tile_read(code: u8) -> Tile {
    match tile_of_code(code) {
        Some(t) => t,
        None => default_tile(),
    }
}

/// Decoding undoes encoding, and every encoded tile is below fourteen.
pub proof fn lemma_code_round_trip(t: Tile)
    ensures
        tile_of_code(tile_code(t)) == Some(t),
        tile_read(tile_code(t)) == t,
        tile_code(t) < 14,
{
}

/// A code decodes exactly when it is below fourteen, and then encodes back
/// to itself.
pub proof fn lemma_decode_exact(code: u8)
    ensures
        tile_of_code(code) is Some <==> code < 14,
        tile_of_code(code) is Some ==> tile_code(tile_of_code(code)->0) == code,
{
}

impl From<Tile> for u8 {
    fn from(value: Tile) -> (code: u8)
        ensures
            code == tile_code(value),
    {
        match value {
            Tile::Up => 0,
            Tile::Down => 1,
            Tile::Left => 2,
            Tile::Right => 3,
            Tile::Hold => 4,
            Tile::Block => 5,
            Tile::DuplicateH => 6,
            Tile::FilterR => 7,
            Tile::Destroy => 8,
            Tile::Empty => 9,
            Tile::FilterU => 10,
            Tile::FilterD => 11,
            Tile::FilterL => 12,
            Tile::DuplicateV => 13,
        }
    }
}

impl vstd::std_specs::convert::FromSpecImpl<Tile> for u8 {
    open spec fn obeys_from_spec() -> bool {
        true
    }

    open spec fn from_spec(value: Tile) -> u8 {
        tile_code(value)
    }
}

impl TryFrom<u8> for Tile {
    type Error = ();

    fn try_from(value: u8) -> (decoded: Result<Tile, ()>)
        ensures
            decoded == decode_tile(value),
    {
        match value {
            0 => Ok(Tile::Up),
            1 => Ok(Tile::Down),
            2 => Ok(Tile::Left),
            3 => Ok(Tile::Right),
            4 => Ok(Tile::Hold),
            5 => Ok(Tile::Block),
            6 => Ok(Tile::DuplicateH),
            7 => Ok(Tile::FilterR),
            8 => Ok(Tile::Destroy),
            9 => Ok(Tile::Empty),
            10 => Ok(Tile::FilterU),
            11 => Ok(Tile::FilterD),
            12 => Ok(Tile::FilterL),
            13 => Ok(Tile::DuplicateV),
            _ => Err(()),
        }
    }
}

impl vstd::std_specs::convert::TryFromSpecImpl<u8> for Tile {
    open spec fn obeys_try_from_spec() -> bool {
        true
    }

    open spec fn try_from_spec(value: u8) -> Result<Tile, ()> {
        decode_tile(value)
    }
}

} // verus!
