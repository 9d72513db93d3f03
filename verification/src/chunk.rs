use vstd::prelude::*;

verus! {

/// Edge length of a chunk, in cells.
pub const CHUNK_SIZE: usize = 32;

/// The coordinate of a chunk.
#[derive(Copy, Clone, Debug, PartialEq, Eq, Hash)]
pub struct ChunkPosition {
    pub position: [i32; 2],
}

/// The tile codes of one chunk, row by row, the topmost row first.
#[derive(Clone, Copy, Debug)]
pub struct Chunk {
    pub data: [u8; 1024],
}

/// How the tile atlas is laid out.
#[derive(Copy, Clone, Debug)]
pub struct AtlasInfo {
    pub tiles_per_row: u32,
    pub _pad: u32,
    pub tiles_size: [u32; 2],
}

/// The chunk coordinate and the cell inside that chunk of a world coordinate,
/// one axis at a time: floor division and its non-negative remainder.
pub open spec fn chunk_of(w: int) -> int {
    w / 32
}

pub open spec fn local_of(w: int) -> int {
    w % 32
}

/// Where the cell at column `x`, row `y` of a chunk is stored: rows are stored
/// from the top down.
pub open spec fn cell_index(x: int, y: int) -> int {
    x + (31 - y) * 32
}

impl View for ChunkPosition {
    type V = (i32, i32);

    open spec fn view(&self) -> (i32, i32) {
        (self.position[0], self.position[1])
    }
}

impl View for Chunk {
    type V = Seq<u8>;

    open spec fn view(&self) -> Seq<u8> {
        self.data@
    }
}

impl Default for ChunkPosition {
    fn default() -> (p: ChunkPosition)
        ensures
            p@ == (0i32, 0i32),
    {
        ChunkPosition { position: [0, 0] }
    }
}

impl Default for Chunk {
    fn default() -> (c: Chunk)
        ensures
            c@.len() == 1024,
            forall|i: int| 0 <= i < 1024 ==> c@[i] == 0,
    {
        Chunk { data: [0; 1024] }
    }
}

impl Default for AtlasInfo {
    fn default() -> (a: AtlasInfo)
        ensures
            a.tiles_per_row == 0,
            a._pad == 0,
            a.tiles_size@ == seq![0u32, 0u32],
    {
        AtlasInfo { tiles_per_row: 0, _pad: 0, tiles_size: [0, 0] }
    }
}

impl Chunk {
    /// A chunk whose every cell holds `code`.
    pub fn filled(code: u8) -> (c: Chunk)
        ensures
            c@ == Seq::new(1024, |i: int| code),
    {
        let c = Chunk { data: [code; 1024] };
        assert(c@ =~= Seq::new(1024, |i: int| code));
        c
    }

    /// Writes `tile` into the cell at column `pos[0]`, row `pos[1]`.
    pub fn set_tile(&mut self, pos: [u32; 2], tile: u8)
        requires
            pos[0] < 32,
            pos[1] < 32,
        ensures
            final(self)@ == old(self)@.update(cell_index(pos[0] as int, pos[1] as int), tile),
    {
        let i: usize = (pos[0] + (CHUNK_SIZE as u32 - pos[1] - 1) * CHUNK_SIZE as u32) as usize;
        self.data[i] = tile;
        assert(self@ =~= old(self)@.update(cell_index(pos[0] as int, pos[1] as int), tile));
    }

    /// The code in the cell at column `pos[0]`, row `pos[1]`.
    pub fn get_tile(&self, pos: [u32; 2]) -> (code: u8)
        requires
            pos[0] < 32,
            pos[1] < 32,
        ensures
            code == self@[cell_index(pos[0] as int, pos[1] as int)],
    {
        self.data[(pos[0] + (CHUNK_SIZE as u32 - pos[1] - 1) * CHUNK_SIZE as u32) as usize]
    }
}

/// Splits one axis of a world coordinate into chunk coordinate and cell.
pub fn split_axis(w: i32) -> (r: (i32, u32))
    ensures
        r.0 == chunk_of(w as int),
        r.1 == local_of(w as int),
        r.0 * 32 + r.1 == w,
        r.1 < 32,
{
    let c = w.checked_div_euclid(CHUNK_SIZE as i32);
    let l = w.checked_rem_euclid(CHUNK_SIZE as i32);
    match (c, l) {
        (Some(c), Some(l)) => (c, l as u32),
        _ => (0, 0),
    }
}

/// The chunk that holds a world cell, and the cell's place inside it.
pub fn to_chunk_local(world: [i32; 2]) -> (r: (ChunkPosition, [u32; 2]))
    ensures
        r.0@ == (chunk_of(world[0] as int) as i32, chunk_of(world[1] as int) as i32),
        r.1[0] == local_of(world[0] as int),
        r.1[1] == local_of(world[1] as int),
        r.0.position[0] * 32 + r.1[0] == world[0],
        r.0.position[1] * 32 + r.1[1] == world[1],
        r.1[0] < 32,
        r.1[1] < 32,
{
    let x = split_axis(world[0]);
    let y = split_axis(world[1]);
    (ChunkPosition { position: [x.0, y.0] }, [x.1, y.1])
}

/// The world cell at a place inside a chunk: the way back from
/// `to_chunk_local`. The cell must exist, that is, lie in the range of world
/// coordinates.
pub fn to_world(chunk: ChunkPosition, local: [u32; 2]) -> (world: [i32; 2])
    requires
        local[0] < 32,
        local[1] < 32,
        i32::MIN <= chunk.position[0] * 32 + local[0] <= i32::MAX,
        i32::MIN <= chunk.position[1] * 32 + local[1] <= i32::MAX,
    ensures
        world[0] == chunk.position[0] * 32 + local[0],
        world[1] == chunk.position[1] * 32 + local[1],
        chunk_of(world[0] as int) == chunk.position[0],
        chunk_of(world[1] as int) == chunk.position[1],
        local_of(world[0] as int) == local[0],
        local_of(world[1] as int) == local[1],
{
    let x: i64 = chunk.position[0] as i64 * CHUNK_SIZE as i64 + local[0] as i64;
    let y: i64 = chunk.position[1] as i64 * CHUNK_SIZE as i64 + local[1] as i64;
    [x as i32, y as i32]
}

} // verus!
