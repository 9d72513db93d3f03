use crate::ball::{packed_words, BallPosition, BallsOn, Direction};
use crate::cells::Cell;
use crate::chunk::{Chunk, ChunkPosition};
use vstd::prelude::*;

verus! {

/// The most chunks that one frame can show.
pub const MAX_CHUNKS: usize = 256;

/// The most balls that one frame can show.
pub const MAX_BALLS: u32 = 32768;

/// The value of a byte's place in a word: 1, 256, 65536, 16777216.
pub open spec fn place(k: int) -> int {
    if k == 0 {
        1
    } else if k == 1 {
        0x100
    } else if k == 2 {
        0x1_0000
    } else {
        0x100_0000
    }
}

/// The bytes of a list of words, the lowest byte of each word first.
pub open spec fn low_first(words: Seq<u32>) -> Seq<u8> {
    Seq::new(4 * words.len(), |i: int| ((words[i / 4] as int / place(i % 4)) % 256) as u8)
}

/// The bytes of a list of words, the highest byte of each word first.
pub open spec fn high_first(words: Seq<u32>) -> Seq<u8> {
    Seq::new(4 * words.len(), |i: int| ((words[i / 4] as int / place(3 - i % 4)) % 256) as u8)
}

/// Whether `bytes` are the words as a machine stores them: four bytes for a
/// word, the words in their order, every word with its lowest byte first or
/// every word with its highest byte first.
pub open spec fn laid_out(bytes: Seq<u8>, words: Seq<u32>) -> bool {
    bytes == low_first(words) || bytes == high_first(words)
}

/// The coordinates of a list of cells as words: column, then row, of each
/// cell in turn, a negative coordinate as its two's complement.
pub open spec fn coord_words(cells: Seq<Cell>) -> Seq<u32> {
    Seq::new(
        2 * cells.len(),
        |i: int|
            if i % 2 == 0 {
                cells[i / 2].0 as u32
            } else {
                cells[i / 2].1 as u32
            },
    )
}

/// The codes of a list of chunks, one chunk after the other.
pub open spec fn texels_of(data: Seq<Chunk>) -> Seq<u8> {
    Seq::new(1024 * data.len(), |i: int| data[i / 1024]@[i % 1024])
}

/// `bytemuck::cast_slice`, from words to bytes. The bytes are the memory of
/// the words read byte by byte: four for each word, in the order of the
/// words. The machine decides which end of a word comes first, and decides
/// it for all words alike. Casting words to bytes never fails, since a byte
/// needs no alignment and any number of words is a whole number of bytes.
#[verifier::external_body]
fn word_bytes(words: &Vec<u32>) -> (bytes: Vec<u8>)
    ensures
        laid_out(bytes@, words@),
{
    bytemuck::cast_slice::<u32, u8>(words.as_slice()).to_vec()
}

/// What the drawing side is handed for the balls of a frame: how many to
/// draw, their cells as bytes, and their packed states as bytes.
pub struct BallUpload {
    pub instances: u32,
    pub positions: Vec<u8>,
    pub states: Vec<u8>,
}

/// What the drawing side is handed for the chunks of a frame: how many to
/// draw, their coordinates as bytes, and their codes, one layer of 32 rows of
/// 32 bytes for each chunk.
pub struct ChunkUpload {
    pub instances: u32,
    pub positions: Vec<u8>,
    pub texels: Vec<u8>,
}

/// The cells of a list of ball positions.
pub open spec fn ball_cells(pos: Seq<BallPosition>) -> Seq<Cell> {
    Seq::new(pos.len(), |i: int| pos[i]@)
}

/// The cells of a list of chunk positions.
pub open spec fn chunk_cells(pos: Seq<ChunkPosition>) -> Seq<Cell> {
    Seq::new(pos.len(), |i: int| pos[i]@)
}

fn push_coords(words: &mut Vec<u32>, position: [i32; 2])
    ensures
        final(words)@ == old(words)@.push(position[0] as u32).push(position[1] as u32),
{
    words.push(#[verifier::truncate] (position[0] as u32));
    words.push(#[verifier::truncate] (position[1] as u32));
}

/// Prepares the balls of a frame for drawing. There must be a state for
/// every position, and no more balls than a frame can show.
pub fn update_balls(pos: Vec<BallPosition>, data: Vec<(bool, Direction)>) -> (up: BallUpload)
    requires
        pos@.len() == data@.len(),
        data@.len() <= MAX_BALLS,
    ensures
        up.instances == data@.len(),
        laid_out(up.positions@, coord_words(ball_cells(pos@))),
        laid_out(up.states@, packed_words(data@)),
{
    let instances = data.len() as u32;
    let mut words: Vec<u32> = Vec::new();
    let mut i: usize = 0;
    while i < pos.len()
        invariant
            i <= pos.len(),
            words@ == coord_words(ball_cells(pos@).take(i as int)),
        decreases pos.len() - i,
    {
        push_coords(&mut words, pos[i].position);
        assert(words@ =~= coord_words(ball_cells(pos@).take(i + 1)));
        i += 1;
    }
    assert(ball_cells(pos@).take(pos@.len() as int) =~= ball_cells(pos@));
    let packed = BallsOn::from(data);
    BallUpload { instances, positions: word_bytes(&words), states: word_bytes(packed.words()) }
}

/// Prepares the chunks of a frame for drawing. There must be codes for
/// every position, and no more chunks than a frame can show.
pub fn update_chunks(pos: Vec<ChunkPosition>, data: Vec<Chunk>) -> (up: ChunkUpload)
    requires
        pos@.len() == data@.len(),
        data@.len() <= MAX_CHUNKS,
    ensures
        up.instances == data@.len(),
        laid_out(up.positions@, coord_words(chunk_cells(pos@))),
        up.texels@ == texels_of(data@),
{
    let instances = data.len() as u32;
    let mut words: Vec<u32> = Vec::new();
    let mut i: usize = 0;
    while i < pos.len()
        invariant
            i <= pos.len(),
            words@ == coord_words(chunk_cells(pos@).take(i as int)),
        decreases pos.len() - i,
    {
        push_coords(&mut words, pos[i].position);
        assert(words@ =~= coord_words(chunk_cells(pos@).take(i + 1)));
        i += 1;
    }
    assert(chunk_cells(pos@).take(pos@.len() as int) =~= chunk_cells(pos@));
    let mut texels: Vec<u8> = Vec::new();
    let mut i: usize = 0;
    while i < data.len()
        invariant
            i <= data.len(),
            data@.len() <= MAX_CHUNKS,
            texels@.len() == 1024 * i,
            forall|k: int| 0 <= k < texels@.len() ==> texels@[k] == data@[k / 1024]@[k % 1024],
        decreases data.len() - i,
    {
        let mut j: usize = 0;
        while j < 1024
            invariant
                i < data.len(),
                j <= 1024,
                texels@.len() == 1024 * i + j,
                forall|k: int| 0 <= k < texels@.len() ==> texels@[k] == data@[k / 1024]@[k % 1024],
            decreases 1024 - j,
        {
            texels.push(data[i].data[j]);
            j += 1;
        }
        i += 1;
    }
    assert(texels@ =~= texels_of(data@));
    ChunkUpload { instances, positions: word_bytes(&words), texels }
}

} // verus!
