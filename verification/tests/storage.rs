use conveyor::ball::{BallPosition, BallsOn, Direction};
use conveyor::chunk::{to_chunk_local, AtlasInfo, Chunk, ChunkPosition, CHUNK_SIZE};
use conveyor::sim::{Simulation, Tool};
use conveyor::tiles::Tile;

const ALL_TILES: [Tile; 14] = [
    Tile::Up,
    Tile::Down,
    Tile::Left,
    Tile::Right,
    Tile::Hold,
    Tile::Block,
    Tile::DuplicateH,
    Tile::FilterR,
    Tile::Destroy,
    Tile::Empty,
    Tile::FilterU,
    Tile::FilterD,
    Tile::FilterL,
    Tile::DuplicateV,
];

#[test]
fn tile_codes_are_the_stored_numbers() {
    for (code, tile) in ALL_TILES.iter().enumerate() {
        assert_eq!(u8::from(*tile), code as u8);
    }
}

#[test]
fn tile_decoding_undoes_encoding() {
    for tile in ALL_TILES.iter() {
        assert_eq!(Tile::try_from(u8::from(*tile)), Ok(*tile));
    }
}

#[test]
fn tile_decoding_rejects_unknown_codes() {
    assert_eq!(Tile::try_from(14u8), Err(()));
    assert_eq!(Tile::try_from(200u8), Err(()));
    assert_eq!(Tile::try_from(255u8), Err(()));
}

#[test]
fn direction_numbers() {
    assert_eq!(u32::from(Direction::Right), 0);
    assert_eq!(u32::from(Direction::Up), 1);
    assert_eq!(u32::from(Direction::Down), 2);
    assert_eq!(u32::from(Direction::Left), 3);
}

#[test]
fn balls_are_packed_one_word_each() {
    let packed = BallsOn::from(vec![
        (true, Direction::Right),
        (false, Direction::Left),
        (true, Direction::Up),
        (false, Direction::Down),
    ]);
    assert_eq!(packed.words(), &vec![1u32, 6, 3, 4]);
    assert_eq!(BallsOn::from(Vec::new()).words().len(), 0);
}

#[test]
fn positions_default_to_the_origin() {
    assert_eq!(ChunkPosition::default(), ChunkPosition { position: [0, 0] });
    assert_eq!(BallPosition::default(), BallPosition { position: [0, 0] });
    let atlas = AtlasInfo::default();
    assert_eq!((atlas.tiles_per_row, atlas._pad, atlas.tiles_size), (0, 0, [0, 0]));
}

#[test]
fn coordinates_split_with_floor_semantics() {
    assert_eq!(CHUNK_SIZE, 32);
    assert_eq!(to_chunk_local([0, 0]), (ChunkPosition { position: [0, 0] }, [0, 0]));
    assert_eq!(to_chunk_local([31, 32]), (ChunkPosition { position: [0, 1] }, [31, 0]));
    assert_eq!(to_chunk_local([-1, -33]), (ChunkPosition { position: [-1, -2] }, [31, 31]));
    assert_eq!(to_chunk_local([-32, -64]), (ChunkPosition { position: [-1, -2] }, [0, 0]));
    assert_eq!(
        to_chunk_local([i32::MIN, i32::MAX]),
        (ChunkPosition { position: [-67108864, 67108863] }, [0, 31])
    );
}

#[test]
fn coordinates_recombine_for_every_sample() {
    let samples = [i32::MIN, -1000, -65, -64, -33, -32, -31, -1, 0, 1, 31, 32, 33, 999, i32::MAX];
    for &x in samples.iter() {
        for &y in samples.iter() {
            let (chunk, local) = to_chunk_local([x, y]);
            assert!(local[0] < 32 && local[1] < 32);
            assert_eq!(chunk.position[0] as i64 * 32 + local[0] as i64, x as i64);
            assert_eq!(chunk.position[1] as i64 * 32 + local[1] as i64, y as i64);
        }
    }
}

#[test]
fn chunk_rows_are_stored_top_down() {
    let mut chunk = Chunk::default();
    assert!(chunk.data.iter().all(|&code| code == 0));
    chunk.set_tile([0, 0], 7);
    chunk.set_tile([31, 31], 9);
    chunk.set_tile([3, 30], 5);
    assert_eq!(chunk.data[31 * 32], 7);
    assert_eq!(chunk.data[31], 9);
    assert_eq!(chunk.data[32 + 3], 5);
    assert_eq!(chunk.get_tile([0, 0]), 7);
    assert_eq!(chunk.get_tile([31, 31]), 9);
    assert_eq!(chunk.get_tile([3, 30]), 5);
    assert_eq!(chunk.get_tile([1, 0]), 0);
    assert_eq!(chunk.data.iter().filter(|&&code| code != 0).count(), 3);
}

#[test]
fn filled_chunk_holds_one_code() {
    let chunk = Chunk::filled(4);
    assert_eq!(chunk.data.len(), 1024);
    assert!(chunk.data.iter().all(|&code| code == 4));
}

#[test]
fn new_world_holds_no_chunk_and_no_ball() {
    let sim = Simulation::new();
    assert_eq!(sim.current_tool(), Tool::TileTool(Tile::Block));
    assert_eq!(sim.get_visible_chunks([-1000, -1000], [1000, 1000]).len(), 0);
    assert_eq!(sim.get_visible_chunks([0, 0], [0, 0]).len(), 0);
    assert_eq!(sim.get_visible_balls([-50, -50], [50, 50]), vec![]);
    assert_eq!(sim.get_ball([0, 0]), None);
    assert_eq!(sim.get_tile([0, 0]), Tile::Down);
}

#[test]
fn first_edit_at_the_origin_makes_its_chunk() {
    let mut sim = Simulation::new();
    sim.set_tile([0, 0], Tile::Empty);
    let chunks = sim.get_visible_chunks([-1000, -1000], [1000, 1000]);
    assert_eq!(chunks.len(), 1);
    assert_eq!(chunks[0].0, ChunkPosition { position: [0, 0] });
    assert_eq!(chunks[0].1.data[31 * 32], 9);
    assert_eq!(chunks[0].1.data.iter().filter(|&&code| code == 1).count(), 1023);
}

#[test]
fn unwritten_cells_read_as_the_default_tile() {
    let sim = Simulation::new();
    assert_eq!(sim.get_tile([5, 5]), Tile::Down);
    assert_eq!(sim.get_tile([-500, 700]), Tile::Down);
    assert_eq!(sim.get_tile([i32::MIN, i32::MAX]), Tile::Down);
    assert_eq!(sim.get_visible_chunks([-1000, -1000], [1000, 1000]).len(), 0);
}

#[test]
fn written_tile_is_read_back() {
    let mut sim = Simulation::new();
    for (code, tile) in ALL_TILES.iter().enumerate() {
        sim.set_tile([code as i32 - 7, -3], *tile);
    }
    for (code, tile) in ALL_TILES.iter().enumerate() {
        assert_eq!(sim.get_tile([code as i32 - 7, -3]), *tile);
    }
    assert_eq!(sim.get_tile([7, -3]), Tile::Down);
    sim.set_tile([0, -3], Tile::Hold);
    assert_eq!(sim.get_tile([0, -3]), Tile::Hold);
    assert_eq!(sim.get_tile([-1, -3]), Tile::DuplicateH);
}

#[test]
fn first_write_makes_the_chunk() {
    let mut sim = Simulation::new();
    sim.set_tile([-1, -1], Tile::Up);
    let chunks = sim.get_visible_chunks([-40, -40], [40, 40]);
    assert_eq!(chunks.len(), 1);
    assert_eq!(chunks[0].0, ChunkPosition { position: [-1, -1] });
    sim.set_tile([5, 5], Tile::Down);
    let chunks = sim.get_visible_chunks([-40, -40], [40, 40]);
    assert_eq!(chunks.len(), 2);
    assert_eq!(chunks[0].0, ChunkPosition { position: [-1, -1] });
    assert_eq!(chunks[1].0, ChunkPosition { position: [0, 0] });
    assert!(chunks[1].1.data.iter().all(|&code| code == 1));
    assert_eq!(chunks[0].1.data[31], 0);
    assert_eq!(chunks[0].1.data.iter().filter(|&&code| code == 1).count(), 1023);
    assert_eq!(sim.get_tile([-2, -1]), Tile::Down);
}

#[test]
fn visible_chunks_follow_the_rectangle() {
    let mut sim = Simulation::new();
    sim.set_tile([0, 0], Tile::Down);
    sim.set_tile([100, 0], Tile::Left);
    sim.set_tile([0, 100], Tile::Right);
    sim.set_tile([-100, -100], Tile::Hold);
    let near = sim.get_visible_chunks([0, 0], [31, 31]);
    assert_eq!(near.len(), 1);
    let wide = sim.get_visible_chunks([0, 0], [96, 96]);
    let found: Vec<[i32; 2]> = wide.iter().map(|(at, _)| at.position).collect();
    assert_eq!(found, vec![[0, 0], [0, 3], [3, 0]]);
    let all = sim.get_visible_chunks([-128, -128], [127, 127]);
    assert_eq!(all.len(), 4);
    assert_eq!(all[0].0.position, [-4, -4]);
    assert_eq!(all[0].1.get_tile([28, 28]), 4);
    assert_eq!(sim.get_visible_chunks([40, 40], [31, 31]).len(), 0);
    assert_eq!(sim.get_visible_chunks([32, 32], [63, 63]).len(), 0);
}

#[test]
fn balls_are_set_read_and_removed() {
    let mut sim = Simulation::new();
    assert_eq!(sim.get_ball([2, 3]), None);
    sim.set_ball([2, 3], true);
    sim.set_ball([-2, -3], false);
    assert_eq!(sim.get_ball([2, 3]), Some(true));
    assert_eq!(sim.get_ball([-2, -3]), Some(false));
    assert_eq!(sim.get_ball([3, 2]), None);
    sim.set_ball([2, 3], false);
    assert_eq!(sim.get_ball([2, 3]), Some(false));
    sim.remove_ball([2, 3]);
    assert_eq!(sim.get_ball([2, 3]), None);
    sim.remove_ball([2, 3]);
    assert_eq!(sim.get_ball([2, 3]), None);
    assert_eq!(sim.get_ball([-2, -3]), Some(false));
}

#[test]
fn each_cell_holds_one_ball_at_most() {
    let mut sim = Simulation::new();
    sim.set_ball([1, 1], true);
    sim.set_ball([1, 1], false);
    sim.set_ball([1, 1], true);
    sim.set_ball([i32::MIN, i32::MAX], true);
    sim.set_ball([i32::MAX, i32::MIN], false);
    sim.set_ball([-1, 0], false);
    sim.set_ball([0, -1], true);
    let seen = sim.get_visible_balls([-5, -5], [5, 5]);
    assert_eq!(
        seen,
        vec![
            (BallPosition { position: [-1, 0] }, false),
            (BallPosition { position: [0, -1] }, true),
            (BallPosition { position: [1, 1] }, true),
        ]
    );
    assert_eq!(sim.get_ball([i32::MIN, i32::MAX]), Some(true));
    assert_eq!(sim.get_ball([i32::MAX, i32::MIN]), Some(false));
    assert_eq!(sim.get_ball([i32::MAX, i32::MAX]), None);
}

#[test]
fn visible_balls_follow_the_rectangle() {
    let mut sim = Simulation::new();
    sim.set_ball([0, 0], true);
    sim.set_ball([5, 5], false);
    sim.set_ball([10, 10], true);
    sim.set_ball([5, -1], true);
    let seen = sim.get_visible_balls([0, 0], [5, 5]);
    assert_eq!(
        seen,
        vec![(BallPosition { position: [0, 0] }, true), (BallPosition { position: [5, 5] }, false)]
    );
    assert_eq!(sim.get_visible_balls([6, 6], [9, 9]), vec![]);
    assert_eq!(sim.get_visible_balls([5, 5], [0, 0]), vec![]);
    assert_eq!(sim.get_visible_balls([10, 10], [10, 10]).len(), 1);
}

#[test]
fn tools_paint_what_they_hold() {
    let mut sim = Simulation::new();
    sim.handle_mouse([4, 4]);
    assert_eq!(sim.get_tile([4, 4]), Tile::Block);
    sim.select_tool(Tool::BallTool(true));
    assert_eq!(sim.current_tool(), Tool::BallTool(true));
    sim.handle_mouse([4, 4]);
    assert_eq!(sim.get_ball([4, 4]), Some(true));
    assert_eq!(sim.get_tile([4, 4]), Tile::Block);
    sim.select_tool(Tool::TileTool(Tile::FilterU));
    sim.handle_mouse([-4, 4]);
    assert_eq!(sim.get_tile([-4, 4]), Tile::FilterU);
    assert_eq!(sim.get_ball([-4, 4]), None);
}

#[test]
fn editing_calls_pass_through() {
    let mut sim = Simulation::new();
    sim.paint_tile([9, 9], Tile::Destroy);
    sim.paint_token([9, 8], false);
    assert_eq!(sim.get_tile([9, 9]), Tile::Destroy);
    assert_eq!(sim.get_ball([9, 8]), Some(false));
    sim.erase_token([9, 8]);
    assert_eq!(sim.get_ball([9, 8]), None);
    sim.erase_token([9, 8]);
    assert_eq!(sim.get_ball([9, 8]), None);
}

#[test]
fn later_write_to_a_cell_decides() {
    let mut twice = Simulation::new();
    twice.set_tile([-7, 40], Tile::Hold);
    twice.set_tile([-7, 40], Tile::FilterL);
    let mut once = Simulation::new();
    once.set_tile([-7, 40], Tile::FilterL);
    let a = twice.get_visible_chunks([-64, -64], [64, 64]);
    let b = once.get_visible_chunks([-64, -64], [64, 64]);
    assert_eq!(a.len(), 1);
    assert_eq!(b.len(), 1);
    assert_eq!(a[0].0, b[0].0);
    assert_eq!(a[0].1.data.to_vec(), b[0].1.data.to_vec());
    assert_eq!(a[0].1.data.len(), 1024);
}
