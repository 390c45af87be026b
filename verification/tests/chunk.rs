use rand::Rng;
use venx_core::chunk::Chunk;
use venx_core::vec3::{ivec3, uvec3};

#[test]
fn chunk_test_chunk_iter() {
    let mut chunk = Chunk::new(uvec3(0, 0, 0), 0, 4);
    chunk.set(uvec3(4, 4, 0), 44);

    for (pos, block) in chunk.iter() {
        assert_eq!(pos, uvec3(4, 4, 0));
        assert_eq!(block, 44);
    }
    assert_eq!(chunk.iter().len(), 1);
}

#[test]
fn test_chunk_get() {
    let mut chunk = Chunk::new(uvec3(0, 0, 0), 0, 4);
    chunk.set(uvec3(4, 4, 0), 144);
    chunk.set(uvec3(1, 5, 1), 434);
    chunk.set(uvec3(2, 6, 2), 4454);
    chunk.set(uvec3(3, 7, 2), 1414);

    assert_eq!(chunk.get(uvec3(4, 4, 0)).unwrap(), 144);
    assert_eq!(chunk.get(uvec3(1, 5, 1)).unwrap(), 434);
    assert_eq!(chunk.get(uvec3(2, 6, 2)).unwrap(), 4454);
    assert_eq!(chunk.get(uvec3(3, 7, 2)).unwrap(), 1414);
}

#[test]
fn test_chunk_iter_voxel_id_full() {
    let mut chunk = Chunk::new(uvec3(0, 0, 0), 0, 4);

    let mut rng = rand::thread_rng();

    let mtx: [[[u32; 16]; 16]; 16] = rng.gen();

    for x in 0..16 {
        for y in 0..16 {
            for z in 0..16 {
                chunk.set(uvec3(x, y, z), mtx[x as usize][y as usize][z as usize]);
            }
        }
    }

    for (pos, block) in chunk.iter() {
        assert_eq!(chunk.get(pos).unwrap(), block);
    }
}

#[test]
fn test_chunk_iter_lod() {
    let mut chunk = Chunk::new(uvec3(0, 0, 0), 1, 5);
    chunk.set(uvec3(4, 4, 0), 4);

    for (pos, block) in chunk.iter() {
        assert_eq!(pos, uvec3(4, 4, 0));
        assert_eq!(block, 4);
    }
}

#[test]
fn check_stack_overflow_limit() {
    // 4
    Chunk::new(uvec3(0, 0, 0), 0, 2);
    // 8
    Chunk::new(uvec3(0, 0, 0), 0, 3);
    // 16
    Chunk::new(uvec3(0, 0, 0), 0, 4);
    // 32
    Chunk::new(uvec3(0, 0, 0), 0, 5);
}

#[test]
fn chunk_meta() {
    let chunk = Chunk::new(uvec3(3, 4, 5), 1, 5);
    assert_eq!(chunk.position(), uvec3(3, 4, 5));
    assert_eq!(chunk.lod_level(), 1);
    assert_eq!(chunk.chunk_level(), 5);
    assert_eq!(chunk.size(), 16);
    assert_eq!(chunk.width(), 32);
}

#[test]
fn chunk_flatten_round_trip() {
    let chunk = Chunk::new(uvec3(0, 0, 0), 0, 4);
    assert_eq!(chunk.flatten_value(uvec3(1, 2, 3)), 1 + 2 * 16 + 3 * 256 + 6);
    for &(x, y, z) in &[(0u32, 0u32, 0u32), (15, 15, 15), (3, 9, 12), (7, 0, 1)] {
        let idx = chunk.flatten_value(uvec3(x, y, z));
        assert_eq!(chunk.from_flatten(idx as u32), uvec3(x, y, z));
    }
}

#[test]
fn chunk_get_outside_and_unchecked() {
    let mut chunk = Chunk::new(uvec3(0, 0, 0), 0, 3);
    chunk.set(uvec3(7, 7, 7), 9);
    assert_eq!(chunk.get(uvec3(8, 0, 0)), None);
    assert_eq!(chunk.get(uvec3(0, 0, 0)), None);
    assert_eq!(chunk.get_unchecked(uvec3(8, 0, 0)), 0);
    assert_eq!(chunk.get_unchecked(uvec3(7, 7, 7)), 9);
    assert_eq!(chunk.get_raw(uvec3(7, 7, 7)), 9);
}

#[test]
fn chunk_global_positions() {
    // Chunk (1, 1, 1) on level 3 starts at (8, 8, 8).
    let mut chunk = Chunk::new(uvec3(1, 1, 1), 0, 3);
    chunk.set_global(uvec3(9, 10, 11), 5);
    assert_eq!(chunk.get(uvec3(1, 2, 3)), Some(5));
    assert_eq!(chunk.get_global(uvec3(9, 10, 11)), Some(5));
    assert_eq!(chunk.get_global(uvec3(8, 8, 8)), None);
}

#[test]
fn chunk_fill_and_clean() {
    let mut chunk = Chunk::new(uvec3(0, 0, 0), 0, 2);
    chunk.blank_with(3);
    assert_eq!(chunk.get(uvec3(1, 1, 1)), Some(3));
    assert_eq!(chunk.size(), 4);
    chunk.clean();
    assert_eq!(chunk.get(uvec3(1, 1, 1)), None);
    let mut layer = [0u32; 1024];
    layer[5] = 77;
    chunk.fill_layer(layer);
    assert_eq!(chunk.data[11], 77);
    assert_eq!(chunk.data[5], 4);
    chunk.update_meta(uvec3(2, 2, 2), 0, 3);
    assert_eq!(chunk.size(), 8);
    assert_eq!(chunk.position(), uvec3(2, 2, 2));
}

#[test]
fn chunk_neighbor_unchecked() {
    let mut chunk = Chunk::new(uvec3(0, 0, 0), 0, 2);
    let plat = venx_core::raw_plat::RawPlat::new(
        5,
        5,
        5,
        (vec![venx_core::node::Node::default(); 8], vec![venx_core::node_l2::NodeL2::default(); 8]),
        (vec![venx_core::node::Node::default(); 8], vec![venx_core::node_l2::NodeL2::default(); 8]),
        (vec![venx_core::node::Node::default(); 8], vec![venx_core::node_l2::NodeL2::default(); 8]),
        (vec![venx_core::node::Node::default(); 8], vec![venx_core::node_l2::NodeL2::default(); 8]),
    );
    chunk.set(uvec3(1, 1, 1), 6);
    // Outside the chunk: 1.
    assert_eq!(chunk.get_neighbor_unchecked(&plat, ivec3(0, 0, 0), ivec3(-1, 0, 0)), 1);
    assert_eq!(chunk.get_neighbor_unchecked(&plat, ivec3(3, 0, 0), ivec3(1, 0, 0)), 1);
    // Inside: the voxel, 0 for none.
    assert_eq!(chunk.get_neighbor_unchecked(&plat, ivec3(0, 1, 1), ivec3(1, 0, 0)), 6);
    assert_eq!(chunk.get_neighbor_unchecked(&plat, ivec3(0, 0, 0), ivec3(1, 0, 0)), 0);
    // The checked one asks the plat outside the chunk, which is empty here.
    assert_eq!(chunk.get_neighbor(&plat, ivec3(0, 1, 1), ivec3(1, 0, 0)), Some(6));
    assert_eq!(chunk.get_neighbor(&plat, ivec3(0, 0, 0), ivec3(-1, 0, 0)), None);
    assert_eq!(chunk.get_neighbor(&plat, ivec3(0, 0, 0), ivec3(1, 0, 0)), None);
}
