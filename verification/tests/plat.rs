use rand::seq::SliceRandom;
use rand::Rng;
use venx_core::node::Node;
use venx_core::node_l2::NodeL2;
use venx_core::raw_plat::RawPlat;
use venx_core::vec3::{uvec3, UVec3};

fn pool(len: usize, len2: usize) -> (Vec<Node>, Vec<NodeL2>) {
    (vec![Node::default(); len], vec![NodeL2::default(); len2])
}

/// A plat of the given depth: `len` nodes and `len2` level-2 nodes in the base
/// layer, `lenrest` of each in the others.
fn quick_raw_plat(depth: usize, len: usize, len2: usize, lenrest: usize) -> RawPlat {
    RawPlat::new(depth, 5, 5, pool(len, len2), pool(lenrest, lenrest), pool(lenrest, lenrest), pool(lenrest, lenrest))
}

fn plat_of_depth(depth: usize) -> RawPlat {
    quick_raw_plat(depth, 1_000, 1_000, 1_000)
}

fn plat_of_len(depth: usize, len: usize) -> RawPlat {
    quick_raw_plat(depth, len, len, 1_000)
}

fn gen_rand_mtx<const SIZE: usize>(empty_probability: u8) -> Box<Vec<Vec<Vec<u32>>>> {
    let mut rng = rand::thread_rng();
    let mut mtx = Box::new(vec![vec![vec![0; SIZE]; SIZE]; SIZE]);
    for x in 0..SIZE {
        for y in 0..SIZE {
            for z in 0..SIZE {
                if !rng.gen_ratio(empty_probability as u32, 100) {
                    let voxel_id: u16 = rng.gen();
                    mtx[x][y][z] = voxel_id as u32 + 1;
                }
            }
        }
    }
    mtx
}

fn set_rand_plat<const SIZE: usize>(plat: &mut RawPlat, empty_probability: u8) -> Box<Vec<Vec<Vec<u32>>>> {
    let mtx = gen_rand_mtx::<SIZE>(empty_probability);
    for x in 0..SIZE {
        for y in 0..SIZE {
            for z in 0..SIZE {
                let voxel_id = mtx[x][y][z];
                plat.layers[0].set(uvec3(x as u32, y as u32, z as u32), voxel_id);
            }
        }
    }
    mtx
}

#[test]
fn test_gen_rand_mtx() {
    let _ = gen_rand_mtx::<2>(50);
    let _ = gen_rand_mtx::<4>(0);
    let _ = gen_rand_mtx::<8>(100);
    let _ = gen_rand_mtx::<16>(50);
    let _ = gen_rand_mtx::<32>(50);
    let _ = gen_rand_mtx::<64>(50);
}

#[test]
fn get_node() {
    let mut plat = plat_of_depth(5);

    plat.layers[1].set(uvec3(0, 1, 0), 1);
    plat.layers[1].set(uvec3(0, 0, 0), 2);
    plat.layers[1].set(uvec3(4, 4, 1), 3);
    plat.layers[1].set(uvec3(1, 6, 5), 666);

    assert!(plat.get_node(uvec3(0, 1, 0), 0).voxel_id == 1);
    assert!(plat.get_node(uvec3(0, 0, 0), 0).voxel_id == 2);
    assert!(plat.get_node(uvec3(1, 6, 5), 0).voxel_id == 666);
    assert!(plat.get_node(uvec3(4, 4, 1), 0).voxel_id == 3);
}

#[test]
fn full_matrix() {
    let mut plat = plat_of_len(5, 23_000);

    let mut rng = rand::thread_rng();

    let mtx: [[[u16; 16]; 16]; 16] = rng.gen();

    for x in 0..16 {
        for y in 0..16 {
            for z in 0..16 {
                let voxel_id = mtx[x][y][z] as u32 + 1;
                plat.layers[0].set(uvec3(x as u32, y as u32, z as u32), voxel_id);
            }
        }
    }

    for x in 0..16 {
        for y in 0..16 {
            for z in 0..16 {
                let voxel_id = mtx[x][y][z] as u32 + 1;
                assert!(plat.get_node(uvec3(x as u32, y as u32, z as u32), 0).voxel_id == voxel_id as usize);
            }
        }
    }
}

#[test]
fn get_node_known_voxel_id() {
    let mut plat = plat_of_len(5, 23_000);

    let mut rng = rand::thread_rng();

    let mtx: [[[u16; 16]; 16]; 16] = rng.gen();

    for x in 0..16 {
        for y in 0..16 {
            for z in 0..16 {
                let voxel_id = mtx[x][y][z] as u32 + 1;
                plat.layers[0].set(uvec3(x as u32, y as u32, z as u32), voxel_id);
            }
        }
    }

    for x in 0..16 {
        for y in 0..16 {
            for z in 0..16 {
                let voxel_id = mtx[x][y][z] as u32 + 1;
                assert!(
                    plat.layers[0].get_node(uvec3(x as u32, y as u32, z as u32), 0, Some(voxel_id as usize)).voxel_id
                        == voxel_id as usize
                );
            }
        }
    }
}

#[test]
fn get_node_above_fork_level() {
    let mut plat = plat_of_depth(7);

    plat.layers[1].set(uvec3(0, 1, 0), 1);
    plat.layers[1].set(uvec3(0, 0, 0), 2);
    plat.layers[1].set(uvec3(4, 4, 1), 3);
    plat.layers[1].set(uvec3(1, 6, 5), 4);
    plat.layers[1].set(uvec3(9, 1, 3), 1);
    plat.layers[1].set(uvec3(15, 0, 14), 2);
    plat.layers[1].set(uvec3(8, 4, 18), 3);
    plat.layers[1].set(uvec3(12, 6, 20), 4);

    assert!(plat.get_node(uvec3(0, 0, 0), 3).is_some());
    assert!(plat.get_node(uvec3(0, 0, 0), 3).is_some());

    assert!(plat.get_node(uvec3(0, 0, 0), 4).is_some());
    assert!(plat.get_node(uvec3(0, 0, 0), 4).is_some());

    assert!(plat.get_node(uvec3(0, 0, 0), 5).is_some());
    assert!(plat.get_node(uvec3(0, 0, 0), 6).is_some());

    assert!(plat.get_node(uvec3(32, 32, 32), 5).is_none());
    assert!(plat.get_node(uvec3(64, 64, 64), 5).is_none());

    assert!(plat.get_node(uvec3(12, 3, 312), 0).is_none());
    assert!(plat.get_node(uvec3(24, 4, 4), 0).is_none());
}

#[test]
fn get_node_positions_only() {
    let mut plat = plat_of_depth(5);
    plat.layers[1].set(uvec3(0, 1, 0), 1);
    plat.layers[1].set(uvec3(0, 0, 0), 2);
    plat.layers[1].set(uvec3(4, 4, 1), 3);
    plat.layers[1].set(uvec3(1, 6, 5), 4);
    plat.layers[1].set(uvec3(9, 1, 3), 1);
    plat.layers[1].set(uvec3(15, 0, 14), 2);
    plat.layers[1].set(uvec3(8, 4, 18), 3);
    plat.layers[1].set(uvec3(12, 6, 20), 4);

    assert!(plat.get_node(uvec3(0, 1, 0), 0).is_some());
    assert!(plat.get_node(uvec3(0, 0, 0), 0).is_some());
    assert!(plat.get_node(uvec3(1, 6, 5), 0).is_some());
    assert!(plat.get_node(uvec3(9, 1, 3), 0).is_some());
    assert!(plat.get_node(uvec3(1, 2, 3), 0).is_none());
    assert!(plat.get_node(uvec3(4, 4, 1), 0).is_some());
    assert!(plat.get_node(uvec3(12, 6, 20), 0).is_some());
}

#[test]
fn get_node_check_non_existing() {
    let mut plat = plat_of_depth(5);
    plat.layers[1].set(uvec3(0, 1, 0), 1);
    plat.layers[1].set(uvec3(0, 0, 0), 2);
    plat.layers[1].set(uvec3(4, 4, 1), 3);
    plat.layers[1].set(uvec3(1, 6, 5), 4);
    plat.layers[1].set(uvec3(9, 1, 3), 1);
    plat.layers[1].set(uvec3(15, 0, 14), 2);
    plat.layers[1].set(uvec3(8, 4, 18), 3);
    plat.layers[1].set(uvec3(12, 6, 20), 4);

    assert!(plat.get_node(uvec3(1, 1, 0), 0).is_none());
    assert!(plat.get_node(uvec3(14, 0, 0), 0).is_none());
    assert!(plat.get_node(uvec3(11, 16, 15), 0).is_none());
    assert!(plat.get_node(uvec3(19, 2, 30), 0).is_none());
    assert!(plat.get_node(uvec3(11, 22, 31), 0).is_none());
    assert!(plat.get_node(uvec3(14, 4, 21), 0).is_none());
    assert!(plat.get_node(uvec3(2, 2, 2), 0).is_none());
}

#[test]
fn get_voxel() {
    let mut plat = plat_of_depth(5);
    // Base
    plat.layers[0].set(uvec3(0, 0, 0), 1);
    plat.layers[0].set(uvec3(0, 1, 0), 1);
    plat.layers[0].set(uvec3(0, 2, 0), 1);

    // Overlapping (tmp)
    plat.layers[1].set(uvec3(0, 0, 0), 1);
    plat.layers[1].set(uvec3(0, 1, 0), 1);
    plat.layers[1].set(uvec3(0, 2, 0), 1);

    // Overlapping (Canvas)
    plat.layers[3].set(uvec3(0, 0, 0), 2);
    plat.layers[3].set(uvec3(0, 1, 0), 2);
    plat.layers[3].set(uvec3(0, 2, 0), 2);

    assert_eq!(plat.get_voxel(uvec3(0, 0, 0)).voxel_id, 2);
    assert_eq!(plat.get_voxel(uvec3(0, 1, 0)).voxel_id, 2);
    assert_eq!(plat.get_voxel(uvec3(0, 2, 0)).voxel_id, 2);
}

#[test]
fn load_chunk() {
    let mut plat = plat_of_len(12, 1_000);

    plat.layers[0].set(uvec3(15, 15, 15), 1);
    plat.layers[0].set(uvec3(0, 0, 0), 2);
    plat.layers[0].set(uvec3(60, 60, 60), 12);

    let chunk = plat.layers[0].load_chunk(uvec3(0, 0, 0), 0, 5);

    assert!(chunk.get(uvec3(0, 0, 0)).is_some());
    assert!(chunk.get(uvec3(15, 15, 15)).is_some());
    assert!(chunk.get(uvec3(5, 15, 5)).is_none());
    // Out of bound
    assert!(chunk.get(uvec3(15, 150, 15)).is_none());
    assert!(chunk.get(uvec3(60, 60, 60)).is_none());

    for p in plat.layers[0].traverse(UVec3::one(), 0..=5) {
        if p.level == 0 {
            assert_eq!(p.position, uvec3(60, 60, 60));
        }
    }

    let chunk = plat.layers[0].load_chunk(uvec3(1, 1, 1), 0, 5);
    assert!(chunk.get_global(uvec3(61, 61, 61)).is_none());
    assert!(chunk.get_global(uvec3(60, 60, 60)).is_some());
}

#[test]
fn freeze_l2_empty() {
    let mut plat = plat_of_depth(5);

    let cut_off = plat.layers[0].freeze_upper(&mut vec![0; plat.layers[0].level_2.len()]);
    assert_eq!(cut_off, 1);
}

#[test]
fn freeze_l2_single() {
    let mut plat = plat_of_depth(5);

    plat.layers[0].set(uvec3(0, 0, 0), 99);

    let cut_off = plat.layers[0].freeze_upper(&mut vec![0; plat.layers[0].level_2.len()]);
    assert_eq!(cut_off, 2);
}

#[test]
fn freeze_l2_many() {
    let mut plat = plat_of_len(10, 200_060);

    set_rand_plat::<64>(&mut plat, 90);
    plat.layers[0].freeze_upper(&mut vec![0; plat.layers[0].level_2.len()]);
}

#[test]
fn traverse_region_zero() {
    let mut plat = plat_of_depth(6);
    // Base
    plat.layers[0].set(uvec3(14, 14, 14), 1);
    plat.layers[0].set(uvec3(0, 0, 0), 2);
    plat.layers[0].set(uvec3(5, 15, 5), 3);
    // Out
    plat.layers[0].set(uvec3(40, 40, 40), 1);

    let mut seq = vec![];
    for p in plat.layers[0].traverse(UVec3::zero(), 0..=5) {
        if p.level == 0 {
            seq.push(p.position);
        }
    }

    assert_eq!(seq, [uvec3(14, 14, 14), uvec3(0, 0, 0), uvec3(5, 15, 5)]);
}

#[test]
fn traverse_region_one() {
    let mut plat = plat_of_depth(6);
    // Base
    plat.layers[0].set(uvec3(14, 14, 14), 1);
    plat.layers[0].set(uvec3(0, 0, 0), 2);
    plat.layers[0].set(uvec3(5, 15, 5), 3);
    // Out
    plat.layers[0].set(uvec3(40, 40, 40), 1);

    let mut seq = vec![];
    for p in plat.layers[0].traverse(UVec3::one(), 0..=5) {
        if p.level == 0 {
            seq.push(p.position);
        }
    }

    assert_eq!(seq, [uvec3(40, 40, 40)]);
}

#[test]
fn traverse_region_one_deep() {
    let mut plat = plat_of_depth(15);
    // Base
    plat.layers[0].set(uvec3(14, 14, 14), 1);
    plat.layers[0].set(uvec3(0, 0, 0), 2);
    plat.layers[0].set(uvec3(5, 15, 5), 3);
    // Out
    plat.layers[0].set(uvec3(40, 40, 40), 1);

    let mut seq = vec![];
    for p in plat.layers[0].traverse(UVec3::one(), 0..=5) {
        if p.level == 0 {
            seq.push(p.position);
        }
    }

    assert_eq!(seq, [uvec3(40, 40, 40)]);
}

#[test]
fn traverse_many() {
    let mut plat = plat_of_len(6, 1_000);

    // 0 0 0
    plat.layers[0].set(uvec3(0, 12, 8), 22);
    plat.layers[0].set(uvec3(1, 12, 8), 32);
    plat.layers[0].set(uvec3(2, 12, 8), 52);
    plat.layers[0].set(uvec3(5, 12, 4), 12);
    plat.layers[0].set(uvec3(1, 2, 11), 2);

    // 1 1 0
    plat.layers[0].set(uvec3(34, 34, 8), 32);
    plat.layers[0].set(uvec3(35, 32, 8), 22);
    plat.layers[0].set(uvec3(50, 50, 4), 12);
    plat.layers[0].set(uvec3(55, 60, 4), 2);

    // 1 0 1
    plat.layers[0].set(uvec3(56, 2, 60), 22);
    plat.layers[0].set(uvec3(57, 2, 60), 32);
    plat.layers[0].set(uvec3(58, 2, 60), 52);
    plat.layers[0].set(uvec3(59, 2, 60), 12);
    plat.layers[0].set(uvec3(60, 2, 60), 11);

    // 0 0 1
    plat.layers[0].set(uvec3(2, 16, 60), 52);

    let mut seq = vec![];
    for p in plat.layers[0].traverse(UVec3::zero(), 0..=plat.depth) {
        if p.level == 0 {
            seq.push(p.position);
        }
    }

    assert_eq!(
        &seq,
        &vec![
            uvec3(0, 12, 8),
            uvec3(1, 12, 8),
            uvec3(2, 12, 8),
            uvec3(5, 12, 4),
            uvec3(1, 2, 11),
            //
            uvec3(34, 34, 8),
            uvec3(35, 32, 8),
            uvec3(50, 50, 4),
            uvec3(55, 60, 4),
            //
            uvec3(2, 16, 60),
            //
            uvec3(56, 2, 60),
            uvec3(57, 2, 60),
            uvec3(58, 2, 60),
            uvec3(59, 2, 60),
            uvec3(60, 2, 60)
        ]
    );
}

#[test]
fn traverse_check_path_by_levels() {
    let mut plat = quick_raw_plat(10, 10, 10, 10);

    plat.layers[0].set(uvec3(7, 20, 5), 52);

    let mut seq = vec![];
    for p in plat.layers[0].traverse(UVec3::zero(), 0..=plat.depth) {
        seq.push(p.level);
    }

    assert_eq!(&seq, &vec![9, 8, 7, 6, 5, 4, 3, 2, 1, 0]);
}

#[test]
fn traverse_check_path_by_flags() {
    let mut plat = quick_raw_plat(10, 160, 160, 160);

    set_rand_plat::<16>(&mut plat, 99);

    let mut seq = vec![];
    for p in plat.layers[0].traverse(UVec3::zero(), 0..=plat.depth) {
        if p.level > 2 {
            seq.push(plat.layers[0].nodes[p.node_idx].flag);
        }
    }

    assert_eq!(&seq, &vec![0; seq.len()]);
}

#[test]
fn traverse_check_register() {}

#[test]
fn traverse_compare_count_with_mtx() {
    let mut plat = plat_of_len(10, 200_060);

    let mtx = set_rand_plat::<64>(&mut plat, 90);
    let mut voxels_in_mtx = 0;

    for l in mtx.iter() {
        for l in l {
            for v in l {
                if *v != 0 {
                    voxels_in_mtx += 1;
                }
            }
        }
    }

    let mut voxels_from_traverse = 0;
    for p in plat.layers[0].traverse(UVec3::zero(), 0..=plat.depth) {
        if p.level == 0 {
            voxels_from_traverse += 1;
        }
    }

    assert_eq!(voxels_in_mtx, voxels_from_traverse);
}

#[test]
fn traverse_check_leaked_forks() {
    let mut plat = plat_of_len(10, 1_000_060);

    set_rand_plat::<64>(&mut plat, 50);

    let mut leaked = vec![];
    for p in plat.layers[0].traverse(UVec3::zero(), 0..=plat.depth) {
        if p.level > 2 {
            let node = plat.layers[0].nodes[p.node_idx];
            if node.is_fork() {
                leaked.push((node, p.node_idx, p.level));
            }
        }
    }

    assert_eq!(leaked, vec![]);
}

#[test]
fn traverse_check_l1_n_l0() {
    let mut plat = quick_raw_plat(10, 100, 100, 100);

    plat.layers[0].set(uvec3(0, 12, 8), 22);
    plat.layers[0].set(uvec3(1, 12, 8), 32);
    plat.layers[0].set(uvec3(2, 12, 8), 52);
    plat.layers[0].set(uvec3(5, 12, 4), 12);
    plat.layers[0].set(uvec3(1, 2, 11), 2);

    for p in plat.layers[0].traverse(UVec3::zero(), 0..=plat.depth) {
        if p.level == 1 {
            assert!(p.node_idx < 256);
        } else if p.level == 0 {
            assert_eq!(p.node_idx, 1);
        }
    }
}

fn region_level0(plat: &RawPlat, levels: std::ops::RangeInclusive<usize>, pos: UVec3) -> Vec<UVec3> {
    let mut seq = vec![];
    for p in plat.layers[0].traverse(pos, levels) {
        if p.level == 0 {
            seq.push(p.position);
        }
    }
    seq
}

#[test]
fn test_traverse_region_positions_deep() {
    let mut plat = plat_of_len(8, 1_000);

    // 0 0 0
    plat.layers[0].set(uvec3(0, 12, 8), 22);
    plat.layers[0].set(uvec3(1, 12, 8), 32);
    plat.layers[0].set(uvec3(2, 12, 8), 52);
    plat.layers[0].set(uvec3(5, 12, 4), 12);
    plat.layers[0].set(uvec3(1, 2, 11), 2);

    // 1 1 0
    plat.layers[0].set(uvec3(34, 34, 8), 32);
    plat.layers[0].set(uvec3(35, 32, 8), 22);
    plat.layers[0].set(uvec3(50, 50, 4), 12);
    plat.layers[0].set(uvec3(55, 60, 4), 2);

    // 1 0 1
    plat.layers[0].set(uvec3(56, 2, 60), 22);
    plat.layers[0].set(uvec3(57, 2, 60), 32);
    plat.layers[0].set(uvec3(58, 2, 60), 52);
    plat.layers[0].set(uvec3(59, 2, 60), 12);
    plat.layers[0].set(uvec3(60, 2, 60), 12);

    // 0 0 1
    plat.layers[0].set(uvec3(2, 16, 60), 52);

    assert_eq!(
        &region_level0(&plat, 0..=5, uvec3(0, 0, 0)),
        &vec![uvec3(0, 12, 8), uvec3(1, 12, 8), uvec3(2, 12, 8), uvec3(5, 12, 4), uvec3(1, 2, 11)]
    );

    assert_eq!(
        &region_level0(&plat, 0..=5, uvec3(1, 1, 0)),
        &vec![uvec3(34, 34, 8), uvec3(35, 32, 8), uvec3(50, 50, 4), uvec3(55, 60, 4),]
    );

    assert_eq!(
        &region_level0(&plat, 0..=5, uvec3(1, 0, 1)),
        &vec![uvec3(56, 2, 60), uvec3(57, 2, 60), uvec3(58, 2, 60), uvec3(59, 2, 60), uvec3(60, 2, 60)]
    );

    assert_eq!(&region_level0(&plat, 0..=5, uvec3(0, 0, 1)), &vec![uvec3(2, 16, 60)]);
}

#[test]
fn traverse_single() {
    let mut plat = plat_of_depth(5);
    // Base
    plat.layers[0].set(uvec3(7, 20, 5), 1);

    let mut seq = vec![];
    for p in plat.layers[0].traverse(UVec3::zero(), 0..=plat.depth) {
        if p.level == 0 {
            seq.push((p.position, p.voxel_id));
        }
    }

    assert_eq!(seq, [(uvec3(7, 20, 5), 1)]);
}

#[test]
fn traverse() {
    let mut plat = plat_of_depth(5);
    // Base
    plat.layers[0].set(uvec3(14, 14, 14), 1);
    plat.layers[0].set(uvec3(0, 0, 0), 1);
    plat.layers[0].set(uvec3(5, 15, 5), 1);
    plat.layers[0].set(uvec3(0, 10, 0), 1);
    plat.layers[0].set(uvec3(15, 15, 15), 1);

    let mut seq = vec![];
    for p in plat.layers[0].traverse(UVec3::zero(), 0..=plat.depth) {
        if p.level == 0 {
            seq.push(p.position);
        }
    }

    assert_eq!(
        seq,
        [uvec3(0, 0, 0), uvec3(0, 10, 0), uvec3(5, 15, 5), uvec3(14, 14, 14), uvec3(15, 15, 15)]
    );
}

#[test]
fn traverse_noise_64x64x64() {
    let mut plat = quick_raw_plat(6, 589834, 262145, 3);

    let mut ids: Vec<u32> = (1..=(64 * 64 * 64)).collect();
    ids.shuffle(&mut rand::thread_rng());

    let mut idx = 0;
    for x in 0..64 {
        for y in 0..64 {
            for z in 0..64 {
                plat.layers[0].set(uvec3(x, y, z), ids[idx]);
                idx += 1;
            }
        }
    }

    let _ = plat.layers[0].traverse(UVec3::zero(), 0..=plat.depth);
}

#[test]
fn set_stereo_filled_chunks_count_forks_shuffled() {
    // forks - 8^2 * (16^3 / 4) (2^6 * 2^10 = 2^14 = 65536)
    let mut plat = quick_raw_plat(6, 589834, 262145, 3);

    let mut ids: Vec<u32> = (1..=(64 * 64 * 64)).collect();
    ids.shuffle(&mut rand::thread_rng());

    let mut idx = 0;
    for x in 0..64 {
        for y in 0..64 {
            for z in 0..64 {
                plat.layers[0].set(uvec3(x, y, z), ids[idx]);
                idx += 1;
            }
        }
    }

    let mut fork_count = 0;

    for node in plat.layers[0].nodes.iter() {
        if node.is_fork() {
            fork_count += 1;
        }
    }
    assert_eq!(fork_count, 65536);
}

#[test]
fn set_count() {
    let mut plat = quick_raw_plat(6, 6, 1_000, 1);
    plat.layers[0].set(uvec3(7, 20, 5), 1);
    assert_eq!(plat.layers[0].free(), 0);
}

#[test]
fn set_mono_chunk_count() {
    // Nodes: head, l6, l5, fork and l4, 8 on l3: 13. Level 2: head and 8 * 8: 65.
    let mut plat = quick_raw_plat(6, 13, 65, 1);
    for x in 0..16 {
        for y in 0..16 {
            for z in 0..16 {
                plat.layers[0].set(uvec3(x, y, z), 1);
            }
        }
    }
    assert_eq!(plat.layers[0].free(), 0);
    assert_eq!(plat.layers[0].free_l2(), 0);
}

#[test]
fn set_stereo_chunk_count() {
    // Nodes: head, l6, l5, 1024 forks, 4096 on l4, 4096 on l3: 9219. Level 2: 4097.
    let mut plat = quick_raw_plat(6, 9219, 4097, 1);
    let mut voxel_id = 1;
    for x in 0..16 {
        for y in 0..16 {
            for z in 0..16 {
                plat.layers[0].set(uvec3(x, y, z), voxel_id);
                voxel_id += 1;
            }
        }
    }
    assert_eq!(plat.layers[0].free(), 0);
    assert_eq!(plat.layers[0].free_l2(), 0);
}

#[test]
fn set_mono_sparse_chunks_count_deep() {
    // Nodes: head, l8, 8 on l7, 64 on l6, 512 on l5, 4096 forks, on l4 and on l3: 12874.
    let mut plat = quick_raw_plat(8, 12874, 4097, 1);
    for x in 0..16 {
        for y in 0..16 {
            for z in 0..16 {
                plat.layers[0].set(uvec3(x * 16, y * 16, z * 16), 1);
            }
        }
    }
    assert_eq!(plat.layers[0].free(), 0);
    assert_eq!(plat.layers[0].free_l2(), 0);
}

#[test]
fn set_stereo_filled_chunks_count() {
    let mut plat = quick_raw_plat(6, 589834, 262145, 1);
    let mut voxel_id = 1;
    for x in 0..64 {
        for y in 0..64 {
            for z in 0..64 {
                plat.layers[0].set(uvec3(x, y, z), voxel_id);
                voxel_id += 1;
            }
        }
    }
    assert_eq!(plat.layers[0].free(), 0);
    assert_eq!(plat.layers[0].free_l2(), 0);
}

#[test]
fn set_stereo_filled_chunks_count_shuffled() {
    let mut plat = quick_raw_plat(6, 589834, 262145, 1);
    let mut ids: Vec<u32> = (1..=(64 * 64 * 64)).collect();
    ids.shuffle(&mut rand::thread_rng());
    let mut idx = 0;
    for x in 0..64 {
        for y in 0..64 {
            for z in 0..64 {
                plat.layers[0].set(uvec3(x, y, z), ids[idx]);
                idx += 1;
            }
        }
    }
    assert_eq!(plat.layers[0].free(), 0);
    assert_eq!(plat.layers[0].free_l2(), 0);
}
