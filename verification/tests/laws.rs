use venx_core::draw::{indirect_table, DrawIndirectPacked, BUCKET_SIZE, DRAW_CALLS};
use venx_core::chunk::Chunk;
use venx_core::mca_converter::pos_from_name;
use venx_core::get::GetNodeResult;
use venx_core::node::Node;
use venx_core::node_l2::NodeL2;
use venx_core::opts::EntryOpts;
use venx_core::raw_plat::{LayerIndex, RawPlat};
use venx_core::vec3::{ivec3, uvec3, UVec3};

fn pool(len: usize, len2: usize) -> (Vec<Node>, Vec<NodeL2>) {
    (vec![Node::default(); len], vec![NodeL2::default(); len2])
}

fn plat(depth: usize, len: usize) -> RawPlat {
    RawPlat::new(depth, 5, 5, pool(len, len), pool(len, len), pool(len, len), pool(len, len))
}

#[test]
fn set_then_get_finds_the_voxel() {
    let mut plat = plat(6, 200);
    plat.layers[0].set(uvec3(33, 2, 61), 7);
    let r = plat.layers[0].get_node(uvec3(33, 2, 61), 0, Some(7));
    assert_eq!(r.voxel_id, 7);
    assert!(r.is_some());
    assert!(plat.layers[0].get_node(uvec3(33, 2, 61), 0, Some(8)).is_none());
    assert!(plat.layers[0].get_node(uvec3(33, 2, 60), 0, None).is_none());
}

#[test]
fn set_ignores_zero_and_outside() {
    let mut plat = plat(5, 200);
    let free = plat.layers[0].free();
    plat.layers[0].set(uvec3(1, 1, 1), 0);
    plat.layers[0].set(uvec3(32, 1, 1), 5);
    assert_eq!(plat.layers[0].free(), free);
    assert!(plat.get_voxel(uvec3(1, 1, 1)).is_none());
}

#[test]
fn two_ids_at_one_position_last_entry_wins() {
    let mut plat = plat(5, 200);
    plat.layers[0].set(uvec3(3, 3, 3), 4);
    plat.layers[0].set(uvec3(3, 3, 3), 9);
    assert_eq!(plat.layers[0].get_node(uvec3(3, 3, 3), 0, None).voxel_id, 9);
    assert_eq!(plat.layers[0].get_node(uvec3(3, 3, 3), 0, Some(4)).voxel_id, 4);
    // Both are reported by a traversal, in the order of their entries.
    let ids: Vec<u32> = plat.layers[0]
        .traverse(UVec3::zero(), 0..=5)
        .into_iter()
        .filter(|p| p.level == 0)
        .map(|p| p.voxel_id)
        .collect();
    assert_eq!(ids, vec![4, 9]);
}

#[test]
fn free_counts_the_nodes_left() {
    let mut plat = plat(5, 10);
    // 10 nodes: the head, the root, and 8 free ones.
    assert_eq!(plat.layers[0].free(), 8);
    plat.layers[0].set(uvec3(0, 0, 0), 1);
    // Level 4 fork, the branches on levels 4 and 3.
    assert_eq!(plat.layers[0].free(), 5);
}

#[test]
fn dealloc_then_alloc_gives_the_node_back() {
    let mut plat = plat(5, 10);
    let a = plat.layers[0].allocate_node();
    assert_eq!(a, 2);
    let b = plat.layers[0].allocate_node();
    assert_eq!(b, 3);
    plat.layers[0].deallocate_node(a);
    assert_eq!(plat.layers[0].allocate_node(), a);
    let l = plat.layers[0].allocate_node_l2();
    assert_eq!(l, 1);
    plat.layers[0].deallocate_node_l2(l);
    assert_eq!(plat.layers[0].allocate_node_l2(), l);
}

#[test]
fn get_node_result_helpers() {
    let r = GetNodeResult::some(3, 0, 5);
    assert!(r.is_some());
    assert!(!r.is_none());
    assert!(GetNodeResult::none().is_none());
    assert_eq!(GetNodeResult::none(), GetNodeResult { voxel_id: 0, layer_id: 0, node_idx: 0 });
}

#[test]
fn layer_names_and_sizes() {
    let p = plat(7, 10);
    let names: Vec<&str> = p.layers().iter().map(|(n, _)| *n).collect();
    assert_eq!(names, vec!["base", "tmp", "schem", "canvas"]);
    assert_eq!(p.depth(), 7);
    assert_eq!(p.size(), 128);
    assert_eq!(LayerIndex::Canvas.index(), 3);
    assert_eq!(LayerIndex::Base.index(), 0);
}

#[test]
fn entry_opts_ranges() {
    assert_eq!(EntryOpts::All.to_range(), 0..=3);
    assert_eq!(EntryOpts::Single(2).to_range(), 2..=2);
}

#[test]
fn traverse_reports_every_voxel_once_inside_its_region() {
    let mut plat = plat(7, 2_000);
    let voxels = [(1u32, 2u32, 3u32, 5u32), (31, 0, 0, 5), (32, 0, 0, 6), (100, 120, 64, 7), (64, 64, 64, 8)];
    for &(x, y, z, v) in &voxels {
        plat.layers[0].set(uvec3(x, y, z), v);
    }
    let all: Vec<(UVec3, u32)> = plat.layers[0]
        .traverse(UVec3::zero(), 0..=7)
        .into_iter()
        .filter(|p| p.level == 0)
        .map(|p| (p.position, p.voxel_id))
        .collect();
    assert_eq!(all.len(), voxels.len());
    for &(x, y, z, v) in &voxels {
        assert!(all.contains(&(uvec3(x, y, z), v)));
    }
    // The region of cell (2, 2, 2) on level 5 holds only the voxel at 64, 64, 64.
    let region: Vec<(UVec3, u32)> = plat.layers[0]
        .traverse(uvec3(2, 2, 2), 0..=5)
        .into_iter()
        .filter(|p| p.level == 0)
        .map(|p| (p.position, p.voxel_id))
        .collect();
    assert_eq!(region, vec![(uvec3(64, 64, 64), 8)]);
    // Nothing below an empty cell.
    assert!(plat.layers[0].traverse(uvec3(3, 0, 0), 0..=5).is_empty());
}

#[test]
fn traverse_reports_two_ids_at_one_position_once_each() {
    let mut plat = plat(6, 500);
    plat.layers[0].set(uvec3(3, 3, 3), 5);
    plat.layers[0].set(uvec3(3, 3, 3), 6);
    plat.layers[0].set(uvec3(3, 3, 3), 5);
    let mut all: Vec<(UVec3, u32)> = plat.layers[0]
        .traverse(UVec3::zero(), 0..=6)
        .into_iter()
        .filter(|p| p.level == 0)
        .map(|p| (p.position, p.voxel_id))
        .collect();
    all.sort_by_key(|e| e.1);
    assert_eq!(all, vec![(uvec3(3, 3, 3), 5), (uvec3(3, 3, 3), 6)]);
}

#[test]
fn traverse_level4_parent_is_a_fork() {
    let mut plat = plat(6, 200);
    plat.layers[0].set(uvec3(1, 1, 1), 3);
    plat.layers[0].set(uvec3(2, 1, 1), 4);
    for p in plat.layers[0].traverse(UVec3::zero(), 0..=6) {
        if p.level == 4 {
            assert!(plat.layers[0].nodes[p.parent_idx].is_fork());
            assert!(!plat.layers[0].nodes[p.node_idx].is_fork());
        }
    }
}

#[test]
fn iter_fork_lists_the_entries() {
    let mut plat = plat(5, 200);
    for v in 1..=6u32 {
        plat.layers[0].set(uvec3(v, 0, 0), v);
    }
    let fork = plat.layers[0].nodes[1].children[0] as usize;
    let ids: Vec<usize> = plat.layers[0].iter_fork(fork).iter().map(|e| e.voxel_id).collect();
    assert_eq!(ids, vec![1, 2, 3, 4, 5, 6]);
}

#[test]
fn load_chunk_keeps_the_last_voxel_of_a_position() {
    let mut plat = plat(6, 200);
    plat.layers[0].set(uvec3(33, 34, 35), 2);
    plat.layers[0].set(uvec3(33, 34, 35), 3);
    let chunk = plat.layers[0].load_chunk(uvec3(1, 1, 1), 0, 5);
    assert_eq!(chunk.get(uvec3(1, 2, 3)), Some(3));
    assert_eq!(chunk.get_global(uvec3(33, 34, 35)), Some(3));
    assert_eq!(chunk.iter().len(), 1);
}

#[test]
fn freeze_upper_moves_used_nodes_down() {
    let mut plat = plat(5, 20);
    // Two level-2 nodes in use: 1 and 2.
    plat.layers[0].set(uvec3(0, 0, 0), 1);
    plat.layers[0].set(uvec3(8, 0, 0), 1);
    // Give node 1 back: now 1 is free, 2 in use.
    let l = &mut plat.layers[0];
    let mut helper = vec![0; l.level_2.len()];
    let first_used = l.level_2[1];
    let second_used = l.level_2[2];
    assert_ne!(first_used, NodeL2::default());
    assert_ne!(second_used, NodeL2::default());
    let cut = l.freeze_upper(&mut helper);
    assert_eq!(cut, 3);
    assert_eq!(l.level_2[0], NodeL2::default());
    assert_eq!(l.level_2[1], first_used);
    assert_eq!(l.level_2[2], second_used);
    for i in 4..l.level_2.len() {
        assert_eq!(l.level_2[i], NodeL2::default());
    }
    assert!(helper.iter().all(|h| *h == 0));
}

#[test]
fn shrink_to_fit_l2_frees_the_tail() {
    let mut plat = plat(5, 6);
    let l = &mut plat.layers[0];
    // Fresh: no level-2 node in use, 5 free ones.
    let mut helper = vec![0; l.level_2.len()];
    let cut = l.shrink_to_fit_l2(&mut helper);
    assert_eq!(cut, 1);
    assert_eq!(helper, vec![0; 6]);
    assert_eq!(l.free_l2(), 5);
    assert_eq!(l.level_2[0].packed_children[0], 1);
    assert_eq!(l.level_2[5].packed_children[0], 0);
}

#[test]
fn freeze_upper_moves_and_relinks() {
    let mut plat = plat(5, 20);
    let l = &mut plat.layers[0];
    // Level-2 node 1 is taken and given back after the voxel's node (2) is made.
    let taken = l.allocate_node_l2();
    assert_eq!(taken, 1);
    l.set(uvec3(5, 6, 7), 3);
    l.deallocate_node_l2(taken);
    let used = l.level_2[2];
    let mut helper = vec![0; l.level_2.len()];
    let cut = l.freeze_upper(&mut helper);
    assert_eq!(cut, 2);
    assert_eq!(helper[2], 1);
    assert_eq!(l.level_2[1], used);
    assert_eq!(l.level_2[2], NodeL2::default());
    assert_eq!(l.get_node(uvec3(5, 6, 7), 0, Some(3)).voxel_id, 3);
    assert!(l.get_node(uvec3(5, 6, 6), 0, Some(3)).is_none());
}

#[test]
fn shrink_to_fit_l2_moves_and_relinks() {
    let mut plat = plat(5, 20);
    let l = &mut plat.layers[0];
    let taken = l.allocate_node_l2();
    l.set(uvec3(5, 6, 7), 3);
    l.set(uvec3(9, 6, 7), 4);
    l.deallocate_node_l2(taken);
    let mut helper = vec![0; l.level_2.len()];
    let cut = l.shrink_to_fit_l2(&mut helper);
    // Two level-2 nodes in use, now at 1 and 2.
    assert_eq!(cut, 3);
    assert_eq!(l.free_l2(), 17);
    assert_eq!(l.get_node(uvec3(5, 6, 7), 0, Some(3)).voxel_id, 3);
    assert_eq!(l.get_node(uvec3(9, 6, 7), 0, Some(4)).voxel_id, 4);
    assert!(l.get_node(uvec3(9, 6, 7), 0, Some(3)).is_none());
}

#[test]
fn greedy_runner_grows_a_face() {
    let p = plat(5, 10);
    let mut chunk = Chunk::new(uvec3(0, 0, 0), 0, 3);
    // A 3 x 2 slab of block 4 at z = 0, open towards +z; outside the chunk counts as filled.
    for x in 0..3 {
        for y in 0..2 {
            chunk.set(uvec3(x, y, 0), 4);
        }
    }
    let mut helper = Chunk::new(uvec3(0, 0, 0), 0, 3);
    let r = p.greedy_runner(&mut helper, &chunk, 4, uvec3(0, 0, 0), 0, 1, ivec3(0, 0, -1));
    assert_eq!(r, None);
    let r = p.greedy_runner(&mut helper, &chunk, 4, uvec3(0, 0, 0), 0, 1, ivec3(0, 0, 1));
    assert_eq!(r, Some((3, 2)));
    assert_eq!(helper.get(uvec3(2, 1, 0)), Some(1));
    assert_eq!(helper.get(uvec3(0, 2, 0)), None);
    // The same start again: the face is marked, so the run stops at once.
    let r = p.greedy_runner(&mut helper, &chunk, 4, uvec3(0, 0, 0), 0, 1, ivec3(0, 0, 1));
    assert_eq!(r, Some((1, 1)));
    // A start whose neighbour is a block makes no face.
    chunk.set(uvec3(0, 0, 1), 4);
    let r = p.greedy_runner(&mut helper, &chunk, 4, uvec3(0, 0, 0), 0, 1, ivec3(0, 0, 1));
    assert_eq!(r, None);
}

#[test]
fn plat_get_node_prefers_upper_layers() {
    let mut plat = plat(5, 200);
    plat.layers[0].set(uvec3(4, 4, 4), 1);
    plat.layers[2].set(uvec3(4, 4, 4), 3);
    assert_eq!(plat.get_voxel(uvec3(4, 4, 4)).voxel_id, 3);
    assert_eq!(plat.layers[0].get_node(uvec3(4, 4, 4), 0, None).voxel_id, 1);
}

#[test]
fn region_file_names() {
    assert_eq!(pos_from_name("r.1.-2.mca"), Some((1, -2)));
    assert_eq!(pos_from_name("r.+3.0"), Some((3, 0)));
    assert_eq!(pos_from_name("r.1"), None);
    assert_eq!(pos_from_name("x.1.2.mca"), None);
    assert_eq!(pos_from_name("r.1.a.mca"), None);
    assert_eq!(pos_from_name("r.-.2.mca"), None);
    assert_eq!(pos_from_name("r..2.mca"), None);
    assert_eq!(pos_from_name("r.2147483647.-2147483648.mca"), Some((2147483647, -2147483648)));
    assert_eq!(pos_from_name("r.2147483648.0.mca"), None);
    assert_eq!(pos_from_name("r.99999999999999999999.0.mca"), None);
    assert_eq!(pos_from_name("rr.1.2.mca"), None);
}

#[test]
fn layer_from_parts_keeps_the_pools() {
    let layer = venx_core::layer::Layer::from((vec![Node::default(); 4], vec![NodeL2::default(); 3], 6));
    assert_eq!(layer.depth, 6);
    assert_eq!(layer.nodes.len(), 4);
    assert_eq!(layer.level_2.len(), 3);
    assert_eq!(layer.nodes[0], Node::default());
}

#[test]
fn indirect_table_one_call_per_bucket() {
    let t = indirect_table(DRAW_CALLS, BUCKET_SIZE);
    assert_eq!(t.len(), 12);
    assert_eq!(t[0].to_arr(), [3072, 1, 0, 0]);
    assert_eq!(t[11].to_arr(), [3072, 1, 11 * 3072, 0]);
    assert_eq!(DrawIndirectPacked::size(), 16);
}

#[test]
fn set_again_changes_nothing() {
    let mut plat = plat(6, 300);
    let l = &mut plat.layers[0];
    l.set(uvec3(9, 40, 3), 7);
    l.set(uvec3(9, 41, 3), 8);
    let nodes = l.nodes.clone();
    let level_2 = l.level_2.clone();
    let (free, free_l2) = (l.free(), l.free_l2());
    l.set(uvec3(9, 40, 3), 7);
    assert!(l.nodes == nodes);
    assert!(l.level_2 == level_2);
    assert_eq!((l.free(), l.free_l2()), (free, free_l2));
}

#[test]
fn freeze_upper_on_a_fresh_layer_cuts_after_the_head() {
    let mut plat = plat(5, 3);
    let l = &mut plat.layers[0];
    let mut helper = vec![0; l.level_2.len()];
    assert_eq!(l.freeze_upper(&mut helper), 1);
}
