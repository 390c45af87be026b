use rand::Rng;
use venx_core::node::{Node, NodeAddr};
use venx_core::node_l2::NodeL2;
use venx_core::stack::EStack;
use venx_core::utils::{l2s, s2l};
use venx_core::vec3::{uvec3, UVec3};

fn gen_rand_mtx<const SIZE: usize>(empty_probability: u8) -> Box<Vec<Vec<Vec<u32>>>> {
    let mut rng = rand::thread_rng();
    let mut mtx = Box::new(vec![vec![vec![0; SIZE]; SIZE]; SIZE]);
    for x in 0..SIZE {
        for y in 0..SIZE {
            for z in 0..SIZE {
                if !rng.gen_ratio(empty_probability as u32, 100) {
                    let voxel_id: u16 = rng.gen();
                    mtx[x][y][z] = voxel_id as u32 + 1;
                }
            }
        }
    }
    mtx
}

/// The octants of a level-2 node as eight bytes, the way its debug view shows them.
fn debug_l2(n: &NodeL2) -> String {
    let mut s = String::from("NodeL2: ");
    for i in 0..8 {
        s += &format!("{:#010b} ", n.index_l1(i));
    }
    s += "\n";
    s
}

fn p(x: u32, y: u32, z: u32) -> UVec3 {
    uvec3(x, y, z)
}

#[test]
fn test_node_addr() {
    let mut addr = NodeAddr::new();
    addr.set_idx(5, 0);
    addr.set_idx(4, 5);
    addr.set_idx(3, 7);
    addr.set_idx(2, 1);
    addr.set_idx(1, 5);
    addr.set_idx(0, 6);

    assert_eq!(addr.get_idx(5), 0);
    assert_eq!(addr.get_idx(4), 5);
    assert_eq!(addr.get_idx(3), 7);
    assert_eq!(addr.get_idx(2), 1);
    assert_eq!(addr.get_idx(1), 5);
    assert_eq!(addr.get_idx(0), 6);
}

#[test]
fn test_node_addr_from_position() {
    let addr = NodeAddr::from_position(uvec3(7, 20, 5), 5);

    assert_eq!(addr.get_idx(5), 2);
    assert_eq!(addr.get_idx(4), 0);
    assert_eq!(addr.get_idx(3), 7);
    assert_eq!(addr.get_idx(2), 1);
    assert_eq!(addr.get_idx(1), 5);
    assert_eq!(addr.get_idx(0), 0);
}

#[test]
fn test_simple_get_set() {
    let mut n = NodeL2::default();
    // 0 0 0
    n.set(p(0, 0, 0));
    // 0 1 0
    n.set(p(0, 2, 0));
    // 0 0 1
    n.set(p(0, 0, 2));
    // 1 0 0
    n.set(p(2, 0, 0));
    // 1 0 1
    n.set(p(2, 0, 2));
    // 1 1 1
    n.set(p(2, 2, 2));
    // 1 1 0
    n.set(p(2, 2, 0));
    // 0 1 1
    n.set(p(0, 2, 2));

    assert_eq!(debug_l2(&n), "NodeL2: 0b00000001 0b00000001 0b00000001 0b00000001 0b00000001 0b00000001 0b00000001 0b00000001 \n".to_owned());
    assert!(n.is_at(p(0, 0, 0)));
    assert!(n.is_at(p(0, 2, 0)));
    assert!(n.is_at(p(0, 2, 2)));
    assert!(n.is_at(p(2, 2, 0)));
    assert!(n.is_at(p(2, 2, 2)));
    assert!(n.is_at(p(2, 0, 0)));
}

#[test]
fn test_simple_unset() {
    let mut n = NodeL2::default();

    n.set(p(0, 0, 0));
    n.set(p(0, 1, 0));
    n.set(p(1, 1, 0));
    n.set(p(0, 1, 1));
    n.set(p(1, 1, 1));

    let b = n.clone();

    n.set(p(1, 0, 1));
    n.unset(p(1, 0, 1));

    assert_eq!(b, n);
}

#[test]
fn test_position() {
    let mut n = NodeL2::default();

    let mut rng = rand::thread_rng();
    let q: (u32, u32, u32) = (rng.gen_range(0..4), rng.gen_range(0..4), rng.gen_range(0..4));

    n.set(p(q.0, q.1, q.2));

    let addr = NodeAddr::from_position(p(q.0, q.1, q.2), 3);

    assert_eq!(n.index_l1(addr.get_idx(2)), 1 << addr.get_idx(1));
}

#[test]
fn test_full() {
    let mut n = NodeL2::default();

    let mtx = gen_rand_mtx::<4>(50);
    for x in 0..4 {
        for y in 0..4 {
            for z in 0..4 {
                if mtx[x as usize][y as usize][z as usize] != 0 {
                    n.set(uvec3(x, y, z));
                    assert!(n.is_at(uvec3(x, y, z)));
                }
            }
        }
    }

    for x in 0..4 {
        for y in 0..4 {
            for z in 0..4 {
                if mtx[x as usize][y as usize][z as usize] != 0 {
                    assert!(n.is_at(uvec3(x, y, z)));
                }
            }
        }
    }

    for x in 0..4 {
        for y in 0..4 {
            for z in 0..4 {
                if mtx[x as usize][y as usize][z as usize] != 0 {
                    n.unset(uvec3(x, y, z));
                    assert!(!n.is_at(uvec3(x, y, z)));
                }
            }
        }
    }

    assert_eq!(n, NodeL2::default());
}

#[test]
fn test_index_l1() {
    let mut n = NodeL2::default();

    let mtx = gen_rand_mtx::<4>(50);
    for x in 0..4 {
        for y in 0..4 {
            for z in 0..4 {
                if mtx[x as usize][y as usize][z as usize] != 0 {
                    n.set(uvec3(x, y, z));
                }
            }
        }
    }

    let st = debug_l2(&n);
    let parts: Vec<&str> = st.split_whitespace().skip(1).collect();

    assert_eq!(format!("{:#010b}", n.index_l1(0)), parts[0]);
    assert_eq!(format!("{:#010b}", n.index_l1(1)), parts[1]);
    assert_eq!(format!("{:#010b}", n.index_l1(2)), parts[2]);
    assert_eq!(format!("{:#010b}", n.index_l1(3)), parts[3]);
    assert_eq!(format!("{:#010b}", n.index_l1(4)), parts[4]);
    assert_eq!(format!("{:#010b}", n.index_l1(5)), parts[5]);
    assert_eq!(format!("{:#010b}", n.index_l1(6)), parts[6]);
    assert_eq!(format!("{:#010b}", n.index_l1(7)), parts[7]);
}

#[test]
fn test_estack() {
    let mut stack = EStack::new(0);
    assert_eq!(*stack.read(), 0);

    stack.push(1);
    assert_eq!(*stack.read(), 1);

    stack.push(2);
    assert_eq!(*stack.read(), 2);
    assert_eq!(*stack.read(), 2);
    assert_eq!(*stack.read(), 2);

    stack.pop();
    assert_eq!(*stack.read(), 1);

    stack.push(3);
    assert_eq!(*stack.read(), 3);
    assert_eq!(*stack.read(), 3);
    assert_eq!(*stack.read(), 3);

    stack.pop();
    stack.pop();
    assert_eq!(*stack.read(), 0);
}

#[test]
fn stack_read_writes_in_place() {
    let mut stack = EStack::new(5u32);
    stack.push(7);
    *stack.read() = 9;
    assert_eq!(*stack.read(), 9);
    stack.pop();
    assert_eq!(*stack.read(), 5);
}

#[test]
fn level_size_round_trip() {
    assert_eq!(l2s(0), 1);
    assert_eq!(l2s(5), 32);
    assert_eq!(l2s(31), 1 << 31);
    for lvl in 0..32 {
        assert_eq!(s2l(l2s(lvl)), lvl);
    }
    assert_eq!(s2l(33), 5);
    assert_eq!(s2l(63), 5);
    assert_eq!(s2l(1), 0);
}

#[test]
fn child_index_and_position() {
    assert_eq!(Node::get_child_index(uvec3(0, 0, 0), 2), 0);
    assert_eq!(Node::get_child_index(uvec3(4, 0, 0), 2), 1);
    assert_eq!(Node::get_child_index(uvec3(0, 5, 0), 2), 2);
    assert_eq!(Node::get_child_index(uvec3(7, 7, 7), 2), 7);
    assert_eq!(Node::get_child_position(6), uvec3(0, 1, 1));
    assert_eq!(Node::get_child_position(5), uvec3(1, 0, 1));
    for i in 0..8u32 {
        let cp = Node::get_child_position(i);
        assert_eq!(Node::get_child_index(cp, 0), i as usize);
    }
}

#[test]
fn forks_are_told_by_their_flag() {
    assert!(Node::new(4, -3).is_fork());
    assert!(Node::new(4, 12).is_fork());
    assert!(!Node::new(4, 0).is_fork());
    assert!(!Node::new(4, -1).is_fork());
}

#[test]
fn address_set_replaces_the_index() {
    let mut addr = NodeAddr::new();
    addr.set_idx(1, 5);
    addr.set_idx(2, 3);
    addr.set_idx(1, 2);
    assert_eq!(addr.get_idx(1), 2);
    assert_eq!(addr.get_idx(2), 3);
    assert_eq!(addr.get_idx(0), 0);
    let addr = NodeAddr::from_position(uvec3(1 << 19, 1 << 19, 0), 20);
    assert_eq!(addr.get_idx(20), 3);
    let addr = NodeAddr::from_position(uvec3(0, 0, 0), 0);
    assert_eq!(addr.0, 0);
}

#[test]
fn index_l0_reads_single_voxels() {
    let mut n = NodeL2::default();
    n.set(uvec3(3, 1, 0));
    // octant (1, 0, 0) is 1, voxel (1, 1, 0) inside it is 3
    assert!(n.index_l0(8 + 3));
    assert!(!n.index_l0(8 + 2));
    assert_eq!(n.index_l1(1), 1 << 3);
}
