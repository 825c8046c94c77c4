use isoengine::geometry::{BoundingCube, Octant, Vec3};
use isoengine::octree::{LooseOctree, NodeID};

fn cube(x: i64, y: i64, z: i64, h: i64) -> BoundingCube {
    BoundingCube { center: Vec3 { x, y, z }, half_edge: h }
}

fn all_octants() -> Vec<Octant> {
    let mut v = Vec::new();
    for bits in 0u8..8 {
        v.push(Octant::from_bits(bits).unwrap());
    }
    v
}

fn node_with(t: &LooseOctree<u32>, c: BoundingCube) -> Option<NodeID> {
    (0..t.node_count()).map(NodeID).find(|&id| t.node_bcube(id) == c)
}

fn check_links(t: &LooseOctree<u32>) {
    let root = t.root();
    assert!(t.node_parent(root).is_none());
    for i in 0..t.node_count() {
        let id = NodeID(i);
        match t.node_parent(id) {
            Some(p) => {
                assert_eq!(t.node_child(p, t.node_octant(id)), Some(id));
                assert_eq!(t.node_bcube(p).half_edge, 2 * t.node_bcube(id).half_edge);
            }
            None => assert_eq!(id, root),
        }
        for o in all_octants() {
            if let Some(c) = t.node_child(id, o) {
                assert_eq!(t.node_parent(c), Some(id));
                assert_eq!(t.node_octant(c), o);
            }
        }
        for &e in t.node_contents(id).iter() {
            assert_eq!(t.entry_node(e), id);
        }
    }
    for e in 0..t.entry_count() as u32 {
        assert!(t.node_contents(t.entry_node(e)).contains(&e));
    }
}

#[test]
fn new_tree_has_one_empty_root() {
    let t: LooseOctree<u32> = LooseOctree::new(cube(0, 0, 0, 8000), 1000);
    assert_eq!(t.node_count(), 1);
    assert_eq!(t.root(), NodeID(0));
    assert_eq!(t.node_bcube(t.root()), cube(0, 0, 0, 8000));
    assert!(t.node_contents(t.root()).is_empty());
    assert_eq!(t.entry_count(), 0);
    assert_eq!(t.min_dist(), 1000);
}

#[test]
fn small_cube_descends_to_minimum_size() {
    let mut t = LooseOctree::new(cube(0, 0, 0, 8000), 1000);
    let a = t.insert(7u32, cube(1000, 1000, 1000, 500));
    assert_eq!(a, 0);
    let n = t.entry_node(a);
    assert_eq!(t.node_bcube(n), cube(1000, 1000, 1000, 1000));
    assert_eq!(t.node_count(), 4);
    assert_eq!(t.node_contents(n), &vec![a]);
    assert_eq!(*t.entry_val(a), 7);
    assert_eq!(t.entry_bcube(a), cube(1000, 1000, 1000, 500));
    check_links(&t);
}

#[test]
fn far_cube_grows_the_tree_upward() {
    let mut t = LooseOctree::new(cube(0, 0, 0, 8000), 1000);
    t.insert(1u32, cube(1000, 1000, 1000, 500));
    let b = t.insert(2u32, cube(100000, 0, 0, 8000));
    assert_eq!(b, 1);
    assert_eq!(t.node_bcube(t.root()), cube(56000, 24000, 24000, 64000));
    assert!(node_with(&t, cube(8000, 8000, 8000, 16000)).is_some());
    assert!(node_with(&t, cube(24000, -8000, -8000, 32000)).is_some());
    assert_eq!(t.node_bcube(t.entry_node(b)), cube(104000, 8000, 8000, 16000));
    assert_eq!(t.node_count(), 9);
    assert_eq!(t.node_bcube(t.entry_node(0)), cube(1000, 1000, 1000, 1000));
    check_links(&t);
}

#[test]
fn cube_larger_by_power_of_two_grows_exactly_that_many_levels() {
    let mut t = LooseOctree::new(cube(0, 0, 0, 1000), 1);
    let a = t.insert(0u32, cube(0, 0, 0, 8000));
    assert_eq!(t.node_count(), 4);
    assert_eq!(t.node_bcube(t.root()).half_edge, 8000);
    assert_eq!(t.entry_node(a), t.root());
    check_links(&t);
}

#[test]
fn same_size_cube_stays_in_root() {
    let mut t = LooseOctree::new(cube(5, -5, 5, 1000), 1);
    let a = t.insert(0u32, cube(5, -5, 5, 1000));
    assert_eq!(t.node_count(), 1);
    assert_eq!(t.entry_node(a), t.root());
}

#[test]
fn insert_lands_where_walk_from_root_leads() {
    let mut t = LooseOctree::new(cube(0, 0, 0, 8000), 1000);
    let a = t.insert(1u32, cube(-3000, 2000, 5000, 700));
    let n = t.entry_node(a);
    let c = t.node_bcube(n);
    assert!(c.octant(Vec3 { x: -3000, y: 2000, z: 5000 }).is_some());
    assert!(c.half_edge >= 700);
    assert!(t.node_contents(n).contains(&a));
    // a second cube of the same size and centre goes to the same node, and creates none
    let count = t.node_count();
    let b = t.insert(2u32, cube(-3000, 2000, 5000, 700));
    assert_eq!(t.entry_node(b), n);
    assert_eq!(t.node_count(), count);
    check_links(&t);
}

#[test]
fn small_move_keeps_the_node() {
    let mut t = LooseOctree::new(cube(0, 0, 0, 8000), 1000);
    let a = t.insert(1u32, cube(1000, 1000, 1000, 500));
    let n = t.entry_node(a);
    let count = t.node_count();
    t.adjust(a, cube(1800, 200, 1999, 500));
    assert_eq!(t.entry_node(a), n);
    assert_eq!(t.node_count(), count);
    assert_eq!(t.entry_bcube(a), cube(1800, 200, 1999, 500));
    check_links(&t);
}

#[test]
fn moving_the_last_entry_prunes_the_empty_branch() {
    let mut t = LooseOctree::new(cube(0, 0, 0, 8000), 1000);
    let a = t.insert(1u32, cube(1000, 1000, 1000, 500));
    assert_eq!(t.node_count(), 4);
    t.adjust(a, cube(-5000, -5000, -5000, 500));
    assert_eq!(t.node_count(), 4);
    assert_eq!(t.node_bcube(t.entry_node(a)), cube(-5000, -5000, -5000, 1000));
    assert!(node_with(&t, cube(1000, 1000, 1000, 1000)).is_none());
    assert!(node_with(&t, cube(2000, 2000, 2000, 2000)).is_none());
    assert!(node_with(&t, cube(4000, 4000, 4000, 4000)).is_none());
    assert_eq!(t.node_bcube(t.root()), cube(0, 0, 0, 8000));
    check_links(&t);
}

#[test]
fn pruning_stops_at_a_node_still_holding_entries() {
    let mut t = LooseOctree::new(cube(0, 0, 0, 8000), 1000);
    let a = t.insert(1u32, cube(1000, 1000, 1000, 500));
    let b = t.insert(2u32, cube(3000, 3000, 3000, 1500));
    assert_eq!(t.node_bcube(t.entry_node(b)), cube(2000, 2000, 2000, 2000));
    assert_eq!(t.node_count(), 4);
    t.adjust(a, cube(-5000, -5000, -5000, 500));
    assert!(node_with(&t, cube(1000, 1000, 1000, 1000)).is_none());
    assert_eq!(t.node_bcube(t.entry_node(b)), cube(2000, 2000, 2000, 2000));
    assert!(node_with(&t, cube(4000, 4000, 4000, 4000)).is_some());
    assert_eq!(t.node_count(), 6);
    check_links(&t);
}

#[test]
fn root_is_never_pruned() {
    let mut t = LooseOctree::new(cube(0, 0, 0, 8000), 1000);
    let a = t.insert(1u32, cube(100, 100, 100, 8000));
    assert_eq!(t.entry_node(a), t.root());
    t.adjust(a, cube(-100, -100, -100, 8000));
    assert_eq!(t.node_count(), 1);
    assert_eq!(t.entry_node(a), t.root());
    assert!(t.node_parent(t.root()).is_none());
}

#[test]
fn links_stay_consistent_through_many_removals() {
    let mut t = LooseOctree::new(cube(0, 0, 0, 8000), 1000);
    let spots = [
        (1000, 1000, 1000),
        (-1000, 1000, 1000),
        (7000, -7000, 3000),
        (-6000, -6000, -6000),
        (2500, 3500, -4500),
        (-100, 200, -300),
    ];
    let mut ids = Vec::new();
    for (i, &(x, y, z)) in spots.iter().enumerate() {
        ids.push(t.insert(i as u32, cube(x, y, z, 400)));
        check_links(&t);
    }
    let before = t.node_count();
    // move them around in an order unrelated to insertion, removing branches as they empty
    for (k, &id) in ids.iter().rev().enumerate() {
        let (x, y, z) = spots[k];
        t.adjust(id, cube(-x + 50, y - 70, -z, 400));
        check_links(&t);
    }
    for &id in ids.iter() {
        t.adjust(id, cube(20000, 20000, 20000, 9000));
        check_links(&t);
    }
    assert!(before > 1);
    assert_eq!(t.node_count(), 1);
    for &id in ids.iter() {
        assert_eq!(t.entry_node(id), t.entry_node(ids[0]));
        assert_eq!(*t.entry_val(id), id);
    }
}

#[test]
fn shrinking_an_entry_moves_it_down() {
    let mut t = LooseOctree::new(cube(0, 0, 0, 8000), 1000);
    let a = t.insert(1u32, cube(100, 100, 100, 8000));
    assert_eq!(t.entry_node(a), t.root());
    t.adjust(a, cube(100, 100, 100, 500));
    assert_eq!(t.node_bcube(t.entry_node(a)), cube(1000, 1000, 1000, 1000));
    assert_eq!(t.node_count(), 4);
    assert!(t.node_contents(t.root()).is_empty());
    check_links(&t);
}

#[test]
fn growing_an_entry_moves_it_up() {
    let mut t = LooseOctree::new(cube(0, 0, 0, 8000), 1000);
    let a = t.insert(1u32, cube(1000, 1000, 1000, 500));
    t.adjust(a, cube(1000, 1000, 1000, 6000));
    assert_eq!(t.entry_node(a), t.root());
    assert_eq!(t.node_count(), 1);
    check_links(&t);
}
