use particle_playground::quadtree::{quadrant_bits, quadrant_index, Node, Quadtree};

#[test]
fn quadrant_index_numbers_sides() {
    assert_eq!(quadrant_index(false, false), 0);
    assert_eq!(quadrant_index(false, true), 1);
    assert_eq!(quadrant_index(true, false), 2);
    assert_eq!(quadrant_index(true, true), 3);
}

#[test]
fn quadrant_bits_roundtrip() {
    for q in 0..4usize {
        let (col, row) = quadrant_bits(q);
        assert_eq!(quadrant_index(row == 1, col == 1), q);
    }
    assert_eq!(quadrant_bits(2), (0, 1));
    assert_eq!(quadrant_bits(1), (1, 0));
}

#[test]
fn node_leaf_and_branch() {
    let n = Node::new(7, 'a');
    assert!(n.is_leaf());
    assert!(!n.is_branch());
    assert_eq!(n.next, 7);
    let b = Node { children: 3, next: 0, body: 'b' };
    assert!(b.is_branch());
    assert!(!b.is_leaf());
}

#[test]
fn clear_leaves_a_single_root() {
    let mut t: Quadtree<u32> = Quadtree::new();
    assert_eq!(t.len(), 0);
    t.clear(42);
    assert_eq!(t.len(), 1);
    assert_eq!(t.node(Quadtree::<u32>::ROOT).body, 42);
    assert!(t.node(0).is_leaf());
    assert_eq!(t.node(0).next, 0);
    assert!(t.parents().is_empty());
}

#[test]
fn subdivide_threads_the_children() {
    let mut t: Quadtree<u32> = Quadtree::new();
    t.clear(0);
    let c = t.subdivide(0, [10, 11, 12, 13]);
    assert_eq!(c, 1);
    assert_eq!(t.len(), 5);
    assert_eq!(t.node(0).children, 1);
    let nexts: Vec<usize> = (1..5).map(|i| t.node(i).next).collect();
    assert_eq!(nexts, vec![2, 3, 4, 0]);
    let bodies: Vec<u32> = (1..5).map(|i| t.node(i).body).collect();
    assert_eq!(bodies, vec![10, 11, 12, 13]);
    // split the second child: its last grandchild is followed by the third child
    let g = t.subdivide(2, [20, 21, 22, 23]);
    assert_eq!(g, 5);
    assert_eq!(t.node(2).children, 5);
    assert_eq!(t.node(8).next, 3);
    assert_eq!(t.parents(), &vec![0, 2]);
    assert_eq!(t.child(2, 3), 8);
    assert_eq!(t.child(0, 1), 2);
}

#[test]
fn set_body_keeps_the_shape() {
    let mut t: Quadtree<u32> = Quadtree::new();
    t.clear(0);
    t.subdivide(0, [1, 2, 3, 4]);
    t.set_body(0, 99);
    assert_eq!(t.node(0).body, 99);
    assert_eq!(t.node(0).children, 1);
    assert_eq!(t.node(4).next, 0);
}

#[test]
fn walk_visits_every_node_once_in_preorder() {
    let mut t: Quadtree<u32> = Quadtree::new();
    t.clear(0);
    t.subdivide(0, [1, 2, 3, 4]);
    t.subdivide(2, [5, 6, 7, 8]);
    // descending everywhere visits the whole tree, parents before children
    let mut order = vec![0];
    let mut node = 0;
    loop {
        let next = t.walk_next(node, true);
        if next == 0 {
            break;
        }
        order.push(next);
        node = next;
        assert!(order.len() <= t.len());
    }
    assert_eq!(order, vec![0, 1, 2, 5, 6, 7, 8, 3, 4]);
    // never descending visits the root only
    assert_eq!(t.walk_next(0, false), 0);
    // skipping the subtree of node 2 goes on with its sibling
    assert_eq!(t.walk_next(2, false), 3);
    // a leaf is left for what follows it, whether or not the walk would descend
    assert_eq!(t.walk_next(8, true), 3);
}

#[test]
fn split_order_lists_branches_before_their_branch_children() {
    let mut t: Quadtree<u8> = Quadtree::new();
    t.clear(0);
    let c = t.subdivide(0, [0; 4]);
    let g = t.subdivide(c + 3, [0; 4]);
    t.subdivide(g, [0; 4]);
    t.subdivide(c, [0; 4]);
    let parents = t.parents().clone();
    assert_eq!(parents, vec![0, 4, 5, 1]);
    for (s, &p) in parents.iter().enumerate() {
        let first = t.node(p).children;
        for (u, &q) in parents.iter().enumerate() {
            if first <= q && q < first + 4 {
                assert!(s < u);
            }
        }
    }
}

#[test]
fn subtree_is_a_stretch_of_the_walk() {
    let mut t: Quadtree<u32> = Quadtree::new();
    t.clear(0);
    t.subdivide(0, [1, 2, 3, 4]);
    t.subdivide(2, [5, 6, 7, 8]);
    t.subdivide(6, [9, 10, 11, 12]);
    let mut order = vec![0];
    let mut node = 0;
    loop {
        let next = t.walk_next(node, true);
        if next == 0 {
            break;
        }
        order.push(next);
        node = next;
        assert!(order.len() <= t.len());
    }
    assert_eq!(order, vec![0, 1, 2, 5, 6, 9, 10, 11, 12, 7, 8, 3, 4]);
    let parents = t.parents().clone();
    let parent = |k: usize| parents[(k - 1) / 4];
    let in_subtree = |b: usize, mut k: usize| loop {
        if k == b {
            return true;
        }
        if k == 0 {
            return false;
        }
        k = parent(k);
    };
    for b in 0..t.len() {
        let start = order.iter().position(|&k| k == b).unwrap();
        let after = t.walk_next(b, false);
        let end = if after == 0 { order.len() } else { order.iter().position(|&k| k == after).unwrap() };
        for (m, &k) in order.iter().enumerate() {
            assert_eq!(in_subtree(b, k), start <= m && m < end, "node {} under {}", k, b);
        }
    }
    // node 6 holds nodes 9 to 12; the walk leaves it for node 7
    assert_eq!(t.walk_next(6, false), 7);
}
