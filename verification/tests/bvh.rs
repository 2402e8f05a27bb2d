use terrain_mesh::bvh::{Bvh, BvhNode, LEAF_CAPACITY};
use terrain_mesh::geo::{Bbox, Vec2};

fn boxed(x0: i64, y0: i64, x1: i64, y1: i64) -> Bbox {
    let mut b = Bbox::new(Vec2::new(x0, y0));
    b.expand(Vec2::new(x1, y1));
    b
}

struct Lcg(u64);

impl Lcg {
    fn next(&mut self, modulus: u64) -> i64 {
        self.0 = self.0.wrapping_mul(6364136223846793005).wrapping_add(1442695040888963407);
        ((self.0 >> 33) % modulus) as i64
    }
}

fn found(index: &Bvh<usize>, q: Vec2, keep: impl Fn(&usize, Vec2) -> bool) -> Vec<usize> {
    index.enclosing(q, keep).into_iter().copied().collect()
}

#[test]
fn a_new_index_is_an_empty_leaf() {
    let index: Bvh<usize> = Bvh::new(boxed(0, 0, 10, 10));
    match &index.root {
        BvhNode::Leaf { elems, bbox } => {
            assert!(elems.is_empty());
            assert_eq!(*bbox, boxed(0, 0, 10, 10));
        }
        BvhNode::Branch { .. } => panic!("a new index has no branch"),
    }
    assert!(found(&index, Vec2::new(5, 5), |_, _| true).is_empty());
    assert!(index.accepts(Vec2::new(500, 500)));
}

#[test]
fn a_leaf_keeps_pairs_in_order_and_grows_its_box() {
    let mut index: Bvh<usize> = Bvh::new(boxed(0, 0, 10, 10));
    index.insert(7, Vec2::new(1, 1));
    index.insert(8, Vec2::new(20, -5));
    index.insert(9, Vec2::new(3, 3));
    assert!(index.root.contains(Vec2::new(20, -5)));
    assert!(index.root.contains(Vec2::new(15, 0)));
    assert!(!index.root.contains(Vec2::new(21, 0)));
    match &index.root {
        BvhNode::Leaf { elems, bbox } => {
            assert_eq!(elems.len(), 3);
            assert_eq!(elems[1], (8, Vec2::new(20, -5)));
            assert_eq!(*bbox, boxed(0, -5, 20, 10));
        }
        BvhNode::Branch { .. } => panic!("three pairs do not split a leaf"),
    }
    assert_eq!(found(&index, Vec2::new(100, 100), |_, _| true), vec![7, 8, 9]);
    assert_eq!(found(&index, Vec2::new(0, 0), |e, _| *e != 8), vec![7, 9]);
}

#[test]
fn the_predicate_sees_the_query_point() {
    let mut index: Bvh<usize> = Bvh::new(boxed(0, 0, 10, 10));
    for i in 0..10 {
        index.insert(i, Vec2::new(i as i64, 0));
    }
    let near = found(&index, Vec2::new(4, 0), |e, q| (*e as i64 - q.x).abs() <= 1);
    assert_eq!(near, vec![3, 4, 5]);
}

#[test]
fn a_leaf_splits_when_it_exceeds_its_capacity() {
    let mut index: Bvh<usize> = Bvh::new(boxed(0, 0, 100, 100));
    for i in 0..LEAF_CAPACITY {
        index.insert(i, Vec2::new((i % 10) as i64 * 10, (i / 10) as i64 * 10));
    }
    assert!(matches!(index.root, BvhNode::Leaf { .. }));
    index.insert(LEAF_CAPACITY, Vec2::new(50, 50));
    match &index.root {
        BvhNode::Branch { bbox, children } => {
            assert_eq!(*bbox, boxed(0, 0, 100, 100));
            assert_eq!(children.len(), 4);
            let quarters = bbox.split(bbox.center());
            let mut total = 0;
            for (i, child) in children.iter().enumerate() {
                match child {
                    BvhNode::Leaf { elems, bbox } => {
                        assert_eq!(*bbox, quarters[i]);
                        for (_, point) in elems {
                            assert!(bbox.contains(*point));
                            for earlier in &quarters[..i] {
                                assert!(!earlier.contains(*point));
                            }
                        }
                        total += elems.len();
                    }
                    BvhNode::Branch { .. } => panic!("a split makes four leaves"),
                }
            }
            assert_eq!(total, LEAF_CAPACITY + 1);
        }
        BvhNode::Leaf { .. } => panic!("sixty-five pairs split a leaf"),
    }
    // The pair on the pivot went to the first quarter, as first match wins.
    if let BvhNode::Branch { children, .. } = &index.root {
        if let BvhNode::Leaf { elems, .. } = &children[0] {
            assert!(elems.iter().any(|(e, _)| *e == LEAF_CAPACITY));
        }
    }
    let all = found(&index, Vec2::new(50, 50), |_, _| true);
    assert_eq!(all.len(), LEAF_CAPACITY + 1);
}

#[test]
fn a_query_meets_the_last_child_first() {
    let mut index: Bvh<usize> = Bvh::new(boxed(0, 0, 100, 100));
    for i in 0..=LEAF_CAPACITY {
        let corner = match i % 4 {
            0 => Vec2::new(10, 10),
            1 => Vec2::new(90, 10),
            2 => Vec2::new(10, 90),
            _ => Vec2::new(90, 90),
        };
        index.insert(i, corner);
    }
    let all = found(&index, Vec2::new(50, 50), |_, _| true);
    assert_eq!(all.len(), LEAF_CAPACITY + 1);
    let quarter_of = |e: usize| e % 4;
    let order: Vec<usize> = all.iter().map(|e| quarter_of(*e)).collect();
    let mut sorted = order.clone();
    sorted.sort_by(|a, b| b.cmp(a));
    assert_eq!(order, sorted);
    assert_eq!(all[0], 3);
    assert_eq!(*all.last().unwrap(), 64);
}

#[test]
fn a_branch_accepts_the_points_of_its_box_only() {
    let mut index: Bvh<usize> = Bvh::new(boxed(0, 0, 100, 100));
    for i in 0..=LEAF_CAPACITY {
        index.insert(i, Vec2::new(i as i64, i as i64));
    }
    assert!(matches!(index.root, BvhNode::Branch { .. }));
    assert!(index.accepts(Vec2::new(100, 0)));
    assert!(index.root.accepts(Vec2::new(100, 0)));
    assert!(!index.accepts(Vec2::new(101, 0)));
    assert!(!index.accepts(Vec2::new(50, -1)));
    assert!(!index.root.accepts(Vec2::new(101, 0)));
    index.insert(1001, Vec2::new(100, 0));
    let all = found(&index, Vec2::new(50, 50), |_, _| true);
    assert!(all.contains(&1001));
    assert_eq!(all.len(), LEAF_CAPACITY + 2);
}

#[test]
fn a_query_outside_the_box_of_a_branch_meets_nothing() {
    let mut index: Bvh<usize> = Bvh::new(boxed(0, 0, 100, 100));
    for i in 0..=LEAF_CAPACITY {
        index.insert(i, Vec2::new(i as i64, i as i64));
    }
    assert!(found(&index, Vec2::new(101, 50), |_, _| true).is_empty());
    assert_eq!(found(&index, Vec2::new(100, 100), |_, _| true).len(), LEAF_CAPACITY + 1);
}

#[test]
fn many_equal_points_end_in_a_leaf_that_cannot_be_cut() {
    let mut index: Bvh<usize> = Bvh::new(boxed(0, 0, 100, 100));
    for i in 0..200 {
        index.insert(i, Vec2::new(30, 30));
    }
    let all = found(&index, Vec2::new(30, 30), |_, _| true);
    assert_eq!(all.len(), 200);
    let mut sorted = all.clone();
    sorted.sort();
    assert_eq!(sorted, (0..200).collect::<Vec<usize>>());
    assert_capacity(&index.root);
    let (len, bbox) = deepest_leaf(&index.root, Vec2::new(30, 30));
    assert_eq!(len, 200);
    assert!(!bbox.is_divisible());
    assert!(bbox.contains(Vec2::new(30, 30)));
}

/// Every leaf holds at most the capacity, or has a box that cannot be cut;
/// the boxes of the children of a branch are the quarters of its box.
fn assert_capacity(node: &BvhNode<usize>) {
    match node {
        BvhNode::Leaf { elems, bbox } => {
            assert!(elems.len() <= LEAF_CAPACITY || !bbox.is_divisible());
            for (_, p) in elems {
                assert!(bbox.contains(*p));
            }
        }
        BvhNode::Branch { bbox, children } => {
            let quarters = bbox.split(bbox.center());
            assert_eq!(children.len(), 4);
            for (i, child) in children.iter().enumerate() {
                let child_box = match child {
                    BvhNode::Leaf { bbox, .. } => bbox,
                    BvhNode::Branch { bbox, .. } => bbox,
                };
                assert_eq!(*child_box, quarters[i]);
                assert_capacity(child);
            }
        }
    }
}

/// The number of pairs and the box of the leaf that a pair filed under `p`
/// would go to.
fn deepest_leaf(node: &BvhNode<usize>, p: Vec2) -> (usize, Bbox) {
    match node {
        BvhNode::Leaf { elems, bbox } => (elems.len(), *bbox),
        BvhNode::Branch { children, .. } => {
            let child = children.iter().find(|c| c.contains(p)).unwrap();
            deepest_leaf(child, p)
        }
    }
}

#[test]
fn a_quarter_that_receives_more_than_the_capacity_is_cut_again() {
    let mut index: Bvh<usize> = Bvh::new(boxed(0, 0, 100, 100));
    for i in 0..=LEAF_CAPACITY {
        index.insert(i, Vec2::new(0, 0));
    }
    assert_capacity(&index.root);
    let mut depth = 0;
    let mut node = &index.root;
    while let BvhNode::Branch { children, .. } = node {
        for child in &children[1..] {
            assert!(matches!(child, BvhNode::Leaf { elems, .. } if elems.is_empty()));
        }
        node = &children[0];
        depth += 1;
    }
    // The boxes from the root down: 100, 50, 25, 12, 6, 3, 1 units wide.
    assert_eq!(depth, 6);
    match node {
        BvhNode::Leaf { elems, bbox } => {
            assert_eq!(elems.len(), LEAF_CAPACITY + 1);
            assert_eq!(*bbox, boxed(0, 0, 1, 1));
        }
        BvhNode::Branch { .. } => panic!("the walk ends in a leaf"),
    }
    let all = found(&index, Vec2::new(0, 0), |_, _| true);
    assert_eq!(all, (0..=LEAF_CAPACITY).collect::<Vec<usize>>());
}

#[test]
fn random_pairs_keep_every_leaf_within_the_capacity() {
    let mut rng = Lcg(31);
    let mut index: Bvh<usize> = Bvh::new(boxed(0, 0, 15, 15));
    for i in 0..3000 {
        let p = Vec2::new(rng.next(16), rng.next(16));
        assert!(index.accepts(p));
        index.insert(i, p);
    }
    assert_capacity(&index.root);
    assert_eq!(found(&index, Vec2::new(7, 7), |_, _| true).len() <= 3000, true);
}

#[test]
fn a_query_finds_what_a_scan_finds_of_the_pairs_at_the_query_point() {
    let mut rng = Lcg(99);
    let mut index: Bvh<usize> = Bvh::new(boxed(0, 0, 63, 63));
    let mut points: Vec<Vec2> = Vec::new();
    for i in 0..1500 {
        let p = Vec2::new(rng.next(64), rng.next(64));
        assert!(index.accepts(p));
        index.insert(i, p);
        points.push(p);
    }
    assert!(matches!(index.root, BvhNode::Branch { .. }));
    let mut pruned = false;
    for x in 0..64 {
        for y in 0..64 {
            let q = Vec2::new(x, y);
            let scan: Vec<usize> = (0..points.len()).filter(|i| points[*i] == q).collect();
            let met = found(&index, q, |_, _| true);
            for e in &scan {
                assert!(met.contains(e));
            }
            pruned = pruned || met.len() < points.len();
            let mut exact = found(&index, q, |e, at| points[*e] == at);
            exact.sort();
            assert_eq!(exact, scan);
        }
    }
    assert!(pruned);
}

#[test]
fn a_query_finds_no_more_than_a_scan() {
    let mut rng = Lcg(5);
    let mut index: Bvh<usize> = Bvh::new(boxed(0, 0, 1000, 1000));
    let mut points: Vec<Vec2> = Vec::new();
    for i in 0..2000 {
        let p = Vec2::new(rng.next(1001), rng.next(1001));
        index.insert(i, p);
        points.push(p);
    }
    let mut missed = 0;
    for _ in 0..200 {
        let q = Vec2::new(rng.next(1001), rng.next(1001));
        let near = |e: &usize, at: Vec2| points[*e].dist2(at) <= 40 * 40;
        let scan: Vec<usize> = (0..points.len()).filter(|i| near(i, q)).collect();
        let met = found(&index, q, near);
        for e in &met {
            assert!(scan.contains(e));
        }
        missed += scan.len() - met.len();
    }
    // Elements near the query point but filed in a branch whose box does not
    // hold the query point are not met.
    assert!(missed > 0);
}
