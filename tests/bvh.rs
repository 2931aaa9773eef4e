use pathtracer::bvh::{Bounds, BvhNode, BvhTree, Corner, ProbeTable};

fn cube(min: Corner) -> Bounds {
    Bounds { min, max: (min.0 + 1, min.1 + 1, min.2 + 1) }
}

fn cubes(mins: &[Corner]) -> Vec<Bounds> {
    mins.iter().map(|m| cube(*m)).collect()
}

/// The shape of a tree, leaves by number, nodes in parentheses.
fn shape(n: &BvhNode) -> String {
    match n {
        BvhNode::Leaf(p) => p.to_string(),
        BvhNode::Internal(_, l, r) => format!("({} {})", shape(l), shape(r)),
    }
}

fn collect(n: &BvhNode, out: &mut Vec<usize>) {
    match n {
        BvhNode::Leaf(p) => out.push(*p),
        BvhNode::Internal(_, l, r) => {
            collect(l, out);
            collect(r, out);
        }
    }
}

/// Checks that every internal node's box is the union of its children's.
fn exact(n: &BvhNode, bounds: &[Bounds]) -> Bounds {
    match n {
        BvhNode::Leaf(p) => bounds[*p],
        BvhNode::Internal(b, l, r) => {
            let lb = exact(l, bounds);
            let rb = exact(r, bounds);
            let u = Bounds {
                min: (lb.min.0.min(rb.min.0), lb.min.1.min(rb.min.1), lb.min.2.min(rb.min.2)),
                max: (lb.max.0.max(rb.max.0), lb.max.1.max(rb.max.1), lb.max.2.max(rb.max.2)),
            };
            assert_eq!(*b, u);
            *b
        }
    }
}

fn scan(hits: &[Option<u32>]) -> Option<(usize, u32)> {
    let mut best: Option<(usize, u32)> = None;
    for (p, h) in hits.iter().enumerate() {
        if let Some(t) = h {
            match best {
                Some((_, b)) if b <= *t => {}
                _ => best = Some((p, *t)),
            }
        }
    }
    best
}

#[test]
fn one_primitive_is_a_leaf() {
    let t = BvhTree::build(&cubes(&[(3, 4, 5)]), &vec![0]);
    assert_eq!(t.root, BvhNode::Leaf(0));
}

#[test]
fn two_primitives_make_one_node() {
    let bounds = cubes(&[(9, 0, 0), (1, 0, 0)]);
    let t = BvhTree::build(&bounds, &vec![0, 0]);
    let both = Bounds { min: (1, 0, 0), max: (10, 1, 1) };
    assert_eq!(
        t.root,
        BvhNode::Internal(both, Box::new(BvhNode::Leaf(0)), Box::new(BvhNode::Leaf(1)))
    );
    assert_eq!(t.bounding_box(&bounds), both);
}

#[test]
fn five_primitives_split_at_the_median_on_x() {
    let bounds = cubes(&[(5, 0, 0), (1, 0, 0), (4, 0, 0), (2, 0, 0), (3, 0, 0)]);
    let t = BvhTree::build(&bounds, &vec![0, 0, 0, 0, 0]);
    assert_eq!(shape(&t.root), "((1 3) (4 (2 0)))");
}

#[test]
fn split_follows_the_drawn_axis() {
    let bounds = cubes(&[(0, 30, 0), (1, 10, 0), (2, 20, 0), (3, 0, 0)]);
    let t = BvhTree::build(&bounds, &vec![1, 0, 0, 0]);
    assert_eq!(shape(&t.root), "((3 1) (2 0))");
    let t = BvhTree::build(&bounds, &vec![0, 0, 0, 0]);
    assert_eq!(shape(&t.root), "((0 1) (2 3))");
}

#[test]
fn negative_keys_sort_below_positive() {
    let bounds = cubes(&[(7, 0, 0), (-7, 0, 0), (0, 0, 0)]);
    let t = BvhTree::build(&bounds, &vec![0, 0, 0]);
    assert_eq!(shape(&t.root), "(1 (2 0))");
}

#[test]
fn root_box_is_the_union_of_all_boxes() {
    let bounds = vec![
        Bounds { min: (-3, 0, 2), max: (0, 4, 5) },
        Bounds { min: (1, -8, 0), max: (2, 0, 1) },
        Bounds { min: (0, 0, -1), max: (9, 1, 0) },
        Bounds { min: (4, 2, 3), max: (5, 3, 12) },
    ];
    let t = BvhTree::build(&bounds, &vec![2, 1, 0, 0]);
    assert_eq!(t.bounding_box(&bounds), Bounds { min: (-3, -8, -1), max: (9, 4, 12) });
    exact(&t.root, &bounds);
}

#[test]
fn every_primitive_is_a_leaf_exactly_once() {
    let n = 501;
    let mut mins: Vec<Corner> = Vec::new();
    let mut axes: Vec<u8> = Vec::new();
    for i in 0..n {
        let h = (i * 7919 % 1009) as i64;
        mins.push((h, -h, h % 17));
        axes.push((i % 3) as u8);
    }
    let bounds = cubes(&mins);
    let t = BvhTree::build(&bounds, &axes);
    let mut l = Vec::new();
    collect(&t.root, &mut l);
    l.sort();
    let expected: Vec<usize> = (0..n).collect();
    assert_eq!(l, expected);
    let root = exact(&t.root, &bounds);
    assert_eq!(root, Bounds { min: (0, -1006, 0), max: (1007, 1, 17) });
}

fn five() -> (BvhTree, Vec<Bounds>) {
    let bounds = cubes(&[(5, 0, 0), (1, 0, 0), (4, 0, 0), (2, 0, 0), (3, 0, 0)]);
    (BvhTree::build(&bounds, &vec![0, 0, 0, 0, 0]), bounds)
}

#[test]
fn hit_finds_the_nearest_primitive() {
    let (t, _) = five();
    let table = ProbeTable { missed: vec![], hits: vec![Some(40), None, Some(7), Some(9), None] };
    assert_eq!(t.hit(&table), Some((2, 7)));
    assert_eq!(t.hit(&table), scan(&table.hits));
}

#[test]
fn hit_finds_nothing_when_nothing_is_hit() {
    let (t, _) = five();
    let table = ProbeTable { missed: vec![], hits: vec![None; 5] };
    assert_eq!(t.hit(&table), None);
}

#[test]
fn missed_box_prunes_its_subtree() {
    let (t, bounds) = five();
    let right = match &t.root {
        BvhNode::Internal(_, _, r) => match r.as_ref() {
            BvhNode::Internal(b, _, _) => *b,
            _ => panic!("the right child holds three primitives"),
        },
        _ => panic!("the root holds five primitives"),
    };
    let hits = vec![None, Some(50), None, Some(60), None];
    let table = ProbeTable { missed: vec![right], hits: hits.clone() };
    assert_eq!(t.hit(&table), Some((1, 50)));
    let table = ProbeTable { missed: vec![t.bounding_box(&bounds)], hits };
    assert_eq!(t.hit(&table), None);
}

#[test]
fn equal_keys_give_the_later_leaf() {
    let t = BvhTree::build(&cubes(&[(0, 0, 0), (1, 0, 0)]), &vec![0, 0]);
    let table = ProbeTable { missed: vec![], hits: vec![Some(5), Some(5)] };
    assert_eq!(t.hit(&table), Some((1, 5)));
}

#[test]
fn hit_matches_a_scan_on_a_larger_scene() {
    let n = 200;
    let mut mins: Vec<Corner> = Vec::new();
    let mut axes: Vec<u8> = Vec::new();
    let mut hits: Vec<Option<u32>> = Vec::new();
    for i in 0..n {
        let h = (i * 7919 % 1009) as i64;
        mins.push((h, -h, h % 17));
        axes.push((i * 5 % 3) as u8);
        hits.push(if i % 3 == 0 { Some((i * 31 % 97) as u32 + 1) } else { None });
    }
    let t = BvhTree::build(&cubes(&mins), &axes);
    let table = ProbeTable { missed: vec![], hits };
    let found = t.hit(&table).unwrap();
    let expected = scan(&table.hits).unwrap();
    assert_eq!(found.1, expected.1);
    assert_eq!(table.hits[found.0], Some(found.1));
}
