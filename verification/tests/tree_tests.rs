use rtree::geom::{Point, Rect};
use rtree::node::{InsertResult, Node, NodeData, DEGREE};
use rtree::split::split_at;

fn point_leaf(rect: Rect, tag: i32) -> Node<Point> {
    Node { rect, sub: NodeData::Leaf(Point { x: tag, y: 0 }) }
}

fn count_leaves<T>(n: &Node<T>) -> usize {
    match &n.sub {
        NodeData::Leaf(_) => 1,
        NodeData::SubNodes(v) => v.iter().map(count_leaves).sum(),
    }
}

fn union_of<T>(children: &[Node<T>]) -> Rect {
    let mut r = children[0].rect;
    for c in &children[1..] {
        r = r.grow(&c.rect);
    }
    r
}

/// Every internal node holds at most `degree` children; every internal
/// node below the root has a rectangle that is the exact union of its
/// children's; the root's rectangle covers its children's union.
fn check_shape<T>(n: &Node<T>, degree: usize, is_root: bool) {
    if let NodeData::SubNodes(v) = &n.sub {
        assert!(v.len() <= degree);
        if !v.is_empty() {
            let u = union_of(v);
            if is_root {
                assert!(n.rect.x0 <= u.x0 && n.rect.y0 <= u.y0);
                assert!(u.x1 <= n.rect.x1 && u.y1 <= n.rect.y1);
            } else {
                assert_eq!(n.rect, u);
            }
            for c in v.iter() {
                check_shape(c, degree, false);
            }
        }
    }
}

#[test]
fn split_test() {
    let root: Node<Point> = Node::new(Rect { x0: 0, y0: 0, x1: 100, y1: 100 });
    let newroot = root
        .insert(
            Node {
                rect: Rect { x0: 0, y0: 0, x1: 50, y1: 50 },
                sub: NodeData::Leaf(Point { x: 0, y: 0 }),
            },
            DEGREE,
        )
        .insert(
            Node {
                rect: Rect { x0: 50, y0: 50, x1: 100, y1: 100 },
                sub: NodeData::Leaf(Point { x: 0, y: 0 }),
            },
            DEGREE,
        );
    let (n1, n2) = newroot.split();
    assert_eq!(n1.subnodes().len(), 1);
    assert_eq!(n2.subnodes().len(), 1);
}

#[test]
fn split_at_test() {
    let v: Vec<usize> = vec![1, 2, 3, 4, 5, 6, 7, 8, 9, 0];
    assert_eq!(split_at(v, 5), (vec![1, 2, 3, 4, 5], vec![6, 7, 8, 9, 0]));
}

#[test]
fn degree_two_overflow_splits_root() {
    let degree: usize = 2;
    let mut root: Node<Point> = Node::new(Rect::default());
    let rects = [
        Rect { x0: 0, y0: 0, x1: 10, y1: 10 },
        Rect { x0: 20, y0: 0, x1: 30, y1: 10 },
        Rect { x0: 40, y0: 0, x1: 50, y1: 10 },
    ];
    for (i, r) in rects.iter().enumerate() {
        root = root.insert(point_leaf(*r, i as i32), degree);
    }
    // The third insertion forces one split: the new root holds exactly
    // two children, together containing all three leaves.
    match &root.sub {
        NodeData::SubNodes(v) => assert_eq!(v.len(), 2),
        NodeData::Leaf(_) => unreachable!(),
    }
    assert_eq!(count_leaves(&root), 3);
    // The root was rebuilt from the two halves: its rect is their union.
    match &root.sub {
        NodeData::SubNodes(v) => assert_eq!(root.rect, union_of(v)),
        NodeData::Leaf(_) => unreachable!(),
    }
    check_shape(&root, degree, true);
}

#[test]
fn insert_preserves_leaf_count() {
    let degree: usize = 3;
    let mut root: Node<Point> = Node::new(Rect::default());
    let n: usize = 25;
    for i in 0..n {
        let x = ((i * 37) % 100) as i32;
        let y = ((i * 53) % 100) as i32;
        let r = Rect { x0: x, y0: y, x1: x + 5, y1: y + 5 };
        root = root.insert(point_leaf(r, i as i32), degree);
        assert_eq!(count_leaves(&root), i + 1);
        check_shape(&root, degree, true);
    }
    // No leaf is duplicated or lost: every tag appears exactly once.
    let mut tags: Vec<i32> = Vec::new();
    collect_tags(&root, &mut tags);
    tags.sort();
    let expected: Vec<i32> = (0..n as i32).collect();
    assert_eq!(tags, expected);
}

fn collect_tags(n: &Node<Point>, out: &mut Vec<i32>) {
    match &n.sub {
        NodeData::Leaf(p) => out.push(p.x),
        NodeData::SubNodes(v) => {
            for c in v.iter() {
                collect_tags(c, out);
            }
        }
    }
}

#[test]
fn splitter_partitions_exactly() {
    let children: Vec<Node<Point>> = (0..5)
        .map(|i| {
            let x = i * 20;
            point_leaf(Rect { x0: x, y0: 0, x1: x + 10, y1: 10 }, i)
        })
        .collect();
    let node = Node { rect: Rect { x0: 0, y0: 0, x1: 90, y1: 10 }, sub: NodeData::SubNodes(children) };
    let (left, right) = node.split();
    let l = left.move_subnodes();
    let r = right.move_subnodes();
    assert_eq!(l.len(), 2);
    assert_eq!(r.len(), 3);
    assert!(!l.is_empty() && !r.is_empty());
    let mut tags: Vec<i32> = Vec::new();
    for c in l.iter().chain(r.iter()) {
        match &c.sub {
            NodeData::Leaf(p) => tags.push(p.x),
            NodeData::SubNodes(_) => unreachable!(),
        }
    }
    tags.sort();
    assert_eq!(tags, vec![0, 1, 2, 3, 4]);
}

fn tree_height<T>(n: &Node<T>) -> usize {
    match &n.sub {
        NodeData::Leaf(_) => 0,
        NodeData::SubNodes(v) => 1 + v.iter().map(tree_height).max().unwrap_or(0),
    }
}

#[test]
fn height_grows_only_at_root_split() {
    let degree: usize = 2;
    let mut root: Node<Point> = Node::new(Rect::default());
    assert_eq!(tree_height(&root), 1);
    for i in 0..2 {
        let x = i * 20;
        root = root.insert(point_leaf(Rect { x0: x, y0: 0, x1: x + 10, y1: 10 }, i), degree);
        assert_eq!(tree_height(&root), 1);
    }
    // The third insertion overflows the root: one split, one new level.
    root = root.insert(point_leaf(Rect { x0: 40, y0: 0, x1: 50, y1: 10 }, 2), degree);
    assert_eq!(tree_height(&root), 2);
}

#[test]
fn split_keeps_order_of_equal_keys() {
    // All five children share the same horizontal center: the stable
    // sort leaves them in input order, so the cut keeps the first two
    // on the left and the last three on the right, in order.
    let children: Vec<Node<Point>> = (0..5)
        .map(|i| point_leaf(Rect { x0: 8, y0: 2 * i, x1: 12, y1: 2 * i + 2 }, i))
        .collect();
    let node = Node {
        rect: Rect { x0: 0, y0: 0, x1: 100, y1: 12 },
        sub: NodeData::SubNodes(children),
    };
    let (left, right) = node.split();
    let tag = |c: &Node<Point>| match &c.sub {
        NodeData::Leaf(p) => p.x,
        NodeData::SubNodes(_) => unreachable!(),
    };
    let l: Vec<i32> = left.subnodes().iter().map(tag).collect();
    let r: Vec<i32> = right.subnodes().iter().map(tag).collect();
    assert_eq!(l, vec![0, 1]);
    assert_eq!(r, vec![2, 3, 4]);
}

#[test]
fn best_node_prefers_least_growth_then_first() {
    let inner = |rect: Rect, tag: u32| Node::<u32> {
        rect,
        sub: NodeData::SubNodes(vec![Node { rect, sub: NodeData::Leaf(tag) }]),
    };
    // Two internal children with identical rectangles: the tie goes to
    // the earlier one.
    let mut parent: Node<u32> = Node::new(Rect { x0: 0, y0: 0, x1: 10, y1: 10 });
    parent
        .mut_subnodes()
        .push(inner(Rect { x0: 0, y0: 0, x1: 10, y1: 10 }, 1));
    parent
        .mut_subnodes()
        .push(inner(Rect { x0: 0, y0: 0, x1: 10, y1: 10 }, 2));
    let best = parent.best_node(&Rect { x0: 1, y0: 1, x1: 2, y1: 2 });
    match &best.subnodes()[0].sub {
        NodeData::Leaf(tag) => assert_eq!(*tag, 1),
        NodeData::SubNodes(_) => unreachable!(),
    }
    // A strictly cheaper child wins over an earlier expensive one, and
    // leaf children are never picked.
    let mut parent2: Node<u32> = Node::new(Rect { x0: 0, y0: 0, x1: 100, y1: 100 });
    parent2
        .mut_subnodes()
        .push(Node { rect: Rect { x0: 40, y0: 40, x1: 42, y1: 42 }, sub: NodeData::Leaf(9) });
    parent2
        .mut_subnodes()
        .push(inner(Rect { x0: 0, y0: 0, x1: 10, y1: 10 }, 3));
    parent2
        .mut_subnodes()
        .push(inner(Rect { x0: 40, y0: 40, x1: 50, y1: 50 }, 4));
    let best2 = parent2.best_node(&Rect { x0: 41, y0: 41, x1: 42, y1: 42 });
    match &best2.subnodes()[0].sub {
        NodeData::Leaf(tag) => assert_eq!(*tag, 4),
        NodeData::SubNodes(_) => unreachable!(),
    }
    assert_eq!(parent2.subnodes().len(), 2);
}

#[test]
fn full_node_reports_overflow() {
    let degree: usize = 2;
    let mut root: Node<Point> = Node::new(Rect::default());
    root = root.insert(point_leaf(Rect { x0: 0, y0: 0, x1: 1, y1: 1 }, 0), degree);
    root = root.insert(point_leaf(Rect { x0: 2, y0: 0, x1: 3, y1: 1 }, 1), degree);
    // Two leaf children, no internal child to route into: a third entry
    // cannot be accepted and comes back as overflow.
    let extra = point_leaf(Rect { x0: 4, y0: 0, x1: 5, y1: 1 }, 2);
    match root.insert_(extra, degree) {
        InsertResult::Full(node, ov) => {
            assert_eq!(count_leaves(&node), 2);
            assert_eq!(count_leaves(&ov), 1);
        }
        InsertResult::Inserted(_) => unreachable!(),
    }
}

#[test]
fn node_accessors() {
    let r = Rect { x0: 0, y0: 0, x1: 4, y1: 4 };
    let mut leafy: Node<Vec<Point>> = Node { rect: r, sub: NodeData::Leaf(Vec::new()) };
    assert!(leafy.is_leaf());
    leafy.mut_leaf().push(Point { x: 1, y: 2 });
    match &leafy.sub {
        NodeData::Leaf(ps) => assert_eq!(ps.len(), 1),
        NodeData::SubNodes(_) => unreachable!(),
    }
    let r2 = Rect { x0: 2, y0: 2, x1: 9, y1: 9 };
    let mut inner: Node<u32> = Node::new(r);
    assert!(!inner.is_leaf());
    inner.mut_subnodes().push(Node { rect: r2, sub: NodeData::Leaf(7) });
    assert_eq!(inner.subnodes().len(), 1);
    inner.update_rect();
    assert_eq!(inner.rect, r2);
    let subs = inner.move_subnodes();
    assert_eq!(subs.len(), 1);
    assert!(subs[0].is_leaf());
}
