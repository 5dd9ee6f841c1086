use rtree::encode::{encode_tree, seek_block};
use rtree::geom::{Point, Rect};
use rtree::node::{Node, NodeData};

fn rd_u32(b: &[u8], off: usize) -> u32 {
    u32::from_le_bytes([b[off], b[off + 1], b[off + 2], b[off + 3]])
}

fn rd_i32(b: &[u8], off: usize) -> i32 {
    rd_u32(b, off) as i32
}

/// Walk the block format from a block offset, collecting payload points
/// and checking that every referenced block is 512-aligned, inside the
/// file, and strictly earlier than its parent.
fn walk(b: &[u8], off: usize, out: &mut Vec<(i32, i32)>) {
    assert_eq!(off % 512, 0);
    assert!(off + 4 <= b.len());
    let c = rd_i32(b, off);
    if c < 0 {
        let n = (-(c as i64)) as usize;
        for i in 0..n {
            let p = off + 4 + 8 * i;
            out.push((rd_i32(b, p), rd_i32(b, p + 4)));
        }
    } else {
        for k in 0..c as usize {
            let e = off + 4 + 20 * k;
            let co = rd_i32(b, e) as usize;
            assert!(co < off);
            assert!(co < b.len());
            walk(b, co, out);
        }
    }
}

#[test]
fn single_leaf_block_layout() {
    let leaf: Node<Vec<Point>> = Node {
        rect: Rect { x0: 0, y0: 0, x1: 10, y1: 10 },
        sub: NodeData::Leaf(vec![Point { x: 3, y: -4 }, Point { x: 7, y: 8 }]),
    };
    let bytes = encode_tree(&leaf);
    // Header, padding up to byte 512, then the leaf block.
    assert_eq!(bytes.len(), 532);
    assert_eq!(rd_i32(&bytes, 0), 512);
    for i in 4..512 {
        assert_eq!(bytes[i], 0);
    }
    assert_eq!(rd_i32(&bytes, 512), -2);
    assert_eq!(rd_i32(&bytes, 516), 3);
    assert_eq!(rd_i32(&bytes, 520), -4);
    assert_eq!(rd_i32(&bytes, 524), 7);
    assert_eq!(rd_i32(&bytes, 528), 8);
}

#[test]
fn encode_round_trip_points() {
    let degree: usize = 3;
    let mut root: Node<Vec<Point>> = Node::new(Rect::default());
    let mut expected: Vec<(i32, i32)> = Vec::new();
    for i in 0..9i32 {
        let x = (i * 31) % 70;
        let y = (i * 17) % 70;
        let pts = vec![Point { x: i, y: -i }, Point { x: 1000 + i, y: i * i }];
        for p in pts.iter() {
            expected.push((p.x, p.y));
        }
        let leaf = Node {
            rect: Rect { x0: x, y0: y, x1: x + 3, y1: y + 3 },
            sub: NodeData::Leaf(pts),
        };
        root = root.insert(leaf, degree);
    }
    let bytes = encode_tree(&root);
    let root_off = rd_i32(&bytes, 0) as usize;
    assert_eq!(root_off % 512, 0);
    assert!(root_off < bytes.len());
    let mut got: Vec<(i32, i32)> = Vec::new();
    walk(&bytes, root_off, &mut got);
    got.sort();
    expected.sort();
    assert_eq!(got, expected);
}

#[test]
fn point_and_rect_write_little_endian() {
    let mut out: Vec<u8> = Vec::new();
    let off = Point { x: 1, y: -1 }.write(&mut out);
    assert_eq!(off, 0);
    assert_eq!(out, vec![1, 0, 0, 0, 0xff, 0xff, 0xff, 0xff]);
    let mut out2: Vec<u8> = Vec::new();
    let off2 = Rect { x0: 258, y0: 0, x1: -2, y1: 16 }.write(&mut out2);
    assert_eq!(off2, 0);
    assert_eq!(
        out2,
        vec![2, 1, 0, 0, 0, 0, 0, 0, 0xfe, 0xff, 0xff, 0xff, 16, 0, 0, 0]
    );
}

#[test]
fn seek_block_pads_to_boundary() {
    let mut out: Vec<u8> = vec![9; 5];
    let off = seek_block(&mut out);
    assert_eq!(off, 512);
    assert_eq!(out.len(), 512);
    for i in 5..512 {
        assert_eq!(out[i], 0);
    }
    // Already aligned: a no-op.
    let off2 = seek_block(&mut out);
    assert_eq!(off2, 512);
    assert_eq!(out.len(), 512);
}
