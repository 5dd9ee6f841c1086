//! A specification-level reader for the block format: it recovers the
//! multiset of payload points reachable from a block offset, and a
//! confinement predicate saying every block a parent references lies
//! block-aligned inside the file. Together they state what the encoder
//! is proved to guarantee: decoding an encoded tree yields exactly the
//! tree's payload points.

use vstd::prelude::*;

use crate::encode::{
    align512, enc_children, enc_i32, enc_node, enc_points, enc_rect, enc_table, enc_tree,
    lemma_align512, lemma_enc_children_len, lemma_enc_i32_len, lemma_enc_node_span,
    lemma_enc_points_len, lemma_enc_rect_len, lemma_enc_table_len, u32_bits, zeros, MAX_ENCODED,
};
use crate::geom::Point;
use crate::node::{leaves_of, Node, NodeData};
use vstd::bytes::{lemma_auto_spec_u32_to_from_le_bytes, spec_u32_from_le_bytes};
use vstd::multiset::Multiset;

verus! {

broadcast use vstd::multiset::group_multiset_axioms, vstd::seq_lib::group_to_multiset_ensures;

/// The signed value of a 32-bit two's-complement pattern.
pub open spec fn i32_of_bits(u: u32) -> int {
    if u < 0x8000_0000 {
        u as int
    } else {
        u - 0x1_0000_0000
    }
}

/// The little-endian 32-bit word at a byte offset.
pub open spec fn le32_at(b: Seq<u8>, off: int) -> u32 {
    spec_u32_from_le_bytes(b.subrange(off, off + 4))
}

/// The payload points one leaf holds; an internal node holds none of its
/// own.
pub open spec fn leaf_pts(n: Node<Vec<Point>>) -> Multiset<Point> {
    match n.sub {
        NodeData::Leaf(ps) => ps@.to_multiset(),
        NodeData::SubNodes(_) => Multiset::empty(),
    }
}

/// All payload points across a multiset of leaves.
pub open spec fn pts_of_mset(m: Multiset<Node<Vec<Point>>>) -> Multiset<Point>
    decreases m.len(),
{
    if m.len() == 0 {
        Multiset::empty()
    } else {
        let x = m.choose();
        leaf_pts(x).add(pts_of_mset(m.remove(x)))
    }
}

/// All payload points in a subtree.
pub open spec fn points(n: Node<Vec<Point>>) -> Multiset<Point> {
    pts_of_mset(n.leaves())
}

/// Extracting any present element of a multiset splits off its points.
pub proof fn lemma_pts_of_mset_remove(m: Multiset<Node<Vec<Point>>>, x: Node<Vec<Point>>)
    requires
        m.count(x) > 0,
    ensures
        pts_of_mset(m) == leaf_pts(x).add(pts_of_mset(m.remove(x))),
    decreases m.len(),
{
    let y = m.choose();
    if y == x {
    } else {
        assert(m.len() != 0);
        assert(m.count(y) > 0);
        assert(m.remove(y).count(x) > 0);
        lemma_pts_of_mset_remove(m.remove(y), x);
        assert(m.remove(y).remove(x) =~= m.remove(x).remove(y));
        assert(m.remove(x).count(y) > 0);
        lemma_pts_of_mset_remove(m.remove(x), y);
        assert forall|v: Point|
            pts_of_mset(m).count(v) == leaf_pts(x).add(pts_of_mset(m.remove(x))).count(v) by {
            assert(pts_of_mset(m).count(v) == leaf_pts(y).add(pts_of_mset(m.remove(y))).count(v));
            assert(pts_of_mset(m.remove(y)).count(v) == leaf_pts(x).add(
                pts_of_mset(m.remove(y).remove(x)),
            ).count(v));
            assert(pts_of_mset(m.remove(x)).count(v) == leaf_pts(y).add(
                pts_of_mset(m.remove(x).remove(y)),
            ).count(v));
        }
        assert(pts_of_mset(m) =~= leaf_pts(x).add(pts_of_mset(m.remove(x))));
    }
}

/// The points of a multiset union are the union of the points.
pub proof fn lemma_pts_of_mset_add(m1: Multiset<Node<Vec<Point>>>, m2: Multiset<Node<Vec<Point>>>)
    ensures
        pts_of_mset(m1.add(m2)) == pts_of_mset(m1).add(pts_of_mset(m2)),
    decreases m1.len(),
{
    if m1.len() == 0 {
        assert(m1.add(m2) =~= m2);
        assert(pts_of_mset(m1) == Multiset::<Point>::empty());
        assert(pts_of_mset(m1.add(m2)) =~= pts_of_mset(m1).add(pts_of_mset(m2)));
    } else {
        let x = m1.choose();
        assert(m1.count(x) > 0);
        assert(m1.add(m2).count(x) > 0);
        lemma_pts_of_mset_remove(m1.add(m2), x);
        assert(m1.add(m2).remove(x) =~= m1.remove(x).add(m2));
        lemma_pts_of_mset_add(m1.remove(x), m2);
        assert forall|v: Point|
            pts_of_mset(m1.add(m2)).count(v) == pts_of_mset(m1).add(pts_of_mset(m2)).count(
                v,
            ) by {
            assert(pts_of_mset(m1.add(m2)).count(v) == leaf_pts(x).add(
                pts_of_mset(m1.remove(x).add(m2)),
            ).count(v));
            assert(pts_of_mset(m1.remove(x).add(m2)).count(v) == pts_of_mset(m1.remove(x)).add(
                pts_of_mset(m2),
            ).count(v));
            assert(pts_of_mset(m1).count(v) == leaf_pts(x).add(pts_of_mset(m1.remove(x))).count(
                v,
            ));
        }
        assert(pts_of_mset(m1.add(m2)) =~= pts_of_mset(m1).add(pts_of_mset(m2)));
    }
}

/// The points of a single leaf.
pub proof fn lemma_pts_of_mset_singleton(x: Node<Vec<Point>>)
    ensures
        pts_of_mset(Multiset::singleton(x)) == leaf_pts(x),
{
    let m = Multiset::singleton(x);
    assert(m.len() == 1);
    let y = m.choose();
    assert(m.count(y) > 0);
    assert(y == x);
    assert(m.remove(x) =~= Multiset::<Node<Vec<Point>>>::empty());
    assert(pts_of_mset(m.remove(x)) == Multiset::<Point>::empty());
    assert(pts_of_mset(m) == leaf_pts(x).add(Multiset::<Point>::empty()));
    assert(leaf_pts(x).add(Multiset::<Point>::empty()) =~= leaf_pts(x));
}

/// A point's two coordinates read back from the byte stream.
pub open spec fn point_at(b: Seq<u8>, p: int) -> Point {
    Point { x: i32_of_bits(le32_at(b, p)) as i32, y: i32_of_bits(le32_at(b, p + 4)) as i32 }
}

/// The points of a leaf block: `n` pairs of 32-bit fields from `start`.
pub open spec fn read_pts(b: Seq<u8>, start: int, n: int) -> Multiset<Point>
    decreases n,
{
    if n <= 0 {
        Multiset::empty()
    } else {
        read_pts(b, start, n - 1).insert(point_at(b, start + 8 * (n - 1)))
    }
}

/// The payload points reachable from the block at `off`: a negative
/// count marks a leaf block holding that many points; a non-negative
/// count marks an internal block whose entries name child blocks at
/// strictly earlier offsets.
pub open spec fn dec_pts(b: Seq<u8>, off: int) -> Multiset<Point>
    decreases off, 1int, 0int,
    when off >= 0
{
    let c = le32_at(b, off);
    if c >= 0x8000_0000u32 {
        read_pts(b, off + 4, 0x1_0000_0000 - c)
    } else {
        dec_kids(b, off, c as int)
    }
}

/// The points reachable through the first `k` entries of the child table
/// of the internal block at `parent`. An entry pointing at or past its
/// parent contributes nothing; encoded files never produce one.
pub open spec fn dec_kids(b: Seq<u8>, parent: int, k: int) -> Multiset<Point>
    decreases parent, 0int, k,
    when parent >= 0
{
    if k <= 0 {
        Multiset::empty()
    } else {
        let co = le32_at(b, parent + 4 + 20 * (k - 1)) as int;
        dec_kids(b, parent, k - 1).add(
            if co < parent {
                dec_pts(b, co)
            } else {
                Multiset::empty()
            },
        )
    }
}

/// The block at `off` lies wholly below `limit`, starts at a multiple of
/// 512, and every block it references does too, at a strictly earlier
/// offset.
pub open spec fn confined(b: Seq<u8>, off: int, limit: int) -> bool
    decreases off, 1int, 0int,
    when off >= 0
{
    let c = le32_at(b, off);
    &&& off % 512 == 0
    &&& off + 4 <= limit
    &&& limit <= b.len()
    &&& if c >= 0x8000_0000u32 {
        off + 4 + 8 * (0x1_0000_0000 - c) <= limit
    } else {
        off + 4 + 20 * (c as int) <= limit && kids_confined(b, off, c as int, limit)
    }
}

/// Confinement of the first `k` entries of the child table at `parent`.
pub open spec fn kids_confined(b: Seq<u8>, parent: int, k: int, limit: int) -> bool
    decreases parent, 0int, k,
    when parent >= 0
{
    if k <= 0 {
        true
    } else {
        let co = le32_at(b, parent + 4 + 20 * (k - 1)) as int;
        &&& kids_confined(b, parent, k - 1, limit)
        &&& co < parent
        &&& confined(b, co, limit)
    }
}

/// Round trip of the 32-bit pattern of an `i32` value.
pub proof fn lemma_bits_roundtrip(x: int)
    requires
        -0x8000_0000 <= x < 0x8000_0000,
    ensures
        i32_of_bits(u32_bits(x)) == x,
{
    if x >= 0 {
        vstd::arithmetic::div_mod::lemma_small_mod(x as nat, 0x1_0000_0000);
    } else {
        vstd::arithmetic::div_mod::lemma_mod_add_multiples_vanish(x, 0x1_0000_0000);
        vstd::arithmetic::div_mod::lemma_small_mod((x + 0x1_0000_0000) as nat, 0x1_0000_0000);
    }
}

/// A non-negative value below `2^31` is its own 32-bit pattern.
pub proof fn lemma_bits_small(x: int)
    requires
        0 <= x < 0x8000_0000,
    ensures
        u32_bits(x) == x,
{
    vstd::arithmetic::div_mod::lemma_small_mod(x as nat, 0x1_0000_0000);
}

/// Reads entirely below the length of a prefix see only the prefix.
pub proof fn lemma_le32_at_prefix(b1: Seq<u8>, b2: Seq<u8>, off: int)
    requires
        b2.len() >= b1.len(),
        b2.subrange(0, b1.len() as int) == b1,
        0 <= off,
        off + 4 <= b1.len(),
    ensures
        le32_at(b2, off) == le32_at(b1, off),
{
    assert(b2.subrange(off, off + 4) =~= b1.subrange(off, off + 4)) by {
        assert(forall|t: int|
            0 <= t < b1.len() ==> b2[t] == #[trigger] b1[t] && b1[t] == b2.subrange(
                0,
                b1.len() as int,
            )[t]);
    }
}

/// A leaf region below the prefix length reads the same from both.
proof fn lemma_read_pts_prefix(b1: Seq<u8>, b2: Seq<u8>, start: int, n: int)
    requires
        b2.len() >= b1.len(),
        b2.subrange(0, b1.len() as int) == b1,
        0 <= start,
        start + 8 * n <= b1.len(),
    ensures
        read_pts(b2, start, n) == read_pts(b1, start, n),
    decreases n,
{
    if n > 0 {
        lemma_read_pts_prefix(b1, b2, start, n - 1);
        lemma_le32_at_prefix(b1, b2, start + 8 * (n - 1));
        lemma_le32_at_prefix(b1, b2, start + 8 * (n - 1) + 4);
    }
}

/// Decoding a confined block is unchanged when bytes are appended after
/// the region it is confined to.
pub proof fn lemma_dec_stable(b1: Seq<u8>, b2: Seq<u8>, off: int, limit: int)
    requires
        confined(b1, off, limit),
        b2.len() >= b1.len(),
        b2.subrange(0, b1.len() as int) == b1,
        off >= 0,
    ensures
        confined(b2, off, limit),
        dec_pts(b2, off) == dec_pts(b1, off),
    decreases off, 1int, 0int,
{
    lemma_le32_at_prefix(b1, b2, off);
    let c = le32_at(b1, off);
    if c >= 0x8000_0000u32 {
        lemma_read_pts_prefix(b1, b2, off + 4, 0x1_0000_0000 - c);
    } else {
        lemma_kids_stable(b1, b2, off, c as int, limit);
    }
}

/// Stability of the child entries of a confined internal block.
proof fn lemma_kids_stable(b1: Seq<u8>, b2: Seq<u8>, parent: int, k: int, limit: int)
    requires
        kids_confined(b1, parent, k, limit),
        parent + 4 + 20 * k <= limit,
        limit <= b1.len(),
        b2.len() >= b1.len(),
        b2.subrange(0, b1.len() as int) == b1,
        parent >= 0,
    ensures
        kids_confined(b2, parent, k, limit),
        dec_kids(b2, parent, k) == dec_kids(b1, parent, k),
    decreases parent, 0int, k,
{
    if k > 0 {
        lemma_kids_stable(b1, b2, parent, k - 1, limit);
        lemma_le32_at_prefix(b1, b2, parent + 4 + 20 * (k - 1));
        let co = le32_at(b1, parent + 4 + 20 * (k - 1)) as int;
        lemma_dec_stable(b1, b2, co, limit);
    }
}

/// Confinement still holds under any larger limit within the bytes.
pub proof fn lemma_confined_widen(b: Seq<u8>, off: int, l1: int, l2: int)
    requires
        confined(b, off, l1),
        l1 <= l2 <= b.len(),
        off >= 0,
    ensures
        confined(b, off, l2),
    decreases off, 1int, 0int,
{
    let c = le32_at(b, off);
    if c < 0x8000_0000u32 {
        lemma_kids_widen(b, off, c as int, l1, l2);
    }
}

proof fn lemma_kids_widen(b: Seq<u8>, parent: int, k: int, l1: int, l2: int)
    requires
        kids_confined(b, parent, k, l1),
        l1 <= l2 <= b.len(),
        parent >= 0,
    ensures
        kids_confined(b, parent, k, l2),
    decreases parent, 0int, k,
{
    if k > 0 {
        lemma_kids_widen(b, parent, k - 1, l1, l2);
        let co = le32_at(b, parent + 4 + 20 * (k - 1)) as int;
        lemma_confined_widen(b, co, l1, l2);
    }
}

/// A leaf region holding the encoding of a point sequence reads back as
/// exactly those points.
proof fn lemma_read_pts_correct(b: Seq<u8>, start: int, ps: Seq<Point>)
    requires
        0 <= start,
        start + 8 * ps.len() <= b.len(),
        b.subrange(start, start + 8 * ps.len()) == enc_points(ps),
    ensures
        read_pts(b, start, ps.len() as int) == ps.to_multiset(),
    decreases ps.len(),
{
    lemma_enc_points_len(ps);
    if ps.len() == 0 {
        assert(ps.to_multiset().len() == 0);
        assert(ps.to_multiset() =~= Multiset::<Point>::empty());
    } else {
        let n = ps.len() as int;
        let pre = ps.drop_last();
        let x = ps.last().x as int;
        let y = ps.last().y as int;
        lemma_enc_points_len(pre);
        lemma_enc_i32_len(x);
        lemma_enc_i32_len(y);
        assert(b.subrange(start, start + 8 * (n - 1)) =~= enc_points(pre)) by {
            assert(forall|t: int|
                0 <= t < 8 * n ==> b[start + t] == #[trigger] enc_points(ps)[t]);
        }
        lemma_read_pts_correct(b, start, pre);
        assert(enc_points(ps) == enc_points(pre) + enc_i32(x) + enc_i32(y));
        assert forall|t: int|
            0 <= t < 4 implies b.subrange(start + 8 * (n - 1), start + 8 * (n - 1) + 4)[t]
            == enc_i32(x)[t] by {
            assert(enc_points(ps)[8 * (n - 1) + t] == b.subrange(start, start + 8 * n)[8 * (n - 1)
                + t]);
            assert(enc_points(ps)[8 * (n - 1) + t] == enc_i32(x)[t]);
        }
        assert(b.subrange(start + 8 * (n - 1), start + 8 * (n - 1) + 4) =~= enc_i32(x));
        assert forall|t: int|
            0 <= t < 4 implies b.subrange(start + 8 * (n - 1) + 4, start + 8 * n)[t] == enc_i32(
            y,
        )[t] by {
            assert(enc_points(ps)[8 * (n - 1) + 4 + t] == b.subrange(start, start + 8 * n)[8 * (n
                - 1) + 4 + t]);
            assert(enc_points(ps)[8 * (n - 1) + 4 + t] == enc_i32(y)[t]);
        }
        assert(b.subrange(start + 8 * (n - 1) + 4, start + 8 * n) =~= enc_i32(y));
        lemma_auto_spec_u32_to_from_le_bytes();
        lemma_bits_roundtrip(x);
        lemma_bits_roundtrip(y);
        assert(point_at(b, start + 8 * (n - 1)) == ps.last());
        assert(ps =~= pre.push(ps.last()));
        assert(pre.push(ps.last()).to_multiset() =~= pre.to_multiset().insert(ps.last()));
        assert(read_pts(b, start, n) == read_pts(b, start, n - 1).insert(
            point_at(b, start + 8 * (n - 1)),
        ));
    }
}

/// The offset field of entry `k` of a child table.
proof fn lemma_table_entry(offs: Seq<int>, cs: Seq<Node<Vec<Point>>>, k: int)
    requires
        0 <= k < cs.len(),
        offs.len() == cs.len(),
    ensures
        enc_table(offs, cs).subrange(20 * k, 20 * k + 4) == enc_i32(offs[k]),
    decreases cs.len(),
{
    let n = cs.len() as int;
    lemma_enc_table_len(offs, cs);
    lemma_enc_table_len(offs.drop_last(), cs.drop_last());
    lemma_enc_i32_len(offs.last());
    lemma_enc_rect_len(cs.last().rect);
    if k == n - 1 {
        assert(enc_table(offs, cs).subrange(20 * k, 20 * k + 4) =~= enc_i32(offs[k]));
    } else {
        lemma_table_entry(offs.drop_last(), cs.drop_last(), k);
        assert(enc_table(offs, cs).subrange(20 * k, 20 * k + 4) =~= enc_table(
            offs.drop_last(),
            cs.drop_last(),
        ).subrange(20 * k, 20 * k + 4));
    }
}

/// Folding the child table of an internal block: the first `j` entries
/// decode to the points of the first `j` children, and are confined.
proof fn lemma_dec_kids_eq(
    b: Seq<u8>,
    start: int,
    s: Seq<Node<Vec<Point>>>,
    offs: Seq<int>,
    j: int,
    limit: int,
)
    requires
        0 <= j <= s.len(),
        offs.len() == s.len(),
        start >= 0,
        forall|k: int|
            0 <= k < s.len() ==> le32_at(b, start + 4 + 20 * k) == u32_bits(#[trigger] offs[k]),
        forall|k: int| 0 <= k < s.len() ==> 0 <= #[trigger] offs[k] < 0x8000_0000,
        forall|k: int| 0 <= k < s.len() ==> #[trigger] offs[k] < start,
        forall|k: int| 0 <= k < s.len() ==> dec_pts(b, #[trigger] offs[k]) == points(s[k]),
        forall|k: int| 0 <= k < s.len() ==> confined(b, #[trigger] offs[k], limit),
    ensures
        dec_kids(b, start, j) == pts_of_mset(leaves_of(s.subrange(0, j))),
        kids_confined(b, start, j, limit),
    decreases j,
{
    if j <= 0 {
        assert(leaves_of(s.subrange(0, 0)) == Multiset::<Node<Vec<Point>>>::empty());
        assert(pts_of_mset(leaves_of(s.subrange(0, 0))) == Multiset::<Point>::empty());
    } else {
        lemma_dec_kids_eq(b, start, s, offs, j - 1, limit);
        lemma_bits_small(offs[j - 1]);
        let co = le32_at(b, start + 4 + 20 * (j - 1)) as int;
        assert(co == offs[j - 1]);
        assert(s.subrange(0, j).drop_last() =~= s.subrange(0, j - 1));
        assert(s.subrange(0, j).last() == s[j - 1]);
        assert(leaves_of(s.subrange(0, j)) == leaves_of(s.subrange(0, j - 1)).add(
            s[j - 1].leaves(),
        ));
        lemma_pts_of_mset_add(leaves_of(s.subrange(0, j - 1)), s[j - 1].leaves());
        assert(dec_kids(b, start, j) == dec_kids(b, start, j - 1).add(dec_pts(b, co)));
    }
}

/// Each child a sequence encoder lays down decodes, from the full
/// appended buffer, to that child's points; every child block is
/// confined and 512-aligned.
proof fn lemma_enc_children_decodes(s: Seq<Node<Vec<Point>>>, prefix: Seq<u8>)
    requires
        prefix.len() + enc_children(s, prefix.len() as int).0.len() <= MAX_ENCODED,
    ensures
        ({
            let r = enc_children(s, prefix.len() as int);
            let b = prefix + r.0;
            &&& r.1.len() == s.len()
            &&& forall|k: int|
                0 <= k < s.len() ==> {
                    &&& prefix.len() <= #[trigger] r.1[k]
                    &&& r.1[k] + 4 <= b.len()
                    &&& r.1[k] % 512 == 0
                    &&& confined(b, r.1[k], b.len() as int)
                    &&& dec_pts(b, r.1[k]) == points(s[k])
                }
        }),
    decreases s,
{
    let pos = prefix.len() as int;
    let r = enc_children(s, pos);
    let b = prefix + r.0;
    if s.len() == 0 {
    } else {
        let r1 = enc_children(s.drop_last(), pos);
        let r2 = enc_node(s.last(), pos + r1.0.len());
        let b1 = prefix + r1.0;
        lemma_enc_children_decodes(s.drop_last(), prefix);
        lemma_enc_node_decodes(s.last(), b1);
        lemma_enc_node_span(s.last(), pos + r1.0.len());
        assert(b =~= b1 + r2.0);
        assert(b.subrange(0, b1.len() as int) =~= b1);
        assert(r.1 == r1.1.push(r2.1));
        assert forall|k: int| 0 <= k < s.len() implies {
            &&& prefix.len() <= #[trigger] r.1[k]
            &&& r.1[k] + 4 <= b.len()
            &&& r.1[k] % 512 == 0
            &&& confined(b, r.1[k], b.len() as int)
            &&& dec_pts(b, r.1[k]) == points(s[k])
        } by {
            if k < s.len() - 1 {
                assert(r.1[k] == r1.1[k]);
                assert(s[k] == s.drop_last()[k]);
                lemma_dec_stable(b1, b, r1.1[k], b1.len() as int);
                lemma_confined_widen(b, r1.1[k], b1.len() as int, b.len() as int);
            } else {
                assert(r.1[k] == r2.1);
                assert(s[k] == s.last());
                assert(b == b1 + r2.0);
                assert(confined(b, r2.1, b.len() as int));
            }
        }
    }
}

/// What a node encoder appends decodes, from the appended buffer, to
/// exactly the node's payload points; the node's block is confined.
pub proof fn lemma_enc_node_decodes(n: Node<Vec<Point>>, prefix: Seq<u8>)
    requires
        prefix.len() + enc_node(n, prefix.len() as int).0.len() <= MAX_ENCODED,
    ensures
        ({
            let r = enc_node(n, prefix.len() as int);
            let b = prefix + r.0;
            &&& prefix.len() <= r.1
            &&& r.1 + 4 <= b.len()
            &&& confined(b, r.1, b.len() as int)
            &&& dec_pts(b, r.1) == points(n)
        }),
    decreases n,
{
    let pos = prefix.len() as int;
    let r = enc_node(n, pos);
    let b = prefix + r.0;
    lemma_enc_node_span(n, pos);
    lemma_auto_spec_u32_to_from_le_bytes();
    match n.sub {
        NodeData::Leaf(ps) => {
            let cnt = ps@.len() as int;
            let start = align512(pos);
            lemma_align512(pos);
            lemma_enc_i32_len(-cnt);
            lemma_enc_points_len(ps@);
            assert(b.subrange(start, start + 4) =~= enc_i32(-cnt));
            assert(le32_at(b, start) == u32_bits(-cnt));
            assert(n.leaves() == Multiset::singleton(n));
            lemma_pts_of_mset_singleton(n);
            assert(points(n) == ps@.to_multiset());
            if cnt == 0 {
                lemma_bits_small(0);
                assert(le32_at(b, start) == 0);
                assert(dec_pts(b, start) == dec_kids(b, start, 0));
                assert(ps@.to_multiset().len() == 0);
                assert(dec_pts(b, start) =~= points(n));
            } else {
                assert(8 * cnt <= MAX_ENCODED);
                vstd::arithmetic::div_mod::lemma_mod_add_multiples_vanish(-cnt, 0x1_0000_0000);
                vstd::arithmetic::div_mod::lemma_small_mod(
                    (0x1_0000_0000 - cnt) as nat,
                    0x1_0000_0000,
                );
                assert(u32_bits(-cnt) == 0x1_0000_0000 - cnt);
                assert(le32_at(b, start) >= 0x8000_0000u32);
                assert(0x1_0000_0000 - le32_at(b, start) == cnt);
                assert(b.subrange(start + 4, start + 4 + 8 * cnt) =~= enc_points(ps@));
                lemma_read_pts_correct(b, start + 4, ps@);
                assert(dec_pts(b, start) == read_pts(b, start + 4, cnt));
            }
        },
        NodeData::SubNodes(v) => {
            let rc = enc_children(v@, pos);
            let start = align512(pos + rc.0.len());
            let len = v@.len() as int;
            lemma_enc_children_len(v@, pos);
            lemma_align512(pos + rc.0.len());
            lemma_enc_i32_len(len);
            lemma_enc_table_len(rc.1, v@);
            lemma_enc_children_decodes(v@, prefix);
            let b1 = prefix + rc.0;
            assert(b =~= b1 + (zeros(start - (pos + rc.0.len())) + (enc_i32(len) + enc_table(
                rc.1,
                v@,
            ))));
            assert(b.subrange(0, b1.len() as int) =~= b1);
            assert forall|k: int| 0 <= k < len implies {
                &&& confined(b, rc.1[k], b.len() as int)
                &&& dec_pts(b, #[trigger] rc.1[k]) == points(v@[k])
                &&& 0 <= rc.1[k] < 0x8000_0000
                &&& rc.1[k] < start
            } by {
                lemma_dec_stable(b1, b, rc.1[k], b1.len() as int);
                lemma_confined_widen(b, rc.1[k], b1.len() as int, b.len() as int);
            }
            assert(20 * len <= MAX_ENCODED);
            lemma_bits_small(len);
            assert(b.subrange(start, start + 4) =~= enc_i32(len));
            assert(le32_at(b, start) == len);
            assert forall|k: int| 0 <= k < len implies le32_at(b, start + 4 + 20 * k) == u32_bits(
                #[trigger] rc.1[k],
            ) by {
                lemma_table_entry(rc.1, v@, k);
                assert(b.subrange(start + 4 + 20 * k, start + 4 + 20 * k + 4) =~= enc_table(
                    rc.1,
                    v@,
                ).subrange(20 * k, 20 * k + 4));
            }
            lemma_dec_kids_eq(b, start, v@, rc.1, len, b.len() as int);
            assert(v@.subrange(0, len) =~= v@);
            assert(dec_pts(b, start) == dec_kids(b, start, len));
            assert(points(n) == pts_of_mset(leaves_of(v@)));
        },
    }
}

/// The round trip: in the file an encoded tree makes, the header names a
/// 512-aligned root block inside the file, every block a parent block
/// references is 512-aligned and lies strictly earlier in the file, and
/// walking the blocks from the root recovers exactly the payload points
/// the tree holds.
pub proof fn lemma_encode_round_trip(n: Node<Vec<Point>>)
    requires
        4 + enc_node(n, 4).0.len() <= MAX_ENCODED,
    ensures
        ({
            let b = enc_tree(n);
            let root = i32_of_bits(le32_at(b, 0));
            &&& 4 <= root
            &&& root + 4 <= b.len()
            &&& confined(b, root, b.len() as int)
            &&& dec_pts(b, root) == points(n)
        }),
{
    let r = enc_node(n, 4);
    let header = enc_i32(r.1);
    lemma_enc_i32_len(r.1);
    lemma_enc_node_span(n, 4);
    lemma_enc_node_decodes(n, header);
    let b = enc_tree(n);
    assert(b == header + r.0);
    lemma_auto_spec_u32_to_from_le_bytes();
    assert(b.subrange(0, 4) =~= enc_i32(r.1));
    assert(le32_at(b, 0) == u32_bits(r.1));
    lemma_bits_small(r.1);
    lemma_bits_roundtrip(r.1);
    assert(i32_of_bits(le32_at(b, 0)) == r.1);
}

} // verus!
