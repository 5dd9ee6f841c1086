//! The binary encoder: a depth-first, post-order, 512-byte-block-aligned
//! serialization of a finished tree. Children are written before their
//! parent so that every child offset is known when the parent's block is
//! laid down; the first four bytes of the output hold the root block's
//! offset, patched in once the whole body is written.

use vstd::prelude::*;

use crate::geom::{Point, Rect};
use crate::node::{Node, NodeData};
use vstd::bytes::{lemma_auto_spec_u32_to_from_le_bytes, spec_u32_to_le_bytes, u32_to_le_bytes};

verus! {

/// The block size: each node's block starts at a multiple of 512 bytes.
pub const BLOCK: usize = 512;

/// The largest output length the encoder accepts, so that every byte
/// offset fits in the signed 32-bit field the format stores it in.
pub const MAX_ENCODED: usize = 0x7fff_ffff;

/// The 32-bit two's-complement bit pattern of an integer.
pub open spec fn u32_bits(x: int) -> u32 {
    (x % 0x1_0000_0000) as u32
}

/// The little-endian encoding of an integer's 32-bit pattern.
pub open spec fn enc_i32(x: int) -> Seq<u8> {
    spec_u32_to_le_bytes(u32_bits(x))
}

/// A run of zero bytes.
pub open spec fn zeros(n: int) -> Seq<u8> {
    Seq::new(n as nat, |i: int| 0u8)
}

/// The next multiple of 512 at or after `pos`.
pub open spec fn align512(pos: int) -> int {
    ((pos + 511) / 512) * 512
}

/// A rectangle as four little-endian 32-bit fields.
pub open spec fn enc_rect(r: Rect) -> Seq<u8> {
    enc_i32(r.x0 as int) + enc_i32(r.y0 as int) + enc_i32(r.x1 as int) + enc_i32(r.y1 as int)
}

/// Payload points, each as two little-endian 32-bit fields.
pub open spec fn enc_points(ps: Seq<Point>) -> Seq<u8>
    decreases ps.len(),
{
    if ps.len() == 0 {
        Seq::empty()
    } else {
        enc_points(ps.drop_last()) + enc_i32(ps.last().x as int) + enc_i32(ps.last().y as int)
    }
}

/// An internal block's child table: per child, its block offset then its
/// bounding rectangle.
pub open spec fn enc_table(offs: Seq<int>, cs: Seq<Node<Vec<Point>>>) -> Seq<u8>
    recommends
        offs.len() == cs.len(),
    decreases cs.len(),
{
    if cs.len() == 0 {
        Seq::empty()
    } else {
        enc_table(offs.drop_last(), cs.drop_last()) + enc_i32(offs.last()) + enc_rect(
            cs.last().rect,
        )
    }
}

/// The bytes a node appends to an output whose cursor stands at `pos`,
/// and the node's own block offset: children first, then padding to a
/// block boundary, then the node's block. A leaf block is a negated
/// point count followed by the points; an internal block is a positive
/// child count followed by the child table.
pub open spec fn enc_node(n: Node<Vec<Point>>, pos: int) -> (Seq<u8>, int)
    decreases n,
{
    match n.sub {
        NodeData::Leaf(ps) => {
            let start = align512(pos);
            let block = enc_i32(-(ps@.len() as int)) + enc_points(ps@);
            (zeros(start - pos) + block, start)
        },
        NodeData::SubNodes(v) => {
            let r = enc_children(v@, pos);
            let start = align512(pos + r.0.len() as int);
            let block = enc_i32(v@.len() as int) + enc_table(r.1, v@);
            (r.0 + zeros(start - (pos + r.0.len())) + block, start)
        },
    }
}

/// The bytes a child sequence appends, in order, and each child's block
/// offset.
pub open spec fn enc_children(s: Seq<Node<Vec<Point>>>, pos: int) -> (Seq<u8>, Seq<int>)
    decreases s,
{
    if s.len() == 0 {
        (Seq::empty(), Seq::empty())
    } else {
        let r1 = enc_children(s.drop_last(), pos);
        let r2 = enc_node(s.last(), pos + r1.0.len());
        (r1.0 + r2.0, r1.1.push(r2.1))
    }
}

/// The whole file: a four-byte header holding the root block's offset,
/// then the body written from byte offset 4.
pub open spec fn enc_tree(n: Node<Vec<Point>>) -> Seq<u8> {
    let r = enc_node(n, 4);
    enc_i32(r.1) + r.0
}

pub proof fn lemma_enc_i32_len(x: int)
    ensures
        enc_i32(x).len() == 4,
{
    lemma_auto_spec_u32_to_from_le_bytes();
}

pub proof fn lemma_enc_points_len(ps: Seq<Point>)
    ensures
        enc_points(ps).len() == 8 * ps.len(),
    decreases ps.len(),
{
    if ps.len() > 0 {
        lemma_enc_points_len(ps.drop_last());
        lemma_enc_i32_len(ps.last().x as int);
        lemma_enc_i32_len(ps.last().y as int);
    }
}

pub proof fn lemma_enc_rect_len(r: Rect)
    ensures
        enc_rect(r).len() == 16,
{
    lemma_auto_spec_u32_to_from_le_bytes();
}

pub proof fn lemma_enc_table_len(offs: Seq<int>, cs: Seq<Node<Vec<Point>>>)
    requires
        offs.len() == cs.len(),
    ensures
        enc_table(offs, cs).len() == 20 * cs.len(),
    decreases cs.len(),
{
    if cs.len() > 0 {
        lemma_enc_table_len(offs.drop_last(), cs.drop_last());
        lemma_enc_i32_len(offs.last());
        lemma_enc_rect_len(cs.last().rect);
    }
}

/// Alignment advances the cursor by less than one block, to a multiple
/// of 512.
pub proof fn lemma_align512(pos: int)
    requires
        pos >= 0,
    ensures
        align512(pos) % 512 == 0,
        pos <= align512(pos) < pos + 512,
{
    let q = (pos + 511) / 512;
    vstd::arithmetic::div_mod::lemma_fundamental_div_mod(pos + 511, 512);
    vstd::arithmetic::div_mod::lemma_mod_division_less_than_divisor(pos + 511, 512);
    vstd::arithmetic::div_mod::lemma_mod_multiples_basic(q, 512);
}

/// The encoders of children and of a node append at least nothing and
/// know their offsets lie within what was appended.
pub proof fn lemma_enc_children_len(s: Seq<Node<Vec<Point>>>, pos: int)
    ensures
        enc_children(s, pos).1.len() == s.len(),
        enc_children(s, pos).0.len() >= 0,
    decreases s,
{
    if s.len() > 0 {
        lemma_enc_children_len(s.drop_last(), pos);
    }
}

/// A node's block begins at or after the cursor, and its header fits
/// inside what the node appends.
pub proof fn lemma_enc_node_span(n: Node<Vec<Point>>, pos: int)
    requires
        pos >= 0,
    ensures
        pos <= enc_node(n, pos).1,
        enc_node(n, pos).1 + 4 <= pos + enc_node(n, pos).0.len(),
    decreases n,
{
    match n.sub {
        NodeData::Leaf(ps) => {
            lemma_align512(pos);
            lemma_enc_i32_len(-(ps@.len() as int));
            lemma_enc_points_len(ps@);
        },
        NodeData::SubNodes(v) => {
            let r = enc_children(v@, pos);
            lemma_enc_children_nonneg(v@, pos);
            lemma_align512(pos + r.0.len());
            lemma_enc_i32_len(v@.len() as int);
            lemma_enc_children_len(v@, pos);
            lemma_enc_table_len(r.1, v@);
        },
    }
}

/// Children append a non-negative number of bytes.
pub proof fn lemma_enc_children_nonneg(s: Seq<Node<Vec<Point>>>, pos: int)
    ensures
        enc_children(s, pos).0.len() >= 0,
{
}

/// Pad the output with zero bytes up to the next multiple of 512, and
/// return that block-aligned cursor position.
pub fn seek_block(out: &mut Vec<u8>) -> (off: usize)
    requires
        old(out)@.len() <= MAX_ENCODED,
    ensures
        final(out)@ == old(out)@ + zeros(align512(old(out)@.len() as int) - old(out)@.len()),
        off == align512(old(out)@.len() as int),
        off as int % 512 == 0,
        old(out)@.len() <= off <= old(out)@.len() + 511,
{
    let len = out.len();
    proof {
        lemma_align512(len as int);
    }
    let target: usize = (len + 511) / 512 * 512;
    while out.len() < target
        invariant
            len <= out@.len() <= target,
            target == align512(len as int),
            out@ == old(out)@ + zeros(out@.len() - len),
        decreases target - out@.len(),
    {
        let ghost k = out@.len() - len;
        out.push(0);
        proof {
            assert(zeros(k + 1) =~= zeros(k).push(0u8));
            assert(out@ =~= old(out)@ + zeros(k + 1));
        }
    }
    target
}

/// Append one value as four little-endian bytes of its 32-bit pattern.
fn write_i32(out: &mut Vec<u8>, x: i32)
    ensures
        final(out)@ == old(out)@ + enc_i32(x as int),
{
    let u: u32 = if x >= 0 {
        x as u32
    } else {
        ((x as i64) + 0x1_0000_0000) as u32
    };
    proof {
        lemma_u32_bits_i32(x);
    }
    let mut bytes = u32_to_le_bytes(u);
    out.append(&mut bytes);
}

/// The 32-bit pattern of an `i32` is itself when non-negative, else
/// itself plus `2^32`.
proof fn lemma_u32_bits_i32(x: i32)
    ensures
        x >= 0 ==> u32_bits(x as int) == x,
        x < 0 ==> u32_bits(x as int) == x + 0x1_0000_0000,
{
    if x >= 0 {
        vstd::arithmetic::div_mod::lemma_small_mod(x as nat, 0x1_0000_0000);
    } else {
        vstd::arithmetic::div_mod::lemma_mod_add_multiples_vanish(x as int, 0x1_0000_0000);
        vstd::arithmetic::div_mod::lemma_small_mod((x + 0x1_0000_0000) as nat, 0x1_0000_0000);
    }
}

impl Point {
    /// Append this point's two coordinates; returns the offset it was
    /// written at.
    pub fn write(&self, out: &mut Vec<u8>) -> (off: usize)
        ensures
            final(out)@ == old(out)@ + enc_i32(self.x as int) + enc_i32(self.y as int),
            off == old(out)@.len(),
    {
        let offset = out.len();
        write_i32(out, self.x);
        write_i32(out, self.y);
        offset
    }
}

impl Rect {
    /// Append this rectangle's four coordinates; returns the offset it
    /// was written at.
    pub fn write(&self, out: &mut Vec<u8>) -> (off: usize)
        ensures
            final(out)@ == old(out)@ + enc_rect(*self),
            off == old(out)@.len(),
    {
        let offset = out.len();
        write_i32(out, self.x0);
        write_i32(out, self.y0);
        write_i32(out, self.x1);
        write_i32(out, self.y1);
        proof {
            assert(final(out)@ =~= old(out)@ + enc_rect(*self));
        }
        offset
    }
}

/// Append every point of the payload in declaration order.
fn write_points(ps: &Vec<Point>, out: &mut Vec<u8>)
    ensures
        final(out)@ == old(out)@ + enc_points(ps@),
{
    let n = ps.len();
    let mut i: usize = 0;
    while i < n
        invariant
            0 <= i <= n,
            n == ps@.len(),
            out@ == old(out)@ + enc_points(ps@.subrange(0, i as int)),
        decreases n - i,
    {
        ps[i].write(out);
        proof {
            assert(ps@.subrange(0, i + 1).drop_last() =~= ps@.subrange(0, i as int));
            assert(ps@.subrange(0, i + 1).last() == ps@[i as int]);
            assert(out@ =~= old(out)@ + enc_points(ps@.subrange(0, i + 1)));
        }
        i = i + 1;
    }
    proof {
        assert(ps@.subrange(0, n as int) =~= ps@);
    }
}

/// One step of encoding a child sequence: the prefix's bytes followed by
/// the next child's, and its offset appended.
proof fn lemma_enc_children_take_step(s: Seq<Node<Vec<Point>>>, i: int, pos: int)
    requires
        0 <= i < s.len(),
    ensures
        ({
            let p = enc_children(s.subrange(0, i), pos);
            let q = enc_children(s.subrange(0, i + 1), pos);
            let e = enc_node(s[i], pos + p.0.len());
            q.0 == p.0 + e.0 && q.1 == p.1.push(e.1)
        }),
{
    assert(s.subrange(0, i + 1).drop_last() =~= s.subrange(0, i));
    assert(s.subrange(0, i + 1).last() == s[i]);
}

/// Encoding a prefix of the children appends no more than encoding them
/// all.
proof fn lemma_enc_children_len_mono(s: Seq<Node<Vec<Point>>>, i: int, pos: int)
    requires
        0 <= i <= s.len(),
    ensures
        enc_children(s.subrange(0, i), pos).0.len() <= enc_children(s, pos).0.len(),
    decreases s.len() - i,
{
    if i == s.len() {
        assert(s.subrange(0, i) =~= s);
    } else {
        lemma_enc_children_take_step(s, i, pos);
        lemma_enc_children_len_mono(s, i + 1, pos);
    }
}

/// One step of laying down the child table.
proof fn lemma_enc_table_take_step(offs: Seq<int>, cs: Seq<Node<Vec<Point>>>, j: int)
    requires
        0 <= j < cs.len(),
        offs.len() == cs.len(),
    ensures
        enc_table(offs.subrange(0, j + 1), cs.subrange(0, j + 1)) == enc_table(
            offs.subrange(0, j),
            cs.subrange(0, j),
        ) + enc_i32(offs[j]) + enc_rect(cs[j].rect),
{
    assert(offs.subrange(0, j + 1).drop_last() =~= offs.subrange(0, j));
    assert(cs.subrange(0, j + 1).drop_last() =~= cs.subrange(0, j));
    assert(offs.subrange(0, j + 1).last() == offs[j]);
    assert(cs.subrange(0, j + 1).last() == cs[j]);
}

impl Node<Vec<Point>> {
    /// Write this subtree into the output: depth-first, children before
    /// parent, each block starting at a multiple of 512 bytes. Returns
    /// the byte offset of this node's own block.
    pub fn write(&self, out: &mut Vec<u8>) -> (off: usize)
        requires
            old(out)@.len() + enc_node(*self, old(out)@.len() as int).0.len() <= MAX_ENCODED,
        ensures
            final(out)@ == old(out)@ + enc_node(*self, old(out)@.len() as int).0,
            off == enc_node(*self, old(out)@.len() as int).1,
        decreases self.hgt(),
    {
        let ghost pos = out@.len() as int;
        match &self.sub {
            NodeData::Leaf(data) => {
                proof {
                    lemma_align512(pos);
                    lemma_enc_i32_len(-(data@.len() as int));
                    lemma_enc_points_len(data@);
                }
                let offset = seek_block(out);
                let n = data.len();
                let count: i32 = -(n as i32);
                write_i32(out, count);
                write_points(data, out);
                proof {
                    assert(out@ =~= old(out)@ + enc_node(*self, pos).0);
                }
                offset
            },
            NodeData::SubNodes(subs) => {
                let ghost cseq = subs@;
                let ghost full = enc_children(cseq, pos);
                proof {
                    lemma_enc_children_len(cseq, pos);
                    lemma_align512(pos + full.0.len());
                    lemma_enc_i32_len(cseq.len() as int);
                    lemma_enc_table_len(full.1, cseq);
                }
                let mut offsets: Vec<i32> = Vec::new();
                let n = subs.len();
                let mut i: usize = 0;
                while i < n
                    invariant
                        0 <= i <= n,
                        n == cseq.len(),
                        subs@ == cseq,
                        pos == old(out)@.len(),
                        pos + enc_node(*self, pos).0.len() <= MAX_ENCODED,
                        self.sub == (NodeData::<Vec<Point>>::SubNodes(*subs)),
                        out@ == old(out)@ + enc_children(cseq.subrange(0, i as int), pos).0,
                        offsets@.len() == i,
                        forall|k: int|
                            0 <= k < i ==> #[trigger] offsets@[k] as int == enc_children(
                                cseq.subrange(0, i as int),
                                pos,
                            ).1[k],
                    decreases n - i,
                {
                    let ghost p = enc_children(cseq.subrange(0, i as int), pos);
                    let ghost cur = pos + p.0.len();
                    proof {
                        lemma_enc_children_take_step(cseq, i as int, pos);
                        lemma_enc_children_len_mono(cseq, i + 1, pos);
                        crate::node::lemma_seq_hgt_ge(cseq, i as int);
                        lemma_enc_node_span(cseq[i as int], cur);
                        assert(enc_children(cseq, pos).0.len() <= enc_node(*self, pos).0.len());
                    }
                    let off = subs[i].write(out);
                    proof {
                        lemma_enc_children_len(cseq.subrange(0, i + 1), pos);
                        assert(off + 4 <= pos + enc_children(cseq.subrange(0, i + 1), pos).0.len());
                    }
                    offsets.push(off as i32);
                    i = i + 1;
                }
                proof {
                    assert(cseq.subrange(0, n as int) =~= cseq);
                }
                let offset = seek_block(out);
                let cnt = subs.len();
                write_i32(out, cnt as i32);
                let ghost head = old(out)@ + full.0 + zeros(align512(pos + full.0.len()) - (pos
                    + full.0.len())) + enc_i32(cseq.len() as int);
                proof {
                    assert(out@ =~= head);
                    assert(full.1.subrange(0, 0) =~= Seq::<int>::empty());
                    assert(cseq.subrange(0, 0) =~= Seq::<Node<Vec<Point>>>::empty());
                }
                let mut j: usize = 0;
                while j < n
                    invariant
                        0 <= j <= n,
                        n == cseq.len(),
                        subs@ == cseq,
                        full.1.len() == n,
                        offsets@.len() == n,
                        forall|k: int| 0 <= k < n ==> #[trigger] offsets@[k] as int == full.1[k],
                        out@ == head + enc_table(
                            full.1.subrange(0, j as int),
                            cseq.subrange(0, j as int),
                        ),
                    decreases n - j,
                {
                    proof {
                        lemma_enc_table_take_step(full.1, cseq, j as int);
                    }
                    write_i32(out, offsets[j]);
                    subs[j].rect.write(out);
                    proof {
                        assert(out@ =~= head + enc_table(
                            full.1.subrange(0, j + 1),
                            cseq.subrange(0, j + 1),
                        ));
                    }
                    j = j + 1;
                }
                proof {
                    assert(full.1.subrange(0, n as int) =~= full.1);
                    assert(cseq.subrange(0, n as int) =~= cseq);
                    assert(out@ =~= old(out)@ + enc_node(*self, pos).0);
                }
                offset
            },
        }
    }
}

/// Encode a finished tree as one byte buffer: a four-byte header that
/// holds the root block's offset, then the body, written from offset 4
/// and patched into the header afterwards.
pub fn encode_tree(root: &Node<Vec<Point>>) -> (out: Vec<u8>)
    requires
        4 + enc_node(*root, 4).0.len() <= MAX_ENCODED,
    ensures
        out@ == enc_tree(*root),
{
    let mut out: Vec<u8> = Vec::new();
    out.push(0);
    out.push(0);
    out.push(0);
    out.push(0);
    proof {
        assert(out@ =~= zeros(4));
    }
    let start = root.write(&mut out);
    proof {
        lemma_enc_node_span(*root, 4);
        lemma_u32_bits_i32(start as i32);
    }
    let mut header = u32_to_le_bytes(start as u32);
    let b3 = header.pop().unwrap();
    let b2 = header.pop().unwrap();
    let b1 = header.pop().unwrap();
    let b0 = header.pop().unwrap();
    out[0] = b0;
    out[1] = b1;
    out[2] = b2;
    out[3] = b3;
    proof {
        assert(u32_bits(start as int) == start as u32);
        assert(out@ =~= enc_tree(*root));
    }
    out
}

} // verus!
