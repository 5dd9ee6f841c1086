//! The recursive node model: a tree node is either an internal node holding
//! an ordered list of children, or a leaf holding an opaque payload. Both
//! carry a bounding rectangle; an internal node's rectangle is the exact
//! union of its children's.

use vstd::prelude::*;

use crate::geom::Rect;
use vstd::multiset::Multiset;

verus! {

broadcast use vstd::multiset::group_multiset_axioms, vstd::seq_lib::group_to_multiset_ensures;

/// The default fanout: as many children as an internal node's block can
/// hold within one 512-byte storage block (4 count bytes plus 20 bytes
/// per child).
pub const DEGREE: usize = 25;

/// What a node holds: child nodes, or a payload.
#[derive(Debug)]
pub enum NodeData<T> {
    SubNodes(Vec<Node<T>>),
    Leaf(T),
}

/// A tree node: a bounding rectangle plus children or a payload.
#[derive(Debug)]
pub struct Node<T> {
    pub rect: Rect,
    pub sub: NodeData<T>,
}

/// The transient signal an insertion step returns: either the rebuilt
/// subtree now contains the new entry, or the node is at capacity and the
/// caller must absorb one extra child.
#[derive(Debug)]
pub enum InsertResult<T> {
    Inserted(Node<T>),
    Full(Node<T>, Node<T>),
}

impl<T> Node<T> {
    /// The ordered child sequence of an internal node.
    pub open spec fn children(self) -> Seq<Node<T>>
        recommends
            self.sub is SubNodes,
    {
        self.sub->SubNodes_0@
    }

    /// The multiset of leaf nodes in this subtree.
    pub open spec fn leaves(self) -> Multiset<Node<T>>
        decreases self,
    {
        match self.sub {
            NodeData::Leaf(_) => Multiset::singleton(self),
            NodeData::SubNodes(v) => leaves_of(v@),
        }
    }

    /// Height of the subtree: a leaf has height zero.
    pub open spec fn hgt(self) -> nat
        decreases self,
    {
        match self.sub {
            NodeData::Leaf(_) => 0,
            NodeData::SubNodes(v) => 1 + seq_hgt(v@),
        }
    }

    /// Well-formedness of a subtree: every rectangle is well-formed and
    /// bounded, every internal node holds between 1 and `degree` children,
    /// and its rectangle is the exact union of its children's rectangles.
    pub open spec fn wf(self, degree: nat) -> bool
        decreases self,
    {
        &&& self.rect.wf()
        &&& self.rect.bounded()
        &&& match self.sub {
            NodeData::Leaf(_) => true,
            NodeData::SubNodes(v) => {
                &&& 1 <= v@.len() <= degree
                &&& self.rect == rects_union(v@)
                &&& forall|i: int| 0 <= i < v@.len() ==> (#[trigger] v@[i]).wf(degree)
            },
        }
    }

    /// Well-formedness of a tree root. Unlike an inner node the root may
    /// hold no children at all, and its rectangle is only required to
    /// cover its children's union: the initial empty root starts from a
    /// caller-supplied rectangle that insertion grows rather than
    /// recomputes.
    pub open spec fn wf_root(self, degree: nat) -> bool {
        &&& self.sub is SubNodes
        &&& self.rect.wf()
        &&& self.rect.bounded()
        &&& self.children().len() <= degree
        &&& forall|i: int|
            0 <= i < self.children().len() ==> (#[trigger] self.children()[i]).wf(degree)
        &&& self.children().len() >= 1 ==> self.rect.contains_rect(rects_union(self.children()))
    }

    /// A new internal node with no children yet.
    pub fn new(rect: Rect) -> (n: Node<T>)
        ensures
            n.rect == rect,
            n.sub is SubNodes,
            n.children() == Seq::<Node<T>>::empty(),
    {
        Node { rect, sub: NodeData::SubNodes(Vec::new()) }
    }

    pub fn is_leaf(&self) -> (r: bool)
        ensures
            r == (self.sub is Leaf),
    {
        match &self.sub {
            NodeData::Leaf(_) => true,
            NodeData::SubNodes(_) => false,
        }
    }

    /// The children of an internal node; a leaf has none.
    pub fn subnodes(&self) -> (v: &Vec<Node<T>>)
        requires
            self.sub is SubNodes,
        ensures
            v@ == self.children(),
    {
        match &self.sub {
            NodeData::SubNodes(n) => n,
            NodeData::Leaf(_) => unreached(),
        }
    }

    /// Mutable access to the children of an internal node.
    pub fn mut_subnodes(&mut self) -> (v: &mut Vec<Node<T>>)
        requires
            old(self).sub is SubNodes,
        ensures
            v@ == old(self).children(),
            final(self).rect == old(self).rect,
            final(self).sub is SubNodes,
            final(self).children() == final(v)@,
    {
        match &mut self.sub {
            NodeData::SubNodes(n) => n,
            NodeData::Leaf(_) => unreached(),
        }
    }

    /// Consume an internal node, yielding its children.
    pub fn move_subnodes(self) -> (v: Vec<Node<T>>)
        requires
            self.sub is SubNodes,
        ensures
            v@ == self.children(),
    {
        match self.sub {
            NodeData::SubNodes(n) => n,
            NodeData::Leaf(_) => unreached(),
        }
    }

    /// Mutable access to the payload of a leaf.
    pub fn mut_leaf(&mut self) -> (l: &mut T)
        requires
            old(self).sub is Leaf,
        ensures
            *l == old(self).sub->Leaf_0,
            final(self).rect == old(self).rect,
            final(self).sub is Leaf,
            final(self).sub->Leaf_0 == *final(l),
    {
        match &mut self.sub {
            NodeData::Leaf(l) => l,
            NodeData::SubNodes(_) => unreached(),
        }
    }

    /// Recompute this internal node's rectangle as the exact union of its
    /// children's rectangles.
    pub fn update_rect(&mut self)
        requires
            old(self).sub is SubNodes,
            old(self).children().len() >= 1,
        ensures
            final(self).sub == old(self).sub,
            final(self).rect == rects_union(old(self).children()),
    {
        let ghost s = self.children();
        let subs = self.subnodes();
        let n = subs.len();
        let mut r = subs[0].rect;
        assert(r == rects_union(s.subrange(0, 1)));
        let mut i: usize = 1;
        while i < n
            invariant
                1 <= i <= n,
                n == s.len(),
                subs@ == s,
                r == rects_union(s.subrange(0, i as int)),
            decreases n - i,
        {
            proof {
                lemma_union_take_step(s, i as int);
            }
            r = r.grow(&subs[i].rect);
            i = i + 1;
        }
        assert(s.subrange(0, n as int) =~= s);
        self.rect = r;
    }

    /// Remove and return the child a new rectangle should descend into:
    /// among the internal children, the one whose rectangle needs the least
    /// growth to cover `rect`, ties broken by first occurrence in child
    /// order. Leaf children are never descent targets.
    pub fn best_node(&mut self, rect: &Rect) -> (best: Node<T>)
        requires
            old(self).sub is SubNodes,
            rect.bounded(),
            forall|i: int|
                0 <= i < old(self).children().len() ==> (#[trigger] old(
                    self,
                ).children()[i]).rect.bounded(),
            exists|i: int|
                0 <= i < old(self).children().len() && !((#[trigger] old(
                    self,
                ).children()[i]).sub is Leaf),
        ensures
            final(self).rect == old(self).rect,
            final(self).sub is SubNodes,
            exists|i: int|
                #![trigger old(self).children()[i]]
                {
                    let c = old(self).children();
                    &&& 0 <= i < c.len()
                    &&& best == c[i]
                    &&& !(best.sub is Leaf)
                    &&& final(self).children() == c.update(i, c.last()).drop_last()
                    &&& forall|j: int|
                        0 <= j < c.len() && !((#[trigger] c[j]).sub is Leaf)
                            ==> best.rect.spec_needed_growth(*rect)
                            <= c[j].rect.spec_needed_growth(*rect)
                    &&& forall|j: int|
                        0 <= j < i && !((#[trigger] c[j]).sub is Leaf)
                            ==> best.rect.spec_needed_growth(*rect)
                            < c[j].rect.spec_needed_growth(*rect)
                },
    {
        let ghost c = self.children();
        let mut best_i: usize = 0;
        let mut best_cost: u64 = 0;
        let mut found = false;
        {
            let subs = self.subnodes();
            let n = subs.len();
            let mut i: usize = 0;
            while i < n
                invariant
                    0 <= i <= n,
                    n == c.len(),
                    subs@ == c,
                    rect.bounded(),
                    forall|k: int| 0 <= k < c.len() ==> (#[trigger] c[k]).rect.bounded(),
                    !found ==> forall|j: int| 0 <= j < i ==> (#[trigger] c[j]).sub is Leaf,
                    found ==> {
                        &&& 0 <= best_i < i
                        &&& !(c[best_i as int].sub is Leaf)
                        &&& best_cost == c[best_i as int].rect.spec_needed_growth(*rect)
                        &&& forall|j: int|
                            0 <= j < i && !((#[trigger] c[j]).sub is Leaf) ==> best_cost
                                <= c[j].rect.spec_needed_growth(*rect)
                        &&& forall|j: int|
                            0 <= j < best_i && !((#[trigger] c[j]).sub is Leaf) ==> best_cost
                                < c[j].rect.spec_needed_growth(*rect)
                    },
                decreases n - i,
            {
                if !subs[i].is_leaf() {
                    let cost = subs[i].rect.needed_growth(rect);
                    if !found || cost < best_cost {
                        best_i = i;
                        best_cost = cost;
                        found = true;
                    }
                }
                i = i + 1;
            }
        }
        assert(found) by {
            let w = choose|w: int| 0 <= w < c.len() && !(c[w].sub is Leaf);
            assert(0 <= w < c.len() && !(c[w].sub is Leaf));
        }
        let v = self.mut_subnodes();
        v.swap_remove(best_i)
    }
}

/// The multiset of leaf nodes across a sequence of subtrees.
pub open spec fn leaves_of<T>(s: Seq<Node<T>>) -> Multiset<Node<T>>
    decreases s,
{
    if s.len() == 0 {
        Multiset::empty()
    } else {
        leaves_of(s.drop_last()).add(s.last().leaves())
    }
}

/// The union, by repeated `grow`, of the rectangles of a non-empty sequence
/// of nodes, folded in order from the first child.
pub open spec fn rects_union<T>(s: Seq<Node<T>>) -> Rect
    recommends
        s.len() >= 1,
    decreases s.len(),
{
    if s.len() <= 1 {
        s[0].rect
    } else {
        rects_union(s.drop_last()).spec_grow(s.last().rect)
    }
}

/// The greatest height among a sequence of subtrees.
pub open spec fn seq_hgt<T>(s: Seq<Node<T>>) -> nat
    decreases s,
{
    if s.len() == 0 {
        0
    } else {
        let rest = seq_hgt(s.drop_last());
        let l = s.last().hgt();
        if l >= rest {
            l
        } else {
            rest
        }
    }
}

/// Every element of a sequence is at most the sequence's height.
pub proof fn lemma_seq_hgt_ge<T>(s: Seq<Node<T>>, i: int)
    requires
        0 <= i < s.len(),
    ensures
        s[i].hgt() <= seq_hgt(s),
    decreases s.len(),
{
    if i < s.len() - 1 {
        lemma_seq_hgt_ge(s.drop_last(), i);
    }
}

/// Appending a subtree: the height is the larger of the old height and
/// the appended subtree's.
pub proof fn lemma_seq_hgt_push<T>(s: Seq<Node<T>>, x: Node<T>)
    ensures
        seq_hgt(s.push(x)) == if x.hgt() >= seq_hgt(s) {
            x.hgt()
        } else {
            seq_hgt(s)
        },
{
    assert(s.push(x).drop_last() =~= s);
    assert(s.push(x).last() == x);
}

/// Some subtree of a non-empty sequence attains the sequence's height.
pub proof fn lemma_seq_hgt_witness<T>(s: Seq<Node<T>>)
    requires
        s.len() >= 1,
    ensures
        exists|i: int| 0 <= i < s.len() && (#[trigger] s[i]).hgt() == seq_hgt(s),
    decreases s.len(),
{
    if s.len() == 1 {
        assert(s[0] == s.last());
    } else if s.last().hgt() >= seq_hgt(s.drop_last()) {
        assert(s[s.len() - 1] == s.last());
    } else {
        lemma_seq_hgt_witness(s.drop_last());
        let i = choose|i: int|
            0 <= i < s.drop_last().len() && (#[trigger] s.drop_last()[i]).hgt() == seq_hgt(
                s.drop_last(),
            );
        assert(s[i] == s.drop_last()[i]);
    }
}

/// A sequence drawn from another's subtrees is no taller.
pub proof fn lemma_seq_hgt_submset<T>(a: Seq<Node<T>>, s: Seq<Node<T>>)
    requires
        forall|v: Node<T>| a.to_multiset().count(v) <= s.to_multiset().count(v),
    ensures
        seq_hgt(a) <= seq_hgt(s),
{
    if a.len() >= 1 {
        lemma_seq_hgt_witness(a);
        let i = choose|i: int| 0 <= i < a.len() && (#[trigger] a[i]).hgt() == seq_hgt(a);
        assert(a.contains(a[i]));
        assert(a.to_multiset().count(a[i]) > 0);
        assert(s.to_multiset().contains(a[i]));
        assert(s.contains(a[i]));
        let j = choose|j: int| 0 <= j < s.len() && s[j] == a[i];
        lemma_seq_hgt_ge(s, j);
    }
}

/// Splitting a sequence's subtrees into two groups, in any order, keeps
/// the height: it is the larger of the two groups' heights.
pub proof fn lemma_seq_hgt_partition<T>(s: Seq<Node<T>>, a: Seq<Node<T>>, b: Seq<Node<T>>)
    requires
        a.to_multiset().add(b.to_multiset()) == s.to_multiset(),
    ensures
        seq_hgt(s) == if seq_hgt(a) >= seq_hgt(b) {
            seq_hgt(a)
        } else {
            seq_hgt(b)
        },
{
    assert forall|v: Node<T>| a.to_multiset().count(v) <= s.to_multiset().count(v) by {
        assert(a.to_multiset().add(b.to_multiset()).count(v) == a.to_multiset().count(v)
            + b.to_multiset().count(v));
    }
    assert forall|v: Node<T>| b.to_multiset().count(v) <= s.to_multiset().count(v) by {
        assert(a.to_multiset().add(b.to_multiset()).count(v) == a.to_multiset().count(v)
            + b.to_multiset().count(v));
    }
    lemma_seq_hgt_submset(a, s);
    lemma_seq_hgt_submset(b, s);
    if s.len() >= 1 {
        lemma_seq_hgt_witness(s);
        let i = choose|i: int| 0 <= i < s.len() && (#[trigger] s[i]).hgt() == seq_hgt(s);
        assert(s.contains(s[i]));
        assert(s.to_multiset().count(s[i]) > 0);
        assert(a.to_multiset().count(s[i]) + b.to_multiset().count(s[i]) > 0);
        if a.to_multiset().count(s[i]) > 0 {
            assert(a.contains(s[i]));
            let j = choose|j: int| 0 <= j < a.len() && a[j] == s[i];
            lemma_seq_hgt_ge(a, j);
        } else {
            assert(b.contains(s[i]));
            let j = choose|j: int| 0 <= j < b.len() && b[j] == s[i];
            lemma_seq_hgt_ge(b, j);
        }
    } else {
        assert(s.to_multiset().len() == 0);
        assert(a.to_multiset().len() == 0);
        assert(b.to_multiset().len() == 0);
        assert(a.len() == 0 && b.len() == 0);
    }
}

/// Removing the child at `i` by swapping in the last child removes one
/// occurrence of it from the multiset of children.
pub proof fn lemma_to_multiset_swap_remove<T>(s: Seq<T>, i: int)
    requires
        0 <= i < s.len(),
    ensures
        s.update(i, s.last()).drop_last().to_multiset() == s.to_multiset().remove(s[i]),
{
    let n = s.len() as int;
    if i == n - 1 {
        assert(s.update(i, s.last()) =~= s);
        assert(s.drop_last() =~= s.remove(n - 1));
    } else {
        let r = s.update(i, s.last()).drop_last();
        let a = s.subrange(0, i);
        let l = s.subrange(n - 1, n);
        let mid = s.subrange(i + 1, n - 1);
        assert(r =~= a + l + mid);
        assert(s.remove(i) =~= a + mid + l);
        vstd::seq_lib::lemma_multiset_commutative(a + l, mid);
        vstd::seq_lib::lemma_multiset_commutative(a, l);
        vstd::seq_lib::lemma_multiset_commutative(a + mid, l);
        vstd::seq_lib::lemma_multiset_commutative(a, mid);
        assert(r.to_multiset() =~= s.remove(i).to_multiset());
        assert(s.remove(i).to_multiset() == s.to_multiset().remove(s[i]));
    }
}

/// Folding one more node into a union grows it by that node's rectangle.
pub proof fn lemma_union_push<T>(s: Seq<Node<T>>, x: Node<T>)
    ensures
        s.len() >= 1 ==> rects_union(s.push(x)) == rects_union(s).spec_grow(x.rect),
        s.len() == 0 ==> rects_union(s.push(x)) == x.rect,
{
    assert(s.push(x).drop_last() =~= s);
    assert(s.push(x).last() == x);
}

/// Step lemma for the left fold computing a union over a prefix.
pub proof fn lemma_union_take_step<T>(s: Seq<Node<T>>, i: int)
    requires
        1 <= i < s.len(),
    ensures
        rects_union(s.subrange(0, i + 1)) == rects_union(s.subrange(0, i)).spec_grow(s[i].rect),
{
    assert(s.subrange(0, i + 1) =~= s.subrange(0, i).push(s[i]));
    lemma_union_push(s.subrange(0, i), s[i]);
}

/// A union of well-formed, bounded rectangles is well-formed and bounded.
pub proof fn lemma_union_wf_bounded<T>(s: Seq<Node<T>>)
    requires
        s.len() >= 1,
        forall|i: int| 0 <= i < s.len() ==> (#[trigger] s[i]).rect.wf() && s[i].rect.bounded(),
    ensures
        rects_union(s).wf(),
        rects_union(s).bounded(),
    decreases s.len(),
{
    if s.len() > 1 {
        lemma_union_wf_bounded(s.drop_last());
        crate::geom::lemma_grow_wf_bounded(rects_union(s.drop_last()), s.last().rect);
    }
}

/// Appending a subtree to a sequence adds its leaves to the total.
pub proof fn lemma_leaves_of_push<T>(s: Seq<Node<T>>, x: Node<T>)
    ensures
        leaves_of(s.push(x)) == leaves_of(s).add(x.leaves()),
{
    assert(s.push(x).drop_last() =~= s);
    assert(s.push(x).last() == x);
}

/// Replacing one subtree exchanges exactly its leaves in the total.
pub proof fn lemma_leaves_of_update<T>(s: Seq<Node<T>>, i: int, y: Node<T>)
    requires
        0 <= i < s.len(),
    ensures
        leaves_of(s.update(i, y)).add(s[i].leaves()) == leaves_of(s).add(y.leaves()),
    decreases s.len(),
{
    let u = s.update(i, y);
    if i == s.len() - 1 {
        assert(u.drop_last() =~= s.drop_last());
        assert(u.last() == y);
        assert(leaves_of(u).add(s[i].leaves()) =~= leaves_of(s).add(y.leaves()));
    } else {
        let sdl = s.drop_last();
        assert(u.drop_last() =~= sdl.update(i, y));
        assert(u.last() == s.last());
        lemma_leaves_of_update(sdl, i, y);
        assert(sdl[i] == s[i]);
        assert(leaves_of(u) == leaves_of(sdl.update(i, y)).add(s.last().leaves()));
        assert(leaves_of(s) == leaves_of(sdl).add(s.last().leaves()));
        assert(leaves_of(sdl.update(i, y)).add(s[i].leaves()) == leaves_of(sdl).add(y.leaves()));
        assert forall|v: Node<T>|
            leaves_of(u).add(s[i].leaves()).count(v) == leaves_of(s).add(y.leaves()).count(
                v,
            ) by {
            assert(leaves_of(sdl.update(i, y)).add(s[i].leaves()).count(v) == leaves_of(sdl).add(
                y.leaves(),
            ).count(v));
        }
        assert(leaves_of(u).add(s[i].leaves()) =~= leaves_of(s).add(y.leaves()));
    }
}

/// Removing one subtree removes exactly its leaves from the total.
pub proof fn lemma_leaves_of_remove<T>(s: Seq<Node<T>>, i: int)
    requires
        0 <= i < s.len(),
    ensures
        leaves_of(s) == leaves_of(s.remove(i)).add(s[i].leaves()),
    decreases s.len(),
{
    if i == s.len() - 1 {
        assert(s.remove(i) =~= s.drop_last());
    } else {
        let r = s.remove(i);
        assert(r.drop_last() =~= s.drop_last().remove(i));
        assert(r.last() == s.last());
        lemma_leaves_of_remove(s.drop_last(), i);
        assert(leaves_of(s) =~= leaves_of(s.remove(i)).add(s[i].leaves()));
    }
}

/// Two sequences holding the same subtrees in any order hold the same
/// leaves.
pub proof fn lemma_leaves_of_perm<T>(s1: Seq<Node<T>>, s2: Seq<Node<T>>)
    requires
        s1.to_multiset() == s2.to_multiset(),
    ensures
        leaves_of(s1) == leaves_of(s2),
    decreases s1.len(),
{
    if s1.len() == 0 {
        assert(s2.to_multiset().len() == 0);
        assert(s2.len() == 0);
    } else {
        let x = s1.last();
        assert(s1.to_multiset().contains(x)) by {
            assert(s1.contains(x));
        }
        assert(s2.to_multiset().contains(x));
        assert(s2.contains(x));
        let j = choose|j: int| 0 <= j < s2.len() && s2[j] == x;
        let s1p = s1.drop_last();
        let s2p = s2.remove(j);
        assert(s1p =~= s1.remove(s1.len() - 1));
        assert(s1p.to_multiset() == s1.to_multiset().remove(x));
        assert(s2p.to_multiset() == s2.to_multiset().remove(x));
        lemma_leaves_of_perm(s1p, s2p);
        lemma_leaves_of_remove(s2, j);
    }
}

/// The whole-tree invariant, spelled out: in a well-formed subtree every
/// internal node holds between 1 and `degree` children, its rectangle is
/// the exact union of its children's rectangles, and each child is again
/// well-formed — so the exactness holds recursively at every level.
/// `insert` keeps every node below the root well-formed, and the root
/// itself once its caller-supplied starting rectangle has been
/// recomputed; until then the root's rectangle only covers its
/// children's union.
pub proof fn lemma_wf_internal_exact<T>(n: Node<T>, degree: nat)
    requires
        n.wf(degree),
        n.sub is SubNodes,
    ensures
        1 <= n.children().len() <= degree,
        n.rect == rects_union(n.children()),
        forall|i: int| 0 <= i < n.children().len() ==> (#[trigger] n.children()[i]).wf(degree),
{
}

/// A well-formed internal node is in particular a well-formed root.
pub proof fn lemma_wf_root_from_wf<T>(n: Node<T>, degree: nat)
    requires
        n.wf(degree),
        n.sub is SubNodes,
    ensures
        n.wf_root(degree),
        n.children().len() >= 1,
{
}

/// Removing the child at `i` by swapping in the last child removes exactly
/// that child's leaves.
pub proof fn lemma_leaves_of_swap_remove<T>(s: Seq<Node<T>>, i: int)
    requires
        0 <= i < s.len(),
    ensures
        leaves_of(s.update(i, s.last()).drop_last()).add(s[i].leaves()) == leaves_of(s),
{
    if i == s.len() - 1 {
        assert(s.update(i, s.last()) =~= s);
    } else {
        let u = s.update(i, s.last());
        lemma_leaves_of_update(s, i, s.last());
        assert(u.last() == s.last());
        assert(leaves_of(u) == leaves_of(u.drop_last()).add(s.last().leaves()));
        assert forall|v: Node<T>|
            leaves_of(u.drop_last()).add(s[i].leaves()).count(v) == leaves_of(s).count(v) by {
            assert(leaves_of(u).add(s[i].leaves()).count(v) == leaves_of(s).add(
                s.last().leaves(),
            ).count(v));
        }
        assert(leaves_of(u.drop_last()).add(s[i].leaves()) =~= leaves_of(s));
    }
}

/// Concatenating sequences adds their leaves.
pub proof fn lemma_leaves_of_concat<T>(a: Seq<Node<T>>, b: Seq<Node<T>>)
    ensures
        leaves_of(a + b) == leaves_of(a).add(leaves_of(b)),
    decreases b.len(),
{
    if b.len() == 0 {
        assert(a + b =~= a);
        assert(leaves_of(a + b) =~= leaves_of(a).add(leaves_of(b)));
    } else {
        assert((a + b).drop_last() =~= a + b.drop_last());
        assert((a + b).last() == b.last());
        lemma_leaves_of_concat(a, b.drop_last());
        assert(leaves_of(a + b) =~= leaves_of(a).add(leaves_of(b)));
    }
}

} // verus!
