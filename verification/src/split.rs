//! The splitter: redistributing an overflowing node's children into two
//! nodes by a stable sort along the node's wider axis, cut at the middle.

use vstd::prelude::*;

use crate::geom::Rect;
use crate::node::{leaves_of, rects_union, Node, NodeData};

verus! {

broadcast use vstd::multiset::group_multiset_axioms, vstd::seq_lib::group_to_multiset_ensures;

/// The sort key of a child during a split: its rectangle's center along
/// the chosen axis.
pub open spec fn center_key<T>(n: Node<T>, horiz: bool) -> int {
    if horiz {
        n.rect.spec_center_x()
    } else {
        n.rect.spec_center_y()
    }
}

/// Whether a split of a node with this bounding rectangle orders its
/// children by horizontal center: the wider of width and height decides,
/// ties toward the horizontal axis.
pub open spec fn split_horiz(r: Rect) -> bool {
    r.spec_width() >= r.spec_height()
}

/// Split a vector in two at the given index: the first `at` elements, and
/// the rest.
pub fn split_at<T>(left: Vec<T>, at: usize) -> (r: (Vec<T>, Vec<T>))
    requires
        at < left@.len(),
    ensures
        r.0@ == left@.subrange(0, at as int),
        r.1@ == left@.subrange(at as int, left@.len() as int),
{
    let mut left = left;
    let right = left.split_off(at);
    (left, right)
}

fn node_key<T>(n: &Node<T>, horiz: bool) -> (k: i32)
    ensures
        k == center_key(*n, horiz),
{
    let c = n.rect.center();
    if horiz {
        c.x
    } else {
        c.y
    }
}

/// Inserting an element anywhere in a sequence adds it to the multiset.
proof fn lemma_to_multiset_insert<A>(s: Seq<A>, i: int, x: A)
    requires
        0 <= i <= s.len(),
    ensures
        s.insert(i, x).to_multiset() == s.to_multiset().insert(x),
{
    let a = s.subrange(0, i);
    let b = s.subrange(i, s.len() as int);
    assert(s =~= a + b);
    vstd::seq_lib::lemma_multiset_commutative(a, b);
    vstd::seq_lib::lemma_multiset_commutative(a.push(x), b);
    assert(a.push(x).to_multiset() =~= a.to_multiset().insert(x));
    assert(s.insert(i, x).to_multiset() =~= s.to_multiset().insert(x));
}

/// `sorted` is the stable sort of `orig` by center key along the chosen
/// axis, witnessed by the permutation `perm`: position `j` of the result
/// holds the element from position `perm[j]` of the input, keys ascend,
/// and elements with equal keys keep their input order. These conditions
/// determine `sorted` and `perm` uniquely.
pub open spec fn stable_sorted_of<T>(
    orig: Seq<Node<T>>,
    sorted: Seq<Node<T>>,
    perm: Seq<int>,
    horiz: bool,
) -> bool {
    &&& perm.len() == orig.len()
    &&& sorted.len() == orig.len()
    &&& forall|j: int| 0 <= j < perm.len() ==> 0 <= #[trigger] perm[j] < orig.len()
    &&& forall|j1: int, j2: int|
        0 <= j1 < j2 < perm.len() ==> #[trigger] perm[j1] != #[trigger] perm[j2]
    &&& forall|j: int| 0 <= j < sorted.len() ==> #[trigger] sorted[j] == orig[perm[j]]
    &&& forall|j1: int, j2: int|
        0 <= j1 < j2 < sorted.len() ==> center_key(#[trigger] sorted[j1], horiz) <= center_key(
            #[trigger] sorted[j2],
            horiz,
        )
    &&& forall|j1: int, j2: int|
        0 <= j1 < j2 < sorted.len() && center_key(#[trigger] sorted[j1], horiz) == center_key(
            #[trigger] sorted[j2],
            horiz,
        ) ==> perm[j1] < perm[j2]
}

/// Stable insertion sort of a node vector by rectangle center along one
/// axis: the result is the unique stable sorted arrangement of the input.
fn sort_by_center<T>(v: &mut Vec<Node<T>>, horiz: bool)
    ensures
        final(v)@.len() == old(v)@.len(),
        final(v)@.to_multiset() == old(v)@.to_multiset(),
        forall|p: int, q: int|
            0 <= p < q < final(v)@.len() ==> center_key(#[trigger] final(v)@[p], horiz)
                <= center_key(#[trigger] final(v)@[q], horiz),
        exists|perm: Seq<int>| stable_sorted_of(old(v)@, final(v)@, perm, horiz),
{
    let ghost orig = v@;
    let n = v.len();
    let ghost mut perm: Seq<int> = Seq::new(n as nat, |j: int| j);
    if n <= 1 {
        proof {
            assert(stable_sorted_of(orig, v@, perm, horiz));
        }
        return ;
    }
    let mut i: usize = 1;
    while i < n
        invariant
            1 <= i <= n,
            v@.len() == n,
            v@.to_multiset() == old(v)@.to_multiset(),
            orig == old(v)@,
            perm.len() == n,
            forall|j: int| 0 <= j < n ==> 0 <= #[trigger] perm[j] < n,
            forall|j1: int, j2: int|
                0 <= j1 < j2 < n ==> #[trigger] perm[j1] != #[trigger] perm[j2],
            forall|j: int| 0 <= j < n ==> #[trigger] v@[j] == orig[perm[j]],
            forall|j: int| i <= j < n ==> #[trigger] perm[j] == j,
            forall|j: int| 0 <= j < i ==> #[trigger] perm[j] < i,
            forall|p: int, q: int|
                0 <= p < q < i ==> center_key(#[trigger] v@[p], horiz) <= center_key(
                    #[trigger] v@[q],
                    horiz,
                ),
            forall|j1: int, j2: int|
                0 <= j1 < j2 < i && center_key(#[trigger] v@[j1], horiz) == center_key(
                    #[trigger] v@[j2],
                    horiz,
                ) ==> perm[j1] < perm[j2],
        decreases n - i,
    {
        let ghost s1 = v@;
        let ghost perm1 = perm;
        let key_i = node_key(&v[i], horiz);
        let mut p: usize = i;
        while p > 0 && node_key(&v[p - 1], horiz) > key_i
            invariant
                0 <= p <= i < n,
                v@ == s1,
                v@.len() == n,
                key_i == center_key(v@[i as int], horiz),
                forall|q: int|
                    p <= q < i ==> center_key(#[trigger] v@[q], horiz) > center_key(
                        v@[i as int],
                        horiz,
                    ),
            decreases p,
        {
            p = p - 1;
        }
        let x = v.remove(i);
        let ghost s2 = v@;
        v.insert(p, x);
        proof {
            perm = perm1.remove(i as int).insert(p as int, i as int);
            assert(s2.to_multiset() == s1.to_multiset().remove(x));
            lemma_to_multiset_insert(s2, p as int, x);
            assert(s1.to_multiset().contains(x)) by {
                assert(s1.contains(x));
            }
            assert(s2.to_multiset().insert(x) =~= s1.to_multiset());
            // Element-for-element effect of the remove/insert pair on the
            // vector and the permutation alike.
            assert(forall|q: int| 0 <= q < p ==> #[trigger] v@[q] == s1[q]);
            assert(v@[p as int] == x);
            assert(forall|q: int| p < q <= i ==> #[trigger] v@[q] == s1[q - 1]);
            assert(forall|q: int| i < q < n ==> #[trigger] v@[q] == s1[q]);
            assert(forall|q: int| 0 <= q < p ==> #[trigger] perm[q] == perm1[q]);
            assert(perm[p as int] == i);
            assert(forall|q: int| p < q <= i ==> #[trigger] perm[q] == perm1[q - 1]);
            assert(forall|q: int| i < q < n ==> #[trigger] perm[q] == perm1[q]);
            // The new prefix is sorted: elements before `p` are unchanged
            // and at most the inserted key; elements from `p` up to `i`
            // shifted right and exceed it.
            assert forall|a: int, b: int| 0 <= a < b < i + 1 implies center_key(
                #[trigger] v@[a],
                horiz,
            ) <= center_key(#[trigger] v@[b], horiz) by {
                if p > 0 {
                    assert(center_key(s1[p - 1], horiz) <= center_key(x, horiz));
                }
            }
            // Stability: the inserted element came from after everything
            // already placed, and sits after every element of equal key.
            assert forall|j1: int, j2: int|
                0 <= j1 < j2 < i + 1 && center_key(#[trigger] v@[j1], horiz) == center_key(
                    #[trigger] v@[j2],
                    horiz,
                ) implies perm[j1] < perm[j2] by {
                if p > 0 {
                    assert(center_key(s1[p - 1], horiz) <= center_key(x, horiz));
                }
            }
        }
        i = i + 1;
    }
    proof {
        assert(stable_sorted_of(orig, v@, perm, horiz));
    }
}

impl<T> Node<T> {
    /// Split an overflowing internal node: stable-sort the children by
    /// center along the wider axis of this node's rectangle (ties toward
    /// the horizontal axis), cut at the midpoint, and build two nodes
    /// whose rectangles are recomputed exactly.
    pub fn split(self) -> (r: (Node<T>, Node<T>))
        requires
            self.sub is SubNodes,
            self.children().len() >= 2,
        ensures
            r.0.sub is SubNodes,
            r.1.sub is SubNodes,
            r.0.children().len() == self.children().len() / 2,
            r.1.children().len() == self.children().len() - self.children().len() / 2,
            r.0.children().to_multiset().add(r.1.children().to_multiset())
                == self.children().to_multiset(),
            r.0.rect == rects_union(r.0.children()),
            r.1.rect == rects_union(r.1.children()),
            r.0.leaves().add(r.1.leaves()) == leaves_of(self.children()),
            forall|p: int, q: int|
                0 <= p < r.0.children().len() && 0 <= q < r.1.children().len() ==> center_key(
                    #[trigger] r.0.children()[p],
                    split_horiz(self.rect),
                ) <= center_key(
                    #[trigger] r.1.children()[q],
                    split_horiz(self.rect),
                ),
            forall|p: int|
                0 <= p < r.0.children().len() ==> self.children().contains(
                    #[trigger] r.0.children()[p],
                ),
            forall|q: int|
                0 <= q < r.1.children().len() ==> self.children().contains(
                    #[trigger] r.1.children()[q],
                ),
            exists|sorted: Seq<Node<T>>, perm: Seq<int>|
                #![trigger stable_sorted_of(self.children(), sorted, perm, split_horiz(self.rect))]
                {
                    &&& stable_sorted_of(self.children(), sorted, perm, split_horiz(self.rect))
                    &&& r.0.children() == sorted.subrange(0, self.children().len() as int / 2)
                    &&& r.1.children() == sorted.subrange(
                        self.children().len() as int / 2,
                        self.children().len() as int,
                    )
                },
    {
        let ghost orig = self.children();
        let rect = self.rect;
        let mut subnodes = self.move_subnodes();
        let len = subnodes.len();
        let horiz = rect.width() >= rect.height();
        sort_by_center(&mut subnodes, horiz);
        let ghost sorted = subnodes@;
        let (a, b) = split_at(subnodes, len / 2);
        proof {
            assert(sorted =~= a@ + b@);
            vstd::seq_lib::lemma_multiset_commutative(a@, b@);
            crate::node::lemma_leaves_of_perm(sorted, orig);
            crate::node::lemma_leaves_of_concat(a@, b@);
        }
        let mut n1: Node<T> = Node::new(Default::default());
        let mut n2: Node<T> = Node::new(Default::default());
        n1.sub = NodeData::SubNodes(a);
        n1.update_rect();
        n2.sub = NodeData::SubNodes(b);
        n2.update_rect();
        proof {
            // Each side holds only children drawn from the input node.
            assert forall|p: int| 0 <= p < n1.children().len() implies orig.contains(
                #[trigger] n1.children()[p],
            ) by {
                assert(sorted.contains(sorted[p]));
                assert(sorted.to_multiset().contains(sorted[p]));
                assert(orig.to_multiset().contains(sorted[p]));
            }
            assert forall|q: int| 0 <= q < n2.children().len() implies orig.contains(
                #[trigger] n2.children()[q],
            ) by {
                let sq = len / 2 + q;
                assert(n2.children()[q] == sorted[sq]);
                assert(sorted.contains(sorted[sq]));
                assert(sorted.to_multiset().contains(sorted[sq]));
                assert(orig.to_multiset().contains(sorted[sq]));
            }
            // The stable-sort witness, phrased over this node's own
            // rectangle and children.
            let perm = choose|perm: Seq<int>| stable_sorted_of(orig, sorted, perm, horiz);
            assert(stable_sorted_of(orig, sorted, perm, horiz));
            assert(horiz == split_horiz(rect));
            assert(stable_sorted_of(orig, sorted, perm, split_horiz(rect)));
            assert(n1.children() == sorted.subrange(0, orig.len() as int / 2));
            assert(n2.children() == sorted.subrange(orig.len() as int / 2, orig.len() as int));
        }
        (n1, n2)
    }
}

} // verus!
