//! The insertion engine: recursive descent into the least-growth internal
//! child, overflow-driven splitting on the way back up, and tree-height
//! growth at the root.

use vstd::prelude::*;

use crate::node::{
    leaves_of, lemma_leaves_of_push, lemma_leaves_of_swap_remove, lemma_seq_hgt_ge,
    lemma_union_push, lemma_union_wf_bounded, lemma_wf_root_from_wf, rects_union, InsertResult,
    Node, NodeData,
};
use crate::geom::{lemma_grow_contains, lemma_grow_monotone, lemma_grow_wf_bounded};
use vstd::multiset::Multiset;

verus! {

broadcast use vstd::multiset::group_multiset_axioms, vstd::seq_lib::group_to_multiset_ensures;

/// Whether any node of the vector is internal.
fn has_internal_child<T>(v: &Vec<Node<T>>) -> (r: bool)
    ensures
        r == (exists|i: int| 0 <= i < v@.len() && !((#[trigger] v@[i]).sub is Leaf)),
{
    let n = v.len();
    let mut i: usize = 0;
    while i < n
        invariant
            0 <= i <= n,
            n == v@.len(),
            forall|j: int| 0 <= j < i ==> (#[trigger] v@[j]).sub is Leaf,
        decreases n - i,
    {
        if !v[i].is_leaf() {
            return true;
        }
        i = i + 1;
    }
    false
}

impl<T> Node<T> {
    /// One insertion step on this node. Either the rebuilt node now
    /// contains `new` and every leaf it held before, or the node is at
    /// capacity and hands one extra well-formed child back to the caller.
    /// A node whose rectangle was the exact union of its children keeps
    /// that exactness.
    pub fn insert_(self, new: Node<T>, degree: usize) -> (res: InsertResult<T>)
        requires
            self.wf_root(degree as nat),
            new.wf(degree as nat),
            degree >= 2,
        ensures
            match res {
                InsertResult::Inserted(n) => {
                    &&& n.wf_root(degree as nat)
                    &&& n.children().len() >= 1
                    &&& self.wf(degree as nat) ==> n.wf(degree as nat)
                    &&& n.leaves() == self.leaves().add(new.leaves())
                    &&& new.sub is Leaf ==> n.hgt() == self.hgt()
                },
                InsertResult::Full(n, ov) => {
                    &&& n.wf_root(degree as nat)
                    &&& n.children().len() == degree
                    &&& self.wf(degree as nat) ==> n.wf(degree as nat)
                    &&& ov.wf(degree as nat)
                    &&& n.leaves().add(ov.leaves()) == self.leaves().add(new.leaves())
                    &&& new.sub is Leaf ==> {
                        &&& ov.hgt() < self.hgt()
                        &&& (if n.hgt() >= ov.hgt() + 1 {
                            n.hgt() as int
                        } else {
                            ov.hgt() + 1int
                        }) == self.hgt()
                    }
                },
            },
        decreases self.hgt(),
    {
        let ghost d = degree as nat;
        let ghost self0 = self;
        let ghost new0 = new;
        let ghost c = self.children();
        let mut this = self;
        let has_subs = has_internal_child(this.subnodes());
        if has_subs {
            // There are internal children: descend into the best of them.
            let node = this.best_node(&new.rect);
            let ghost i = choose|i: int|
                #![trigger c[i]]
                {
                    &&& 0 <= i < c.len()
                    &&& node == c[i]
                    &&& !(node.sub is Leaf)
                    &&& this.children() == c.update(i, c.last()).drop_last()
                };
            let ghost rest = this.children();
            proof {
                assert(node.wf(d));
                lemma_wf_root_from_wf(node, d);
                lemma_seq_hgt_ge(c, i);
                lemma_leaves_of_swap_remove(c, i);
                assert forall|k: int| 0 <= k < rest.len() implies (#[trigger] rest[k]).wf(d) by {
                    if k == i {
                        assert(rest[k] == c[c.len() - 1]);
                    } else {
                        assert(rest[k] == c[k]);
                    }
                }
                // The height of the child list is the larger of the
                // removed child's height and the rest's.
                crate::node::lemma_to_multiset_swap_remove(c, i);
                assert(seq![node].drop_last() =~= Seq::<Node<T>>::empty());
                assert(seq![node].last() == node);
                assert(crate::node::seq_hgt(Seq::<Node<T>>::empty()) == 0);
                assert(seq![node].len() == 1);
                assert(crate::node::seq_hgt(seq![node]) == node.hgt());
                assert(Seq::<Node<T>>::empty().push(node) =~= seq![node]);
                assert(Seq::<Node<T>>::empty().to_multiset().len() == 0);
                assert(Seq::<Node<T>>::empty().to_multiset() =~= Multiset::<Node<T>>::empty());
                assert(seq![node].to_multiset() =~= Multiset::<Node<T>>::empty().insert(node));
                assert(c.contains(c[i]));
                assert(c.to_multiset().count(node) > 0);
                assert forall|v: Node<T>|
                    rest.to_multiset().add(seq![node].to_multiset()).count(v) == c.to_multiset()
                        .count(v) by {
                    assert(rest.to_multiset().count(v) == c.to_multiset().remove(node).count(v));
                }
                assert(rest.to_multiset().add(seq![node].to_multiset()) =~= c.to_multiset());
                crate::node::lemma_seq_hgt_partition(c, rest, seq![node]);
            }
            match node.insert_(new, degree) {
                InsertResult::Inserted(newchild) => {
                    // The child absorbed the entry: put it back and
                    // recompute this node's rectangle exactly.
                    proof {
                        lemma_wf_root_from_wf(newchild, d);
                    }
                    this.mut_subnodes().push(newchild);
                    this.update_rect();
                    proof {
                        let cc = this.children();
                        assert(cc == rest.push(newchild));
                        assert forall|k: int| 0 <= k < cc.len() implies (#[trigger] cc[k]).wf(
                            d,
                        ) by {
                            if k < rest.len() {
                                assert(cc[k] == rest[k]);
                            } else {
                                assert(cc[k] == newchild);
                            }
                        }
                        lemma_union_wf_bounded(cc);
                        lemma_leaves_of_push(rest, newchild);
                        assert(this.leaves() =~= self0.leaves().add(new.leaves())) by {
                            assert forall|v: Node<T>|
                                this.leaves().count(v) == self0.leaves().add(
                                    new.leaves(),
                                ).count(v) by {
                                assert(leaves_of(rest).add(node.leaves()).count(v) == leaves_of(
                                    c,
                                ).count(v));
                                assert(leaves_of(cc).count(v) == leaves_of(rest).add(
                                    newchild.leaves(),
                                ).count(v));
                                assert(newchild.leaves().count(v) == node.leaves().add(
                                    new.leaves(),
                                ).count(v));
                            }
                        }
                        assert(this.wf(d));
                        crate::node::lemma_seq_hgt_push(rest, newchild);
                        if new0.sub is Leaf {
                            assert(newchild.hgt() == node.hgt());
                            assert(this.hgt() == 1 + crate::node::seq_hgt(cc));
                            assert(self0.hgt() == 1 + crate::node::seq_hgt(c));
                            assert(crate::node::seq_hgt(cc) == crate::node::seq_hgt(c));
                        }
                    }
                    InsertResult::Inserted(this)
                },
                InsertResult::Full(mut fullchild, ov) => {
                    // The child is at capacity: merge the overflow into it
                    // and split it in two; push both halves here if there
                    // is room, else propagate the second half upward.
                    let ghost fullchild0 = fullchild;
                    let ghost fc = fullchild.children();
                    proof {
                        assert(fullchild.wf_root(d));
                        assert(ov.wf(d));
                    }
                    fullchild.mut_subnodes().push(ov);
                    let ghost fc2 = fullchild.children();
                    proof {
                        assert(fc2 == fc.push(ov));
                        assert forall|k: int| 0 <= k < fc2.len() implies (#[trigger] fc2[k]).wf(
                            d,
                        ) by {
                            if k < fc.len() {
                                assert(fc2[k] == fc[k]);
                            } else {
                                assert(fc2[k] == ov);
                            }
                        }
                        lemma_leaves_of_push(fc, ov);
                        crate::node::lemma_seq_hgt_push(fc, ov);
                        assert(fullchild0.hgt() == 1 + crate::node::seq_hgt(fc));
                    }
                    let (n1, n2) = fullchild.split();
                    proof {
                        assert forall|k: int| 0 <= k < n1.children().len() implies (
                        #[trigger] n1.children()[k]).wf(d) by {
                            assert(fc2.contains(n1.children()[k]));
                        }
                        assert forall|k: int| 0 <= k < n2.children().len() implies (
                        #[trigger] n2.children()[k]).wf(d) by {
                            assert(fc2.contains(n2.children()[k]));
                        }
                        assert(n1.children().len() >= 1);
                        assert(n2.children().len() >= 1);
                        assert(n1.children().len() <= degree);
                        assert(n2.children().len() <= degree);
                        lemma_union_wf_bounded(n1.children());
                        lemma_union_wf_bounded(n2.children());
                        assert(n1.wf(d));
                        assert(n2.wf(d));
                        crate::node::lemma_seq_hgt_partition(fc2, n1.children(), n2.children());
                        assert(n1.hgt() == 1 + crate::node::seq_hgt(n1.children()));
                        assert(n2.hgt() == 1 + crate::node::seq_hgt(n2.children()));
                    }
                    this.mut_subnodes().push(n1);
                    let ghost rest1 = this.children();
                    proof {
                        assert(rest1 == rest.push(n1));
                        assert forall|k: int| 0 <= k < rest1.len() implies (
                        #[trigger] rest1[k]).wf(d) by {
                            if k < rest.len() {
                                assert(rest1[k] == rest[k]);
                            } else {
                                assert(rest1[k] == n1);
                            }
                        }
                        lemma_leaves_of_push(rest, n1);
                        crate::node::lemma_seq_hgt_push(rest, n1);
                    }
                    if this.subnodes().len() < degree {
                        this.mut_subnodes().push(n2);
                        this.update_rect();
                        proof {
                            let cc = this.children();
                            assert(cc == rest1.push(n2));
                            assert forall|k: int| 0 <= k < cc.len() implies (#[trigger] cc[k]).wf(
                                d,
                            ) by {
                                if k < rest1.len() {
                                    assert(cc[k] == rest1[k]);
                                } else {
                                    assert(cc[k] == n2);
                                }
                            }
                            lemma_union_wf_bounded(cc);
                            lemma_leaves_of_push(rest1, n2);
                            assert(this.leaves() =~= self0.leaves().add(new.leaves())) by {
                                assert forall|v: Node<T>|
                                    this.leaves().count(v) == self0.leaves().add(
                                        new.leaves(),
                                    ).count(v) by {
                                    assert(leaves_of(rest).add(node.leaves()).count(v)
                                        == leaves_of(c).count(v));
                                    assert(leaves_of(cc).count(v) == leaves_of(rest1).add(
                                        n2.leaves(),
                                    ).count(v));
                                    assert(leaves_of(rest1).count(v) == leaves_of(rest).add(
                                        n1.leaves(),
                                    ).count(v));
                                    assert(n1.leaves().add(n2.leaves()).count(v) == leaves_of(
                                        fc2,
                                    ).count(v));
                                    assert(leaves_of(fc2).count(v) == leaves_of(fc).add(
                                        ov.leaves(),
                                    ).count(v));
                                    assert(fullchild0.leaves().add(ov.leaves()).count(v)
                                        == node.leaves().add(new.leaves()).count(v));
                                    assert(fullchild0.leaves() == leaves_of(fc));
                                }
                            }
                            assert(this.wf(d));
                            crate::node::lemma_seq_hgt_push(rest1, n2);
                            if new0.sub is Leaf {
                                assert(ov.hgt() < node.hgt());
                                assert(1 + crate::node::seq_hgt(fc2) == node.hgt());
                                assert((if n1.hgt() >= n2.hgt() {
                                    n1.hgt()
                                } else {
                                    n2.hgt()
                                }) == node.hgt());
                                assert(this.hgt() == 1 + crate::node::seq_hgt(cc));
                                assert(self0.hgt() == 1 + crate::node::seq_hgt(c));
                                assert(crate::node::seq_hgt(cc) == crate::node::seq_hgt(c));
                            }
                        }
                        InsertResult::Inserted(this)
                    } else {
                        this.update_rect();
                        proof {
                            lemma_union_wf_bounded(rest1);
                            assert(this.leaves().add(n2.leaves()) =~= self0.leaves().add(
                                new.leaves(),
                            )) by {
                                assert forall|v: Node<T>|
                                    this.leaves().add(n2.leaves()).count(v) == self0.leaves().add(
                                        new.leaves(),
                                    ).count(v) by {
                                    assert(leaves_of(rest).add(node.leaves()).count(v)
                                        == leaves_of(c).count(v));
                                    assert(leaves_of(rest1).count(v) == leaves_of(rest).add(
                                        n1.leaves(),
                                    ).count(v));
                                    assert(n1.leaves().add(n2.leaves()).count(v) == leaves_of(
                                        fc2,
                                    ).count(v));
                                    assert(leaves_of(fc2).count(v) == leaves_of(fc).add(
                                        ov.leaves(),
                                    ).count(v));
                                    assert(fullchild0.leaves().add(ov.leaves()).count(v)
                                        == node.leaves().add(new.leaves()).count(v));
                                    assert(fullchild0.leaves() == leaves_of(fc));
                                }
                            }
                            assert(this.wf(d));
                            if new0.sub is Leaf {
                                assert(1 + crate::node::seq_hgt(fc2) == node.hgt());
                                assert((if n1.hgt() >= n2.hgt() {
                                    n1.hgt()
                                } else {
                                    n2.hgt()
                                }) == node.hgt());
                                assert(node.hgt() <= crate::node::seq_hgt(c));
                                assert(this.hgt() == 1 + crate::node::seq_hgt(rest1));
                                assert(self0.hgt() == 1 + crate::node::seq_hgt(c));
                                assert(n2.hgt() < self0.hgt());
                                assert((if this.hgt() >= n2.hgt() + 1 {
                                    this.hgt() as int
                                } else {
                                    n2.hgt() + 1int
                                }) == self0.hgt());
                            }
                        }
                        InsertResult::Full(this, n2)
                    }
                },
            }
        } else if this.subnodes().len() < degree {
            // No internal child: the new node becomes a child right here.
            this.rect = this.rect.grow(&new.rect);
            this.mut_subnodes().push(new);
            proof {
                let cc = this.children();
                assert(cc == c.push(new));
                assert forall|k: int| 0 <= k < cc.len() implies (#[trigger] cc[k]).wf(d) by {
                    if k < c.len() {
                        assert(cc[k] == c[k]);
                    } else {
                        assert(cc[k] == new);
                    }
                }
                lemma_union_push(c, new);
                lemma_grow_wf_bounded(self0.rect, new.rect);
                if c.len() >= 1 {
                    lemma_grow_monotone(rects_union(c), new.rect, self0.rect, new.rect);
                } else {
                    lemma_grow_contains(self0.rect, new.rect);
                }
                lemma_leaves_of_push(c, new);
                assert(this.wf_root(d));
                if self0.wf(d) {
                    assert(this.rect == rects_union(cc));
                    assert(this.wf(d));
                }
                crate::node::lemma_seq_hgt_push(c, new0);
                if new0.sub is Leaf {
                    assert(new0.hgt() == 0);
                    assert(this.hgt() == 1 + crate::node::seq_hgt(cc));
                    assert(self0.hgt() == 1 + crate::node::seq_hgt(c));
                }
            }
            InsertResult::Inserted(this)
        } else {
            // This node is full and cannot route: hand the entry back.
            proof {
                if new0.sub is Leaf {
                    assert(new0.hgt() == 0);
                    assert(self0.hgt() >= 1);
                }
            }
            InsertResult::Full(this, new)
        }
    }

    /// Insert a new node into the tree rooted here, returning the new
    /// root. The result holds every leaf the tree and the new node held;
    /// when the root itself overflows the tree grows one level, the only
    /// point at which its height increases.
    pub fn insert(self, new: Node<T>, degree: usize) -> (root: Node<T>)
        requires
            self.wf_root(degree as nat),
            new.wf(degree as nat),
            degree >= 2,
        ensures
            root.wf_root(degree as nat),
            root.children().len() >= 1,
            self.wf(degree as nat) ==> root.wf(degree as nat),
            root.leaves() == self.leaves().add(new.leaves()),
            new.sub is Leaf ==> root.hgt() == self.hgt() || root.hgt() == self.hgt() + 1,
    {
        let ghost d = degree as nat;
        let ghost self0 = self;
        let ghost new0 = new;
        match self.insert_(new, degree) {
            InsertResult::Inserted(node) => node,
            InsertResult::Full(node, ov) => {
                // The root is full: merge the overflow, split, and grow
                // the tree by one level with a fresh root over both halves.
                let mut node = node;
                let ghost node0 = node;
                let mut newroot: Node<T> = Node::new(node.rect);
                let ghost nc = node.children();
                node.mut_subnodes().push(ov);
                let ghost nc2 = node.children();
                proof {
                    assert(nc2 == nc.push(ov));
                    assert forall|k: int| 0 <= k < nc2.len() implies (#[trigger] nc2[k]).wf(d) by {
                        if k < nc.len() {
                            assert(nc2[k] == nc[k]);
                        } else {
                            assert(nc2[k] == ov);
                        }
                    }
                    lemma_leaves_of_push(nc, ov);
                    crate::node::lemma_seq_hgt_push(nc, ov);
                    assert(node0.hgt() == 1 + crate::node::seq_hgt(nc));
                }
                let (n1, n2) = node.split();
                proof {
                    assert forall|k: int| 0 <= k < n1.children().len() implies (
                    #[trigger] n1.children()[k]).wf(d) by {
                        assert(nc2.contains(n1.children()[k]));
                    }
                    assert forall|k: int| 0 <= k < n2.children().len() implies (
                    #[trigger] n2.children()[k]).wf(d) by {
                        assert(nc2.contains(n2.children()[k]));
                    }
                    lemma_union_wf_bounded(n1.children());
                    lemma_union_wf_bounded(n2.children());
                    assert(n1.wf(d));
                    assert(n2.wf(d));
                    crate::node::lemma_seq_hgt_partition(nc2, n1.children(), n2.children());
                    assert(n1.hgt() == 1 + crate::node::seq_hgt(n1.children()));
                    assert(n2.hgt() == 1 + crate::node::seq_hgt(n2.children()));
                }
                newroot.mut_subnodes().push(n1);
                newroot.mut_subnodes().push(n2);
                newroot.update_rect();
                proof {
                    let cc = newroot.children();
                    assert(cc == Seq::<Node<T>>::empty().push(n1).push(n2));
                    assert(cc[0] == n1 && cc[1] == n2);
                    assert(cc.len() == 2);
                    lemma_union_wf_bounded(cc);
                    lemma_leaves_of_push(Seq::<Node<T>>::empty(), n1);
                    lemma_leaves_of_push(Seq::<Node<T>>::empty().push(n1), n2);
                    assert(newroot.leaves() =~= self0.leaves().add(new.leaves())) by {
                        assert forall|v: Node<T>|
                            newroot.leaves().count(v) == self0.leaves().add(new.leaves()).count(
                                v,
                            ) by {
                            assert(leaves_of(Seq::<Node<T>>::empty()).count(v) == 0);
                            assert(leaves_of(cc).count(v) == leaves_of(
                                Seq::<Node<T>>::empty().push(n1),
                            ).add(n2.leaves()).count(v));
                            assert(leaves_of(Seq::<Node<T>>::empty().push(n1)).count(v)
                                == leaves_of(Seq::<Node<T>>::empty()).add(n1.leaves()).count(v));
                            assert(n1.leaves().add(n2.leaves()).count(v) == leaves_of(
                                nc2,
                            ).count(v));
                            assert(leaves_of(nc2).count(v) == leaves_of(nc).add(
                                ov.leaves(),
                            ).count(v));
                            assert(node0.leaves().add(ov.leaves()).count(v) == self0.leaves().add(
                                new.leaves(),
                            ).count(v));
                            assert(node0.leaves() == leaves_of(nc));
                        }
                    }
                    assert(newroot.wf(d));
                    crate::node::lemma_seq_hgt_push(Seq::<Node<T>>::empty(), n1);
                    crate::node::lemma_seq_hgt_push(Seq::<Node<T>>::empty().push(n1), n2);
                    if new0.sub is Leaf {
                        assert(ov.hgt() < self0.hgt());
                        assert(1 + crate::node::seq_hgt(nc2) == self0.hgt());
                        assert((if n1.hgt() >= n2.hgt() {
                            n1.hgt()
                        } else {
                            n2.hgt()
                        }) == self0.hgt());
                        assert(newroot.hgt() == 1 + crate::node::seq_hgt(cc));
                        assert(newroot.hgt() == self0.hgt() + 1);
                    }
                }
                newroot
            },
        }
    }
}

} // verus!
