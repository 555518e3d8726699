//! Double-ended ordered traversal: an external cursor that walks the trie
//! from both ends at once and converges in the middle without
//! materializing the pair sequence.
//!
//! The cursor keeps one sibling range per level on each side: `left` is
//! the stack of ranges still open to the right of the path to the open
//! leftmost leaf, `right` the mirror stack, `common` the still-undivided
//! region between them, and `left_leaf` / `right_leaf` the two open slot
//! cursors. The model is `remaining()`: the pairs not yet yielded, in
//! ascending order; `next` takes them from the front, `next_back` from
//! the back.

use vstd::prelude::*;

use crate::key::Key;
use super::{Node, Repr};

verus! {

/// A cursor over a still-unvisited range of one node's child slots.
/// The ghost fields name the level the children stand at and the digit
/// prefix of slot 0.
struct InternalIter<'n, K, V, const B: usize> {
    children: &'n Vec<Option<Node<K, V, B>>>,
    lo: usize,
    hi: usize,
    e: Ghost<nat>,
    base: Ghost<nat>,
}

impl<'n, K: Key, V, const B: usize> InternalIter<'n, K, V, B> {
    spec fn inv(self) -> bool {
        &&& self.lo <= self.hi <= self.children@.len()
        &&& forall|j: int|
            self.lo <= j < self.hi ==> match #[trigger] self.children@[j] {
                Some(c) => c.wf(self.e@, (self.base@ + j) as nat),
                None => true,
            }
    }

    /// The pairs below the unvisited children, in order.
    spec fn rem(self) -> Seq<(K, V)> {
        Node::<K, V, B>::seq_children(
            self.children@.subrange(self.lo as int, self.hi as int),
        )
    }

    /// Advances past absent and stump children from the left; the first
    /// live child, if any, leaves the range. Its subtree held the front
    /// of the range's pairs.
    fn yield_left(&mut self) -> (r: Option<(&'n Node<K, V, B>, Ghost<int>)>)
        requires
            2 <= B,
            old(self).inv(),
        ensures
            final(self).inv(),
            final(self).children == old(self).children,
            final(self).hi == old(self).hi,
            final(self).e == old(self).e,
            final(self).base == old(self).base,
            match r {
                Some((c, gi)) => {
                    &&& old(self).lo <= gi@ < final(self).lo
                    &&& final(self).lo == gi@ + 1
                    &&& old(self).children@[gi@] == Some(*c)
                    &&& c.len_spec() != 0
                    &&& c.wf(old(self).e@, (old(self).base@ + gi@) as nat)
                    &&& old(self).rem() == c.to_seq() + final(self).rem()
                },
                None => old(self).rem() == Seq::<(K, V)>::empty() && final(self).rem() == Seq::<
                    (K, V),
                >::empty() && final(self).lo == final(self).hi,
            },
    {
        while self.lo < self.hi
            invariant
                2 <= B,
                self.inv(),
                self.children == old(self).children,
                self.hi == old(self).hi,
                self.e == old(self).e,
                self.base == old(self).base,
                old(self).lo <= self.lo,
                old(self).rem() == self.rem(),
            decreases self.hi - self.lo,
        {
            let ghost pre = *self;
            let i = self.lo;
            match &self.children[i] {
                Some(c) => {
                    if c.len != 0 {
                        self.lo = i + 1;
                        proof {
                            Self::lemma_rem_step(pre, *self, i as int);
                            assert(Node::<K, V, B>::seq_opt(pre.children@[i as int])
                                == c.to_seq());
                        }
                        return Some((c, Ghost(i as int)));
                    }
                    self.lo = i + 1;
                    proof {
                        Self::lemma_rem_step(pre, *self, i as int);
                        assert(c.wf(pre.e@, (pre.base@ + i as int) as nat));
                        assert(c.count() == c.len_spec());
                        c.lemma_to_seq_corresponds(pre.e@, (pre.base@ + i as int) as nat);
                        assert(c.to_seq() =~= Seq::<(K, V)>::empty());
                        assert(Node::<K, V, B>::seq_opt(pre.children@[i as int]) =~= Seq::<
                            (K, V),
                        >::empty());
                        assert(self.rem() =~= pre.rem());
                    }
                },
                None => {
                    self.lo = i + 1;
                    proof {
                        Self::lemma_rem_step(pre, *self, i as int);
                        assert(Node::<K, V, B>::seq_opt(pre.children@[i as int]) =~= Seq::<
                            (K, V),
                        >::empty());
                        assert(self.rem() =~= pre.rem());
                    }
                },
            }
        }
        proof {
            assert(self.children@.subrange(self.lo as int, self.hi as int) =~= Seq::<
                Option<Node<K, V, B>>,
            >::empty());
        }
        None
    }

    /// Advancing `lo` by one splits off the head child's contribution.
    proof fn lemma_rem_step(pre: Self, post: Self, i: int)
        requires
            pre.lo == i,
            post.lo == i + 1,
            pre.lo < pre.hi <= pre.children@.len(),
            post.children == pre.children,
            post.hi == pre.hi,
        ensures
            pre.rem() == Node::<K, V, B>::seq_opt(pre.children@[i]) + post.rem(),
    {
        let sub = pre.children@.subrange(pre.lo as int, pre.hi as int);
        assert(sub[0] == pre.children@[i]);
        assert(sub.drop_first() =~= pre.children@.subrange(i + 1, pre.hi as int));
        assert(Node::<K, V, B>::seq_children(sub) == Node::<K, V, B>::seq_opt(sub[0])
            + Node::<K, V, B>::seq_children(sub.drop_first()));
    }

    /// Mirror of `yield_left`: retreats past absent and stump children
    /// from the right; the last live child's subtree held the back of
    /// the range's pairs.
    fn yield_right(&mut self) -> (r: Option<(&'n Node<K, V, B>, Ghost<int>)>)
        requires
            2 <= B,
            old(self).inv(),
        ensures
            final(self).inv(),
            final(self).children == old(self).children,
            final(self).lo == old(self).lo,
            final(self).e == old(self).e,
            final(self).base == old(self).base,
            match r {
                Some((c, gi)) => {
                    &&& final(self).hi <= gi@ < old(self).hi
                    &&& final(self).hi == gi@
                    &&& old(self).children@[gi@] == Some(*c)
                    &&& c.len_spec() != 0
                    &&& c.wf(old(self).e@, (old(self).base@ + gi@) as nat)
                    &&& old(self).rem() == final(self).rem() + c.to_seq()
                },
                None => old(self).rem() == Seq::<(K, V)>::empty() && final(self).rem() == Seq::<
                    (K, V),
                >::empty() && final(self).lo == final(self).hi,
            },
    {
        while self.lo < self.hi
            invariant
                2 <= B,
                self.inv(),
                self.children == old(self).children,
                self.lo == old(self).lo,
                self.e == old(self).e,
                self.base == old(self).base,
                self.hi <= old(self).hi,
                old(self).rem() == self.rem(),
            decreases self.hi - self.lo,
        {
            let ghost pre = *self;
            let i = self.hi - 1;
            match &self.children[i] {
                Some(c) => {
                    if c.len != 0 {
                        self.hi = i;
                        proof {
                            Self::lemma_rem_step_back(pre, *self, i as int);
                            assert(Node::<K, V, B>::seq_opt(pre.children@[i as int])
                                == c.to_seq());
                        }
                        return Some((c, Ghost(i as int)));
                    }
                    self.hi = i;
                    proof {
                        Self::lemma_rem_step_back(pre, *self, i as int);
                        assert(c.wf(pre.e@, (pre.base@ + i as int) as nat));
                        assert(c.count() == c.len_spec());
                        c.lemma_to_seq_corresponds(pre.e@, (pre.base@ + i as int) as nat);
                        assert(c.to_seq() =~= Seq::<(K, V)>::empty());
                        assert(Node::<K, V, B>::seq_opt(pre.children@[i as int]) =~= Seq::<
                            (K, V),
                        >::empty());
                        assert(self.rem() =~= pre.rem());
                    }
                },
                None => {
                    self.hi = i;
                    proof {
                        Self::lemma_rem_step_back(pre, *self, i as int);
                        assert(Node::<K, V, B>::seq_opt(pre.children@[i as int]) =~= Seq::<
                            (K, V),
                        >::empty());
                        assert(self.rem() =~= pre.rem());
                    }
                },
            }
        }
        proof {
            assert(self.children@.subrange(self.lo as int, self.hi as int) =~= Seq::<
                Option<Node<K, V, B>>,
            >::empty());
        }
        None
    }

    /// Retreating `hi` by one splits off the tail child's contribution.
    proof fn lemma_rem_step_back(pre: Self, post: Self, i: int)
        requires
            pre.hi == i + 1,
            post.hi == i,
            pre.lo <= i < pre.children@.len(),
            post.children == pre.children,
            post.lo == pre.lo,
        ensures
            pre.rem() == post.rem() + Node::<K, V, B>::seq_opt(pre.children@[i]),
    {
        Node::<K, V, B>::lemma_seq_children_split(
            pre.children@.subrange(pre.lo as int, pre.hi as int),
            i - pre.lo,
        );
        let sub = pre.children@.subrange(pre.lo as int, pre.hi as int);
        assert(sub.subrange(0, i - pre.lo) =~= pre.children@.subrange(pre.lo as int, i));
        let tail = sub.subrange(i - pre.lo, sub.len() as int);
        assert(tail.len() == 1);
        assert(tail[0] == pre.children@[i]);
        assert(tail.drop_first() =~= Seq::<Option<Node<K, V, B>>>::empty());
        assert(Node::<K, V, B>::seq_children(tail) == Node::<K, V, B>::seq_opt(tail[0])
            + Node::<K, V, B>::seq_children(tail.drop_first()));
        assert(Node::<K, V, B>::seq_children(tail) =~= Node::<K, V, B>::seq_opt(
            pre.children@[i],
        ));
    }
}

/// A cursor over a still-unvisited range of one leaf's slot arrays.
struct LeafIter<'n, K, V, const B: usize> {
    keys: &'n Vec<Option<K>>,
    values: &'n Vec<Option<V>>,
    lo: usize,
    hi: usize,
}

impl<'n, K: Key, V, const B: usize> LeafIter<'n, K, V, B> {
    spec fn inv(self) -> bool {
        &&& self.lo <= self.hi <= self.keys@.len()
        &&& self.keys@.len() == self.values@.len()
        &&& forall|j: int|
            self.lo <= j < self.hi ==> ((#[trigger] self.keys@[j]) is Some <==> self.values@[j]
                is Some)
    }

    /// The pairs in the unvisited slots, in order.
    spec fn rem(self) -> Seq<(K, V)> {
        Node::<K, V, B>::seq_slots(
            self.keys@.subrange(self.lo as int, self.hi as int),
            self.values@.subrange(self.lo as int, self.hi as int),
        )
    }

    /// Takes the first unvisited pair, skipping empty slots.
    fn yield_left(&mut self) -> (r: Option<(&'n K, &'n V)>)
        requires
            old(self).inv(),
        ensures
            final(self).inv(),
            final(self).keys == old(self).keys,
            final(self).values == old(self).values,
            final(self).hi == old(self).hi,
            match r {
                Some(pr) => old(self).rem().len() > 0 && (*pr.0, *pr.1) == old(self).rem()[0]
                    && final(self).rem() == old(self).rem().drop_first(),
                None => old(self).rem() == Seq::<(K, V)>::empty() && final(self).rem() == Seq::<
                    (K, V),
                >::empty() && final(self).lo == final(self).hi,
            },
    {
        while self.lo < self.hi
            invariant
                self.inv(),
                self.keys == old(self).keys,
                self.values == old(self).values,
                self.hi == old(self).hi,
                old(self).rem() == self.rem(),
            decreases self.hi - self.lo,
        {
            let ghost pre = *self;
            let i = self.lo;
            proof {
                Self::lemma_slot_step(pre, i as int);
            }
            match (&self.keys[i], &self.values[i]) {
                (Some(k), Some(v)) => {
                    self.lo = i + 1;
                    proof {
                        assert(pre.rem() == seq![(*k, *v)] + self.rem());
                        assert(pre.rem()[0] == (*k, *v));
                        assert(pre.rem().drop_first() =~= self.rem());
                    }
                    return Some((k, v));
                },
                _ => {
                    self.lo = i + 1;
                    proof {
                        assert(pre.keys@[i as int] is None);
                        assert(pre.rem() =~= self.rem());
                    }
                },
            }
        }
        proof {
            assert(self.keys@.subrange(self.lo as int, self.hi as int) =~= Seq::<
                Option<K>,
            >::empty());
            assert(self.values@.subrange(self.lo as int, self.hi as int) =~= Seq::<
                Option<V>,
            >::empty());
        }
        None
    }

    /// Advancing `lo` by one splits off the head slot's contribution.
    proof fn lemma_slot_step(pre: Self, i: int)
        requires
            pre.inv(),
            pre.lo == i,
            pre.lo < pre.hi,
        ensures
            pre.rem() == (match (pre.keys@[i], pre.values@[i]) {
                (Some(k), Some(v)) => seq![(k, v)],
                _ => Seq::<(K, V)>::empty(),
            }) + Node::<K, V, B>::seq_slots(
                pre.keys@.subrange(i + 1, pre.hi as int),
                pre.values@.subrange(i + 1, pre.hi as int),
            ),
    {
        let ks = pre.keys@.subrange(pre.lo as int, pre.hi as int);
        let vs = pre.values@.subrange(pre.lo as int, pre.hi as int);
        assert(ks[0] == pre.keys@[i]);
        assert(vs[0] == pre.values@[i]);
        assert(ks.drop_first() =~= pre.keys@.subrange(i + 1, pre.hi as int));
        assert(vs.drop_first() =~= pre.values@.subrange(i + 1, pre.hi as int));
    }

    /// Takes the last unvisited pair, skipping empty slots.
    fn yield_right(&mut self) -> (r: Option<(&'n K, &'n V)>)
        requires
            old(self).inv(),
        ensures
            final(self).inv(),
            final(self).keys == old(self).keys,
            final(self).values == old(self).values,
            final(self).lo == old(self).lo,
            match r {
                Some(pr) => old(self).rem().len() > 0 && (*pr.0, *pr.1) == old(self).rem()[
                    old(self).rem().len() - 1
                ] && final(self).rem() == old(self).rem().drop_last(),
                None => old(self).rem() == Seq::<(K, V)>::empty() && final(self).rem() == Seq::<
                    (K, V),
                >::empty() && final(self).lo == final(self).hi,
            },
    {
        while self.lo < self.hi
            invariant
                self.inv(),
                self.keys == old(self).keys,
                self.values == old(self).values,
                self.lo == old(self).lo,
                old(self).rem() == self.rem(),
            decreases self.hi - self.lo,
        {
            let ghost pre = *self;
            let i = self.hi - 1;
            proof {
                Self::lemma_slot_step_back(pre, i as int);
            }
            match (&self.keys[i], &self.values[i]) {
                (Some(k), Some(v)) => {
                    self.hi = i;
                    proof {
                        assert(pre.rem() == self.rem() + seq![(*k, *v)]);
                        assert(pre.rem()[pre.rem().len() - 1] == (*k, *v));
                        assert(pre.rem().drop_last() =~= self.rem());
                    }
                    return Some((k, v));
                },
                _ => {
                    self.hi = i;
                    proof {
                        assert(pre.keys@[i as int] is None);
                        assert(pre.rem() =~= self.rem());
                    }
                },
            }
        }
        proof {
            assert(self.keys@.subrange(self.lo as int, self.hi as int) =~= Seq::<
                Option<K>,
            >::empty());
            assert(self.values@.subrange(self.lo as int, self.hi as int) =~= Seq::<
                Option<V>,
            >::empty());
        }
        None
    }

    /// Retreating `hi` by one splits off the tail slot's contribution.
    proof fn lemma_slot_step_back(pre: Self, i: int)
        requires
            pre.inv(),
            pre.hi == i + 1,
            pre.lo <= i,
        ensures
            pre.rem() == Node::<K, V, B>::seq_slots(
                pre.keys@.subrange(pre.lo as int, i),
                pre.values@.subrange(pre.lo as int, i),
            ) + (match (pre.keys@[i], pre.values@[i]) {
                (Some(k), Some(v)) => seq![(k, v)],
                _ => Seq::<(K, V)>::empty(),
            }),
    {
        Node::<K, V, B>::lemma_seq_slots_split(
            pre.keys@.subrange(pre.lo as int, pre.hi as int),
            pre.values@.subrange(pre.lo as int, pre.hi as int),
            i - pre.lo,
        );
        let ks = pre.keys@.subrange(pre.lo as int, pre.hi as int);
        let vs = pre.values@.subrange(pre.lo as int, pre.hi as int);
        assert(ks.subrange(0, i - pre.lo) =~= pre.keys@.subrange(pre.lo as int, i));
        assert(vs.subrange(0, i - pre.lo) =~= pre.values@.subrange(pre.lo as int, i));
        let kt = ks.subrange(i - pre.lo, ks.len() as int);
        let vt = vs.subrange(i - pre.lo, vs.len() as int);
        assert(kt.len() == 1);
        assert(kt[0] == pre.keys@[i]);
        assert(vt[0] == pre.values@[i]);
        assert(kt.drop_first() =~= Seq::<Option<K>>::empty());
        assert(vt.drop_first() =~= Seq::<Option<V>>::empty());
        assert(Node::<K, V, B>::seq_slots(kt, vt) == (match (kt[0], vt[0]) {
            (Some(k), Some(v)) => seq![(k, v)],
            _ => Seq::<(K, V)>::empty(),
        }) + Node::<K, V, B>::seq_slots(kt.drop_first(), vt.drop_first()));
        assert(Node::<K, V, B>::seq_slots(kt, vt) =~= (match (pre.keys@[i], pre.values@[i]) {
            (Some(k), Some(v)) => seq![(k, v)],
            _ => Seq::<(K, V)>::empty(),
        }));
    }
}

/// The double-ended cursor over one trie node's pairs.
pub struct Iter<'n, K, V, const B: usize> {
    common: Option<InternalIter<'n, K, V, B>>,
    left: Vec<InternalIter<'n, K, V, B>>,
    right: Vec<InternalIter<'n, K, V, B>>,
    left_leaf: Option<LeafIter<'n, K, V, B>>,
    right_leaf: Option<LeafIter<'n, K, V, B>>,
}

impl<'n, K: Key, V, const B: usize> Iter<'n, K, V, B> {
    spec fn rem_leaf(l: Option<LeafIter<'n, K, V, B>>) -> Seq<(K, V)> {
        match l {
            Some(li) => li.rem(),
            None => Seq::empty(),
        }
    }

    spec fn rem_common(c: Option<InternalIter<'n, K, V, B>>) -> Seq<(K, V)> {
        match c {
            Some(f) => f.rem(),
            None => Seq::empty(),
        }
    }

    /// Contribution of the left stack: deepest (last pushed) frame first.
    spec fn rem_stack_rev(fs: Seq<InternalIter<'n, K, V, B>>) -> Seq<(K, V)>
        decreases fs.len(),
    {
        if fs.len() == 0 {
            Seq::empty()
        } else {
            fs.last().rem() + Self::rem_stack_rev(fs.drop_last())
        }
    }

    /// Contribution of the right stack: shallowest (first pushed) frame
    /// first.
    spec fn rem_stack(fs: Seq<InternalIter<'n, K, V, B>>) -> Seq<(K, V)>
        decreases fs.len(),
    {
        if fs.len() == 0 {
            Seq::empty()
        } else {
            fs.first().rem() + Self::rem_stack(fs.drop_first())
        }
    }

    /// The pairs not yet yielded, in ascending order: the open left leaf,
    /// the left path's unvisited siblings deepest first, the undivided
    /// middle region, the right path's unvisited siblings shallowest
    /// first, and the open right leaf.
    pub closed spec fn remaining(self) -> Seq<(K, V)> {
        Self::rem_leaf(self.left_leaf) + Self::rem_stack_rev(self.left@) + Self::rem_common(
            self.common,
        ) + Self::rem_stack(self.right@) + Self::rem_leaf(self.right_leaf)
    }

    pub closed spec fn inv(self) -> bool {
        &&& 2 <= B
        &&& match self.common {
            Some(f) => f.inv(),
            None => true,
        }
        &&& forall|i: int| 0 <= i < self.left@.len() ==> (#[trigger] self.left@[i]).inv()
        &&& forall|i: int| 0 <= i < self.right@.len() ==> (#[trigger] self.right@[i]).inv()
        &&& match self.left_leaf {
            Some(li) => li.inv(),
            None => true,
        }
        &&& match self.right_leaf {
            Some(li) => li.inv(),
            None => true,
        }
    }

    /// Appending a frame to the right stack appends its pairs.
    proof fn lemma_rem_stack_push(fs: Seq<InternalIter<'n, K, V, B>>, f: InternalIter<'n, K, V, B>)
        ensures
            Self::rem_stack(fs.push(f)) == Self::rem_stack(fs) + f.rem(),
        decreases fs.len(),
    {
        if fs.len() == 0 {
            assert(fs.push(f).first() == f);
            assert(fs.push(f).drop_first() =~= Seq::<InternalIter<'n, K, V, B>>::empty());
            assert(Self::rem_stack(fs.push(f)) == f.rem() + Self::rem_stack(
                fs.push(f).drop_first(),
            ));
            assert(Self::rem_stack(fs.push(f).drop_first()) == Seq::<(K, V)>::empty());
            assert(Self::rem_stack(fs) == Seq::<(K, V)>::empty());
            assert(Self::rem_stack(fs.push(f)) =~= Self::rem_stack(fs) + f.rem());
        } else {
            assert(fs.push(f).first() == fs.first());
            assert(fs.push(f).drop_first() =~= fs.drop_first().push(f));
            Self::lemma_rem_stack_push(fs.drop_first(), f);
            assert((fs.first().rem() + Self::rem_stack(fs.drop_first())) + f.rem()
                =~= fs.first().rem() + (Self::rem_stack(fs.drop_first()) + f.rem()));
        }
    }

    /// A cursor over the node's pairs, open at both ends. The node's
    /// whole pair sequence is still to come.
    pub fn new(node: &'n Node<K, V, B>) -> (r: Self)
        requires
            2 <= B,
            exists|e: nat, p: nat| #[trigger] node.wf(e, p),
        ensures
            r.inv(),
            r.remaining() == node.to_seq(),
    {
        let ghost (e, p) = choose|e: nat, p: nat| node.wf(e, p);
        match &node.repr {
            Repr::Internal { children } => {
                let f = InternalIter {
                    children,
                    lo: 0,
                    hi: children.len(),
                    e: Ghost((e - 1) as nat),
                    base: Ghost((p * B as nat) as nat),
                };
                let r = Iter {
                    common: Some(f),
                    left: Vec::new(),
                    right: Vec::new(),
                    left_leaf: None,
                    right_leaf: None,
                };
                proof {
                    assert(f.inv());
                    assert(children@.subrange(0, children@.len() as int) =~= children@);
                    assert(f.rem() == node.to_seq());
                    assert(r.remaining() =~= node.to_seq());
                }
                r
            },
            Repr::Leaf { keys, values } => {
                let li = LeafIter { keys, values, lo: 0, hi: keys.len() };
                let r = Iter {
                    common: None,
                    left: Vec::new(),
                    right: Vec::new(),
                    left_leaf: Some(li),
                    right_leaf: None,
                };
                proof {
                    assert(li.inv());
                    assert(keys@.subrange(0, keys@.len() as int) =~= keys@);
                    assert(values@.subrange(0, values@.len() as int) =~= values@);
                    assert(li.rem() == node.to_seq());
                    assert(r.remaining() =~= node.to_seq());
                }
                r
            },
        }
    }

    /// Opens the leftmost live descent path below `child`, pushing one
    /// left frame per internal level, until a leaf becomes the open left
    /// leaf. The child's pairs step to the front of the remainder.
    fn descend_left(
        &mut self,
        child: &'n Node<K, V, B>,
        Ghost(e): Ghost<nat>,
        Ghost(p): Ghost<nat>,
    )
        requires
            old(self).inv(),
            child.wf(e, p),
            child.len_spec() != 0,
            Self::rem_leaf(old(self).left_leaf) == Seq::<(K, V)>::empty(),
        ensures
            final(self).inv(),
            final(self).remaining() == child.to_seq() + old(self).remaining(),
            Self::rem_leaf(final(self).left_leaf).len() > 0,
            final(self).common == old(self).common,
            final(self).right == old(self).right,
            final(self).right_leaf == old(self).right_leaf,
        decreases e,
    {
        proof {
            assert(child.count() == child.len_spec());
            child.lemma_to_seq_corresponds(e, p);
        }
        match &child.repr {
            Repr::Internal { children } => {
                let mut current = InternalIter {
                    children,
                    lo: 0,
                    hi: children.len(),
                    e: Ghost((e - 1) as nat),
                    base: Ghost((p * B as nat) as nat),
                };
                proof {
                    assert(current.inv());
                    assert(children@.subrange(0, children@.len() as int) =~= children@);
                    assert(current.rem() == child.to_seq());
                }
                let y = current.yield_left();
                let ghost cur1 = current;
                self.left.push(current);
                proof {
                    assert(self.left@ == old(self).left@.push(cur1));
                    assert(self.left@.last() == cur1);
                    assert(self.left@.drop_last() =~= old(self).left@);
                    assert(Self::rem_stack_rev(self.left@) == cur1.rem() + Self::rem_stack_rev(
                        old(self).left@,
                    ));
                    assert(self.remaining() =~= cur1.rem() + old(self).remaining());
                }
                match y {
                    Some((g, gi)) => {
                        let ghost mid = *self;
                        self.descend_left(
                            g,
                            Ghost((e - 1) as nat),
                            Ghost((p * B as nat + gi@) as nat),
                        );
                        proof {
                            assert(self.remaining() == g.to_seq() + mid.remaining());
                            assert(child.to_seq() == g.to_seq() + cur1.rem());
                            assert(g.to_seq() + (cur1.rem() + old(self).remaining()) =~= (
                            g.to_seq() + cur1.rem()) + old(self).remaining());
                            assert(self.remaining() == child.to_seq() + old(self).remaining());
                        }
                    },
                    None => {
                        proof {
                            assert(child.to_seq() == Seq::<(K, V)>::empty());
                            assert(child.to_seq().len() == child.count());
                            assert(false);
                        }
                    },
                }
            },
            Repr::Leaf { keys, values } => {
                let li = LeafIter { keys, values, lo: 0, hi: keys.len() };
                self.left_leaf = Some(li);
                proof {
                    assert(li.inv());
                    assert(keys@.subrange(0, keys@.len() as int) =~= keys@);
                    assert(values@.subrange(0, values@.len() as int) =~= values@);
                    assert(li.rem() == child.to_seq());
                    assert(li.rem().len() == child.count());
                    assert(self.remaining() =~= child.to_seq() + old(self).remaining());
                }
            },
        }
    }

    /// Mirror of `descend_left` for the right side: the child's pairs
    /// step to the back of the remainder.
    fn descend_right(
        &mut self,
        child: &'n Node<K, V, B>,
        Ghost(e): Ghost<nat>,
        Ghost(p): Ghost<nat>,
    )
        requires
            old(self).inv(),
            child.wf(e, p),
            child.len_spec() != 0,
            Self::rem_leaf(old(self).right_leaf) == Seq::<(K, V)>::empty(),
        ensures
            final(self).inv(),
            final(self).remaining() == old(self).remaining() + child.to_seq(),
            Self::rem_leaf(final(self).right_leaf).len() > 0,
            final(self).common == old(self).common,
            final(self).left == old(self).left,
            final(self).left_leaf == old(self).left_leaf,
        decreases e,
    {
        proof {
            assert(child.count() == child.len_spec());
            child.lemma_to_seq_corresponds(e, p);
        }
        match &child.repr {
            Repr::Internal { children } => {
                let mut current = InternalIter {
                    children,
                    lo: 0,
                    hi: children.len(),
                    e: Ghost((e - 1) as nat),
                    base: Ghost((p * B as nat) as nat),
                };
                proof {
                    assert(current.inv());
                    assert(children@.subrange(0, children@.len() as int) =~= children@);
                    assert(current.rem() == child.to_seq());
                }
                let y = current.yield_right();
                let ghost cur1 = current;
                self.right.push(current);
                proof {
                    assert(self.right@ == old(self).right@.push(cur1));
                    Self::lemma_rem_stack_push(old(self).right@, cur1);
                    assert(self.remaining() =~= old(self).remaining() + cur1.rem());
                }
                match y {
                    Some((g, gi)) => {
                        let ghost mid = *self;
                        self.descend_right(
                            g,
                            Ghost((e - 1) as nat),
                            Ghost((p * B as nat + gi@) as nat),
                        );
                        proof {
                            assert(self.remaining() == mid.remaining() + g.to_seq());
                            assert(child.to_seq() == cur1.rem() + g.to_seq());
                            assert((old(self).remaining() + cur1.rem()) + g.to_seq() =~= old(
                                self,
                            ).remaining() + (cur1.rem() + g.to_seq()));
                            assert(self.remaining() == old(self).remaining() + child.to_seq());
                        }
                    },
                    None => {
                        proof {
                            assert(child.to_seq() == Seq::<(K, V)>::empty());
                            assert(child.to_seq().len() == child.count());
                            assert(false);
                        }
                    },
                }
            },
            Repr::Leaf { keys, values } => {
                let li = LeafIter { keys, values, lo: 0, hi: keys.len() };
                self.right_leaf = Some(li);
                proof {
                    assert(li.inv());
                    assert(keys@.subrange(0, keys@.len() as int) =~= keys@);
                    assert(values@.subrange(0, values@.len() as int) =~= values@);
                    assert(li.rem() == child.to_seq());
                    assert(li.rem().len() == child.count());
                    assert(self.remaining() =~= old(self).remaining() + child.to_seq());
                }
            },
        }
    }
}

impl<'n, K: Key, V, const B: usize> Iter<'n, K, V, B> {
    /// Finds the next leaf for the forward direction once the open left
    /// leaf is drained: backtracks the left path, then the undivided
    /// region, then promotes right frames into it, and descends into the
    /// first live subtree found. `None` means the whole structure is
    /// exhausted and only the open right leaf may still hold pairs.
    fn next_leaf_left(&mut self) -> (r: Option<()>)
        requires
            old(self).inv(),
            Self::rem_leaf(old(self).left_leaf) == Seq::<(K, V)>::empty(),
        ensures
            final(self).inv(),
            final(self).remaining() == old(self).remaining(),
            r is Some ==> Self::rem_leaf(final(self).left_leaf).len() > 0,
            r is None ==> {
                &&& final(self).left@.len() == 0
                &&& final(self).common is None
                &&& final(self).right@.len() == 0
                &&& Self::rem_leaf(final(self).left_leaf) == Seq::<(K, V)>::empty()
                &&& final(self).remaining() == Self::rem_leaf(final(self).right_leaf)
            },
    {
        let ghost r0 = old(self).remaining();
        // backtrack the left path
        while self.left.len() > 0
            invariant
                self.inv(),
                Self::rem_leaf(self.left_leaf) == Seq::<(K, V)>::empty(),
                self.remaining() == r0,
                r0 == old(self).remaining(),
            decreases self.left@.len(),
        {
            let ghost pre = *self;
            let popped = self.left.pop();
            let mut last = match popped {
                Some(f) => f,
                None => {
                    proof {
                        assert(false);
                    }
                    vstd::pervasive::unreached()
                },
            };
            proof {
                assert(last == pre.left@.last());
                assert(self.left@ =~= pre.left@.drop_last());
                assert(Self::rem_stack_rev(pre.left@) == last.rem() + Self::rem_stack_rev(
                    self.left@,
                ));
                assert(last.inv());
                assert(pre.remaining() =~= last.rem() + self.remaining());
            }
            let ghost mid = *self;
            let ghost le = last.e@;
            let ghost lb = last.base@;
            let ghost last0 = last;
            let y = last.yield_left();
            let ghost last1 = last;
            match y {
                Some((child, gi)) => {
                    self.left.push(last);
                    proof {
                        assert(last0.rem() == child.to_seq() + last1.rem());
                        assert(self.left@ == mid.left@.push(last1));
                        assert(self.left@.last() == last1);
                        assert(self.left@.drop_last() =~= mid.left@);
                        assert(Self::rem_stack_rev(self.left@) == last1.rem()
                            + Self::rem_stack_rev(mid.left@));
                        assert(self.remaining() =~= last1.rem() + mid.remaining());
                        assert(r0 =~= child.to_seq() + self.remaining());
                    }
                    let ghost mid2 = *self;
                    self.descend_left(child, Ghost(le), Ghost((lb + gi@) as nat));
                    proof {
                        assert(self.remaining() == child.to_seq() + mid2.remaining());
                        assert(self.remaining() =~= r0);
                    }
                    return Some(());
                },
                None => {
                    proof {
                        assert(last1.rem() == Seq::<(K, V)>::empty());
                        assert(self.remaining() =~= r0);
                    }
                },
            }
        }
        // the undivided middle region
        let ghost pre2 = *self;
        let taken = self.common.take();
        match taken {
            Some(mut c) => {
                proof {
                    assert(c.inv());
                    assert(Self::rem_stack_rev(pre2.left@) == Seq::<(K, V)>::empty());
                    assert(r0 =~= c.rem() + (Self::rem_stack(self.right@) + Self::rem_leaf(
                        self.right_leaf,
                    )));
                }
                let ghost ce = c.e@;
                let ghost cb = c.base@;
                let ghost c0 = c;
                let y = c.yield_left();
                let ghost c1 = c;
                match y {
                    Some((child, gi)) => {
                        self.common = Some(c);
                        proof {
                            assert(c0.rem() == child.to_seq() + c1.rem());
                            assert(self.remaining() =~= c1.rem() + (Self::rem_stack(self.right@)
                                + Self::rem_leaf(self.right_leaf)));
                            assert(r0 =~= child.to_seq() + self.remaining());
                        }
                        let ghost mid2 = *self;
                        self.descend_left(child, Ghost(ce), Ghost((cb + gi@) as nat));
                        proof {
                            assert(self.remaining() == child.to_seq() + mid2.remaining());
                            assert(self.remaining() =~= r0);
                        }
                        return Some(());
                    },
                    None => {
                        proof {
                            assert(c1.rem() == Seq::<(K, V)>::empty());
                            assert(self.remaining() =~= r0);
                        }
                    },
                }
            },
            None => {},
        }
        // promote right frames into the middle region
        while self.right.len() > 0
            invariant
                self.inv(),
                Self::rem_leaf(self.left_leaf) == Seq::<(K, V)>::empty(),
                self.left@.len() == 0,
                self.common is None,
                self.remaining() == r0,
                r0 == old(self).remaining(),
            decreases self.right@.len(),
        {
            let ghost pre3 = *self;
            let f = self.right.remove(0);
            proof {
                assert(f == pre3.right@.first());
                assert(self.right@ =~= pre3.right@.drop_first());
                assert(Self::rem_stack(pre3.right@) == f.rem() + Self::rem_stack(self.right@));
                assert(f.inv());
                assert(pre3.remaining() =~= f.rem() + self.remaining());
            }
            let mut c = f;
            let ghost ce = c.e@;
            let ghost cb = c.base@;
            let ghost c0 = c;
            let y = c.yield_left();
            let ghost c1 = c;
            match y {
                Some((child, gi)) => {
                    self.common = Some(c);
                    proof {
                        assert(c0.rem() == child.to_seq() + c1.rem());
                        assert(self.remaining() =~= c1.rem() + (Self::rem_stack(self.right@)
                            + Self::rem_leaf(self.right_leaf)));
                        assert(r0 =~= child.to_seq() + self.remaining());
                    }
                    let ghost mid2 = *self;
                    self.descend_left(child, Ghost(ce), Ghost((cb + gi@) as nat));
                    proof {
                        assert(self.remaining() == child.to_seq() + mid2.remaining());
                        assert(self.remaining() =~= r0);
                    }
                    return Some(());
                },
                None => {
                    proof {
                        assert(c1.rem() == Seq::<(K, V)>::empty());
                        assert(self.remaining() =~= r0);
                    }
                },
            }
        }
        proof {
            assert(self.remaining() =~= Self::rem_leaf(self.right_leaf));
        }
        None
    }

    /// Mirror of `next_leaf_left` for the backward direction.
    fn next_leaf_right(&mut self) -> (r: Option<()>)
        requires
            old(self).inv(),
            Self::rem_leaf(old(self).right_leaf) == Seq::<(K, V)>::empty(),
        ensures
            final(self).inv(),
            final(self).remaining() == old(self).remaining(),
            r is Some ==> Self::rem_leaf(final(self).right_leaf).len() > 0,
            r is None ==> {
                &&& final(self).left@.len() == 0
                &&& final(self).common is None
                &&& final(self).right@.len() == 0
                &&& Self::rem_leaf(final(self).right_leaf) == Seq::<(K, V)>::empty()
                &&& final(self).remaining() == Self::rem_leaf(final(self).left_leaf)
            },
    {
        let ghost r0 = old(self).remaining();
        // backtrack the right path
        while self.right.len() > 0
            invariant
                self.inv(),
                Self::rem_leaf(self.right_leaf) == Seq::<(K, V)>::empty(),
                self.remaining() == r0,
                r0 == old(self).remaining(),
            decreases self.right@.len(),
        {
            let ghost pre = *self;
            let popped = self.right.pop();
            let mut last = match popped {
                Some(f) => f,
                None => {
                    proof {
                        assert(false);
                    }
                    vstd::pervasive::unreached()
                },
            };
            proof {
                assert(last == pre.right@.last());
                assert(self.right@ =~= pre.right@.drop_last());
                Self::lemma_rem_stack_push(self.right@, last);
                assert(pre.right@ =~= self.right@.push(last));
                assert(Self::rem_stack(pre.right@) == Self::rem_stack(self.right@) + last.rem());
                assert(last.inv());
                assert(pre.remaining() =~= self.remaining() + last.rem());
            }
            let ghost mid = *self;
            let ghost le = last.e@;
            let ghost lb = last.base@;
            let ghost last0 = last;
            let y = last.yield_right();
            let ghost last1 = last;
            match y {
                Some((child, gi)) => {
                    self.right.push(last);
                    proof {
                        assert(last0.rem() == last1.rem() + child.to_seq());
                        assert(self.right@ == mid.right@.push(last1));
                        Self::lemma_rem_stack_push(mid.right@, last1);
                        assert(self.remaining() =~= mid.remaining() + last1.rem());
                        assert(r0 =~= self.remaining() + child.to_seq());
                    }
                    let ghost mid2 = *self;
                    self.descend_right(child, Ghost(le), Ghost((lb + gi@) as nat));
                    proof {
                        assert(self.remaining() == mid2.remaining() + child.to_seq());
                        assert(self.remaining() =~= r0);
                    }
                    return Some(());
                },
                None => {
                    proof {
                        assert(last1.rem() == Seq::<(K, V)>::empty());
                        assert(self.remaining() =~= r0);
                    }
                },
            }
        }
        // the undivided middle region
        let ghost pre2 = *self;
        let taken = self.common.take();
        match taken {
            Some(mut c) => {
                proof {
                    assert(c.inv());
                    assert(Self::rem_stack(pre2.right@) == Seq::<(K, V)>::empty());
                    assert(r0 =~= (Self::rem_leaf(self.left_leaf) + Self::rem_stack_rev(
                        self.left@,
                    )) + c.rem());
                }
                let ghost ce = c.e@;
                let ghost cb = c.base@;
                let ghost c0 = c;
                let y = c.yield_right();
                let ghost c1 = c;
                match y {
                    Some((child, gi)) => {
                        self.common = Some(c);
                        proof {
                            assert(c0.rem() == c1.rem() + child.to_seq());
                            assert(self.remaining() =~= (Self::rem_leaf(self.left_leaf)
                                + Self::rem_stack_rev(self.left@)) + c1.rem());
                            assert(r0 =~= self.remaining() + child.to_seq());
                        }
                        let ghost mid2 = *self;
                        self.descend_right(child, Ghost(ce), Ghost((cb + gi@) as nat));
                        proof {
                            assert(self.remaining() == mid2.remaining() + child.to_seq());
                            assert(self.remaining() =~= r0);
                        }
                        return Some(());
                    },
                    None => {
                        proof {
                            assert(c1.rem() == Seq::<(K, V)>::empty());
                            assert(self.remaining() =~= r0);
                        }
                    },
                }
            },
            None => {},
        }
        // promote left frames into the middle region, shallowest first
        while self.left.len() > 0
            invariant
                self.inv(),
                Self::rem_leaf(self.right_leaf) == Seq::<(K, V)>::empty(),
                self.right@.len() == 0,
                self.common is None,
                self.remaining() == r0,
                r0 == old(self).remaining(),
            decreases self.left@.len(),
        {
            let ghost pre3 = *self;
            let f = self.left.remove(0);
            proof {
                assert(f == pre3.left@.first());
                assert(self.left@ =~= pre3.left@.drop_first());
                Self::lemma_rem_stack_rev_first(pre3.left@);
                assert(Self::rem_stack_rev(pre3.left@) == Self::rem_stack_rev(self.left@)
                    + f.rem());
                assert(f.inv());
                assert(pre3.remaining() =~= self.remaining() + f.rem());
            }
            let mut c = f;
            let ghost ce = c.e@;
            let ghost cb = c.base@;
            let ghost c0 = c;
            let y = c.yield_right();
            let ghost c1 = c;
            match y {
                Some((child, gi)) => {
                    self.common = Some(c);
                    proof {
                        assert(c0.rem() == c1.rem() + child.to_seq());
                        assert(self.remaining() =~= (Self::rem_leaf(self.left_leaf)
                            + Self::rem_stack_rev(self.left@)) + c1.rem());
                        assert(r0 =~= self.remaining() + child.to_seq());
                    }
                    let ghost mid2 = *self;
                    self.descend_right(child, Ghost(ce), Ghost((cb + gi@) as nat));
                    proof {
                        assert(self.remaining() == mid2.remaining() + child.to_seq());
                        assert(self.remaining() =~= r0);
                    }
                    return Some(());
                },
                None => {
                    proof {
                        assert(c1.rem() == Seq::<(K, V)>::empty());
                        assert(self.remaining() =~= r0);
                    }
                },
            }
        }
        proof {
            assert(self.remaining() =~= Self::rem_leaf(self.left_leaf));
        }
        None
    }

    /// Taking the first frame off the left stack splits off the pairs
    /// that follow all deeper frames.
    proof fn lemma_rem_stack_rev_first(fs: Seq<InternalIter<'n, K, V, B>>)
        requires
            fs.len() > 0,
        ensures
            Self::rem_stack_rev(fs) == Self::rem_stack_rev(fs.drop_first()) + fs.first().rem(),
        decreases fs.len(),
    {
        if fs.len() == 1 {
            assert(fs.drop_first() =~= Seq::<InternalIter<'n, K, V, B>>::empty());
            assert(fs.last() == fs.first());
            assert(fs.drop_last() =~= Seq::<InternalIter<'n, K, V, B>>::empty());
            assert(Self::rem_stack_rev(fs) == fs.last().rem() + Self::rem_stack_rev(
                fs.drop_last(),
            ));
            assert(Self::rem_stack_rev(fs) =~= Self::rem_stack_rev(fs.drop_first())
                + fs.first().rem());
        } else {
            Self::lemma_rem_stack_rev_first(fs.drop_last());
            assert(fs.drop_last().first() == fs.first());
            assert(fs.drop_last().drop_first() =~= fs.drop_first().drop_last());
            assert(fs.drop_first().last() == fs.last());
            assert(Self::rem_stack_rev(fs.drop_first()) == fs.last().rem() + Self::rem_stack_rev(
                fs.drop_first().drop_last(),
            ));
            assert(Self::rem_stack_rev(fs) == fs.last().rem() + Self::rem_stack_rev(
                fs.drop_last(),
            ));
            assert(Self::rem_stack_rev(fs.drop_last()) == Self::rem_stack_rev(
                fs.drop_first().drop_last(),
            ) + fs.first().rem());
            assert(fs.last().rem() + (Self::rem_stack_rev(fs.drop_first().drop_last())
                + fs.first().rem()) =~= (fs.last().rem() + Self::rem_stack_rev(
                fs.drop_first().drop_last(),
            )) + fs.first().rem());
        }
    }
}

impl<'n, K: Key, V, const B: usize> Iter<'n, K, V, B> {
    /// The parts of the remainder that follow the open left leaf.
    spec fn tail_parts(self) -> Seq<(K, V)> {
        Self::rem_stack_rev(self.left@) + Self::rem_common(self.common) + Self::rem_stack(
            self.right@,
        ) + Self::rem_leaf(self.right_leaf)
    }

    /// The parts of the remainder that precede the open right leaf.
    spec fn head_parts(self) -> Seq<(K, V)> {
        Self::rem_leaf(self.left_leaf) + Self::rem_stack_rev(self.left@) + Self::rem_common(
            self.common,
        ) + Self::rem_stack(self.right@)
    }

    /// The next pair in ascending order; absent exactly when no pairs
    /// remain anywhere.
    #[verifier::rlimit(100)]
    #[verifier::spinoff_prover]
    pub fn next(&mut self) -> (r: Option<(&'n K, &'n V)>)
        requires
            old(self).inv(),
        ensures
            final(self).inv(),
            match r {
                Some(pr) => {
                    &&& old(self).remaining().len() > 0
                    &&& (*pr.0, *pr.1) == old(self).remaining()[0]
                    &&& final(self).remaining() == old(self).remaining().drop_first()
                },
                None => old(self).remaining().len() == 0 && final(self).remaining() == old(
                    self,
                ).remaining(),
            },
    {
        let ghost r0 = old(self).remaining();
        // drain the open left leaf
        let ll = self.left_leaf.take();
        match ll {
            Some(mut li) => {
                let ghost li0 = li;
                let ghost tp = self.tail_parts();
                let y = li.yield_left();
                self.left_leaf = Some(li);
                let ghost li1 = li;
                proof {
                    assert(r0 =~= li0.rem() + tp);
                    assert(self.remaining() =~= li1.rem() + tp);
                }
                match y {
                    Some(pr) => {
                        proof {
                            assert(r0[0] == li0.rem()[0]);
                            assert(self.remaining() =~= r0.drop_first());
                        }
                        return Some(pr);
                    },
                    None => {
                        proof {
                            assert(self.remaining() =~= r0);
                        }
                    },
                }
            },
            None => {},
        }
        proof {
            assert(Self::rem_leaf(self.left_leaf) == Seq::<(K, V)>::empty());
            assert(self.remaining() == r0);
        }
        // open the next leaf from the left
        match self.next_leaf_left() {
            Some(_) => {
                let ll2 = self.left_leaf.take();
                match ll2 {
                    Some(mut li) => {
                        let ghost li0 = li;
                        let ghost tp = self.tail_parts();
                        let y = li.yield_left();
                        self.left_leaf = Some(li);
                        let ghost li1 = li;
                        proof {
                            assert(r0 =~= li0.rem() + tp);
                            assert(self.remaining() =~= li1.rem() + tp);
                        }
                        match y {
                            Some(pr) => {
                                proof {
                                    assert(r0[0] == li0.rem()[0]);
                                    assert(self.remaining() =~= r0.drop_first());
                                }
                                Some(pr)
                            },
                            None => {
                                proof {
                                    assert(false);
                                }
                                None
                            },
                        }
                    },
                    None => {
                        proof {
                            assert(false);
                        }
                        None
                    },
                }
            },
            None => {
                // only the open right leaf may still hold pairs
                core::mem::swap(&mut self.left_leaf, &mut self.right_leaf);
                proof {
                    assert(Self::rem_leaf(self.right_leaf) == Seq::<(K, V)>::empty());
                    assert(self.remaining() =~= Self::rem_leaf(self.left_leaf));
                    assert(self.remaining() == r0);
                }
                let ll3 = self.left_leaf.take();
                match ll3 {
                    Some(mut li) => {
                        let ghost li0 = li;
                        let y = li.yield_left();
                        self.left_leaf = Some(li);
                        let ghost li1 = li;
                        proof {
                            assert(r0 =~= li0.rem());
                            assert(self.remaining() =~= li1.rem());
                        }
                        match y {
                            Some(pr) => {
                                proof {
                                    assert(r0[0] == li0.rem()[0]);
                                    assert(self.remaining() =~= r0.drop_first());
                                }
                                Some(pr)
                            },
                            None => {
                                proof {
                                    assert(r0.len() == 0);
                                    assert(self.remaining() =~= r0);
                                }
                                None
                            },
                        }
                    },
                    None => {
                        proof {
                            assert(r0.len() == 0);
                            assert(self.remaining() =~= r0);
                        }
                        None
                    },
                }
            },
        }
    }

    /// The next pair in descending order; absent exactly when no pairs
    /// remain anywhere. Together with `next`, every live pair is yielded
    /// exactly once under any interleaving.
    #[verifier::rlimit(100)]
    #[verifier::spinoff_prover]
    pub fn next_back(&mut self) -> (r: Option<(&'n K, &'n V)>)
        requires
            old(self).inv(),
        ensures
            final(self).inv(),
            match r {
                Some(pr) => {
                    &&& old(self).remaining().len() > 0
                    &&& (*pr.0, *pr.1) == old(self).remaining()[old(self).remaining().len() - 1]
                    &&& final(self).remaining() == old(self).remaining().drop_last()
                },
                None => old(self).remaining().len() == 0 && final(self).remaining() == old(
                    self,
                ).remaining(),
            },
    {
        let ghost r0 = old(self).remaining();
        // drain the open right leaf
        let rl = self.right_leaf.take();
        match rl {
            Some(mut li) => {
                let ghost li0 = li;
                let ghost hp = self.head_parts();
                let y = li.yield_right();
                self.right_leaf = Some(li);
                let ghost li1 = li;
                proof {
                    assert(r0 =~= hp + li0.rem());
                    assert(self.remaining() =~= hp + li1.rem());
                }
                match y {
                    Some(pr) => {
                        proof {
                            assert(r0[r0.len() - 1] == li0.rem()[li0.rem().len() - 1]);
                            assert(self.remaining() =~= r0.drop_last());
                        }
                        return Some(pr);
                    },
                    None => {
                        proof {
                            assert(self.remaining() =~= r0);
                        }
                    },
                }
            },
            None => {},
        }
        proof {
            assert(Self::rem_leaf(self.right_leaf) == Seq::<(K, V)>::empty());
            assert(self.remaining() == r0);
        }
        // open the next leaf from the right
        match self.next_leaf_right() {
            Some(_) => {
                let rl2 = self.right_leaf.take();
                match rl2 {
                    Some(mut li) => {
                        let ghost li0 = li;
                        let ghost hp = self.head_parts();
                        let y = li.yield_right();
                        self.right_leaf = Some(li);
                        let ghost li1 = li;
                        proof {
                            assert(r0 =~= hp + li0.rem());
                            assert(self.remaining() =~= hp + li1.rem());
                        }
                        match y {
                            Some(pr) => {
                                proof {
                                    assert(r0[r0.len() - 1] == li0.rem()[li0.rem().len() - 1]);
                                    assert(self.remaining() =~= r0.drop_last());
                                }
                                Some(pr)
                            },
                            None => {
                                proof {
                                    assert(false);
                                }
                                None
                            },
                        }
                    },
                    None => {
                        proof {
                            assert(false);
                        }
                        None
                    },
                }
            },
            None => {
                // only the open left leaf may still hold pairs
                core::mem::swap(&mut self.left_leaf, &mut self.right_leaf);
                proof {
                    assert(Self::rem_leaf(self.left_leaf) == Seq::<(K, V)>::empty());
                    assert(self.remaining() =~= Self::rem_leaf(self.right_leaf));
                    assert(self.remaining() == r0);
                }
                let rl3 = self.right_leaf.take();
                match rl3 {
                    Some(mut li) => {
                        let ghost li0 = li;
                        let y = li.yield_right();
                        self.right_leaf = Some(li);
                        let ghost li1 = li;
                        proof {
                            assert(r0 =~= li0.rem());
                            assert(self.remaining() =~= li1.rem());
                        }
                        match y {
                            Some(pr) => {
                                proof {
                                    assert(r0[r0.len() - 1] == li0.rem()[li0.rem().len() - 1]);
                                    assert(self.remaining() =~= r0.drop_last());
                                }
                                Some(pr)
                            },
                            None => {
                                proof {
                                    assert(r0.len() == 0);
                                    assert(self.remaining() =~= r0);
                                }
                                None
                            },
                        }
                    },
                    None => {
                        proof {
                            assert(r0.len() == 0);
                            assert(self.remaining() =~= r0);
                        }
                        None
                    },
                }
            },
        }
    }
}

/// Ascending key traversal, consumable from both ends.
pub struct Keys<'n, K, V, const B: usize> {
    pub(super) inner: Iter<'n, K, V, B>,
}

impl<'n, K: Key, V, const B: usize> Keys<'n, K, V, B> {
    /// The pairs not yet yielded, in ascending key order.
    pub closed spec fn remaining(self) -> Seq<(K, V)> {
        self.inner.remaining()
    }

    pub closed spec fn inv(self) -> bool {
        self.inner.inv()
    }

    /// A key traversal over the node's pairs, none yet yielded.
    pub fn new(node: &'n Node<K, V, B>) -> (it: Self)
        requires
            2 <= B,
            exists|e: nat, p: nat| #[trigger] node.wf(e, p),
        ensures
            it.inv(),
            it.remaining() == node.to_seq(),
    {
        Keys { inner: Iter::new(node) }
    }

    /// The next key in ascending order.
    pub fn next(&mut self) -> (r: Option<&'n K>)
        requires
            old(self).inv(),
        ensures
            final(self).inv(),
            match r {
                Some(k) => {
                    &&& old(self).remaining().len() > 0
                    &&& *k == old(self).remaining()[0].0
                    &&& final(self).remaining() == old(self).remaining().drop_first()
                },
                None => old(self).remaining().len() == 0 && final(self).remaining() == old(
                    self,
                ).remaining(),
            },
    {
        match self.inner.next() {
            Some((k, _)) => Some(k),
            None => None,
        }
    }

    /// The next key in descending order.
    pub fn next_back(&mut self) -> (r: Option<&'n K>)
        requires
            old(self).inv(),
        ensures
            final(self).inv(),
            match r {
                Some(k) => {
                    &&& old(self).remaining().len() > 0
                    &&& *k == old(self).remaining()[old(self).remaining().len() - 1].0
                    &&& final(self).remaining() == old(self).remaining().drop_last()
                },
                None => old(self).remaining().len() == 0 && final(self).remaining() == old(
                    self,
                ).remaining(),
            },
    {
        match self.inner.next_back() {
            Some((k, _)) => Some(k),
            None => None,
        }
    }
}

/// Ascending value traversal, consumable from both ends.
pub struct Values<'n, K, V, const B: usize> {
    pub(super) inner: Iter<'n, K, V, B>,
}

impl<'n, K: Key, V, const B: usize> Values<'n, K, V, B> {
    /// The pairs not yet yielded, in ascending key order.
    pub closed spec fn remaining(self) -> Seq<(K, V)> {
        self.inner.remaining()
    }

    pub closed spec fn inv(self) -> bool {
        self.inner.inv()
    }

    /// A value traversal over the node's pairs, none yet yielded.
    pub fn new(node: &'n Node<K, V, B>) -> (it: Self)
        requires
            2 <= B,
            exists|e: nat, p: nat| #[trigger] node.wf(e, p),
        ensures
            it.inv(),
            it.remaining() == node.to_seq(),
    {
        Values { inner: Iter::new(node) }
    }

    /// The next value in ascending key order.
    pub fn next(&mut self) -> (r: Option<&'n V>)
        requires
            old(self).inv(),
        ensures
            final(self).inv(),
            match r {
                Some(v) => {
                    &&& old(self).remaining().len() > 0
                    &&& *v == old(self).remaining()[0].1
                    &&& final(self).remaining() == old(self).remaining().drop_first()
                },
                None => old(self).remaining().len() == 0 && final(self).remaining() == old(
                    self,
                ).remaining(),
            },
    {
        match self.inner.next() {
            Some((_, v)) => Some(v),
            None => None,
        }
    }

    /// The next value in descending key order.
    pub fn next_back(&mut self) -> (r: Option<&'n V>)
        requires
            old(self).inv(),
        ensures
            final(self).inv(),
            match r {
                Some(v) => {
                    &&& old(self).remaining().len() > 0
                    &&& *v == old(self).remaining()[old(self).remaining().len() - 1].1
                    &&& final(self).remaining() == old(self).remaining().drop_last()
                },
                None => old(self).remaining().len() == 0 && final(self).remaining() == old(
                    self,
                ).remaining(),
            },
    {
        match self.inner.next_back() {
            Some((_, v)) => Some(v),
            None => None,
        }
    }
}

/// Ascending pair traversal, consumable from both ends.
pub struct Pairs<'n, K, V, const B: usize> {
    pub(super) inner: Iter<'n, K, V, B>,
}

impl<'n, K: Key, V, const B: usize> Pairs<'n, K, V, B> {
    /// The pairs not yet yielded, in ascending key order.
    pub closed spec fn remaining(self) -> Seq<(K, V)> {
        self.inner.remaining()
    }

    pub closed spec fn inv(self) -> bool {
        self.inner.inv()
    }

    /// A pair traversal over the node's pairs, none yet yielded.
    pub fn new(node: &'n Node<K, V, B>) -> (it: Self)
        requires
            2 <= B,
            exists|e: nat, p: nat| #[trigger] node.wf(e, p),
        ensures
            it.inv(),
            it.remaining() == node.to_seq(),
    {
        Pairs { inner: Iter::new(node) }
    }

    /// The next pair in ascending key order.
    pub fn next(&mut self) -> (r: Option<(&'n K, &'n V)>)
        requires
            old(self).inv(),
        ensures
            final(self).inv(),
            match r {
                Some(pr) => {
                    &&& old(self).remaining().len() > 0
                    &&& (*pr.0, *pr.1) == old(self).remaining()[0]
                    &&& final(self).remaining() == old(self).remaining().drop_first()
                },
                None => old(self).remaining().len() == 0 && final(self).remaining() == old(
                    self,
                ).remaining(),
            },
    {
        self.inner.next()
    }

    /// The next pair in descending key order.
    pub fn next_back(&mut self) -> (r: Option<(&'n K, &'n V)>)
        requires
            old(self).inv(),
        ensures
            final(self).inv(),
            match r {
                Some(pr) => {
                    &&& old(self).remaining().len() > 0
                    &&& (*pr.0, *pr.1) == old(self).remaining()[old(self).remaining().len() - 1]
                    &&& final(self).remaining() == old(self).remaining().drop_last()
                },
                None => old(self).remaining().len() == 0 && final(self).remaining() == old(
                    self,
                ).remaining(),
            },
    {
        self.inner.next_back()
    }
}

/// Convergence law: `next` consumes the shared remainder from the front
/// and `next_back` from the back, so any interleaving of the two splits
/// the pair sequence at some point `f`; the pairs taken forward and the
/// pairs taken backward together form exactly the multiset of the full
/// sequence — no pair twice, none left out.
pub proof fn lemma_two_ended_partition<K, V>(s: Seq<(K, V)>, f: int)
    requires
        0 <= f <= s.len(),
    ensures
        s.subrange(0, f).to_multiset().add(
            s.subrange(f, s.len() as int).to_multiset(),
        ) == s.to_multiset(),
{
    let a = s.subrange(0, f);
    let b = s.subrange(f, s.len() as int);
    assert(s =~= a + b);
    vstd::seq_lib::lemma_multiset_commutative(a, b);
}

} // verus!
