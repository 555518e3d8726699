//! The trie node. An `Internal` node owns `B` optional children; a `Leaf`
//! owns `B` optional key slots and `B` parallel value slots, addressed by
//! the key's final digit. Every node caches `len`, the number of live
//! pairs in its subtree; a present child with `len == 0` is a stump that
//! every read path skips.
//!
//! The node is modelled two ways: as a partial map from key values to the
//! stored pairs (`view_at`), which the mutators speak of, and as the
//! ascending sequence of live pairs (`to_seq`), which ordered traversal
//! speaks of; `lemma_to_seq_corresponds` ties the two together.

pub mod iter;

pub use iter::Keys;
pub use iter::Pairs;
pub use iter::Values;

use vstd::prelude::*;
use vstd::arithmetic::power::{pow, lemma_pow0, lemma_pow1, lemma_pow_adds, lemma_pow_positive};
use vstd::arithmetic::div_mod::{
    lemma_fundamental_div_mod, lemma_fundamental_div_mod_converse, lemma_div_denominator,
    lemma_mod_bound, lemma_div_pos_is_pos,
};

use crate::key::{Key, digit_of, max_depth_spec, lemma_max_depth_char};

verus! {

enum Repr<K, V, const B: usize> {
    Internal { children: Vec<Option<Node<K, V, B>>> },
    Leaf { keys: Vec<Option<K>>, values: Vec<Option<V>> },
}

/// One trie node, carrying the cached count of live pairs below it.
pub struct Node<K, V, const B: usize> {
    repr: Repr<K, V, B>,
    len: usize,
}

impl<K: Key, V, const B: usize> Node<K, V, B> {
    /// The number of trie levels below the root, fixed by the key type and
    /// the branching factor: leaves sit `levels()` steps below the root.
    pub open spec fn levels() -> nat {
        max_depth_spec(B as nat, K::max_spec())
    }

    /// The prefix a key leaves after its low `e + 1` digits are cut off:
    /// the path of digits leading to the subtree that spans `e` levels
    /// below its own place and holds the key.
    pub open spec fn prefix_at(k: nat, e: nat) -> nat {
        (k as int / pow(B as int, (e + 1) as nat)) as nat
    }

    /// The number of live pairs stored below this node.
    pub closed spec fn count(self) -> nat
        decreases self,
    {
        match self.repr {
            Repr::Internal { children } => Self::count_seq(children@),
            Repr::Leaf { keys, values } => Self::count_slots(keys@),
        }
    }

    pub closed spec fn count_seq(cs: Seq<Option<Node<K, V, B>>>) -> nat
        decreases cs,
    {
        if cs.len() == 0 {
            0
        } else {
            Self::count_opt(cs[0]) + Self::count_seq(cs.drop_first())
        }
    }

    pub closed spec fn count_opt(c: Option<Node<K, V, B>>) -> nat
        decreases c,
    {
        match c {
            Some(n) => n.count(),
            None => 0,
        }
    }

    pub closed spec fn count_slots(ks: Seq<Option<K>>) -> nat
        decreases ks,
    {
        if ks.len() == 0 {
            0
        } else {
            (if ks[0] is Some {
                1nat
            } else {
                0nat
            }) + Self::count_slots(ks.drop_first())
        }
    }

    /// Well-formedness of a node standing `e` levels above the leaves,
    /// reached along the digit path `prefix`: internal nodes stand above
    /// level 0 and leaves at it, slot arrays have length `B` exactly,
    /// every stored key writes `prefix` followed by its slot index, and
    /// the cached `len` counts the live pairs below.
    pub closed spec fn wf(self, e: nat, prefix: nat) -> bool
        decreases self,
    {
        match self.repr {
            Repr::Internal { children } => {
                &&& 1 <= e <= Self::levels()
                &&& children@.len() == B
                &&& self.len == Self::count_seq(children@)
                &&& forall|i: int|
                    0 <= i < B ==> match #[trigger] children@[i] {
                        Some(c) => c.wf((e - 1) as nat, (prefix * B + i) as nat),
                        None => true,
                    }
            },
            Repr::Leaf { keys, values } => {
                &&& e == 0
                &&& keys@.len() == B
                &&& values@.len() == B
                &&& self.len == Self::count_slots(keys@)
                &&& forall|i: int|
                    0 <= i < B ==> ((#[trigger] keys@[i]) is Some <==> values@[i] is Some)
                &&& forall|i: int|
                    0 <= i < B ==> match #[trigger] keys@[i] {
                        Some(k) => k.as_nat() == prefix * B + i,
                        None => true,
                    }
            },
        }
    }

    /// The pair the subtree holds for key value `k`, if any, found by
    /// following `k`'s digits from `e` levels above the leaves downward.
    pub closed spec fn find_at(self, e: nat, k: nat) -> Option<(K, V)>
        decreases self,
    {
        match self.repr {
            Repr::Internal { children } => {
                let i = digit_of(k, B as nat, e) as int;
                if 0 <= i < children@.len() {
                    match children@[i] {
                        Some(c) => c.find_at((e - 1) as nat, k),
                        None => None,
                    }
                } else {
                    None
                }
            },
            Repr::Leaf { keys, values } => {
                let i = digit_of(k, B as nat, 0) as int;
                if 0 <= i < keys@.len() && i < values@.len() {
                    match (keys@[i], values@[i]) {
                        (Some(kk), Some(v)) => if kk.as_nat() == k {
                            Some((kk, v))
                        } else {
                            None
                        },
                        _ => None,
                    }
                } else {
                    None
                }
            },
        }
    }

    /// Whether the subtree holds a pair for key value `k`.
    pub open spec fn contains_at(self, e: nat, k: nat) -> bool {
        self.find_at(e, k) is Some
    }

    /// The pair the subtree holds for key value `k` (meaningful only when
    /// `contains_at(e, k)`).
    pub open spec fn entry_at(self, e: nat, k: nat) -> (K, V) {
        self.find_at(e, k)->Some_0
    }

    /// The subtree as a map from key values to the stored pairs.
    pub closed spec fn view_at(self, e: nat) -> Map<nat, (K, V)> {
        Map::new(|k: nat| self.contains_at(e, k), |k: nat| self.entry_at(e, k))
    }

    /// A fresh internal node: no children, no pairs. Well-formed at every
    /// internal position of the trie.
    pub fn new_internal() -> (r: Self)
        ensures
            r.count() == 0,
            forall|e: nat, p: nat| 1 <= e <= Self::levels() ==> #[trigger] r.wf(e, p),
            forall|e: nat, k: nat| !(#[trigger] r.contains_at(e, k)),
            r.to_seq() == Seq::<(K, V)>::empty(),
    {
        let mut children: Vec<Option<Node<K, V, B>>> = Vec::new();
        let mut i: usize = 0;
        while i < B
            invariant
                children@.len() == i as int,
                i <= B,
                forall|j: int| 0 <= j < i as int ==> children@[j] is None,
            decreases B - i,
        {
            children.push(None);
            i += 1;
        }
        let r = Node { repr: Repr::Internal { children }, len: 0 };
        proof {
            Self::lemma_seq_all_none(children@);
            assert forall|e: nat, k: nat| !(#[trigger] r.contains_at(e, k)) by {
                assert(r.find_at(e, k) is None);
            };
        }
        r
    }

    /// A fresh leaf: all slots empty. Well-formed at leaf level for every
    /// prefix.
    pub fn new_leaf() -> (r: Self)
        ensures
            r.count() == 0,
            forall|p: nat| #[trigger] r.wf(0, p),
            forall|e: nat, k: nat| !(#[trigger] r.contains_at(e, k)),
            r.to_seq() == Seq::<(K, V)>::empty(),
    {
        let mut keys: Vec<Option<K>> = Vec::new();
        let mut values: Vec<Option<V>> = Vec::new();
        let mut i: usize = 0;
        while i < B
            invariant
                keys@.len() == i as int,
                values@.len() == i as int,
                i <= B,
                forall|j: int| 0 <= j < i as int ==> #[trigger] keys@[j] is None,
                forall|j: int| 0 <= j < i as int ==> #[trigger] values@[j] is None,
            decreases B - i,
        {
            keys.push(None);
            values.push(None);
            i += 1;
        }
        let r = Node { repr: Repr::Leaf { keys, values }, len: 0 };
        proof {
            Self::lemma_slots_all_none(keys@, values@);
            assert forall|e: nat, k: nat| !(#[trigger] r.contains_at(e, k)) by {
                assert(r.find_at(e, k) is None);
            };
        }
        r
    }

    /// An all-absent child sequence carries no pairs.
    proof fn lemma_seq_all_none(cs: Seq<Option<Node<K, V, B>>>)
        requires
            forall|j: int| 0 <= j < cs.len() ==> cs[j] is None,
        ensures
            Self::count_seq(cs) == 0,
            Self::seq_children(cs) == Seq::<(K, V)>::empty(),
        decreases cs.len(),
    {
        if cs.len() > 0 {
            Self::lemma_seq_all_none(cs.drop_first());
            assert(Self::count_opt(cs[0]) == 0);
            assert(Self::seq_opt(cs[0]) == Seq::<(K, V)>::empty());
            assert(Self::seq_children(cs) =~= Seq::<(K, V)>::empty());
        }
    }

    /// All-absent slot arrays carry no pairs.
    proof fn lemma_slots_all_none(ks: Seq<Option<K>>, vs: Seq<Option<V>>)
        requires
            forall|j: int| 0 <= j < ks.len() ==> ks[j] is None,
        ensures
            Self::count_slots(ks) == 0,
            Self::seq_slots(ks, vs) == Seq::<(K, V)>::empty(),
        decreases ks.len(),
    {
        if ks.len() > 0 {
            Self::lemma_slots_all_none(ks.drop_first(), vs.drop_first());
            assert(Self::seq_slots(ks, vs) =~= Seq::<(K, V)>::empty());
        }
    }

    /// The subtree's live pairs in ascending key order.
    pub closed spec fn to_seq(self) -> Seq<(K, V)>
        decreases self,
    {
        match self.repr {
            Repr::Internal { children } => Self::seq_children(children@),
            Repr::Leaf { keys, values } => Self::seq_slots(keys@, values@),
        }
    }

    pub closed spec fn seq_children(cs: Seq<Option<Node<K, V, B>>>) -> Seq<(K, V)>
        decreases cs,
    {
        if cs.len() == 0 {
            Seq::empty()
        } else {
            Self::seq_opt(cs[0]) + Self::seq_children(cs.drop_first())
        }
    }

    pub closed spec fn seq_opt(c: Option<Node<K, V, B>>) -> Seq<(K, V)>
        decreases c,
    {
        match c {
            Some(n) => n.to_seq(),
            None => Seq::empty(),
        }
    }

    pub closed spec fn seq_slots(ks: Seq<Option<K>>, vs: Seq<Option<V>>) -> Seq<(K, V)>
        decreases ks,
    {
        if ks.len() == 0 || vs.len() == 0 {
            Seq::empty()
        } else {
            (match (ks[0], vs[0]) {
                (Some(k), Some(v)) => seq![(k, v)],
                _ => Seq::empty(),
            }) + Self::seq_slots(ks.drop_first(), vs.drop_first())
        }
    }
}

impl<K: Key, V, const B: usize> Node<K, V, B> {
    /// Whether the node is an internal node.
    pub closed spec fn is_internal(self) -> bool {
        self.repr is Internal
    }

    /// Whether the node is a leaf.
    pub closed spec fn is_leaf(self) -> bool {
        self.repr is Leaf
    }

    /// The cached pair count.
    pub closed spec fn len_spec(self) -> nat {
        self.len as nat
    }

    /// The child slots of an internal node.
    pub closed spec fn children_spec(self) -> Seq<Option<Node<K, V, B>>> {
        self.repr->Internal_children@
    }

    /// The key slots of a leaf.
    pub closed spec fn keys_spec(self) -> Seq<Option<K>> {
        self.repr->Leaf_keys@
    }

    /// The value slots of a leaf.
    pub closed spec fn values_spec(self) -> Seq<Option<V>> {
        self.repr->Leaf_values@
    }

    /// Replacing one child slot shifts the sequence count by the
    /// difference of the old and new occupants.
    proof fn lemma_count_seq_update(cs: Seq<Option<Node<K, V, B>>>, i: int, c: Option<Node<K, V, B>>)
        requires
            0 <= i < cs.len(),
        ensures
            Self::count_seq(cs.update(i, c)) == Self::count_seq(cs) - Self::count_opt(cs[i])
                + Self::count_opt(c),
        decreases cs.len(),
    {
        let upd = cs.update(i, c);
        if i == 0 {
            assert(upd.drop_first() =~= cs.drop_first());
        } else {
            assert(upd.drop_first() =~= cs.drop_first().update(i - 1, c));
            Self::lemma_count_seq_update(cs.drop_first(), i - 1, c);
        }
    }

    /// Replacing one key slot shifts the slot count by the difference of
    /// the old and new occupancy.
    proof fn lemma_count_slots_update(ks: Seq<Option<K>>, i: int, k: Option<K>)
        requires
            0 <= i < ks.len(),
        ensures
            Self::count_slots(ks.update(i, k)) == Self::count_slots(ks) - (if ks[i] is Some {
                1int
            } else {
                0int
            }) + (if k is Some {
                1int
            } else {
                0int
            }),
        decreases ks.len(),
    {
        let upd = ks.update(i, k);
        if i == 0 {
            assert(upd.drop_first() =~= ks.drop_first());
        } else {
            assert(upd.drop_first() =~= ks.drop_first().update(i - 1, k));
            Self::lemma_count_slots_update(ks.drop_first(), i - 1, k);
        }
    }

    /// One child's count is bounded by the sequence count.
    proof fn lemma_count_seq_part(cs: Seq<Option<Node<K, V, B>>>, i: int)
        requires
            0 <= i < cs.len(),
        ensures
            Self::count_opt(cs[i]) <= Self::count_seq(cs),
        decreases cs.len(),
    {
        if i > 0 {
            Self::lemma_count_seq_part(cs.drop_first(), i - 1);
        }
    }

    /// An occupied key slot keeps the slot count positive.
    proof fn lemma_count_slots_part(ks: Seq<Option<K>>, i: int)
        requires
            0 <= i < ks.len(),
            ks[i] is Some,
        ensures
            Self::count_slots(ks) >= 1,
        decreases ks.len(),
    {
        if i > 0 {
            Self::lemma_count_slots_part(ks.drop_first(), i - 1);
        }
    }

    /// A key's digit at any place is below the branching factor.
    pub proof fn lemma_digit_lt(k: nat, e: nat)
        requires
            2 <= B,
        ensures
            digit_of(k, B as nat, e) < B,
    {
        lemma_pow_positive(B as int, e);
        lemma_mod_bound(k as int / pow(B as int, e), B as int);
        lemma_div_pos_is_pos(k as int, pow(B as int, e));
    }

    /// Cutting one more digit off a key's prefix: the prefix at `e - 1`
    /// levels is the prefix at `e` levels followed by the digit at `e`.
    pub proof fn lemma_prefix_child(k: nat, e: nat)
        requires
            2 <= B,
            1 <= e,
        ensures
            Self::prefix_at(k, (e - 1) as nat) == Self::prefix_at(k, e) * B + digit_of(
                k,
                B as nat,
                e,
            ),
    {
        let b = B as int;
        let ki = k as int;
        lemma_pow_positive(b, e);
        lemma_pow_positive(b, (e + 1) as nat);
        lemma_pow_adds(b, e, 1);
        lemma_pow1(b);
        assert(pow(b, (e + 1) as nat) == pow(b, e) * b);
        lemma_div_denominator(ki, pow(b, e), b);
        assert(ki / pow(b, e) / b == ki / (pow(b, e) * b));
        lemma_fundamental_div_mod(ki / pow(b, e), b);
        lemma_mod_bound(ki / pow(b, e), b);
        lemma_div_pos_is_pos(ki, pow(b, e));
        lemma_div_pos_is_pos(ki / pow(b, e), b);
        assert(Self::prefix_at(k, (e - 1) as nat) as int == ki / pow(b, e));
        assert(Self::prefix_at(k, e) as int == (ki / pow(b, e)) / b);
        assert(digit_of(k, B as nat, e) as int == (ki / pow(b, e)) % b);
        assert(ki / pow(b, e) == b * ((ki / pow(b, e)) / b) + (ki / pow(b, e)) % b);
        vstd::arithmetic::mul::lemma_mul_is_commutative(b, (ki / pow(b, e)) / b);
    }

    /// A key is its leaf prefix followed by its final digit.
    pub proof fn lemma_key_split(k: nat)
        requires
            2 <= B,
        ensures
            k == Self::prefix_at(k, 0) * B + digit_of(k, B as nat, 0),
    {
        let b = B as int;
        let ki = k as int;
        lemma_pow0(b);
        lemma_pow1(b);
        assert(ki / pow(b, 0) == ki) by {
            assert(pow(b, 0) == 1);
            assert(ki / 1 == ki) by (nonlinear_arith);
        };
        lemma_fundamental_div_mod(ki, b);
        lemma_mod_bound(ki, b);
        lemma_div_pos_is_pos(ki, b);
        assert(Self::prefix_at(k, 0) == ki / b);
    }

    /// Writes `key_value` into the leaf slot `idx`, returning the pair the
    /// slot held, and adjusts the cached count by the change in occupancy.
    pub fn replace_key_value_at(&mut self, idx: usize, key_value: Option<(K, V)>) -> (r: Option<
        (K, V),
    >)
        requires
            old(self).is_leaf(),
            idx < old(self).keys_spec().len(),
            idx < old(self).values_spec().len(),
            (old(self).keys_spec()[idx as int] is Some && old(self).values_spec()[idx as int]
                is Some && key_value is None) ==> 1 <= old(self).len_spec(),
            (!(old(self).keys_spec()[idx as int] is Some && old(self).values_spec()[idx as int]
                is Some) && key_value is Some) ==> old(self).len_spec() < usize::MAX,
        ensures
            final(self).is_leaf(),
            final(self).keys_spec() == old(self).keys_spec().update(
                idx as int,
                match key_value {
                    Some((k, _)) => Some(k),
                    None => None,
                },
            ),
            final(self).values_spec() == old(self).values_spec().update(
                idx as int,
                match key_value {
                    Some((_, v)) => Some(v),
                    None => None,
                },
            ),
            r == (match (old(self).keys_spec()[idx as int], old(self).values_spec()[idx as int]) {
                (Some(k), Some(v)) => Some((k, v)),
                _ => None,
            }),
            final(self).len_spec() == old(self).len_spec() - (if r is Some {
                1int
            } else {
                0int
            }) + (if key_value is Some {
                1int
            } else {
                0int
            }),
    {
        let new_some = key_value.is_some();
        let (k_new, v_new) = match key_value {
            Some((k, v)) => (Some(k), Some(v)),
            None => (None, None),
        };
        let mut old_some = false;
        let mut r: Option<(K, V)> = None;
        match &mut self.repr {
            Repr::Leaf { keys, values } => {
                let kslot = &mut keys[idx];
                let old_k = kslot.take();
                *kslot = k_new;
                let vslot = &mut values[idx];
                let old_v = vslot.take();
                *vslot = v_new;
                r = match (old_k, old_v) {
                    (Some(k), Some(v)) => {
                        old_some = true;
                        Some((k, v))
                    },
                    _ => None,
                };
            },
            Repr::Internal { .. } => {
                proof {
                    assert(false);
                }
            },
        }
        if old_some && !new_some {
            self.len = self.len - 1;
        } else if !old_some && new_some {
            self.len = self.len + 1;
        }
        r
    }

    /// Takes the child at `idx` out of an internal node, leaving the slot
    /// absent; the cached count is untouched.
    fn take_child(&mut self, idx: usize) -> (r: Option<Node<K, V, B>>)
        requires
            old(self).is_internal(),
            idx < old(self).children_spec().len(),
        ensures
            final(self).is_internal(),
            final(self).children_spec() == old(self).children_spec().update(
                idx as int,
                None::<Node<K, V, B>>,
            ),
            final(self).len_spec() == old(self).len_spec(),
            r == old(self).children_spec()[idx as int],
    {
        match &mut self.repr {
            Repr::Internal { children } => {
                let slot = &mut children[idx];
                slot.take()
            },
            Repr::Leaf { .. } => {
                proof {
                    assert(false);
                }
                vstd::pervasive::unreached()
            },
        }
    }

    /// Puts `child` into the empty slot `idx` of an internal node, raising
    /// the cached count by one when asked to.
    fn put_child(&mut self, idx: usize, child: Node<K, V, B>, bump: bool)
        requires
            old(self).is_internal(),
            idx < old(self).children_spec().len(),
            bump ==> old(self).len_spec() < usize::MAX,
        ensures
            final(self).is_internal(),
            final(self).children_spec() == old(self).children_spec().update(
                idx as int,
                Some(child),
            ),
            final(self).len_spec() == old(self).len_spec() + (if bump {
                1int
            } else {
                0int
            }),
    {
        match &mut self.repr {
            Repr::Internal { children } => {
                let slot = &mut children[idx];
                *slot = Some(child);
            },
            Repr::Leaf { .. } => {
                proof {
                    assert(false);
                }
            },
        }
        if bump {
            self.len = self.len + 1;
        }
    }
}

impl<K: Key, V, const B: usize> Node<K, V, B> {
    /// Inserts `key -> value` into the subtree rooted at this node, which
    /// stands `levels() - depth` levels above the leaves on `key`'s digit
    /// path. Returns the pair the key's slot held, if any: a replacement
    /// keeps the pair count, a fresh insertion raises it by one, and the
    /// subtree afterwards maps exactly as before plus the new pair.
    pub fn insert(&mut self, depth: usize, key: K, value: V) -> (r: Option<(K, V)>)
        requires
            2 <= B,
            K::max_spec() <= usize::MAX as nat,
            depth as nat <= Self::levels(),
            old(self).wf(
                (Self::levels() - depth) as nat,
                Self::prefix_at(key.as_nat(), (Self::levels() - depth) as nat),
            ),
            old(self).count() < usize::MAX as nat,
        ensures
            final(self).wf(
                (Self::levels() - depth) as nat,
                Self::prefix_at(key.as_nat(), (Self::levels() - depth) as nat),
            ),
            final(self).view_at((Self::levels() - depth) as nat) == old(self).view_at(
                (Self::levels() - depth) as nat,
            ).insert(key.as_nat(), (key, value)),
            r == old(self).find_at((Self::levels() - depth) as nat, key.as_nat()),
            final(self).count() == old(self).count() + (if old(self).contains_at(
                (Self::levels() - depth) as nat,
                key.as_nat(),
            ) {
                0int
            } else {
                1int
            }),
        decreases Self::levels() - depth,
    {
        let ghost e = (Self::levels() - depth) as nat;
        let ghost kn = key.as_nat();
        let ghost p = Self::prefix_at(kn, e);
        proof {
            K::lemma_max_at_least_one();
            key.lemma_key_in_range();
            lemma_max_depth_char(B as nat, K::max_spec());
            Self::lemma_digit_lt(kn, e);
        }
        let md = K::max_depth(B);
        let idx = key.index_at(B, depth);
        if matches!(&self.repr, Repr::Leaf { .. }) {
            proof {
                assert(e == 0);
                Self::lemma_key_split(kn);
                assert(kn == p * B + idx);
                if old(self).keys_spec()[idx as int] is Some {
                    Self::lemma_count_slots_part(old(self).keys_spec(), idx as int);
                }
            }
            let r = self.replace_key_value_at(idx, Some((key, value)));
            proof {
                let n0 = *old(self);
                let n1 = *self;
                Self::lemma_count_slots_update(n0.keys_spec(), idx as int, Some(key));
                assert(n1.wf(0, p)) by {
                    assert forall|i: int| 0 <= i < B implies match #[trigger] n1.keys_spec()[i] {
                        Some(k) => k.as_nat() == p * B + i,
                        None => true,
                    } by {
                        if i != idx as int {
                            assert(n1.keys_spec()[i] == n0.keys_spec()[i]);
                        }
                    };
                };
                assert(r == n0.find_at(0, kn));
                assert forall|x: nat| true implies #[trigger] n1.find_at(0, x) == (if x == kn {
                    Some((key, value))
                } else {
                    n0.find_at(0, x)
                }) by {
                    Self::lemma_digit_lt(x, 0);
                    let dx = digit_of(x, B as nat, 0) as int;
                    if dx == idx as int {
                        if x != kn {
                            Self::lemma_key_split(x);
                            match n0.keys_spec()[dx] {
                                Some(k2) => {
                                    assert(k2.as_nat() == p * B + idx);
                                    assert(x != p * B + idx);
                                    assert(n0.find_at(0, x) is None);
                                },
                                None => {},
                            }
                            assert(n1.find_at(0, x) is None);
                        }
                    } else {
                        assert(n1.keys_spec()[dx] == n0.keys_spec()[dx]);
                        assert(n1.values_spec()[dx] == n0.values_spec()[dx]);
                        if x == kn {
                            Self::lemma_key_split(kn);
                        }
                    }
                };
                assert(n1.view_at(0) =~= n0.view_at(0).insert(kn, (key, value)));
                assert(n1.count() == n0.count() + (if n0.contains_at(0, kn) {
                    0int
                } else {
                    1int
                }));
            }
            return r;
        }
        // internal node: descend along the key's digit
        proof {
            assert(1 <= e);
            assert((depth as int) < md as int);
            Self::lemma_prefix_child(kn, e);
            Self::lemma_count_seq_part(old(self).children_spec(), idx as int);
        }
        let ghost cs0 = self.children_spec();
        let child_opt = self.take_child(idx);
        let ghost pc = Self::prefix_at(kn, (e - 1) as nat);
        let r;
        let mut child = match child_opt {
            Some(c) => c,
            None => {
                if depth + 1 == md {
                    Self::new_leaf()
                } else {
                    Self::new_internal()
                }
            },
        };
        proof {
            assert(child.wf((e - 1) as nat, pc)) by {
                match cs0[idx as int] {
                    Some(c0) => {
                        assert(c0.wf((e - 1) as nat, (p * B + idx as int) as nat));
                    },
                    None => {},
                }
            };
        }
        let ghost child0 = child;
        r = child.insert(depth + 1, key, value);
        let ghost bump = r is None;
        proof {
            if bump && old(self).len_spec() >= usize::MAX as nat {
                assert(false);
            }
        }
        self.put_child(idx, child, r.is_none());
        proof {
            let n0 = *old(self);
            let n1 = *self;
            let cs1 = n1.children_spec();
            assert(cs1 =~= cs0.update(idx as int, Some(child)));
            Self::lemma_count_seq_update(cs0, idx as int, Some(child));
            assert(n1.count() == Self::count_seq(cs1));
            assert(n1.wf(e, p)) by {
                assert forall|i: int| 0 <= i < B implies match #[trigger] cs1[i] {
                    Some(c) => c.wf((e - 1) as nat, (p * B + i) as nat),
                    None => true,
                } by {
                    if i == idx as int {
                        assert(cs1[i] == Some(child));
                        assert(child.wf((e - 1) as nat, pc));
                        assert(pc == p * B + idx as int);
                    } else {
                        assert(cs1[i] == cs0[i]);
                    }
                };
            };
            assert(r == n0.find_at(e, kn)) by {
                match cs0[idx as int] {
                    Some(c0) => {
                        assert(n0.find_at(e, kn) == c0.find_at((e - 1) as nat, kn));
                    },
                    None => {
                        assert(n0.find_at(e, kn) is None);
                        assert(child0.find_at((e - 1) as nat, kn) is None);
                    },
                }
            };
            let mc0 = child0.view_at((e - 1) as nat);
            let mc1 = child.view_at((e - 1) as nat);
            assert(mc1 == mc0.insert(kn, (key, value)));
            assert forall|x: nat| true implies #[trigger] n1.find_at(e, x) == (if x == kn {
                Some((key, value))
            } else {
                n0.find_at(e, x)
            }) by {
                Self::lemma_digit_lt(x, e);
                let dx = digit_of(x, B as nat, e) as int;
                if dx == idx as int {
                    assert(n1.find_at(e, x) == child.find_at((e - 1) as nat, x));
                    assert(mc1.dom().contains(x) <==> x == kn || mc0.dom().contains(x));
                    assert(child.contains_at((e - 1) as nat, x) <==> mc1.dom().contains(x));
                    assert(child0.contains_at((e - 1) as nat, x) <==> mc0.dom().contains(x));
                    if x == kn {
                        assert(mc1[x] == (key, value));
                        assert(child.entry_at((e - 1) as nat, x) == (key, value));
                        assert(child.find_at((e - 1) as nat, x) == Some((key, value)));
                    } else {
                        match cs0[idx as int] {
                            Some(c0) => {
                                assert(n0.find_at(e, x) == c0.find_at((e - 1) as nat, x));
                                if mc0.dom().contains(x) {
                                    assert(mc1[x] == mc0[x]);
                                    assert(child.find_at((e - 1) as nat, x) == c0.find_at(
                                        (e - 1) as nat,
                                        x,
                                    ));
                                } else {
                                    assert(child.find_at((e - 1) as nat, x) is None);
                                    assert(c0.find_at((e - 1) as nat, x) is None);
                                }
                            },
                            None => {
                                assert(n0.find_at(e, x) is None);
                                if mc0.dom().contains(x) {
                                    assert(child0.contains_at((e - 1) as nat, x));
                                    assert(false);
                                }
                                assert(child.find_at((e - 1) as nat, x) is None);
                            },
                        }
                    }
                } else {
                    assert(cs1[dx] == cs0[dx]);
                    if x == kn {
                        assert(digit_of(kn, B as nat, e) == idx as nat);
                        assert(false);
                    }
                }
            };
            assert(n1.view_at(e) =~= n0.view_at(e).insert(kn, (key, value)));
            assert(n1.count() == n0.count() + (if n0.contains_at(e, kn) {
                0int
            } else {
                1int
            }));
        }
        r
    }
}

impl<K: Key, V, const B: usize> Node<K, V, B> {
    /// A well-formed subtree with a zero count holds nothing: stumps are
    /// logically empty.
    pub proof fn lemma_count_zero_empty(self, e: nat, p: nat)
        requires
            2 <= B,
            self.wf(e, p),
            self.count() == 0,
        ensures
            forall|x: nat| (#[trigger] self.find_at(e, x)) is None,
        decreases self,
    {
        assert forall|x: nat| (#[trigger] self.find_at(e, x)) is None by {
            Self::lemma_digit_lt(x, e);
            Self::lemma_digit_lt(x, 0);
            match self.repr {
                Repr::Internal { children } => {
                    let dx = digit_of(x, B as nat, e) as int;
                    assert(Self::count_seq(children@) == 0);
                    match children@[dx] {
                        Some(c) => {
                            Self::lemma_count_seq_part(children@, dx);
                            assert(Self::count_opt(children@[dx]) == c.count());
                            assert(c.count() == 0);
                            assert(c.wf((e - 1) as nat, (p * B + dx) as nat));
                            c.lemma_count_zero_empty((e - 1) as nat, (p * B + dx) as nat);
                            assert(c.find_at((e - 1) as nat, x) is None);
                        },
                        None => {},
                    }
                },
                Repr::Leaf { keys, values } => {
                    let dx = digit_of(x, B as nat, 0) as int;
                    if keys@[dx] is Some {
                        Self::lemma_count_slots_part(keys@, dx);
                    }
                },
            }
        };
    }

    /// A held pair keeps the count positive.
    pub proof fn lemma_contains_count_pos(self, e: nat, p: nat, x: nat)
        requires
            2 <= B,
            self.wf(e, p),
            self.contains_at(e, x),
        ensures
            1 <= self.count(),
        decreases self,
    {
        match self.repr {
            Repr::Internal { children } => {
                let dx = digit_of(x, B as nat, e) as int;
                Self::lemma_digit_lt(x, e);
                let c = children@[dx]->Some_0;
                c.lemma_contains_count_pos((e - 1) as nat, (p * B + dx) as nat, x);
                Self::lemma_count_seq_part(children@, dx);
            },
            Repr::Leaf { keys, values } => {
                let dx = digit_of(x, B as nat, 0) as int;
                Self::lemma_digit_lt(x, 0);
                Self::lemma_count_slots_part(keys@, dx);
            },
        }
    }

    /// Looks the key up by repeated digit indexing; never changes the
    /// subtree. Returns the stored pair exactly when the subtree holds
    /// one for the key.
    pub fn get(&self, depth: usize, key: &K) -> (r: Option<(&K, &V)>)
        requires
            2 <= B,
            K::max_spec() <= usize::MAX as nat,
            depth as nat <= Self::levels(),
            self.wf(
                (Self::levels() - depth) as nat,
                Self::prefix_at(key.as_nat(), (Self::levels() - depth) as nat),
            ),
        ensures
            r is Some <==> self.contains_at((Self::levels() - depth) as nat, key.as_nat()),
            r matches Some(pr) ==> self.find_at((Self::levels() - depth) as nat, key.as_nat())
                == Some((*pr.0, *pr.1)),
        decreases Self::levels() - depth,
    {
        let ghost e = (Self::levels() - depth) as nat;
        let ghost kn = key.as_nat();
        let ghost p = Self::prefix_at(kn, e);
        proof {
            K::lemma_max_at_least_one();
            key.lemma_key_in_range();
            lemma_max_depth_char(B as nat, K::max_spec());
            crate::key::lemma_max_depth_le(B as nat, K::max_spec());
            Self::lemma_digit_lt(kn, e);
        }
        let idx = key.index_at(B, depth);
        match &self.repr {
            Repr::Internal { children } => {
                proof {
                    Self::lemma_prefix_child(kn, e);
                }
                match &children[idx] {
                    Some(c) => c.get(depth + 1, key),
                    None => None,
                }
            },
            Repr::Leaf { keys, values } => {
                proof {
                    Self::lemma_key_split(kn);
                }
                match (&keys[idx], &values[idx]) {
                    (Some(k), Some(v)) => {
                        proof {
                            assert(k.as_nat() == p * B + idx);
                        }
                        Some((k, v))
                    },
                    _ => None,
                }
            },
        }
    }

    /// Removes the key's pair from the subtree, if present: the result is
    /// the evicted pair, the count drops by one exactly when a pair was
    /// held, and a child subtree emptied by the removal is pruned.
    pub fn remove(&mut self, depth: usize, key: &K) -> (r: Option<(K, V)>)
        requires
            2 <= B,
            K::max_spec() <= usize::MAX as nat,
            depth as nat <= Self::levels(),
            old(self).wf(
                (Self::levels() - depth) as nat,
                Self::prefix_at(key.as_nat(), (Self::levels() - depth) as nat),
            ),
        ensures
            final(self).wf(
                (Self::levels() - depth) as nat,
                Self::prefix_at(key.as_nat(), (Self::levels() - depth) as nat),
            ),
            final(self).view_at((Self::levels() - depth) as nat) == old(self).view_at(
                (Self::levels() - depth) as nat,
            ).remove(key.as_nat()),
            r == old(self).find_at((Self::levels() - depth) as nat, key.as_nat()),
            final(self).count() == old(self).count() - (if old(self).contains_at(
                (Self::levels() - depth) as nat,
                key.as_nat(),
            ) {
                1int
            } else {
                0int
            }),
        decreases Self::levels() - depth,
    {
        let ghost e = (Self::levels() - depth) as nat;
        let ghost kn = key.as_nat();
        let ghost p = Self::prefix_at(kn, e);
        proof {
            K::lemma_max_at_least_one();
            key.lemma_key_in_range();
            lemma_max_depth_char(B as nat, K::max_spec());
            crate::key::lemma_max_depth_le(B as nat, K::max_spec());
            Self::lemma_digit_lt(kn, e);
        }
        let idx = key.index_at(B, depth);
        if matches!(&self.repr, Repr::Leaf { .. }) {
            proof {
                assert(e == 0);
                Self::lemma_key_split(kn);
                assert(kn == p * B + idx);
                if old(self).keys_spec()[idx as int] is Some {
                    Self::lemma_count_slots_part(old(self).keys_spec(), idx as int);
                }
            }
            let r = self.replace_key_value_at(idx, None);
            proof {
                let n0 = *old(self);
                let n1 = *self;
                Self::lemma_count_slots_update(n0.keys_spec(), idx as int, None);
                assert(n1.wf(0, p)) by {
                    assert forall|i: int| 0 <= i < B implies match #[trigger] n1.keys_spec()[i] {
                        Some(k) => k.as_nat() == p * B + i,
                        None => true,
                    } by {
                        if i != idx as int {
                            assert(n1.keys_spec()[i] == n0.keys_spec()[i]);
                        }
                    };
                };
                assert(r == n0.find_at(0, kn));
                assert forall|x: nat| true implies #[trigger] n1.find_at(0, x) == (if x == kn {
                    None
                } else {
                    n0.find_at(0, x)
                }) by {
                    Self::lemma_digit_lt(x, 0);
                    let dx = digit_of(x, B as nat, 0) as int;
                    if dx == idx as int {
                        if x != kn {
                            Self::lemma_key_split(x);
                            match n0.keys_spec()[dx] {
                                Some(k2) => {
                                    assert(k2.as_nat() == p * B + idx);
                                    assert(n0.find_at(0, x) is None);
                                },
                                None => {},
                            }
                        }
                        assert(n1.find_at(0, x) is None);
                    } else {
                        assert(n1.keys_spec()[dx] == n0.keys_spec()[dx]);
                        assert(n1.values_spec()[dx] == n0.values_spec()[dx]);
                    }
                };
                assert(n1.view_at(0) =~= n0.view_at(0).remove(kn));
            }
            return r;
        }
        // internal node: descend along the key's digit
        proof {
            assert(1 <= e);
            Self::lemma_prefix_child(kn, e);
            Self::lemma_count_seq_part(old(self).children_spec(), idx as int);
        }
        let ghost cs0 = self.children_spec();
        let ghost pc = Self::prefix_at(kn, (e - 1) as nat);
        let child_opt = self.take_child(idx);
        match child_opt {
            Some(mut child) => {
                let ghost child0 = child;
                let r = child.remove(depth + 1, key);
                let pruned = child.len == 0;
                proof {
                    assert(child.wf((e - 1) as nat, pc));
                    assert(child.len_spec() == child.count());
                }
                if !pruned {
                    self.put_child(idx, child, false);
                }
                if r.is_some() {
                    proof {
                        assert(child0.contains_at((e - 1) as nat, kn));
                        child0.lemma_contains_count_pos((e - 1) as nat, pc, kn);
                        assert(old(self).len_spec() == Self::count_seq(cs0));
                        assert(Self::count_opt(cs0[idx as int]) == child0.count());
                        assert(1 <= old(self).len_spec());
                    }
                    self.len = self.len - 1;
                }
                proof {
                    let n0 = *old(self);
                    let n1 = *self;
                    let cs1 = n1.children_spec();
                    let ghost cnew: Option<Node<K, V, B>> = if pruned {
                        None
                    } else {
                        Some(child)
                    };
                    assert(cs1 =~= cs0.update(idx as int, cnew));
                    Self::lemma_count_seq_update(cs0, idx as int, cnew);
                    if pruned {
                        child.lemma_count_zero_empty((e - 1) as nat, pc);
                        assert(Self::count_opt(cnew) == 0);
                    }
                    assert(n1.count() == Self::count_seq(cs1));
                    assert(n1.len_spec() == n1.count());
                    assert(n1.wf(e, p)) by {
                        assert forall|i: int| 0 <= i < B implies match #[trigger] cs1[i] {
                            Some(c) => c.wf((e - 1) as nat, (p * B + i) as nat),
                            None => true,
                        } by {
                            if i == idx as int {
                                assert(cs1[i] == cnew);
                            } else {
                                assert(cs1[i] == cs0[i]);
                            }
                        };
                    };
                    assert(r == n0.find_at(e, kn));
                    let mc0 = child0.view_at((e - 1) as nat);
                    let mc1 = child.view_at((e - 1) as nat);
                    assert(mc1 == mc0.remove(kn));
                    assert forall|x: nat| true implies #[trigger] n1.find_at(e, x) == (if x == kn {
                        None
                    } else {
                        n0.find_at(e, x)
                    }) by {
                        Self::lemma_digit_lt(x, e);
                        let dx = digit_of(x, B as nat, e) as int;
                        if dx == idx as int {
                            assert(n0.find_at(e, x) == child0.find_at((e - 1) as nat, x));
                            assert(child.contains_at((e - 1) as nat, x) <==> mc1.dom().contains(
                                x,
                            ));
                            assert(child0.contains_at((e - 1) as nat, x) <==> mc0.dom().contains(
                                x,
                            ));
                            if pruned {
                                assert(n1.find_at(e, x) is None);
                                child.lemma_count_zero_empty((e - 1) as nat, pc);
                                if x != kn {
                                    if mc0.dom().contains(x) {
                                        assert(mc1.dom().contains(x));
                                        assert(child.contains_at((e - 1) as nat, x));
                                        assert(false);
                                    }
                                    assert(child0.find_at((e - 1) as nat, x) is None);
                                }
                            } else {
                                assert(n1.find_at(e, x) == child.find_at((e - 1) as nat, x));
                                if x == kn {
                                    assert(!mc1.dom().contains(x));
                                    assert(child.find_at((e - 1) as nat, x) is None);
                                } else {
                                    if mc0.dom().contains(x) {
                                        assert(mc1[x] == mc0[x]);
                                        assert(child.find_at((e - 1) as nat, x) == child0.find_at(
                                            (e - 1) as nat,
                                            x,
                                        ));
                                    } else {
                                        assert(child.find_at((e - 1) as nat, x) is None);
                                        assert(child0.find_at((e - 1) as nat, x) is None);
                                    }
                                }
                            }
                        } else {
                            assert(cs1[dx] == cs0[dx]);
                            if x == kn {
                                assert(digit_of(kn, B as nat, e) == idx as nat);
                                assert(false);
                            }
                        }
                    };
                    assert(n1.view_at(e) =~= n0.view_at(e).remove(kn));
                    assert(n1.count() == n0.count() - (if n0.contains_at(e, kn) {
                        1int
                    } else {
                        0int
                    }));
                }
                r
            },
            None => {
                proof {
                    let n0 = *old(self);
                    let n1 = *self;
                    assert(n1.children_spec() =~= cs0);
                    assert(n0.find_at(e, kn) is None);
                    assert forall|x: nat| true implies #[trigger] n1.find_at(e, x) == n0.find_at(
                        e,
                        x,
                    ) by {
                        Self::lemma_digit_lt(x, e);
                        let dx = digit_of(x, B as nat, e) as int;
                        assert(n1.children_spec()[dx] == cs0[dx]);
                    };
                    assert(n1.wf(e, p)) by {
                        assert forall|i: int| 0 <= i < B implies match #[trigger] n1.children_spec()[i] {
                            Some(c) => c.wf((e - 1) as nat, (p * B + i) as nat),
                            None => true,
                        } by {
                            assert(n1.children_spec()[i] == cs0[i]);
                        };
                    };
                    assert(n1.view_at(e) =~= n0.view_at(e).remove(kn));
                }
                None
            },
        }
    }
}

impl<K: Key, V, const B: usize> Node<K, V, B> {
    /// A found pair carries the key value it was looked up by.
    pub proof fn lemma_find_key(self, e: nat, x: nat)
        ensures
            self.find_at(e, x) matches Some(pr) ==> pr.0.as_nat() == x,
        decreases self,
    {
        match self.repr {
            Repr::Internal { children } => {
                let dx = digit_of(x, B as nat, e) as int;
                if 0 <= dx < children@.len() {
                    match children@[dx] {
                        Some(c) => {
                            c.lemma_find_key((e - 1) as nat, x);
                        },
                        None => {},
                    }
                }
            },
            Repr::Leaf { .. } => {},
        }
    }

    /// Correspondence for leaf slot suffixes whose slot `j` holds the key
    /// value `start + j`: the pair sequence counts the occupied slots,
    /// stays in `[start, start + len)`, ascends strictly, and lists
    /// exactly the occupied slots.
    #[verifier::rlimit(100)]
    #[verifier::spinoff_prover]
    proof fn lemma_slots_corresponds(ks: Seq<Option<K>>, vs: Seq<Option<V>>, start: nat)
        requires
            ks.len() == vs.len(),
            forall|j: int| 0 <= j < ks.len() ==> ((#[trigger] ks[j]) is Some <==> vs[j] is Some),
            forall|j: int|
                0 <= j < ks.len() ==> match #[trigger] ks[j] {
                    Some(k) => k.as_nat() == start + j,
                    None => true,
                },
        ensures
            Self::seq_slots(ks, vs).len() == Self::count_slots(ks),
            forall|i: int|
                0 <= i < Self::seq_slots(ks, vs).len() ==> start <= (#[trigger] Self::seq_slots(
                    ks,
                    vs,
                )[i]).0.as_nat() < start + ks.len(),
            forall|i: int, j: int|
                0 <= i < j < Self::seq_slots(ks, vs).len() ==> (#[trigger] Self::seq_slots(
                    ks,
                    vs,
                )[i]).0.as_nat() < (#[trigger] Self::seq_slots(ks, vs)[j]).0.as_nat(),
            forall|i: int|
                0 <= i < Self::seq_slots(ks, vs).len() ==> exists|j: int|
                    0 <= j < ks.len() && ks[j] == Some((#[trigger] Self::seq_slots(ks, vs)[i]).0)
                        && vs[j] == Some(Self::seq_slots(ks, vs)[i].1) && Self::seq_slots(
                        ks,
                        vs,
                    )[i].0.as_nat() == start + j,
            forall|j: int|
                0 <= j < ks.len() && (#[trigger] ks[j]) is Some ==> exists|i: int|
                    0 <= i < Self::seq_slots(ks, vs).len() && Self::seq_slots(ks, vs)[i] == (
                    ks[j]->Some_0,
                    vs[j]->Some_0,
                ),
        decreases ks.len(),
    {
        if ks.len() == 0 {
        } else {
            let s = Self::seq_slots(ks, vs);
            let tail = Self::seq_slots(ks.drop_first(), vs.drop_first());
            Self::lemma_slots_corresponds(ks.drop_first(), vs.drop_first(), (start + 1) as nat);
            let head: Seq<(K, V)> = match (ks[0], vs[0]) {
                (Some(k), Some(v)) => seq![(k, v)],
                _ => Seq::empty(),
            };
            assert(s == head + tail);
            assert forall|i: int| 0 <= i < s.len() implies start <= (#[trigger] s[i]).0.as_nat()
                < start + ks.len() by {
                if i >= head.len() {
                    assert(s[i] == tail[i - head.len()]);
                }
            };
            assert forall|i: int, j: int| 0 <= i < j < s.len() implies (#[trigger] s[i]).0.as_nat()
                < (#[trigger] s[j]).0.as_nat() by {
                if i >= head.len() {
                    assert(s[i] == tail[i - head.len()]);
                }
                assert(s[j] == tail[j - head.len()]);
            };
            assert forall|i: int| 0 <= i < s.len() implies exists|j: int|
                0 <= j < ks.len() && ks[j] == Some((#[trigger] s[i]).0) && vs[j] == Some(s[i].1)
                    && s[i].0.as_nat() == start + j by {
                if i < head.len() {
                    assert(ks[0] == Some(s[i].0) && vs[0] == Some(s[i].1) && s[i].0.as_nat()
                        == start + 0);
                } else {
                    assert(s[i] == tail[i - head.len()]);
                    let jt = choose|jt: int|
                        0 <= jt < ks.drop_first().len() && ks.drop_first()[jt] == Some(
                            tail[i - head.len()].0,
                        ) && vs.drop_first()[jt] == Some(tail[i - head.len()].1) && tail[i
                            - head.len()].0.as_nat() == start + 1 + jt;
                    assert(ks[jt + 1] == Some(s[i].0) && vs[jt + 1] == Some(s[i].1)
                        && s[i].0.as_nat() == start + (jt + 1));
                }
            };
            assert forall|j: int| 0 <= j < ks.len() && (#[trigger] ks[j]) is Some implies exists|
                i: int,
            |
                0 <= i < s.len() && s[i] == (ks[j]->Some_0, vs[j]->Some_0) by {
                if j == 0 {
                    assert(s[0] == (ks[0]->Some_0, vs[0]->Some_0));
                } else {
                    assert(ks.drop_first()[j - 1] is Some);
                    let it = choose|it: int|
                        0 <= it < tail.len() && tail[it] == (
                            ks.drop_first()[j - 1]->Some_0,
                            vs.drop_first()[j - 1]->Some_0,
                        );
                    assert(s[it + head.len()] == (ks[j]->Some_0, vs[j]->Some_0));
                }
            };
        }
    }

    /// Correspondence for child suffixes whose child `j` is well-formed at
    /// prefix `base + j`, `e - 1` levels above the leaves: the
    /// concatenated pair sequence counts the subtrees' pairs, stays in the
    /// suffix's key range, ascends strictly, and lists exactly the pairs
    /// the subtrees hold.
    proof fn lemma_children_corresponds(cs: Seq<Option<Node<K, V, B>>>, e: nat, base: nat)
        requires
            2 <= B,
            1 <= e,
            forall|j: int|
                0 <= j < cs.len() ==> match #[trigger] cs[j] {
                    Some(c) => c.wf((e - 1) as nat, (base + j) as nat),
                    None => true,
                },
        ensures
            Self::seq_children(cs).len() == Self::count_seq(cs),
            forall|i: int|
                0 <= i < Self::seq_children(cs).len() ==> base * pow(B as int, e) <= (
                #[trigger] Self::seq_children(cs)[i]).0.as_nat() < (base + cs.len()) * pow(
                    B as int,
                    e,
                ),
            forall|i: int, j: int|
                0 <= i < j < Self::seq_children(cs).len() ==> (#[trigger] Self::seq_children(
                    cs,
                )[i]).0.as_nat() < (#[trigger] Self::seq_children(cs)[j]).0.as_nat(),
            forall|i: int|
                0 <= i < Self::seq_children(cs).len() ==> exists|j: int|
                    0 <= j < cs.len() && ((#[trigger] cs[j]) matches Some(c) && c.find_at(
                        (e - 1) as nat,
                        (#[trigger] Self::seq_children(cs)[i]).0.as_nat(),
                    ) == Some(Self::seq_children(cs)[i])),
            forall|j: int, x: nat|
                #![trigger cs[j]->Some_0.find_at((e - 1) as nat, x)]
                0 <= j < cs.len() && cs[j] is Some && cs[j]->Some_0.contains_at((e - 1) as nat, x)
                    ==> exists|i: int|
                    0 <= i < Self::seq_children(cs).len() && Self::seq_children(cs)[i]
                        == cs[j]->Some_0.find_at((e - 1) as nat, x)->Some_0,
        decreases e, 0nat, cs.len(),
    {
        let w = pow(B as int, e);
        lemma_pow_positive(B as int, e);
        if cs.len() == 0 {
        } else {
            let s = Self::seq_children(cs);
            let tail = Self::seq_children(cs.drop_first());
            let head = Self::seq_opt(cs[0]);
            assert(s == head + tail);
            assert(Self::count_seq(cs) == Self::count_opt(cs[0]) + Self::count_seq(
                cs.drop_first(),
            ));
            Self::lemma_children_corresponds(cs.drop_first(), e, (base + 1) as nat);
            match cs[0] {
                Some(c0) => {
                    c0.lemma_to_seq_corresponds((e - 1) as nat, base);
                    assert(head == c0.to_seq());
                    assert(Self::count_opt(cs[0]) == c0.count());
                },
                None => {
                    assert(head == Seq::<(K, V)>::empty());
                    assert(Self::count_opt(cs[0]) == 0);
                },
            }
            assert(s.len() == Self::count_seq(cs));
            // range
            assert forall|i: int| 0 <= i < s.len() implies base * w <= (
            #[trigger] s[i]).0.as_nat() < (base + cs.len()) * w by {
                vstd::arithmetic::mul::lemma_mul_is_distributive_add_other_way(
                    w,
                    base as int,
                    1,
                );
                vstd::arithmetic::mul::lemma_mul_is_distributive_add_other_way(
                    w,
                    base as int + 1,
                    cs.len() - 1,
                );
                vstd::arithmetic::mul::lemma_mul_is_distributive_add_other_way(
                    w,
                    base as int,
                    cs.len() as int,
                );
                if i < head.len() {
                    assert(cs[0] matches Some(c0) && head == c0.to_seq());
                    assert(cs.len() >= 1);
                    vstd::arithmetic::mul::lemma_mul_inequality(
                        base as int + 1,
                        base as int + cs.len(),
                        w,
                    );
                } else {
                    assert(s[i] == tail[i - head.len()]);
                    vstd::arithmetic::mul::lemma_mul_inequality(base as int, base as int + 1, w);
                }
            };
            // ascending
            assert forall|i: int, j: int| 0 <= i < j < s.len() implies (
            #[trigger] s[i]).0.as_nat() < (#[trigger] s[j]).0.as_nat() by {
                vstd::arithmetic::mul::lemma_mul_is_distributive_add_other_way(
                    w,
                    base as int,
                    1,
                );
                if j < head.len() {
                } else if i < head.len() {
                    assert(s[j] == tail[j - head.len()]);
                    assert(cs[0] matches Some(c0) && head == c0.to_seq());
                    assert(s[i].0.as_nat() < (base + 1) * w);
                    assert((base + 1) * w <= s[j].0.as_nat());
                } else {
                    assert(s[i] == tail[i - head.len()]);
                    assert(s[j] == tail[j - head.len()]);
                }
            };
            // membership: each element is found in its child
            assert forall|i: int| 0 <= i < s.len() implies exists|j: int|
                0 <= j < cs.len() && ((#[trigger] cs[j]) matches Some(c) && c.find_at(
                    (e - 1) as nat,
                    (#[trigger] s[i]).0.as_nat(),
                ) == Some(s[i])) by {
                if i < head.len() {
                    let c0 = cs[0]->Some_0;
                    assert(cs[0] matches Some(cc));
                    assert(c0.find_at((e - 1) as nat, s[i].0.as_nat()) == Some(s[i]));
                    assert(0 <= 0 < cs.len() && ((#[trigger] cs[0]) matches Some(c) && c.find_at(
                        (e - 1) as nat,
                        s[i].0.as_nat(),
                    ) == Some(s[i])));
                } else {
                    assert(s[i] == tail[i - head.len()]);
                    let jt = choose|jt: int|
                        0 <= jt < cs.drop_first().len() && ((#[trigger] cs.drop_first()[jt])
                            matches Some(c) && c.find_at(
                            (e - 1) as nat,
                            tail[i - head.len()].0.as_nat(),
                        ) == Some(tail[i - head.len()]));
                    assert(cs[jt + 1] == cs.drop_first()[jt]);
                    assert(0 <= jt + 1 < cs.len() && ((#[trigger] cs[jt + 1]) matches Some(c)
                        && c.find_at((e - 1) as nat, s[i].0.as_nat()) == Some(s[i])));
                }
            };
            // completeness: each pair held by a child appears
            assert forall|j: int, x: nat|
                #![trigger cs[j]->Some_0.find_at((e - 1) as nat, x)]
                0 <= j < cs.len() && cs[j] is Some && cs[j]->Some_0.contains_at((e - 1) as nat, x)
                    implies exists|i: int|
                0 <= i < s.len() && s[i] == cs[j]->Some_0.find_at((e - 1) as nat, x)->Some_0 by {
                let c = cs[j]->Some_0;
                if j == 0 {
                    let it = choose|it: int|
                        0 <= it < c.to_seq().len() && c.to_seq()[it] == c.find_at(
                            (e - 1) as nat,
                            x,
                        )->Some_0;
                    assert(s[it] == c.to_seq()[it]);
                } else {
                    assert(cs.drop_first()[j - 1] == cs[j]);
                    let it = choose|it: int|
                        0 <= it < tail.len() && tail[it] == cs.drop_first()[j - 1]->Some_0.find_at(
                            (e - 1) as nat,
                            x,
                        )->Some_0;
                    assert(s[it + head.len()] == tail[it]);
                }
            };
        }
    }

    /// The pair sequence of a well-formed subtree counts its pairs, keeps
    /// every key inside the subtree's span, ascends strictly, and lists
    /// exactly the pairs the subtree holds.
    pub proof fn lemma_to_seq_corresponds(self, e: nat, p: nat)
        requires
            2 <= B,
            self.wf(e, p),
        ensures
            self.to_seq().len() == self.count(),
            forall|i: int|
                0 <= i < self.to_seq().len() ==> p * pow(B as int, (e + 1) as nat) <= (
                #[trigger] self.to_seq()[i]).0.as_nat() < (p + 1) * pow(B as int, (e + 1) as nat),
            forall|i: int, j: int|
                0 <= i < j < self.to_seq().len() ==> (#[trigger] self.to_seq()[i]).0.as_nat() < (
                #[trigger] self.to_seq()[j]).0.as_nat(),
            forall|i: int|
                0 <= i < self.to_seq().len() ==> self.find_at(
                    e,
                    (#[trigger] self.to_seq()[i]).0.as_nat(),
                ) == Some(self.to_seq()[i]),
            forall|x: nat|
                #[trigger] self.contains_at(e, x) ==> exists|i: int|
                    0 <= i < self.to_seq().len() && self.to_seq()[i] == self.find_at(e, x)->Some_0,
        decreases e, 1nat, 0nat,
    {
        let s = self.to_seq();
        let w1 = pow(B as int, (e + 1) as nat);
        lemma_pow_positive(B as int, (e + 1) as nat);
        lemma_pow_positive(B as int, e);
        lemma_pow_adds(B as int, e, 1);
        lemma_pow1(B as int);
        lemma_pow0(B as int);
        match self.repr {
            Repr::Leaf { keys, values } => {
                assert(e == 0);
                Self::lemma_slots_corresponds(keys@, values@, p * B as nat);
                assert(w1 == B as int);
                assert(s == Self::seq_slots(keys@, values@));
                assert(p * w1 == (p * B as nat) as int);
                vstd::arithmetic::mul::lemma_mul_is_distributive_add(B as int, p as int, 1);
                assert((p + 1) * w1 == p * B + B) by {
                    vstd::arithmetic::mul::lemma_mul_is_distributive_add_other_way(
                        B as int,
                        p as int,
                        1,
                    );
                };
                assert forall|i: int| 0 <= i < s.len() implies self.find_at(
                    e,
                    (#[trigger] s[i]).0.as_nat(),
                ) == Some(s[i]) by {
                    let x = s[i].0.as_nat();
                    let j = choose|j: int|
                        0 <= j < keys@.len() && keys@[j] == Some(s[i].0) && values@[j] == Some(
                            s[i].1,
                        ) && s[i].0.as_nat() == p * B + j;
                    Self::lemma_digit_lt(x, 0);
                    lemma_fundamental_div_mod_converse(x as int, B as int, p as int, j);
                    assert(digit_of(x, B as nat, 0) as int == j);
                };
                assert forall|x: nat| #[trigger] self.contains_at(e, x) implies exists|i: int|
                    0 <= i < s.len() && s[i] == self.find_at(e, x)->Some_0 by {
                    let dx = digit_of(x, B as nat, 0) as int;
                    Self::lemma_digit_lt(x, 0);
                    assert(keys@[dx] is Some);
                };
            },
            Repr::Internal { children } => {
                Self::lemma_children_corresponds(children@, e, p * B as nat);
                assert(s == Self::seq_children(children@));
                let w = pow(B as int, e);
                assert(w1 == w * (B as int));
                assert((p * B as nat) * w == p * w1) by (nonlinear_arith)
                    requires
                        w1 == w * (B as int),
                ;
                assert(((p * B as nat) + B) * w == (p + 1) * w1) by (nonlinear_arith)
                    requires
                        w1 == w * (B as int),
                ;
                assert forall|i: int| 0 <= i < s.len() implies self.find_at(
                    e,
                    (#[trigger] s[i]).0.as_nat(),
                ) == Some(s[i]) by {
                    let x = s[i].0.as_nat();
                    let j = choose|j: int|
                        0 <= j < children@.len() && ((#[trigger] children@[j]) matches Some(c)
                            && c.find_at((e - 1) as nat, x) == Some(s[i]));
                    let c = children@[j]->Some_0;
                    c.lemma_find_key((e - 1) as nat, x);
                    assert(c.contains_at((e - 1) as nat, x));
                    c.lemma_contains_count_pos((e - 1) as nat, (p * B as nat + j) as nat, x);
                    c.lemma_to_seq_corresponds((e - 1) as nat, (p * B as nat + j) as nat);
                    let it = choose|it: int|
                        0 <= it < c.to_seq().len() && c.to_seq()[it] == c.find_at(
                            (e - 1) as nat,
                            x,
                        )->Some_0;
                    assert(x == c.to_seq()[it].0.as_nat());
                    assert((p * B as nat + j) * w <= x < (p * B as nat + j + 1) * w);
                    assert((p * B as nat + j + 1) * w == (p * B as nat + j) * w + w) by (
                    nonlinear_arith);
                    lemma_fundamental_div_mod_converse(
                        x as int,
                        w,
                        (p * B as nat + j) as int,
                        x as int - (p * B as nat + j) * w,
                    );
                    assert(x as int / w == p * B as nat + j);
                    lemma_fundamental_div_mod_converse(
                        x as int / w,
                        B as int,
                        p as int,
                        j,
                    );
                    assert(digit_of(x, B as nat, e) as int == j);
                };
                assert forall|x: nat| #[trigger] self.contains_at(e, x) implies exists|i: int|
                    0 <= i < s.len() && s[i] == self.find_at(e, x)->Some_0 by {
                    let dx = digit_of(x, B as nat, e) as int;
                    Self::lemma_digit_lt(x, e);
                    assert(children@[dx] matches Some(c) && c.contains_at((e - 1) as nat, x));
                };
            },
        }
    }
}

/// Whether a child slot is absent or holds a logically empty stump.
pub open spec fn slot_empty<K: Key, V, const B: usize>(c: Option<Node<K, V, B>>) -> bool {
    match c {
        None => true,
        Some(n) => n.len_spec() == 0,
    }
}

/// The first (or, for `FIRST_LAST == false`, the last) child that holds
/// at least one live pair, skipping absent slots and stumps. The ghost
/// result names the slot the child was found in.
fn get_non_empty<K: Key, V, const B: usize>(
    children: &Vec<Option<Node<K, V, B>>>,
    forward: bool,
) -> (r: (Option<&Node<K, V, B>>, Ghost<int>))
    ensures
        match r.0 {
            Some(c) => {
                &&& 0 <= r.1@ < children@.len()
                &&& children@[r.1@] == Some(*c)
                &&& c.len_spec() != 0
                &&& if forward {
                    forall|j: int| 0 <= j < r.1@ ==> slot_empty(#[trigger] children@[j])
                } else {
                    forall|j: int| r.1@ < j < children@.len() ==> slot_empty(#[trigger] children@[j])
                }
            },
            None => forall|j: int| 0 <= j < children@.len() ==> slot_empty(#[trigger] children@[j]),
        },
{
    if forward {
        let mut i: usize = 0;
        while i < children.len()
            invariant
                forward,
                i <= children@.len(),
                forall|j: int| 0 <= j < i as int ==> slot_empty(#[trigger] children@[j]),
            decreases children@.len() - i,
        {
            match &children[i] {
                Some(c) => {
                    if c.len != 0 {
                        return (Some(c), Ghost(i as int));
                    }
                },
                None => {},
            }
            i += 1;
        }
        (None, Ghost(0))
    } else {
        let mut i: usize = children.len();
        while i > 0
            invariant
                !forward,
                i <= children@.len(),
                forall|j: int| i as int <= j < children@.len() ==> slot_empty(
                    #[trigger] children@[j],
                ),
            decreases i,
        {
            i -= 1;
            match &children[i] {
                Some(c) => {
                    if c.len != 0 {
                        return (Some(c), Ghost(i as int));
                    }
                },
                None => {},
            }
        }
        (None, Ghost(0))
    }
}

impl<K: Key, V, const B: usize> Node<K, V, B> {
    /// Concatenation of child pair sequences splits at any index.
    proof fn lemma_seq_children_split(cs: Seq<Option<Node<K, V, B>>>, i: int)
        requires
            0 <= i <= cs.len(),
        ensures
            Self::seq_children(cs) == Self::seq_children(cs.subrange(0, i))
                + Self::seq_children(cs.subrange(i, cs.len() as int)),
        decreases i,
    {
        if i == 0 {
            assert(cs.subrange(0, cs.len() as int) =~= cs);
            assert(Self::seq_children(cs.subrange(0, 0)) =~= Seq::<(K, V)>::empty());
            assert(Self::seq_children(cs) =~= Self::seq_children(cs.subrange(0, 0))
                + Self::seq_children(cs.subrange(0, cs.len() as int)));
        } else {
            Self::lemma_seq_children_split(cs.drop_first(), i - 1);
            assert(cs.subrange(0, i).drop_first() =~= cs.drop_first().subrange(0, i - 1));
            assert(cs.subrange(i, cs.len() as int) =~= cs.drop_first().subrange(
                i - 1,
                cs.drop_first().len() as int,
            ));
            assert(cs.subrange(0, i)[0] == cs[0]);
            assert(Self::seq_children(cs.subrange(0, i)) == Self::seq_opt(cs[0])
                + Self::seq_children(cs.drop_first().subrange(0, i - 1)));
            assert((Self::seq_opt(cs[0]) + Self::seq_children(cs.drop_first().subrange(0, i - 1)))
                + Self::seq_children(cs.subrange(i, cs.len() as int)) =~= Self::seq_opt(cs[0]) + (
            Self::seq_children(cs.drop_first().subrange(0, i - 1)) + Self::seq_children(
                cs.subrange(i, cs.len() as int),
            )));
        }
    }

    /// A run of absent or stump children contributes no pairs, provided
    /// each present child is well-formed at some prefix.
    proof fn lemma_children_all_empty(cs: Seq<Option<Node<K, V, B>>>, e: nat, base: nat)
        requires
            2 <= B,
            1 <= e,
            forall|j: int|
                0 <= j < cs.len() ==> match #[trigger] cs[j] {
                    Some(c) => c.wf((e - 1) as nat, (base + j) as nat),
                    None => true,
                },
            forall|j: int| 0 <= j < cs.len() ==> slot_empty(#[trigger] cs[j]),
        ensures
            Self::seq_children(cs) == Seq::<(K, V)>::empty(),
            Self::count_seq(cs) == 0,
        decreases cs.len(),
    {
        if cs.len() > 0 {
            Self::lemma_children_all_empty(cs.drop_first(), e, (base + 1) as nat);
            match cs[0] {
                Some(c) => {
                    assert(c.len_spec() == 0);
                    assert(c.count() == 0) by {
                        assert(c.wf((e - 1) as nat, (base + 0) as nat));
                    };
                    c.lemma_to_seq_corresponds((e - 1) as nat, base);
                    assert(c.to_seq().len() == 0);
                    assert(c.to_seq() =~= Seq::<(K, V)>::empty());
                    assert(Self::seq_opt(cs[0]) == c.to_seq());
                    assert(Self::count_opt(cs[0]) == c.count());
                },
                None => {
                    assert(Self::seq_opt(cs[0]) == Seq::<(K, V)>::empty());
                    assert(Self::count_opt(cs[0]) == 0);
                },
            }
            assert(Self::count_seq(cs) == Self::count_opt(cs[0]) + Self::count_seq(
                cs.drop_first(),
            ));
            assert(Self::seq_children(cs) == Self::seq_opt(cs[0]) + Self::seq_children(
                cs.drop_first(),
            ));
            assert(Self::seq_children(cs) =~= Seq::<(K, V)>::empty());
        }
    }

    /// Concatenation of slot pair sequences splits at any index.
    proof fn lemma_seq_slots_split(ks: Seq<Option<K>>, vs: Seq<Option<V>>, i: int)
        requires
            0 <= i <= ks.len(),
            ks.len() == vs.len(),
        ensures
            Self::seq_slots(ks, vs) == Self::seq_slots(ks.subrange(0, i), vs.subrange(0, i))
                + Self::seq_slots(
                ks.subrange(i, ks.len() as int),
                vs.subrange(i, vs.len() as int),
            ),
        decreases i,
    {
        if i == 0 {
            assert(ks.subrange(0, ks.len() as int) =~= ks);
            assert(vs.subrange(0, vs.len() as int) =~= vs);
            assert(Self::seq_slots(ks.subrange(0, 0), vs.subrange(0, 0)) =~= Seq::<
                (K, V),
            >::empty());
            assert(Self::seq_slots(ks, vs) =~= Self::seq_slots(ks.subrange(0, 0), vs.subrange(0, 0))
                + Self::seq_slots(ks.subrange(0, ks.len() as int), vs.subrange(0, vs.len() as int)));
        } else {
            Self::lemma_seq_slots_split(ks.drop_first(), vs.drop_first(), i - 1);
            assert(ks.subrange(0, i).drop_first() =~= ks.drop_first().subrange(0, i - 1));
            assert(vs.subrange(0, i).drop_first() =~= vs.drop_first().subrange(0, i - 1));
            assert(ks.subrange(i, ks.len() as int) =~= ks.drop_first().subrange(
                i - 1,
                ks.drop_first().len() as int,
            ));
            assert(vs.subrange(i, vs.len() as int) =~= vs.drop_first().subrange(
                i - 1,
                vs.drop_first().len() as int,
            ));
            assert(ks.subrange(0, i)[0] == ks[0]);
            assert(vs.subrange(0, i)[0] == vs[0]);
            let head: Seq<(K, V)> = match (ks[0], vs[0]) {
                (Some(k), Some(v)) => seq![(k, v)],
                _ => Seq::empty(),
            };
            assert(Self::seq_slots(ks.subrange(0, i), vs.subrange(0, i)) == head
                + Self::seq_slots(ks.drop_first().subrange(0, i - 1), vs.drop_first().subrange(
                    0,
                    i - 1,
                )));
            assert((head + Self::seq_slots(
                ks.drop_first().subrange(0, i - 1),
                vs.drop_first().subrange(0, i - 1),
            )) + Self::seq_slots(ks.subrange(i, ks.len() as int), vs.subrange(i, vs.len() as int))
                =~= head + (Self::seq_slots(
                ks.drop_first().subrange(0, i - 1),
                vs.drop_first().subrange(0, i - 1),
            ) + Self::seq_slots(ks.subrange(i, ks.len() as int), vs.subrange(i, vs.len() as int))));
        }
    }

    /// The smallest entry of the subtree: the head of its pair sequence.
    /// Absent exactly when the subtree is logically empty. Skips stumps.
    pub fn first(&self) -> (r: Option<(&K, &V)>)
        requires
            2 <= B,
            exists|e: nat, p: nat| #[trigger] self.wf(e, p),
        ensures
            match r {
                Some(pr) => self.to_seq().len() > 0 && (*pr.0, *pr.1) == self.to_seq()[0],
                None => self.to_seq().len() == 0,
            },
    {
        let ghost (e, p) = choose|e: nat, p: nat| self.wf(e, p);
        self.first_at(Ghost(e), Ghost(p))
    }

    fn first_at(&self, Ghost(e): Ghost<nat>, Ghost(p): Ghost<nat>) -> (r: Option<(&K, &V)>)
        requires
            2 <= B,
            self.wf(e, p),
        ensures
            match r {
                Some(pr) => self.to_seq().len() > 0 && (*pr.0, *pr.1) == self.to_seq()[0],
                None => self.to_seq().len() == 0,
            },
        decreases e,
    {
        match &self.repr {
            Repr::Internal { children } => {
                let (found, gi) = get_non_empty::<K, V, B>(children, true);
                match found {
                    Some(c) => {
                        let ghost i = gi@;
                        proof {
                            assert(c.wf((e - 1) as nat, (p * B + i) as nat));
                            assert(c.count() == c.len_spec());
                            c.lemma_to_seq_corresponds((e - 1) as nat, (p * B + i) as nat);
                            assert(c.to_seq().len() > 0);
                            Self::lemma_seq_children_split(children@, i);
                            Self::lemma_children_all_empty(
                                children@.subrange(0, i),
                                e,
                                (p * B) as nat,
                            );
                            let skip = children@.subrange(i, children@.len() as int);
                            assert(skip.len() > 0);
                            assert(skip[0] == children@[i]);
                            assert(skip.drop_first() =~= children@.subrange(
                                i + 1,
                                children@.len() as int,
                            ));
                            assert(Self::seq_children(skip) == Self::seq_opt(skip[0])
                                + Self::seq_children(skip.drop_first()));
                            assert(Self::seq_opt(skip[0]) == c.to_seq());
                            assert(Self::seq_children(skip) == c.to_seq() + Self::seq_children(
                                children@.subrange(i + 1, children@.len() as int),
                            ));
                            assert(self.to_seq() == c.to_seq() + Self::seq_children(
                                children@.subrange(i + 1, children@.len() as int),
                            ));
                            assert(self.to_seq()[0] == c.to_seq()[0]);
                        }
                        let rr = c.first_at(Ghost((e - 1) as nat), Ghost((p * B + i) as nat));
                        match rr {
                            Some(pr) => Some(pr),
                            None => {
                                proof {
                                    assert(false);
                                }
                                None
                            },
                        }
                    },
                    None => {
                        proof {
                            Self::lemma_children_all_empty(children@, e, (p * B) as nat);
                        }
                        None
                    },
                }
            },
            Repr::Leaf { keys, values } => {
                let mut i: usize = 0;
                while i < keys.len()
                    invariant
                        self.wf(e, p),
                        self.repr matches Repr::Leaf { keys: k2, values: v2 } && k2 == keys && v2
                            == values,
                        i <= keys@.len(),
                        keys@.len() == values@.len(),
                        forall|j: int| 0 <= j < i as int ==> (#[trigger] keys@[j]) is None,
                    decreases keys@.len() - i,
                {
                    match (&keys[i], &values[i]) {
                        (Some(k), Some(v)) => {
                            proof {
                                Self::lemma_seq_slots_split(keys@, values@, i as int);
                                Self::lemma_slots_all_none(
                                    keys@.subrange(0, i as int),
                                    values@.subrange(0, i as int),
                                );
                                let ksk = keys@.subrange(i as int, keys@.len() as int);
                                let vsk = values@.subrange(i as int, values@.len() as int);
                                assert(ksk[0] == keys@[i as int]);
                                assert(vsk[0] == values@[i as int]);
                                assert(Self::seq_slots(ksk, vsk) == seq![(*k, *v)]
                                    + Self::seq_slots(ksk.drop_first(), vsk.drop_first()));
                                assert(self.to_seq() == Self::seq_slots(ksk, vsk));
                                assert(Self::seq_slots(ksk, vsk)[0] == (*k, *v));
                            }
                            return Some((k, v));
                        },
                        _ => {
                            proof {
                                assert(keys@[i as int] is None);
                            }
                        },
                    }
                    i += 1;
                }
                proof {
                    Self::lemma_slots_all_none(keys@, values@);
                }
                None
            },
        }
    }

    /// The largest entry of the subtree: the tail of its pair sequence.
    /// Absent exactly when the subtree is logically empty. Skips stumps.
    pub fn last(&self) -> (r: Option<(&K, &V)>)
        requires
            2 <= B,
            exists|e: nat, p: nat| #[trigger] self.wf(e, p),
        ensures
            match r {
                Some(pr) => self.to_seq().len() > 0 && (*pr.0, *pr.1) == self.to_seq()[
                    self.to_seq().len() - 1
                ],
                None => self.to_seq().len() == 0,
            },
    {
        let ghost (e, p) = choose|e: nat, p: nat| self.wf(e, p);
        self.last_at(Ghost(e), Ghost(p))
    }

    fn last_at(&self, Ghost(e): Ghost<nat>, Ghost(p): Ghost<nat>) -> (r: Option<(&K, &V)>)
        requires
            2 <= B,
            self.wf(e, p),
        ensures
            match r {
                Some(pr) => self.to_seq().len() > 0 && (*pr.0, *pr.1) == self.to_seq()[
                    self.to_seq().len() - 1
                ],
                None => self.to_seq().len() == 0,
            },
        decreases e,
    {
        match &self.repr {
            Repr::Internal { children } => {
                let (found, gi) = get_non_empty::<K, V, B>(children, false);
                match found {
                    Some(c) => {
                        let ghost i = gi@;
                        proof {
                            assert(c.wf((e - 1) as nat, (p * B + i) as nat));
                            assert(c.count() == c.len_spec());
                            c.lemma_to_seq_corresponds((e - 1) as nat, (p * B + i) as nat);
                            assert(c.to_seq().len() > 0);
                            Self::lemma_seq_children_split(children@, i);
                            let skip = children@.subrange(i, children@.len() as int);
                            assert(skip.len() > 0);
                            assert(skip[0] == children@[i]);
                            assert(skip.drop_first() =~= children@.subrange(
                                i + 1,
                                children@.len() as int,
                            ));
                            Self::lemma_children_all_empty(
                                children@.subrange(i + 1, children@.len() as int),
                                e,
                                (p * B + i + 1) as nat,
                            );
                            assert(Self::seq_children(skip) == Self::seq_opt(skip[0])
                                + Self::seq_children(skip.drop_first()));
                            assert(Self::seq_opt(skip[0]) == c.to_seq());
                            assert(Self::seq_children(skip) == c.to_seq() + Self::seq_children(
                                children@.subrange(i + 1, children@.len() as int),
                            ));
                            assert(Self::seq_children(skip) =~= c.to_seq());
                            assert(self.to_seq() == Self::seq_children(children@.subrange(0, i))
                                + c.to_seq());
                            assert(self.to_seq()[self.to_seq().len() - 1] == c.to_seq()[
                            c.to_seq().len() - 1]);
                        }
                        let rr = c.last_at(Ghost((e - 1) as nat), Ghost((p * B + i) as nat));
                        match rr {
                            Some(pr) => Some(pr),
                            None => {
                                proof {
                                    assert(false);
                                }
                                None
                            },
                        }
                    },
                    None => {
                        proof {
                            Self::lemma_children_all_empty(children@, e, (p * B) as nat);
                        }
                        None
                    },
                }
            },
            Repr::Leaf { keys, values } => {
                let mut i: usize = keys.len();
                while i > 0
                    invariant
                        self.wf(e, p),
                        self.repr matches Repr::Leaf { keys: k2, values: v2 } && k2 == keys && v2
                            == values,
                        i <= keys@.len(),
                        keys@.len() == values@.len(),
                        forall|j: int|
                            i as int <= j < keys@.len() ==> (#[trigger] keys@[j]) is None,
                    decreases i,
                {
                    i -= 1;
                    match (&keys[i], &values[i]) {
                        (Some(k), Some(v)) => {
                            proof {
                                Self::lemma_seq_slots_split(keys@, values@, i as int);
                                Self::lemma_slots_all_none(
                                    keys@.subrange(i as int + 1, keys@.len() as int),
                                    values@.subrange(i as int + 1, values@.len() as int),
                                );
                                let ksk = keys@.subrange(i as int, keys@.len() as int);
                                let vsk = values@.subrange(i as int, values@.len() as int);
                                assert(ksk[0] == keys@[i as int]);
                                assert(vsk[0] == values@[i as int]);
                                assert(ksk.drop_first() =~= keys@.subrange(
                                    i as int + 1,
                                    keys@.len() as int,
                                ));
                                assert(vsk.drop_first() =~= values@.subrange(
                                    i as int + 1,
                                    values@.len() as int,
                                ));
                                assert(Self::seq_slots(ksk, vsk) == seq![(*k, *v)]
                                    + Self::seq_slots(ksk.drop_first(), vsk.drop_first()));
                                assert(Self::seq_slots(ksk, vsk) =~= seq![(*k, *v)]);
                                assert(self.to_seq() == Self::seq_slots(
                                    keys@.subrange(0, i as int),
                                    values@.subrange(0, i as int),
                                ) + seq![(*k, *v)]);
                                assert(self.to_seq()[self.to_seq().len() - 1] == (*k, *v));
                            }
                            return Some((k, v));
                        },
                        _ => {
                            proof {
                                assert(keys@[i as int] is None);
                            }
                        },
                    }
                }
                proof {
                    Self::lemma_slots_all_none(keys@, values@);
                }
                None
            },
        }
    }
}

impl<K: Key, V, const B: usize> Node<K, V, B> {
    /// The committed slot capacity of the subtree: every slot of every
    /// allocated leaf, occupied or not.
    pub closed spec fn cap(self) -> nat
        decreases self,
    {
        match self.repr {
            Repr::Internal { children } => Self::cap_seq(children@),
            Repr::Leaf { keys, values } => keys@.len(),
        }
    }

    pub closed spec fn cap_seq(cs: Seq<Option<Node<K, V, B>>>) -> nat
        decreases cs,
    {
        if cs.len() == 0 {
            0
        } else {
            Self::cap_opt(cs[0]) + Self::cap_seq(cs.drop_first())
        }
    }

    pub closed spec fn cap_opt(c: Option<Node<K, V, B>>) -> nat
        decreases c,
    {
        match c {
            Some(n) => n.cap(),
            None => 0,
        }
    }

    /// The byte footprint of the subtree: each node plus the committed
    /// capacity of its slot arrays, unused slots included.
    pub closed spec fn storage_bytes_spec(self) -> nat
        decreases self,
    {
        match self.repr {
            Repr::Internal { children } => vstd::layout::size_of::<Self>() + children@.len()
                * vstd::layout::size_of::<Option<Self>>() + Self::sb_seq(children@),
            Repr::Leaf { keys, values } => vstd::layout::size_of::<Self>() + keys@.len()
                * vstd::layout::size_of::<Option<K>>() + values@.len() * vstd::layout::size_of::<
                Option<V>,
            >(),
        }
    }

    pub closed spec fn sb_seq(cs: Seq<Option<Node<K, V, B>>>) -> nat
        decreases cs,
    {
        if cs.len() == 0 {
            0
        } else {
            Self::sb_opt(cs[0]) + Self::sb_seq(cs.drop_first())
        }
    }

    pub closed spec fn sb_opt(c: Option<Node<K, V, B>>) -> nat
        decreases c,
    {
        match c {
            Some(n) => n.storage_bytes_spec(),
            None => 0,
        }
    }

    /// Appending a child extends the summed counts by its contribution.
    proof fn lemma_sums_push(cs: Seq<Option<Node<K, V, B>>>, c: Option<Node<K, V, B>>)
        ensures
            Self::count_seq(cs.push(c)) == Self::count_seq(cs) + Self::count_opt(c),
            Self::cap_seq(cs.push(c)) == Self::cap_seq(cs) + Self::cap_opt(c),
            Self::sb_seq(cs.push(c)) == Self::sb_seq(cs) + Self::sb_opt(c),
        decreases cs.len(),
    {
        if cs.len() == 0 {
            assert(cs.push(c)[0] == c);
            assert(cs.push(c).drop_first() =~= Seq::<Option<Node<K, V, B>>>::empty());
            assert(Self::count_seq(cs) == 0);
            assert(Self::cap_seq(cs) == 0);
            assert(Self::sb_seq(cs) == 0);
            assert(Self::count_seq(cs.push(c)) == Self::count_opt(c) + Self::count_seq(
                cs.push(c).drop_first(),
            ));
            assert(Self::cap_seq(cs.push(c)) == Self::cap_opt(c) + Self::cap_seq(
                cs.push(c).drop_first(),
            ));
            assert(Self::sb_seq(cs.push(c)) == Self::sb_opt(c) + Self::sb_seq(
                cs.push(c).drop_first(),
            ));
        } else {
            assert(cs.push(c)[0] == cs[0]);
            assert(cs.push(c).drop_first() =~= cs.drop_first().push(c));
            Self::lemma_sums_push(cs.drop_first(), c);
            assert(Self::count_seq(cs.push(c)) == Self::count_opt(cs[0]) + Self::count_seq(
                cs.drop_first().push(c),
            ));
            assert(Self::count_seq(cs) == Self::count_opt(cs[0]) + Self::count_seq(
                cs.drop_first(),
            ));
            assert(Self::cap_seq(cs.push(c)) == Self::cap_opt(cs[0]) + Self::cap_seq(
                cs.drop_first().push(c),
            ));
            assert(Self::cap_seq(cs) == Self::cap_opt(cs[0]) + Self::cap_seq(cs.drop_first()));
            assert(Self::sb_seq(cs.push(c)) == Self::sb_opt(cs[0]) + Self::sb_seq(
                cs.drop_first().push(c),
            ));
            assert(Self::sb_seq(cs) == Self::sb_opt(cs[0]) + Self::sb_seq(cs.drop_first()));
        }
    }

    /// The pair count never exceeds the committed capacity.
    proof fn lemma_count_le_cap(self)
        ensures
            self.count() <= self.cap(),
        decreases self, 1nat,
    {
        match self.repr {
            Repr::Internal { children } => {
                Self::lemma_count_le_cap_seq(children@);
            },
            Repr::Leaf { keys, values } => {
                Self::lemma_count_slots_le_len(keys@);
            },
        }
    }

    proof fn lemma_count_le_cap_seq(cs: Seq<Option<Node<K, V, B>>>)
        ensures
            Self::count_seq(cs) <= Self::cap_seq(cs),
        decreases cs, 0nat,
    {
        if cs.len() > 0 {
            match cs[0] {
                Some(n) => {
                    n.lemma_count_le_cap();
                },
                None => {},
            }
            Self::lemma_count_le_cap_seq(cs.drop_first());
            assert(Self::count_seq(cs) == Self::count_opt(cs[0]) + Self::count_seq(
                cs.drop_first(),
            ));
            assert(Self::cap_seq(cs) == Self::cap_opt(cs[0]) + Self::cap_seq(cs.drop_first()));
            assert(Self::count_opt(cs[0]) <= Self::cap_opt(cs[0]));
        }
    }

    proof fn lemma_count_slots_le_len(ks: Seq<Option<K>>)
        ensures
            Self::count_slots(ks) <= ks.len(),
        decreases ks.len(),
    {
        if ks.len() > 0 {
            Self::lemma_count_slots_le_len(ks.drop_first());
        }
    }

    /// This node's byte footprint plus the recursive sum over its
    /// children, counting committed capacity including unused slots.
    pub fn storage_bytes(&self) -> (r: usize)
        requires
            self.storage_bytes_spec() <= usize::MAX as nat,
        ensures
            r as nat == self.storage_bytes_spec(),
        decreases *self,
    {
        match &self.repr {
            Repr::Internal { children } => {
                let header = core::mem::size_of::<Self>();
                let slots = children.len() * core::mem::size_of::<Option<Self>>();
                let mut sum: usize = 0;
                let mut i: usize = 0;
                proof {
                    assert(children@.subrange(0, 0) =~= Seq::<Option<Node<K, V, B>>>::empty());
                }
                while i < children.len()
                    invariant
                        i <= children@.len(),
                        sum as nat == Self::sb_seq(children@.subrange(0, i as int)),
                        self.repr matches Repr::Internal { children: c2 } && c2 == children,
                        self.storage_bytes_spec() <= usize::MAX as nat,
                    decreases children@.len() - i,
                {
                    proof {
                        assert(children@.subrange(0, i as int + 1) =~= children@.subrange(
                            0,
                            i as int,
                        ).push(children@[i as int]));
                        Self::lemma_sums_push(
                            children@.subrange(0, i as int),
                            children@[i as int],
                        );
                        Self::lemma_sb_prefix(children@, i as int + 1);
                    }
                    match &children[i] {
                        Some(c) => {
                            let cb = c.storage_bytes();
                            sum = sum + cb;
                        },
                        None => {},
                    }
                    i += 1;
                }
                proof {
                    assert(children@.subrange(0, children@.len() as int) =~= children@);
                }
                header + slots + sum
            },
            Repr::Leaf { keys, values } => {
                let header = core::mem::size_of::<Self>();
                let kslots = keys.len() * core::mem::size_of::<Option<K>>();
                let vslots = values.len() * core::mem::size_of::<Option<V>>();
                header + kslots + vslots
            },
        }
    }

    /// A prefix of the byte sum is bounded by the whole sum.
    proof fn lemma_sb_prefix(cs: Seq<Option<Node<K, V, B>>>, i: int)
        requires
            0 <= i <= cs.len(),
        ensures
            Self::sb_seq(cs.subrange(0, i)) <= Self::sb_seq(cs),
        decreases i,
    {
        if i == 0 {
            assert(Self::sb_seq(cs.subrange(0, 0)) == 0);
        } else {
            assert(cs.subrange(0, i) =~= cs.subrange(0, i - 1).push(cs[i - 1]));
            Self::lemma_sums_push(cs.subrange(0, i - 1), cs[i - 1]);
            Self::lemma_sb_prefix(cs, i - 1);
            Self::lemma_sb_suffix_one(cs, i - 1);
        }
    }

    /// One element's byte contribution is bounded by the whole sum less
    /// the sum of the elements before it.
    proof fn lemma_sb_suffix_one(cs: Seq<Option<Node<K, V, B>>>, i: int)
        requires
            0 <= i < cs.len(),
        ensures
            Self::sb_seq(cs.subrange(0, i)) + Self::sb_opt(cs[i]) <= Self::sb_seq(cs),
        decreases cs.len(),
    {
        Self::lemma_sb_split(cs, i);
        assert(cs.subrange(i, cs.len() as int)[0] == cs[i]);
        assert(Self::sb_seq(cs.subrange(i, cs.len() as int)) == Self::sb_opt(cs[i])
            + Self::sb_seq(cs.subrange(i, cs.len() as int).drop_first()));
    }

    /// The byte sum splits at any index.
    proof fn lemma_sb_split(cs: Seq<Option<Node<K, V, B>>>, i: int)
        requires
            0 <= i <= cs.len(),
        ensures
            Self::sb_seq(cs) == Self::sb_seq(cs.subrange(0, i)) + Self::sb_seq(
                cs.subrange(i, cs.len() as int),
            ),
            Self::cap_seq(cs) == Self::cap_seq(cs.subrange(0, i)) + Self::cap_seq(
                cs.subrange(i, cs.len() as int),
            ),
            Self::count_seq(cs) == Self::count_seq(cs.subrange(0, i)) + Self::count_seq(
                cs.subrange(i, cs.len() as int),
            ),
        decreases i,
    {
        if i == 0 {
            assert(cs.subrange(0, cs.len() as int) =~= cs);
        } else {
            Self::lemma_sb_split(cs, i - 1);
            assert(cs.subrange(0, i) =~= cs.subrange(0, i - 1).push(cs[i - 1]));
            Self::lemma_sums_push(cs.subrange(0, i - 1), cs[i - 1]);
            let tail1 = cs.subrange(i - 1, cs.len() as int);
            let tail2 = cs.subrange(i, cs.len() as int);
            assert(tail1[0] == cs[i - 1]);
            assert(tail1.drop_first() =~= tail2);
            assert(Self::sb_seq(tail1) == Self::sb_opt(cs[i - 1]) + Self::sb_seq(tail2));
            assert(Self::cap_seq(tail1) == Self::cap_opt(cs[i - 1]) + Self::cap_seq(tail2));
            assert(Self::count_seq(tail1) == Self::count_opt(cs[i - 1]) + Self::count_seq(tail2));
        }
    }

    /// The committed capacity and the occupied count of the subtree,
    /// aggregated pairwise over the children; a leaf contributes its slot
    /// count and its live pairs.
    pub fn storage_util(&self) -> (r: (usize, usize))
        requires
            2 <= B,
            self.cap() <= usize::MAX as nat,
            exists|e: nat, p: nat| #[trigger] self.wf(e, p),
        ensures
            r.0 as nat == self.cap(),
            r.1 as nat == self.count(),
        decreases *self,
    {
        let ghost (e, p) = choose|e: nat, p: nat| self.wf(e, p);
        match &self.repr {
            Repr::Internal { children } => {
                let mut cap_sum: usize = 0;
                let mut occ_sum: usize = 0;
                let mut i: usize = 0;
                proof {
                    assert(children@.subrange(0, 0) =~= Seq::<Option<Node<K, V, B>>>::empty());
                }
                while i < children.len()
                    invariant
                        2 <= B,
                        i <= children@.len(),
                        cap_sum as nat == Self::cap_seq(children@.subrange(0, i as int)),
                        occ_sum as nat == Self::count_seq(children@.subrange(0, i as int)),
                        self.repr matches Repr::Internal { children: c2 } && c2 == children,
                        self.cap() <= usize::MAX as nat,
                        self.wf(e, p),
                    decreases children@.len() - i,
                {
                    proof {
                        assert(children@.subrange(0, i as int + 1) =~= children@.subrange(
                            0,
                            i as int,
                        ).push(children@[i as int]));
                        Self::lemma_sums_push(
                            children@.subrange(0, i as int),
                            children@[i as int],
                        );
                        Self::lemma_sb_split(children@, i as int + 1);
                        Self::lemma_count_le_cap_seq(children@.subrange(0, i as int + 1));
                        match children@[i as int] {
                            Some(c) => {
                                c.lemma_count_le_cap();
                            },
                            None => {},
                        }
                    }
                    match &children[i] {
                        Some(c) => {
                            proof {
                                assert(c.wf((e - 1) as nat, (p * B + i as int) as nat));
                            }
                            let (ccap, cocc) = c.storage_util();
                            cap_sum = cap_sum + ccap;
                            occ_sum = occ_sum + cocc;
                        },
                        None => {},
                    }
                    i += 1;
                }
                proof {
                    assert(children@.subrange(0, children@.len() as int) =~= children@);
                }
                (cap_sum, occ_sum)
            },
            Repr::Leaf { keys, values } => {
                proof {
                    Self::lemma_count_slots_le_len(keys@);
                    assert(self.len_spec() == Self::count_slots(keys@));
                }
                (keys.len(), self.len_exec())
            },
        }
    }

    /// The cached pair count, as the leaf arm of `storage_util` reports
    /// it; equals the live count on well-formed nodes.
    fn len_exec(&self) -> (r: usize)
        ensures
            r as nat == self.len_spec(),
    {
        self.len
    }

    /// Swaps `child` into slot `idx` of an internal node, returning the
    /// previous occupant and adjusting the cached count by the difference
    /// of the two occupants' cached counts.
    pub fn replace_child_at(&mut self, idx: usize, child: Option<Self>) -> (r: Option<Self>)
        requires
            old(self).is_internal(),
            idx < old(self).children_spec().len(),
            Self::count_opt_cached(old(self).children_spec()[idx as int]) <= old(self).len_spec(),
            old(self).len_spec() - Self::count_opt_cached(old(self).children_spec()[idx as int])
                + Self::count_opt_cached(child) <= usize::MAX as nat,
        ensures
            final(self).is_internal(),
            final(self).children_spec() == old(self).children_spec().update(idx as int, child),
            final(self).len_spec() == old(self).len_spec() - Self::count_opt_cached(
                old(self).children_spec()[idx as int],
            ) + Self::count_opt_cached(child),
            r == old(self).children_spec()[idx as int],
    {
        let new_len = match &child {
            Some(c) => c.len,
            None => 0,
        };
        let mut old_len: usize = 0;
        let mut r: Option<Self> = None;
        match &mut self.repr {
            Repr::Internal { children } => {
                let slot = &mut children[idx];
                let old_child = slot.take();
                *slot = child;
                old_len = match &old_child {
                    Some(c) => c.len,
                    None => 0,
                };
                r = old_child;
            },
            Repr::Leaf { .. } => {
                proof {
                    assert(false);
                }
            },
        }
        self.len = self.len - old_len + new_len;
        r
    }

    /// The cached count of an optional child.
    pub open spec fn count_opt_cached(c: Option<Node<K, V, B>>) -> nat {
        match c {
            Some(n) => n.len_spec(),
            None => 0,
        }
    }
}

impl<K: Key, V, const B: usize> Node<K, V, B> {
    /// Reads the map view pointwise: its domain is what the subtree
    /// holds, and its entries are the stored pairs.
    pub proof fn lemma_view_at_pointwise(self, e: nat)
        ensures
            forall|x: nat|
                #![trigger self.view_at(e).dom().contains(x)]
                self.view_at(e).dom().contains(x) <==> self.contains_at(e, x),
            forall|x: nat|
                #![trigger self.view_at(e)[x]]
                self.contains_at(e, x) ==> self.view_at(e)[x] == self.entry_at(e, x),
    {
    }
}

impl<K: Key, V, const B: usize> Node<K, V, B> {
    /// An ascending, double-ended traversal of the subtree's keys.
    pub fn keys(&self) -> (it: Keys<'_, K, V, B>)
        requires
            2 <= B,
            exists|e: nat, p: nat| #[trigger] self.wf(e, p),
        ensures
            it.inv(),
            it.remaining() == self.to_seq(),
    {
        Keys::new(self)
    }

    /// An ascending, double-ended traversal of the subtree's values.
    pub fn values(&self) -> (it: Values<'_, K, V, B>)
        requires
            2 <= B,
            exists|e: nat, p: nat| #[trigger] self.wf(e, p),
        ensures
            it.inv(),
            it.remaining() == self.to_seq(),
    {
        Values::new(self)
    }

    /// An ascending, double-ended traversal of the subtree's pairs.
    pub fn pairs(&self) -> (it: Pairs<'_, K, V, B>)
        requires
            2 <= B,
            exists|e: nat, p: nat| #[trigger] self.wf(e, p),
        ensures
            it.inv(),
            it.remaining() == self.to_seq(),
    {
        Pairs::new(self)
    }
}

impl<K: Key, V, const B: usize> Node<K, V, B> {
    /// Ordered traversal law: full forward iteration yields strictly
    /// ascending keys, and — since backward iteration takes the same
    /// sequence from its other end — full backward iteration yields the
    /// exact reverse, strictly descending.
    pub proof fn lemma_iteration_ascending(self, e: nat, p: nat)
        requires
            2 <= B,
            self.wf(e, p),
        ensures
            forall|i: int, j: int|
                0 <= i < j < self.to_seq().len() ==> (#[trigger] self.to_seq()[i]).0.as_nat() < (
                #[trigger] self.to_seq()[j]).0.as_nat(),
    {
        self.lemma_to_seq_corresponds(e, p);
    }
}

} // verus!
