//! An earlier, simpler trie node: an internal node owns `B` optional
//! children and a leaf owns a single key/value pair. The final key digit
//! is not discriminated — a leaf sits one level above where the last
//! digit would be spent — so the node maps key *groups* (a key with its
//! last digit cut off, `key / B`) to pairs, and inserting a key replaces
//! whatever pair its group held.

use vstd::prelude::*;
use vstd::arithmetic::power::{pow, lemma_pow0, lemma_pow1, lemma_pow_adds, lemma_pow_positive};
use vstd::arithmetic::div_mod::{
    lemma_fundamental_div_mod, lemma_div_denominator, lemma_mod_bound, lemma_div_pos_is_pos,
};

use crate::key::{Key, digit_of, max_depth_spec, lemma_max_depth_char, lemma_max_depth_le};

verus! {

/// A trie node: internal with `B` optional children, or a leaf holding
/// one pair.
pub enum Node<K, V, const B: usize> {
    Internal(Vec<Option<Node<K, V, B>>>),
    Leaf(K, V),
}

impl<K: Key, V, const B: usize> Node<K, V, B> {
    /// The number of trie levels below the root.
    pub open spec fn levels() -> nat {
        max_depth_spec(B as nat, K::max_spec())
    }

    /// The group a key falls in: the key with its final digit cut off.
    pub open spec fn group_of(k: nat) -> nat {
        (k as int / B as int) as nat
    }

    /// The digit path leading to the subtree that spans `e` levels below
    /// its own place and holds group `g`.
    pub open spec fn gprefix(g: nat, e: nat) -> nat {
        (g as int / pow(B as int, e)) as nat
    }

    /// Well-formedness of a node standing `e` levels above the leaves,
    /// reached along the digit path `prefix`.
    pub closed spec fn wf(self, e: nat, prefix: nat) -> bool
        decreases self,
    {
        match self {
            Node::Internal(children) => {
                &&& 1 <= e <= Self::levels()
                &&& children@.len() == B
                &&& forall|i: int|
                    0 <= i < B ==> match #[trigger] children@[i] {
                        Some(c) => c.wf((e - 1) as nat, (prefix * B + i) as nat),
                        None => true,
                    }
            },
            Node::Leaf(k, _) => {
                &&& e == 0
                &&& Self::group_of(k.as_nat()) == prefix
            },
        }
    }

    /// The pair the subtree holds for group `g`, if any.
    pub closed spec fn find_at(self, e: nat, g: nat) -> Option<(K, V)>
        decreases self,
    {
        match self {
            Node::Internal(children) => {
                let i = digit_of(g, B as nat, (e - 1) as nat) as int;
                if 0 <= i < children@.len() {
                    match children@[i] {
                        Some(c) => c.find_at((e - 1) as nat, g),
                        None => None,
                    }
                } else {
                    None
                }
            },
            Node::Leaf(k, v) => if Self::group_of(k.as_nat()) == g {
                Some((k, v))
            } else {
                None
            },
        }
    }

    /// The subtree as a map from key groups to the stored pairs.
    pub closed spec fn view_at(self, e: nat) -> Map<nat, (K, V)> {
        Map::new(|g: nat| self.find_at(e, g) is Some, |g: nat| self.find_at(e, g)->Some_0)
    }

    /// A fresh internal node: no children, no pairs.
    pub fn new_internal() -> (r: Self)
        ensures
            forall|e: nat, p: nat| 1 <= e <= Self::levels() ==> #[trigger] r.wf(e, p),
            forall|e: nat, g: nat| (#[trigger] r.find_at(e, g)) is None,
    {
        let mut children: Vec<Option<Node<K, V, B>>> = Vec::new();
        let mut i: usize = 0;
        while i < B
            invariant
                children@.len() == i as int,
                i <= B,
                forall|j: int| 0 <= j < i as int ==> children@[j] is None,
            decreases B - i,
        {
            children.push(None);
            i += 1;
        }
        Node::Internal(children)
    }

    /// Puts `child` into slot `idx` of an internal node.
    fn insert_child_at(&mut self, idx: usize, child: Self)
        requires
            (*old(self)) is Internal,
            idx < (*old(self))->Internal_0@.len(),
        ensures
            (*final(self)) is Internal,
            (*final(self))->Internal_0@ == (*old(self))->Internal_0@.update(idx as int, Some(child)),
    {
        match self {
            Node::Internal(children) => {
                let slot = &mut children[idx];
                *slot = Some(child);
            },
            Node::Leaf(_, _) => {
                proof {
                    assert(false);
                }
            },
        }
    }

    /// Takes the child out of slot `idx` of an internal node.
    fn remove_child_at(&mut self, idx: usize) -> (r: Option<Self>)
        requires
            (*old(self)) is Internal,
            idx < (*old(self))->Internal_0@.len(),
        ensures
            (*final(self)) is Internal,
            (*final(self))->Internal_0@ == (*old(self))->Internal_0@.update(
                idx as int,
                None::<Node<K, V, B>>,
            ),
            r == (*old(self))->Internal_0@[idx as int],
    {
        match self {
            Node::Internal(children) => {
                let slot = &mut children[idx];
                slot.take()
            },
            Node::Leaf(_, _) => {
                proof {
                    assert(false);
                }
                vstd::pervasive::unreached()
            },
        }
    }

    /// A group's digit one place down is the key's digit at that place.
    proof fn lemma_group_digit(k: nat, e: nat)
        requires
            2 <= B,
            1 <= e,
        ensures
            digit_of(k, B as nat, e) == digit_of(Self::group_of(k), B as nat, (e - 1) as nat),
    {
        let b = B as int;
        let ki = k as int;
        lemma_pow_positive(b, (e - 1) as nat);
        lemma_pow_positive(b, e);
        lemma_pow_adds(b, 1, (e - 1) as nat);
        lemma_pow1(b);
        assert(pow(b, e) == b * pow(b, (e - 1) as nat));
        lemma_div_denominator(ki, b, pow(b, (e - 1) as nat));
        lemma_div_pos_is_pos(ki, b);
        assert(ki / b / pow(b, (e - 1) as nat) == ki / (b * pow(b, (e - 1) as nat)));
    }

    /// Cutting one more digit off a group's path prefix.
    proof fn lemma_gprefix_child(g: nat, e: nat)
        requires
            2 <= B,
            1 <= e,
        ensures
            Self::gprefix(g, (e - 1) as nat) == Self::gprefix(g, e) * B + digit_of(
                g,
                B as nat,
                (e - 1) as nat,
            ),
    {
        let b = B as int;
        let gi = g as int;
        lemma_pow_positive(b, (e - 1) as nat);
        lemma_pow_positive(b, e);
        lemma_pow_adds(b, (e - 1) as nat, 1);
        lemma_pow1(b);
        assert(pow(b, e) == pow(b, (e - 1) as nat) * b);
        lemma_div_denominator(gi, pow(b, (e - 1) as nat), b);
        assert(gi / pow(b, (e - 1) as nat) / b == gi / (pow(b, (e - 1) as nat) * b));
        lemma_fundamental_div_mod(gi / pow(b, (e - 1) as nat), b);
        lemma_mod_bound(gi / pow(b, (e - 1) as nat), b);
        lemma_div_pos_is_pos(gi, pow(b, (e - 1) as nat));
        lemma_div_pos_is_pos(gi / pow(b, (e - 1) as nat), b);
        assert(gi / pow(b, (e - 1) as nat) == b * ((gi / pow(b, (e - 1) as nat)) / b) + (gi / pow(
            b,
            (e - 1) as nat,
        )) % b);
        vstd::arithmetic::mul::lemma_mul_is_commutative(b, (gi / pow(b, (e - 1) as nat)) / b);
    }

    /// A group's digit one place down stays below the branching factor.
    proof fn lemma_gdigit_lt(g: nat, e: nat)
        requires
            2 <= B,
        ensures
            digit_of(g, B as nat, e) < B,
    {
        lemma_pow_positive(B as int, e);
        lemma_mod_bound(g as int / pow(B as int, e), B as int);
        lemma_div_pos_is_pos(g as int, pow(B as int, e));
    }

    /// Inserts `key -> value` into the subtree, which stands
    /// `levels() - depth` levels above the leaves on the key's digit
    /// path. The evicted pair — the one the key's group held — comes
    /// back; afterwards the subtree maps as before plus the new pair.
    pub fn insert(&mut self, depth: usize, key: K, value: V) -> (r: Option<(K, V)>)
        requires
            2 <= B,
            K::max_spec() <= usize::MAX as nat,
            depth as nat <= Self::levels(),
            old(self).wf(
                (Self::levels() - depth) as nat,
                Self::gprefix(Self::group_of(key.as_nat()), (Self::levels() - depth) as nat),
            ),
        ensures
            final(self).wf(
                (Self::levels() - depth) as nat,
                Self::gprefix(Self::group_of(key.as_nat()), (Self::levels() - depth) as nat),
            ),
            final(self).view_at((Self::levels() - depth) as nat) == old(self).view_at(
                (Self::levels() - depth) as nat,
            ).insert(Self::group_of(key.as_nat()), (key, value)),
            r == old(self).find_at((Self::levels() - depth) as nat, Self::group_of(key.as_nat())),
        decreases Self::levels() - depth,
    {
        let ghost e = (Self::levels() - depth) as nat;
        let ghost kn = key.as_nat();
        let ghost g = Self::group_of(kn);
        let ghost p = Self::gprefix(g, e);
        proof {
            K::lemma_max_at_least_one();
            key.lemma_key_in_range();
            lemma_max_depth_char(B as nat, K::max_spec());
            lemma_max_depth_le(B as nat, K::max_spec());
        }
        if matches!(self, Node::Leaf(_, _)) {
            let mut replaced = Node::Leaf(key, value);
            core::mem::swap(self, &mut replaced);
            let r = match replaced {
                Node::Leaf(k, v) => Some((k, v)),
                Node::Internal(_) => {
                    proof {
                        assert(false);
                    }
                    vstd::pervasive::unreached()
                },
            };
            proof {
                lemma_pow0(B as int);
                assert(e == 0);
                assert(Self::gprefix(g, 0) == g) by {
                    assert(pow(B as int, 0) == 1);
                    assert(g as int / 1 == g) by (nonlinear_arith);
                };
                assert(self.wf(0, p));
                assert(r == old(self).find_at(0, g));
                assert(self.view_at(0) =~= old(self).view_at(0).insert(g, (key, value)));
            }
            return r;
        }
        let md = K::max_depth(B);
        let idx = key.index_at(B, depth);
        proof {
            assert(1 <= e);
            Self::lemma_group_digit(kn, e);
            Self::lemma_gdigit_lt(g, (e - 1) as nat);
            assert(idx as nat == digit_of(g, B as nat, (e - 1) as nat));
            Self::lemma_gprefix_child(g, e);
        }
        let ghost cs0 = self->Internal_0@;
        let child_opt = self.remove_child_at(idx);
        let ghost pc = Self::gprefix(g, (e - 1) as nat);
        let ghost was_present = child_opt is Some;
        proof {
            match cs0[idx as int] {
                Some(c0) => {
                    assert(c0.wf((e - 1) as nat, (p * B + idx as int) as nat));
                },
                None => {},
            }
            lemma_pow0(B as int);
            assert(Self::gprefix(g, 0) == g) by {
                assert(pow(B as int, 0) == 1);
                assert(g as int / 1 == g) by (nonlinear_arith);
            };
        }
        let r: Option<(K, V)>;
        let child: Node<K, V, B>;
        match child_opt {
            Some(mut c) => {
                proof {
                    assert(c.wf((e - 1) as nat, pc));
                }
                r = c.insert(depth + 1, key, value);
                child = c;
            },
            None => {
                if depth + 1 == md {
                    // the deepest level: the leaf holds the pair directly
                    child = Node::Leaf(key, value);
                    proof {
                        assert(child.wf((e - 1) as nat, pc));
                    }
                } else {
                    let mut c = Self::new_internal();
                    let ghost fresh = c;
                    let r2 = c.insert(depth + 1, key, value);
                    proof {
                        assert(fresh.find_at((e - 1) as nat, g) is None);
                        assert(r2 is None);
                    }
                    child = c;
                }
                r = None;
            },
        }
        let ghost child1 = child;
        self.insert_child_at(idx, child);
        proof {
            let n0 = *old(self);
            let n1 = *self;
            let cs1 = n1->Internal_0@;
            assert(cs1 =~= cs0.update(idx as int, Some(child1)));
            assert(n1.wf(e, p)) by {
                assert forall|i: int| 0 <= i < B implies match #[trigger] cs1[i] {
                    Some(c) => c.wf((e - 1) as nat, (p * B + i) as nat),
                    None => true,
                } by {
                    if i == idx as int {
                        assert(cs1[i] == Some(child1));
                        assert(child1.wf((e - 1) as nat, pc));
                    } else {
                        assert(cs1[i] == cs0[i]);
                    }
                };
            };
            assert(r == n0.find_at(e, g)) by {
                match cs0[idx as int] {
                    Some(c0) => {
                        assert(n0.find_at(e, g) == c0.find_at((e - 1) as nat, g));
                    },
                    None => {
                        assert(n0.find_at(e, g) is None);
                    },
                }
            };
            assert forall|x: nat| true implies #[trigger] n1.find_at(e, x) == (if x == g {
                Some((key, value))
            } else {
                n0.find_at(e, x)
            }) by {
                Self::lemma_gdigit_lt(x, (e - 1) as nat);
                let dx = digit_of(x, B as nat, (e - 1) as nat) as int;
                if dx == idx as int {
                    assert(n1.find_at(e, x) == child1.find_at((e - 1) as nat, x));
                    if !was_present && depth as int + 1 == md as int {
                        assert(child1 == Node::<K, V, B>::Leaf(key, value));
                        if x != g {
                            assert(child1.find_at((e - 1) as nat, x) is None);
                            assert(n0.find_at(e, x) is None);
                        }
                    } else if was_present {
                        let c0 = cs0[idx as int]->Some_0;
                        let mc0 = c0.view_at((e - 1) as nat);
                        let mc1 = child1.view_at((e - 1) as nat);
                        assert(mc1 == mc0.insert(g, (key, value)));
                        assert(n0.find_at(e, x) == c0.find_at((e - 1) as nat, x));
                        assert(child1.find_at((e - 1) as nat, x) is Some <==> mc1.dom().contains(
                            x,
                        ));
                        assert(c0.find_at((e - 1) as nat, x) is Some <==> mc0.dom().contains(x));
                        if x == g {
                            assert(mc1[x] == (key, value));
                            assert(child1.find_at((e - 1) as nat, x) == Some((key, value)));
                        } else {
                            if mc0.dom().contains(x) {
                                assert(mc1[x] == mc0[x]);
                                assert(child1.find_at((e - 1) as nat, x) == c0.find_at(
                                    (e - 1) as nat,
                                    x,
                                ));
                            } else {
                                assert(child1.find_at((e - 1) as nat, x) is None);
                                assert(c0.find_at((e - 1) as nat, x) is None);
                            }
                        }
                    } else {
                        // a fresh internal child was created and the pair
                        // inserted below it
                        assert(n0.find_at(e, x) is None);
                        let mc1 = child1.view_at((e - 1) as nat);
                        assert(child1.find_at((e - 1) as nat, x) is Some <==> mc1.dom().contains(
                            x,
                        ));
                        if x == g {
                            assert(mc1[x] == (key, value));
                            assert(child1.find_at((e - 1) as nat, x) == Some((key, value)));
                        } else {
                            if mc1.dom().contains(x) {
                                assert(false);
                            }
                            assert(child1.find_at((e - 1) as nat, x) is None);
                        }
                    }
                } else {
                    assert(cs0.update(idx as int, Some(child1))[dx] == cs0[dx]);
                    if x == g {
                        assert(digit_of(g, B as nat, (e - 1) as nat) == idx as nat);
                        assert(false);
                    }
                }
            };
            assert(n1.view_at(e) =~= n0.view_at(e).insert(g, (key, value)));
        }
        r
    }
}

} // verus!
