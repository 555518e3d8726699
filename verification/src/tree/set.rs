//! The set facade: one root node storing each member as a key with a
//! unit value, with the trie's contents read as a map from key values to
//! the stored members.

use vstd::prelude::*;
use vstd::arithmetic::power::pow;
use vstd::arithmetic::div_mod::lemma_basic_div;

use crate::key::{Key, lemma_max_depth_char};
use super::node::Node;
use super::B;

verus! {

/// An ordered set of fixed-width integer values, backed by a radix trie
/// with branching factor `B`.
pub struct SrbTreeSet<V> {
    root: Node<V, (), B>,
}

impl<T: Key> View for SrbTreeSet<T> {
    type V = Map<nat, T>;

    closed spec fn view(&self) -> Map<nat, T> {
        Map::new(
            |k: nat| self.root.contains_at(Node::<T, (), B>::levels(), k),
            |k: nat| self.root.entry_at(Node::<T, (), B>::levels(), k).0,
        )
    }
}

impl<T: Key> SrbTreeSet<T> {
    /// The branching factor must leave at least one trie level below the
    /// root, and every member must fit the native index domain.
    pub open spec fn key_fits() -> bool {
        B as nat <= T::max_spec() && T::max_spec() <= usize::MAX as nat
    }

    /// The root is a well-formed internal node spanning the whole key
    /// space.
    pub closed spec fn wf(self) -> bool {
        self.root.wf(Node::<T, (), B>::levels(), 0)
    }

    /// The number of members.
    pub closed spec fn count_spec(self) -> nat {
        self.root.count()
    }

    /// The subtree's byte footprint.
    pub closed spec fn storage_bytes_spec(self) -> nat {
        self.root.storage_bytes_spec()
    }

    /// The committed slot capacity.
    pub closed spec fn cap_spec(self) -> nat {
        self.root.cap()
    }

    /// The member's digit path starts at the root: prefix 0.
    proof fn lemma_root_prefix(k: nat)
        requires
            Self::key_fits(),
            k <= T::max_spec(),
        ensures
            Node::<T, (), B>::prefix_at(k, Node::<T, (), B>::levels()) == 0,
            1 <= Node::<T, (), B>::levels(),
    {
        T::lemma_max_at_least_one();
        lemma_max_depth_char(B as nat, T::max_spec());
        let lv = Node::<T, (), B>::levels();
        assert((k as int) < pow(B as int, (lv + 1) as nat));
        lemma_basic_div(k as int, pow(B as int, (lv + 1) as nat));
        if lv == 0 {
            assert(pow(B as int, 1) == B) by {
                vstd::arithmetic::power::lemma_pow1(B as int);
            };
        }
    }

    /// An empty set.
    pub fn new() -> (r: Self)
        ensures
            Self::key_fits() ==> r.wf(),
            r@ == Map::<nat, T>::empty(),
            r.count_spec() == 0,
    {
        let r = SrbTreeSet { root: Node::new_internal() };
        proof {
            if Self::key_fits() {
                T::lemma_max_at_least_one();
                lemma_max_depth_char(B as nat, T::max_spec());
                if Node::<T, (), B>::levels() == 0 {
                    assert(pow(B as int, 1) == B) by {
                        vstd::arithmetic::power::lemma_pow1(B as int);
                    };
                    assert(false);
                }
            }
            assert(r@ =~= Map::<nat, T>::empty());
        }
        r
    }

    /// The total byte footprint of the trie, committed capacity included.
    pub fn storage_bytes(&self) -> (r: usize)
        requires
            self.storage_bytes_spec() <= usize::MAX as nat,
        ensures
            r as nat == self.storage_bytes_spec(),
    {
        self.root.storage_bytes()
    }

    /// The committed capacity and occupied count of the trie; consumers
    /// divide occupied by capacity for a load factor.
    pub fn storage_util(&self) -> (r: (usize, usize))
        requires
            self.wf(),
            self.cap_spec() <= usize::MAX as nat,
        ensures
            r.0 as nat == self.cap_spec(),
            r.1 as nat == self.count_spec(),
    {
        proof {
            assert(self.root.wf(Node::<T, (), B>::levels(), 0));
            assert(2 <= B);
        }
        self.root.storage_util()
    }

    /// Inserts a member, returning the one its slot held.
    pub fn insert(&mut self, value: T) -> (r: Option<T>)
        requires
            Self::key_fits(),
            old(self).wf(),
            old(self).count_spec() < usize::MAX as nat,
        ensures
            final(self).wf(),
            final(self)@ == old(self)@.insert(value.as_nat(), value),
            r == (if old(self)@.contains_key(value.as_nat()) {
                Some(old(self)@[value.as_nat()])
            } else {
                None::<T>
            }),
            final(self).count_spec() == old(self).count_spec() + (if old(self)@.contains_key(
                value.as_nat(),
            ) {
                0int
            } else {
                1int
            }),
    {
        proof {
            value.lemma_key_in_range();
            Self::lemma_root_prefix(value.as_nat());
        }
        let ghost vn = value.as_nat();
        let ghost lv = Node::<T, (), B>::levels();
        let r = self.root.insert(0, value, ());
        proof {
            old(self).root.lemma_view_at_pointwise(lv);
            self.root.lemma_view_at_pointwise(lv);
            assert(self@ =~= old(self)@.insert(vn, value)) by {
                assert forall|x: nat| #![trigger self@.dom().contains(x)] true implies {
                    (self@.dom().contains(x) <==> old(self)@.insert(vn, value).dom().contains(x))
                        && (self@.dom().contains(x) ==> self@[x] == old(self)@.insert(
                        vn,
                        value,
                    )[x])
                } by {
                    assert(self.root.view_at(lv).dom().contains(x) <==> self.root.contains_at(
                        lv,
                        x,
                    ));
                    assert(old(self).root.view_at(lv).dom().contains(x) <==> old(
                        self,
                    ).root.contains_at(lv, x));
                    if x == vn {
                        assert(self.root.view_at(lv)[x] == (value, ()));
                    } else if old(self).root.contains_at(lv, x) {
                        assert(self.root.view_at(lv)[x] == old(self).root.view_at(lv)[x]);
                    }
                };
            };
        }
        match r {
            Some((v, _)) => Some(v),
            None => None,
        }
    }

    /// Removes a member, if present.
    pub fn remove(&mut self, value: &T) -> (r: Option<T>)
        requires
            Self::key_fits(),
            old(self).wf(),
        ensures
            final(self).wf(),
            final(self)@ == old(self)@.remove(value.as_nat()),
            r == (if old(self)@.contains_key(value.as_nat()) {
                Some(old(self)@[value.as_nat()])
            } else {
                None::<T>
            }),
            final(self).count_spec() == old(self).count_spec() - (if old(self)@.contains_key(
                value.as_nat(),
            ) {
                1int
            } else {
                0int
            }),
    {
        proof {
            value.lemma_key_in_range();
            Self::lemma_root_prefix(value.as_nat());
        }
        let ghost vn = value.as_nat();
        let ghost lv = Node::<T, (), B>::levels();
        let r = self.root.remove(0, value);
        proof {
            old(self).root.lemma_view_at_pointwise(lv);
            self.root.lemma_view_at_pointwise(lv);
            assert(self@ =~= old(self)@.remove(vn)) by {
                assert forall|x: nat| #![trigger self@.dom().contains(x)] true implies {
                    (self@.dom().contains(x) <==> old(self)@.remove(vn).dom().contains(x)) && (
                    self@.dom().contains(x) ==> self@[x] == old(self)@.remove(vn)[x])
                } by {
                    assert(self.root.view_at(lv).dom().contains(x) <==> self.root.contains_at(
                        lv,
                        x,
                    ));
                    assert(old(self).root.view_at(lv).dom().contains(x) <==> old(
                        self,
                    ).root.contains_at(lv, x));
                    if x != vn && old(self).root.contains_at(lv, x) {
                        assert(self.root.view_at(lv)[x] == old(self).root.view_at(lv)[x]);
                    }
                };
            };
        }
        match r {
            Some((v, _)) => Some(v),
            None => None,
        }
    }

    /// Looks a member up, returning the stored one if present.
    pub fn get(&self, value: &T) -> (r: Option<&T>)
        requires
            Self::key_fits(),
            self.wf(),
        ensures
            r is Some <==> self@.contains_key(value.as_nat()),
            r matches Some(v) ==> self@[value.as_nat()] == *v,
    {
        proof {
            value.lemma_key_in_range();
            Self::lemma_root_prefix(value.as_nat());
        }
        let ghost lv = Node::<T, (), B>::levels();
        let r = self.root.get(0, value);
        proof {
            self.root.lemma_view_at_pointwise(lv);
        }
        match r {
            Some((v, _)) => Some(v),
            None => None,
        }
    }

    /// The smallest member, absent exactly when the set is empty.
    pub fn first(&self) -> (r: Option<&T>)
        requires
            Self::key_fits(),
            self.wf(),
        ensures
            match r {
                Some(v) => self@.contains_key(v.as_nat()) && self@[v.as_nat()] == *v && forall|
                    x: nat,
                | self@.dom().contains(x) ==> v.as_nat() <= x,
                None => self@ == Map::<nat, T>::empty(),
            },
    {
        proof {
            assert(self.root.wf(Node::<T, (), B>::levels(), 0));
        }
        let r = self.root.first();
        proof {
            self.bridge_first(r);
        }
        match r {
            Some((v, _)) => Some(v),
            None => None,
        }
    }

    /// The largest member, absent exactly when the set is empty.
    pub fn last(&self) -> (r: Option<&T>)
        requires
            Self::key_fits(),
            self.wf(),
        ensures
            match r {
                Some(v) => self@.contains_key(v.as_nat()) && self@[v.as_nat()] == *v && forall|
                    x: nat,
                | self@.dom().contains(x) ==> x <= v.as_nat(),
                None => self@ == Map::<nat, T>::empty(),
            },
    {
        proof {
            assert(self.root.wf(Node::<T, (), B>::levels(), 0));
        }
        let r = self.root.last();
        proof {
            self.bridge_last(r);
        }
        match r {
            Some((v, _)) => Some(v),
            None => None,
        }
    }

    /// Links the head of the root's pair sequence to the minimal member.
    proof fn bridge_first(&self, r: Option<(&T, &())>)
        requires
            Self::key_fits(),
            self.wf(),
            match r {
                Some(pr) => self.root.to_seq().len() > 0 && (*pr.0, *pr.1) == self.root.to_seq()[0],
                None => self.root.to_seq().len() == 0,
            },
        ensures
            match r {
                Some(pr) => self@.contains_key(pr.0.as_nat()) && self@[pr.0.as_nat()] == *pr.0
                    && forall|x: nat| self@.dom().contains(x) ==> pr.0.as_nat() <= x,
                None => self@ == Map::<nat, T>::empty(),
            },
    {
        let lv = Node::<T, (), B>::levels();
        let s = self.root.to_seq();
        self.root.lemma_view_at_pointwise(lv);
        self.root.lemma_to_seq_corresponds(lv, 0);
        match r {
            Some(pr) => {
                assert(self.root.find_at(lv, s[0].0.as_nat()) == Some(s[0]));
                assert forall|x: nat| self@.dom().contains(x) implies pr.0.as_nat() <= x by {
                    assert(self.root.contains_at(lv, x));
                    let i = choose|i: int|
                        0 <= i < s.len() && s[i] == self.root.find_at(lv, x)->Some_0;
                    self.root.lemma_find_key(lv, x);
                    assert(s[i].0.as_nat() == x);
                    if i > 0 {
                        assert(s[0].0.as_nat() < s[i].0.as_nat());
                    }
                };
            },
            None => {
                assert(self.root.count() == 0);
                self.root.lemma_count_zero_empty(lv, 0);
                assert(self@ =~= Map::<nat, T>::empty());
            },
        }
    }

    /// Links the tail of the root's pair sequence to the maximal member.
    proof fn bridge_last(&self, r: Option<(&T, &())>)
        requires
            Self::key_fits(),
            self.wf(),
            match r {
                Some(pr) => self.root.to_seq().len() > 0 && (*pr.0, *pr.1) == self.root.to_seq()[
                    self.root.to_seq().len() - 1
                ],
                None => self.root.to_seq().len() == 0,
            },
        ensures
            match r {
                Some(pr) => self@.contains_key(pr.0.as_nat()) && self@[pr.0.as_nat()] == *pr.0
                    && forall|x: nat| self@.dom().contains(x) ==> x <= pr.0.as_nat(),
                None => self@ == Map::<nat, T>::empty(),
            },
    {
        let lv = Node::<T, (), B>::levels();
        let s = self.root.to_seq();
        self.root.lemma_view_at_pointwise(lv);
        self.root.lemma_to_seq_corresponds(lv, 0);
        match r {
            Some(pr) => {
                let li = s.len() - 1;
                assert(self.root.find_at(lv, s[li].0.as_nat()) == Some(s[li]));
                assert forall|x: nat| self@.dom().contains(x) implies x <= pr.0.as_nat() by {
                    assert(self.root.contains_at(lv, x));
                    let i = choose|i: int|
                        0 <= i < s.len() && s[i] == self.root.find_at(lv, x)->Some_0;
                    self.root.lemma_find_key(lv, x);
                    assert(s[i].0.as_nat() == x);
                    if i < li {
                        assert(s[i].0.as_nat() < s[li].0.as_nat());
                    }
                };
            },
            None => {
                assert(self.root.count() == 0);
                self.root.lemma_count_zero_empty(lv, 0);
                assert(self@ =~= Map::<nat, T>::empty());
            },
        }
    }

    /// The set after inserting the members of `values[..i]` in order.
    pub open spec fn inserted_prefix(m: Map<nat, T>, values: Seq<T>, i: int) -> Map<nat, T>
        decreases i,
    {
        if i <= 0 {
            m
        } else {
            Self::inserted_prefix(m, values, i - 1).insert(values[i - 1].as_nat(), values[i - 1])
        }
    }

    /// Inserts every member of `values`, in order.
    pub fn extend(&mut self, values: Vec<T>)
        requires
            Self::key_fits(),
            old(self).wf(),
            old(self).count_spec() + values@.len() <= usize::MAX as nat,
        ensures
            final(self).wf(),
            final(self)@ == Self::inserted_prefix(old(self)@, values@, values@.len() as int),
    {
        let ghost values0 = values@;
        let mut values = values;
        let mut i: usize = 0;
        while values.len() > 0
            invariant
                Self::key_fits(),
                self.wf(),
                i + values@.len() == values0.len(),
                values@ == values0.subrange(i as int, values0.len() as int),
                self@ == Self::inserted_prefix(old(self)@, values0, i as int),
                self.count_spec() <= old(self).count_spec() + i,
                old(self).count_spec() + values0.len() <= usize::MAX as nat,
            decreases values@.len(),
        {
            proof {
                assert(values@[0] == values0[i as int]);
            }
            let v = values.remove(0);
            proof {
                assert(values@ =~= values0.subrange(i as int + 1, values0.len() as int));
            }
            self.insert(v);
            i += 1;
            proof {
                assert(self@ == Self::inserted_prefix(old(self)@, values0, i as int));
            }
        }
        proof {
            assert(i == values0.len());
        }
    }

    /// Builds a set from a sequence of members by repeated insertion.
    pub fn from_values(values: Vec<T>) -> (r: Self)
        requires
            Self::key_fits(),
        ensures
            r.wf(),
            r@ == Self::inserted_prefix(Map::<nat, T>::empty(), values@, values@.len() as int),
    {
        let mut this = Self::new();
        let n = values.len();
        proof {
            assert(n as nat == values@.len());
        }
        this.extend(values);
        this
    }
}

} // verus!
