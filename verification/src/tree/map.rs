//! The map facade: one root node at depth 0, with the trie's contents
//! read as a map from key values to the stored pairs.

use vstd::prelude::*;
use vstd::arithmetic::power::pow;
use vstd::arithmetic::div_mod::lemma_basic_div;

use crate::key::{Key, lemma_max_depth_char};
use super::node::Node;
use super::B;

verus! {

/// An ordered map over fixed-width integer keys, backed by a radix trie
/// with branching factor `B`.
pub struct SrbTreeMap<K, V> {
    root: Node<K, V, B>,
}

impl<K: Key, V> View for SrbTreeMap<K, V> {
    type V = Map<nat, (K, V)>;

    closed spec fn view(&self) -> Map<nat, (K, V)> {
        self.root.view_at(Node::<K, V, B>::levels())
    }
}

impl<K: Key, V> SrbTreeMap<K, V> {
    /// The branching factor must leave at least one trie level below the
    /// root, and every key value must fit the native index domain.
    pub open spec fn key_fits() -> bool {
        B as nat <= K::max_spec() && K::max_spec() <= usize::MAX as nat
    }

    /// The root is a well-formed internal node spanning the whole key
    /// space.
    pub closed spec fn wf(self) -> bool {
        self.root.wf(Node::<K, V, B>::levels(), 0)
    }

    /// The number of live pairs in the map.
    pub closed spec fn count_spec(self) -> nat {
        self.root.count()
    }

    /// The map's pairs in ascending key order.
    pub closed spec fn to_seq(self) -> Seq<(K, V)> {
        self.root.to_seq()
    }

    /// The key's digit path starts at the root: prefix 0.
    proof fn lemma_root_prefix(k: nat)
        requires
            Self::key_fits(),
            k <= K::max_spec(),
        ensures
            Node::<K, V, B>::prefix_at(k, Node::<K, V, B>::levels()) == 0,
            1 <= Node::<K, V, B>::levels(),
    {
        K::lemma_max_at_least_one();
        lemma_max_depth_char(B as nat, K::max_spec());
        let lv = Node::<K, V, B>::levels();
        assert((k as int) < pow(B as int, (lv + 1) as nat));
        lemma_basic_div(k as int, pow(B as int, (lv + 1) as nat));
        if lv == 0 {
            assert(pow(B as int, 1) == B) by {
                vstd::arithmetic::power::lemma_pow1(B as int);
            };
        }
    }

    /// An empty map.
    pub fn new() -> (r: Self)
        ensures
            Self::key_fits() ==> r.wf(),
            r@ == Map::<nat, (K, V)>::empty(),
            r.count_spec() == 0,
    {
        let r = SrbTreeMap { root: Node::new_internal() };
        proof {
            if Self::key_fits() {
                K::lemma_max_at_least_one();
                lemma_max_depth_char(B as nat, K::max_spec());
                if Node::<K, V, B>::levels() == 0 {
                    assert(pow(B as int, 1) == B) by {
                        vstd::arithmetic::power::lemma_pow1(B as int);
                    };
                    assert(false);
                }
                assert(r.root.wf(Node::<K, V, B>::levels(), 0));
            }
            r.root.lemma_view_at_pointwise(Node::<K, V, B>::levels());
            assert(r@.dom() =~= Set::<nat>::empty());
            assert(r@ =~= Map::<nat, (K, V)>::empty());
        }
        r
    }

    /// Inserts `key -> value`, returning the pair the key's slot held.
    /// Replacing keeps the pair count; a fresh key raises it by one.
    pub fn insert(&mut self, key: K, value: V) -> (r: Option<(K, V)>)
        requires
            Self::key_fits(),
            old(self).wf(),
            old(self).count_spec() < usize::MAX as nat,
        ensures
            final(self).wf(),
            final(self)@ == old(self)@.insert(key.as_nat(), (key, value)),
            r == (if old(self)@.contains_key(key.as_nat()) {
                Some(old(self)@[key.as_nat()])
            } else {
                None::<(K, V)>
            }),
            final(self).count_spec() == old(self).count_spec() + (if old(self)@.contains_key(
                key.as_nat(),
            ) {
                0int
            } else {
                1int
            }),
    {
        proof {
            key.lemma_key_in_range();
            Self::lemma_root_prefix(key.as_nat());
        }
        let r = self.root.insert(0, key, value);
        proof {
            let kn = key.as_nat();
            let lv = Node::<K, V, B>::levels();
            old(self).root.lemma_view_at_pointwise(lv);
            assert(old(self)@.dom().contains(kn) <==> old(self).root.contains_at(lv, kn));
            if old(self).root.contains_at(lv, kn) {
                assert(old(self)@[kn] == old(self).root.entry_at(lv, kn));
            }
        }
        r
    }

    /// Removes the key's pair, if present; a present key lowers the pair
    /// count by one.
    pub fn remove(&mut self, key: &K) -> (r: Option<(K, V)>)
        requires
            Self::key_fits(),
            old(self).wf(),
        ensures
            final(self).wf(),
            final(self)@ == old(self)@.remove(key.as_nat()),
            r == (if old(self)@.contains_key(key.as_nat()) {
                Some(old(self)@[key.as_nat()])
            } else {
                None::<(K, V)>
            }),
            final(self).count_spec() == old(self).count_spec() - (if old(self)@.contains_key(
                key.as_nat(),
            ) {
                1int
            } else {
                0int
            }),
    {
        proof {
            key.lemma_key_in_range();
            Self::lemma_root_prefix(key.as_nat());
        }
        let r = self.root.remove(0, key);
        proof {
            let kn = key.as_nat();
            let lv = Node::<K, V, B>::levels();
            old(self).root.lemma_view_at_pointwise(lv);
            assert(old(self)@.dom().contains(kn) <==> old(self).root.contains_at(lv, kn));
            if old(self).root.contains_at(lv, kn) {
                assert(old(self)@[kn] == old(self).root.entry_at(lv, kn));
            }
        }
        r
    }

    /// Looks the key up, returning the stored pair if present.
    pub fn get(&self, key: &K) -> (r: Option<(&K, &V)>)
        requires
            Self::key_fits(),
            self.wf(),
        ensures
            r is Some <==> self@.contains_key(key.as_nat()),
            r matches Some(pr) ==> self@[key.as_nat()] == (*pr.0, *pr.1),
    {
        proof {
            key.lemma_key_in_range();
            Self::lemma_root_prefix(key.as_nat());
        }
        let r = self.root.get(0, key);
        proof {
            let kn = key.as_nat();
            let lv = Node::<K, V, B>::levels();
            self.root.lemma_view_at_pointwise(lv);
            assert(self@.dom().contains(kn) <==> self.root.contains_at(lv, kn));
            if self.root.contains_at(lv, kn) {
                assert(self@[kn] == self.root.entry_at(lv, kn));
            }
        }
        r
    }

    /// The entry with the smallest key, absent exactly when the map is
    /// empty.
    pub fn first(&self) -> (r: Option<(&K, &V)>)
        requires
            Self::key_fits(),
            self.wf(),
        ensures
            match r {
                Some(pr) => self@.contains_key(pr.0.as_nat()) && self@[pr.0.as_nat()] == (
                    *pr.0,
                    *pr.1,
                ) && forall|x: nat| self@.dom().contains(x) ==> pr.0.as_nat() <= x,
                None => self@ == Map::<nat, (K, V)>::empty(),
            },
    {
        proof {
            assert(self.root.wf(Node::<K, V, B>::levels(), 0));
        }
        let r = self.root.first();
        proof {
            self.bridge_to_seq(r);
        }
        r
    }

    /// The entry with the largest key, absent exactly when the map is
    /// empty.
    pub fn last(&self) -> (r: Option<(&K, &V)>)
        requires
            Self::key_fits(),
            self.wf(),
        ensures
            match r {
                Some(pr) => self@.contains_key(pr.0.as_nat()) && self@[pr.0.as_nat()] == (
                    *pr.0,
                    *pr.1,
                ) && forall|x: nat| self@.dom().contains(x) ==> x <= pr.0.as_nat(),
                None => self@ == Map::<nat, (K, V)>::empty(),
            },
    {
        proof {
            assert(self.root.wf(Node::<K, V, B>::levels(), 0));
        }
        let r = self.root.last();
        proof {
            self.bridge_to_seq_last(r);
        }
        r
    }

    /// Links the head of the root's pair sequence to the minimal map
    /// entry.
    proof fn bridge_to_seq(&self, r: Option<(&K, &V)>)
        requires
            Self::key_fits(),
            self.wf(),
            match r {
                Some(pr) => self.root.to_seq().len() > 0 && (*pr.0, *pr.1) == self.root.to_seq()[0],
                None => self.root.to_seq().len() == 0,
            },
        ensures
            match r {
                Some(pr) => self@.contains_key(pr.0.as_nat()) && self@[pr.0.as_nat()] == (
                    *pr.0,
                    *pr.1,
                ) && forall|x: nat| self@.dom().contains(x) ==> pr.0.as_nat() <= x,
                None => self@ == Map::<nat, (K, V)>::empty(),
            },
    {
        let lv = Node::<K, V, B>::levels();
        let s = self.root.to_seq();
        self.root.lemma_view_at_pointwise(lv);
        self.root.lemma_to_seq_corresponds(lv, 0);
        match r {
            Some(pr) => {
                assert(self.root.find_at(lv, s[0].0.as_nat()) == Some(s[0]));
                assert forall|x: nat| self@.dom().contains(x) implies pr.0.as_nat() <= x by {
                    assert(self.root.contains_at(lv, x));
                    let i = choose|i: int|
                        0 <= i < s.len() && s[i] == self.root.find_at(lv, x)->Some_0;
                    self.root.lemma_find_key(lv, x);
                    assert(s[i].0.as_nat() == x);
                    if i > 0 {
                        assert(s[0].0.as_nat() < s[i].0.as_nat());
                    }
                };
            },
            None => {
                assert(self.root.count() == 0);
                self.root.lemma_count_zero_empty(lv, 0);
                assert(self@ =~= Map::<nat, (K, V)>::empty());
            },
        }
    }

    /// Links the tail of the root's pair sequence to the maximal map
    /// entry.
    proof fn bridge_to_seq_last(&self, r: Option<(&K, &V)>)
        requires
            Self::key_fits(),
            self.wf(),
            match r {
                Some(pr) => self.root.to_seq().len() > 0 && (*pr.0, *pr.1) == self.root.to_seq()[
                    self.root.to_seq().len() - 1
                ],
                None => self.root.to_seq().len() == 0,
            },
        ensures
            match r {
                Some(pr) => self@.contains_key(pr.0.as_nat()) && self@[pr.0.as_nat()] == (
                    *pr.0,
                    *pr.1,
                ) && forall|x: nat| self@.dom().contains(x) ==> x <= pr.0.as_nat(),
                None => self@ == Map::<nat, (K, V)>::empty(),
            },
    {
        let lv = Node::<K, V, B>::levels();
        let s = self.root.to_seq();
        self.root.lemma_view_at_pointwise(lv);
        self.root.lemma_to_seq_corresponds(lv, 0);
        match r {
            Some(pr) => {
                let li = s.len() - 1;
                assert(self.root.find_at(lv, s[li].0.as_nat()) == Some(s[li]));
                assert forall|x: nat| self@.dom().contains(x) implies x <= pr.0.as_nat() by {
                    assert(self.root.contains_at(lv, x));
                    let i = choose|i: int|
                        0 <= i < s.len() && s[i] == self.root.find_at(lv, x)->Some_0;
                    self.root.lemma_find_key(lv, x);
                    assert(s[i].0.as_nat() == x);
                    if i < li {
                        assert(s[i].0.as_nat() < s[li].0.as_nat());
                    }
                };
            },
            None => {
                assert(self.root.count() == 0);
                self.root.lemma_count_zero_empty(lv, 0);
                assert(self@ =~= Map::<nat, (K, V)>::empty());
            },
        }
    }

    /// The map after inserting the pairs of `entries[..i]` in order, later
    /// pairs overwriting earlier ones of equal key value.
    pub open spec fn inserted_prefix(m: Map<nat, (K, V)>, entries: Seq<(K, V)>, i: int) -> Map<
        nat,
        (K, V),
    >
        decreases i,
    {
        if i <= 0 {
            m
        } else {
            Self::inserted_prefix(m, entries, i - 1).insert(
                entries[i - 1].0.as_nat(),
                entries[i - 1],
            )
        }
    }

    /// Inserts every pair of `entries`, in order: later pairs overwrite
    /// earlier ones of equal key value.
    pub fn extend(&mut self, entries: Vec<(K, V)>)
        requires
            Self::key_fits(),
            old(self).wf(),
            old(self).count_spec() + entries@.len() <= usize::MAX as nat,
        ensures
            final(self).wf(),
            final(self)@ == Self::inserted_prefix(old(self)@, entries@, entries@.len() as int),
    {
        let ghost entries0 = entries@;
        let mut entries = entries;
        let mut i: usize = 0;
        while entries.len() > 0
            invariant
                Self::key_fits(),
                self.wf(),
                i + entries@.len() == entries0.len(),
                entries@ == entries0.subrange(i as int, entries0.len() as int),
                self@ == Self::inserted_prefix(old(self)@, entries0, i as int),
                self.count_spec() <= old(self).count_spec() + i,
                old(self).count_spec() + entries0.len() <= usize::MAX as nat,
            decreases entries@.len(),
        {
            proof {
                assert(entries@[0] == entries0[i as int]);
            }
            let (k, v) = entries.remove(0);
            proof {
                assert(entries@ =~= entries0.subrange(i as int + 1, entries0.len() as int));
            }
            self.insert(k, v);
            i += 1;
            proof {
                assert(self@ == Self::inserted_prefix(old(self)@, entries0, i as int));
            }
        }
        proof {
            assert(i == entries0.len());
        }
    }

    /// Builds a map from a sequence of pairs by repeated insertion.
    pub fn from_entries(entries: Vec<(K, V)>) -> (r: Self)
        requires
            Self::key_fits(),
        ensures
            r.wf(),
            r@ == Self::inserted_prefix(Map::<nat, (K, V)>::empty(), entries@, entries@.len() as int),
    {
        let mut this = Self::new();
        let n = entries.len();
        proof {
            assert(n as nat == entries@.len());
        }
        this.extend(entries);
        this
    }
}

impl<K: Key, V> SrbTreeMap<K, V> {
    /// Round-trip law: after `insert(key, value)`, `get(key)` returns the
    /// inserted pair; `remove(key)` returns it too, and a subsequent
    /// `get(key)` is absent. Stated over the views that the operations'
    /// contracts speak of.
    pub proof fn lemma_insert_get_remove(m: Map<nat, (K, V)>, key: K, value: V)
        ensures
            m.insert(key.as_nat(), (key, value)).contains_key(key.as_nat()),
            m.insert(key.as_nat(), (key, value))[key.as_nat()] == (key, value),
            !m.insert(key.as_nat(), (key, value)).remove(key.as_nat()).contains_key(key.as_nat()),
    {
    }

    /// The map's pairs in ascending key order: full forward iteration
    /// yields strictly ascending keys.
    pub proof fn lemma_iteration_ascending(self)
        requires
            Self::key_fits(),
            self.wf(),
        ensures
            forall|i: int, j: int|
                0 <= i < j < self.to_seq().len() ==> (#[trigger] self.to_seq()[i]).0.as_nat() < (
                #[trigger] self.to_seq()[j]).0.as_nat(),
    {
        self.root.lemma_to_seq_corresponds(Node::<K, V, B>::levels(), 0);
    }

    /// Singleton law: a map holding exactly one pair has exactly one key
    /// in its domain, so its smallest and largest entries coincide.
    pub proof fn lemma_singleton(self)
        requires
            Self::key_fits(),
            self.wf(),
            self.count_spec() == 1,
        ensures
            exists|x: nat| #[trigger] self@.dom().contains(x),
            forall|x: nat, y: nat|
                #[trigger] self@.dom().contains(x) && #[trigger] self@.dom().contains(y) ==> x
                    == y,
            self.to_seq().len() == 1,
    {
        let lv = Node::<K, V, B>::levels();
        let s = self.root.to_seq();
        self.root.lemma_view_at_pointwise(lv);
        self.root.lemma_to_seq_corresponds(lv, 0);
        assert(s.len() == 1);
        assert(self.root.contains_at(lv, s[0].0.as_nat()));
        assert(self@.dom().contains(s[0].0.as_nat()));
        assert forall|x: nat, y: nat|
            #[trigger] self@.dom().contains(x) && #[trigger] self@.dom().contains(y) implies x
            == y by {
            assert(self.root.contains_at(lv, x));
            assert(self.root.contains_at(lv, y));
            let i = choose|i: int| 0 <= i < s.len() && s[i] == self.root.find_at(lv, x)->Some_0;
            let j = choose|j: int| 0 <= j < s.len() && s[j] == self.root.find_at(lv, y)->Some_0;
            self.root.lemma_find_key(lv, x);
            self.root.lemma_find_key(lv, y);
            assert(s[i].0.as_nat() == x);
            assert(s[j].0.as_nat() == y);
        };
    }
}

} // verus!
