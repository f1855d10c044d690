use std::collections::HashMap;
use vstd::multiset::Multiset;
use vstd::prelude::*;

verus! {

broadcast use vstd::std_specs::hash::group_hash_axioms;

/// Holds the number of occurrences of each value inserted.
///
/// The counts live in a hash map from value to a positive count; `keys`
/// lists the values present, each once, in the order they first arrived.
/// A `Counter` is viewed as the multiset of the values inserted.
pub struct Counter {
    map: HashMap<i32, usize>,
    keys: Vec<i32>,
    contents: Ghost<Multiset<i32>>,
}

impl View for Counter {
    type V = Multiset<i32>;

    closed spec fn view(&self) -> Multiset<i32> {
        self.contents@
    }
}

impl Counter {
    #[verifier::type_invariant]
    spec fn wf(self) -> bool {
        &&& self.keys@.no_duplicates()
        &&& forall|k: i32| self.map@.contains_key(k) <==> #[trigger] self.keys@.contains(k)
        &&& forall|k: i32|
            #[trigger] self.contents@.count(k) == if self.map@.contains_key(k) {
                self.map@[k] as nat
            } else {
                0
            }
        &&& forall|k: i32| self.map@.contains_key(k) ==> #[trigger] self.map@[k] > 0
    }

    /// An empty counter: every value has count zero.
    pub fn new() -> (r: Self)
        ensures
            r@ =~= Multiset::empty(),
    {
        Counter { map: HashMap::new(), keys: Vec::new(), contents: Ghost(Multiset::empty()) }
    }

    /// Adds one occurrence of `elt`.
    pub fn insert(&mut self, elt: i32)
        requires
            old(self)@.count(elt) < usize::MAX,
        ensures
            final(self)@ =~= old(self)@.insert(elt),
    {
        let mut taken = Counter::new();
        std::mem::swap(self, &mut taken);
        proof {
            use_type_invariant(&taken);
        }
        let Counter { mut map, mut keys, contents } = taken;
        let ghost keys0 = keys@;
        let ghost map0 = map@;
        let cur: usize = match map.get(&elt) {
            Some(c) => *c,
            None => 0,
        };
        assert(cur == 0 <==> !map@.contains_key(elt));
        assert(cur == 0 <==> !keys@.contains(elt));
        if cur == 0 {
            keys.push(elt);
        }
        map.insert(elt, cur + 1);
        let ghost added = contents@.insert(elt);
        proof {
            assert forall|k: i32| map@.contains_key(k) <==> #[trigger] keys@.contains(k) by {
                assert(map@.contains_key(k) <==> map0.contains_key(k) || k == elt);
                assert(map0.contains_key(k) <==> keys0.contains(k));
                if cur == 0 {
                    assert(keys@ == keys0.push(elt));
                    if keys@.contains(k) && k != elt {
                        let p = choose|p: int| 0 <= p < keys@.len() && keys@[p] == k;
                        assert(keys0[p] == k);
                    }
                    if keys0.contains(k) {
                        let p = choose|p: int| 0 <= p < keys0.len() && keys0[p] == k;
                        assert(keys@[p] == k);
                    }
                    if k == elt {
                        assert(keys@[keys0.len() as int] == elt);
                    }
                }
            }
        }
        *self = Counter { map, keys, contents: Ghost(added) };
    }

    /// The number of occurrences of `k`; zero for a value never inserted.
    pub fn get(&self, k: &i32) -> (r: &usize)
        ensures
            *r as nat == self@.count(*k),
    {
        proof {
            use_type_invariant(self);
        }
        match self.map.get(k) {
            Some(c) => c,
            None => &0,
        }
    }

    /// Adds one occurrence of each element of `xs`.
    pub fn insert_all(&mut self, xs: Vec<i32>)
        requires
            old(self)@.len() + xs@.len() <= usize::MAX,
        ensures
            final(self)@ =~= old(self)@.add(xs@.to_multiset()),
    {
        broadcast use vstd::seq_lib::group_to_multiset_ensures;
        broadcast use vstd::multiset::group_multiset_axioms;

        let mut i: usize = 0;
        while i < xs.len()
            invariant
                i <= xs@.len(),
                old(self)@.len() + xs@.len() <= usize::MAX,
                self@ =~= old(self)@.add(xs@.subrange(0, i as int).to_multiset()),
            decreases xs@.len() - i,
        {
            let x = xs[i];
            let ghost before = xs@.subrange(0, i as int);
            proof {
                before.to_multiset_ensures();
                assert(before.to_multiset().len() == i);
                assert(self@.len() == old(self)@.len() + i);
                assert(self@.count(x) <= self@.len());
            }
            self.insert(x);
            proof {
                assert(xs@.subrange(0, i + 1) =~= before.push(x));
                vstd::seq_lib::to_multiset_build(before, x);
            }
            i += 1;
        }
        proof {
            assert(xs@.subrange(0, xs@.len() as int) =~= xs@);
        }
    }

    /// A counter holding the elements of `xs`, each value counted as many
    /// times as it occurs.
    pub fn from(xs: Vec<i32>) -> (r: Self)
        ensures
            r@ =~= xs@.to_multiset(),
    {
        broadcast use vstd::multiset::group_multiset_axioms;

        // Reading the length brings in that it fits in `usize`.
        let _len: usize = xs.len();
        let mut c = Counter::new();
        assert(c@.len() == 0);
        c.insert_all(xs);
        c
    }

    /// Every value with a non-zero count in `self` has the same count in
    /// `other`.
    fn included(&self, other: &Counter) -> (r: bool)
        ensures
            r == forall|k: i32| #[trigger] self@.count(k) > 0 ==> other@.count(k) == self@.count(k),
    {
        proof {
            use_type_invariant(self);
            use_type_invariant(other);
        }
        let mut i: usize = 0;
        while i < self.keys.len()
            invariant
                i <= self.keys@.len(),
                forall|p: int|
                    0 <= p < i ==> other@.count(#[trigger] self.keys@[p]) == self@.count(
                        self.keys@[p],
                    ),
            decreases self.keys@.len() - i,
        {
            proof {
                use_type_invariant(self);
                use_type_invariant(other);
            }
            let k = self.keys[i];
            proof {
                assert(self.keys@.contains(k));
            }
            let mine: usize = *self.map.get(&k).unwrap();
            let theirs: usize = match other.map.get(&k) {
                Some(c) => *c,
                None => 0,
            };
            if mine != theirs {
                proof {
                    assert(self@.count(k) > 0 && other@.count(k) != self@.count(k));
                }
                return false;
            }
            i += 1;
        }
        proof {
            assert forall|k: i32| #[trigger] self@.count(k) > 0 implies other@.count(k)
                == self@.count(k) by {
                assert(self.keys@.contains(k));
                let p = choose|p: int| 0 <= p < self.keys@.len() && self.keys@[p] == k;
                assert(other@.count(self.keys@[p]) == self@.count(self.keys@[p]));
            }
        }
        true
    }

    /// The values present with their counts, each value once, in the order
    /// in which the values first arrived.
    pub fn into_iter(self) -> (r: Vec<(i32, usize)>)
        ensures
            forall|p: int|
                0 <= p < r@.len() ==> self@.count(#[trigger] r@[p].0) == r@[p].1 as nat
                    && r@[p].1 > 0,
            forall|k: i32|
                #[trigger] self@.count(k) > 0 ==> exists|p: int|
                    0 <= p < r@.len() && #[trigger] r@[p].0 == k,
            forall|p: int, q: int| 0 <= p < q < r@.len() ==> r@[p].0 != r@[q].0,
    {
        proof {
            use_type_invariant(&self);
        }
        let mut r: Vec<(i32, usize)> = Vec::new();
        let mut i: usize = 0;
        while i < self.keys.len()
            invariant
                i <= self.keys@.len(),
                r@.len() == i,
                forall|p: int|
                    0 <= p < i ==> #[trigger] r@[p] == (
                        self.keys@[p],
                        self.map@[self.keys@[p]],
                    ),
            decreases self.keys@.len() - i,
        {
            proof {
                use_type_invariant(&self);
            }
            let k = self.keys[i];
            proof {
                assert(self.keys@.contains(k));
            }
            let c: usize = *self.map.get(&k).unwrap();
            r.push((k, c));
            i += 1;
        }
        proof {
            assert forall|p: int| 0 <= p < r@.len() implies self@.count(#[trigger] r@[p].0)
                == r@[p].1 as nat && r@[p].1 > 0 by {
                assert(self.keys@.contains(self.keys@[p]));
            }
            assert forall|k: i32| #[trigger] self@.count(k) > 0 implies exists|p: int|
                0 <= p < r@.len() && #[trigger] r@[p].0 == k by {
                assert(self.keys@.contains(k));
                let p = choose|p: int| 0 <= p < self.keys@.len() && self.keys@[p] == k;
                assert(r@[p].0 == k);
            }
        }
        r
    }
}

impl PartialEq for Counter {
    /// Two counters are equal when every value has the same count in both.
    fn eq(&self, other: &Counter) -> (r: bool) {
        broadcast use vstd::multiset::group_multiset_axioms;

        let r = self.included(other) && other.included(self);
        proof {
            if r {
                assert(self@ =~= other@);
            }
        }
        r
    }
}

impl vstd::std_specs::cmp::PartialEqSpecImpl for Counter {
    open spec fn obeys_eq_spec() -> bool {
        true
    }

    open spec fn eq_spec(&self, other: &Counter) -> bool {
        self@ == other@
    }
}

} // verus!
