//! A map from texts to values, kept in the order of its keys.

use crate::text::{
    lemma_text_lt_irreflexive, lemma_text_lt_total, lemma_text_lt_transitive, same, text_less,
    text_lt,
};
use vstd::prelude::*;

verus! {

/// Values under distinct texts, found by binary search.
#[derive(Debug)]
pub struct PathMap<V> {
    keys: Vec<String>,
    values: Vec<V>,
}

spec fn sorted(keys: Seq<String>) -> bool {
    forall|i: int, j: int|
        0 <= i < j < keys.len() ==> text_lt(#[trigger] keys[i]@, #[trigger] keys[j]@)
}

spec fn map_of<V>(keys: Seq<String>, values: Seq<V>) -> Map<Seq<char>, V>
    decreases keys.len(),
{
    if keys.len() == 0 || values.len() == 0 {
        Map::empty()
    } else {
        map_of(keys.drop_last(), values.drop_last()).insert(keys.last()@, values.last())
    }
}

proof fn lemma_map_of<V>(keys: Seq<String>, values: Seq<V>)
    requires
        keys.len() == values.len(),
        sorted(keys),
    ensures
        forall|k: Seq<char>|
            #[trigger] map_of(keys, values).dom().contains(k) <==> exists|i: int|
                0 <= i < keys.len() && #[trigger] keys[i]@ == k,
        forall|i: int|
            0 <= i < keys.len() ==> map_of(keys, values)[#[trigger] keys[i]@] == values[i],
    decreases keys.len(),
{
    if keys.len() > 0 {
        let a = keys.drop_last();
        let b = values.drop_last();
        lemma_map_of(a, b);
        let m = map_of(a, b);
        let n = keys.len() - 1;
        assert forall|k: Seq<char>| #[trigger]
            map_of(keys, values).dom().contains(k) <==> exists|i: int|
                0 <= i < keys.len() && #[trigger] keys[i]@ == k by {
            if m.dom().contains(k) {
                let i = choose|i: int| 0 <= i < a.len() && #[trigger] a[i]@ == k;
                assert(keys[i]@ == k);
            }
            if k == keys.last()@ {
                assert(keys[n]@ == k);
            }
            if exists|i: int| 0 <= i < keys.len() && #[trigger] keys[i]@ == k {
                let i = choose|i: int| 0 <= i < keys.len() && #[trigger] keys[i]@ == k;
                if i < n {
                    assert(a[i]@ == k);
                }
            }
        }
        assert forall|i: int| 0 <= i < keys.len() implies map_of(keys, values)[#[trigger] keys[i]@]
            == values[i] by {
            if i < n {
                assert(a[i]@ == keys[i]@);
                assert(text_lt(keys[i]@, keys[n]@));
                lemma_text_lt_irreflexive(keys[n]@);
                assert(b[i] == values[i]);
            }
        }
    }
}

impl<V> View for PathMap<V> {
    type V = Map<Seq<char>, V>;

    closed spec fn view(&self) -> Map<Seq<char>, V> {
        map_of(self.keys@, self.values@)
    }
}

impl<V> PathMap<V> {
    #[verifier::type_invariant]
    spec fn well_formed(&self) -> bool {
        self.keys@.len() == self.values@.len() && sorted(self.keys@)
    }

    pub fn new() -> (r: Self)
        ensures
            r@ == Map::<Seq<char>, V>::empty(),
    {
        PathMap { keys: Vec::new(), values: Vec::new() }
    }

    pub fn len(&self) -> (r: usize)
        ensures
            (r == 0) == (self@ == Map::<Seq<char>, V>::empty()),
    {
        proof {
            use_type_invariant(self);
            lemma_map_of(self.keys@, self.values@);
            if self.keys@.len() > 0 {
                assert(self@.dom().contains(self.keys@[0]@));
            }
        }
        self.keys.len()
    }

    pub fn is_empty(&self) -> (r: bool)
        ensures
            r == (self@ == Map::<Seq<char>, V>::empty()),
    {
        self.len() == 0
    }

    /// The first position whose key is not below `key`.
    fn position(&self, key: &str) -> (r: usize)
        ensures
            r <= self.keys@.len(),
            forall|i: int| 0 <= i < r ==> text_lt(#[trigger] self.keys@[i]@, key@),
            forall|i: int| r <= i < self.keys@.len() ==> !text_lt(#[trigger] self.keys@[i]@, key@),
    {
        proof {
            use_type_invariant(self);
        }
        let mut lo: usize = 0;
        let mut hi: usize = self.keys.len();
        while lo < hi
            invariant
                lo <= hi <= self.keys@.len(),
                sorted(self.keys@),
                forall|i: int| 0 <= i < lo ==> text_lt(#[trigger] self.keys@[i]@, key@),
                forall|i: int|
                    hi <= i < self.keys@.len() ==> !text_lt(#[trigger] self.keys@[i]@, key@),
            decreases hi - lo,
        {
            let mid: usize = lo + (hi - lo) / 2;
            if text_less(&self.keys[mid], key) {
                proof {
                    assert forall|i: int| 0 <= i < mid + 1 implies text_lt(
                        #[trigger] self.keys@[i]@,
                        key@,
                    ) by {
                        if i < mid {
                            lemma_text_lt_transitive(self.keys@[i]@, self.keys@[mid as int]@, key@);
                        }
                    }
                }
                lo = mid + 1;
            } else {
                proof {
                    assert forall|i: int| mid <= i < self.keys@.len() implies !text_lt(
                        #[trigger] self.keys@[i]@,
                        key@,
                    ) by {
                        if i > mid && text_lt(self.keys@[i]@, key@) {
                            lemma_text_lt_transitive(self.keys@[mid as int]@, self.keys@[i]@, key@);
                        }
                    }
                }
                hi = mid;
            }
        }
        lo
    }

    pub fn get(&self, key: &str) -> (r: Option<&V>)
        ensures
            match r {
                Some(v) => self@.dom().contains(key@) && self@[key@] == *v,
                None => !self@.dom().contains(key@),
            },
    {
        let i = self.position(key);
        proof {
            use_type_invariant(self);
            lemma_map_of(self.keys@, self.values@);
        }
        if i < self.keys.len() && same(&self.keys[i], key) {
            assert(self.keys@[i as int]@ == key@);
            Some(&self.values[i])
        } else {
            proof {
                if self@.dom().contains(key@) {
                    let j = choose|j: int|
                        0 <= j < self.keys@.len() && #[trigger] self.keys@[j]@ == key@;
                    lemma_text_lt_irreflexive(key@);
                    if j > i {
                        assert(text_lt(self.keys@[i as int]@, self.keys@[j]@));
                    }
                }
            }
            None
        }
    }

    pub fn insert(&mut self, key: String, value: V)
        ensures
            final(self)@ == old(self)@.insert(key@, value),
    {
        let i = self.position(&key);
        proof {
            use_type_invariant(&*self);
            lemma_map_of(self.keys@, self.values@);
        }
        let ghost before = self@;
        let ghost (k0, v0) = (self.keys@, self.values@);
        let mut taken = PathMap::new();
        std::mem::swap(self, &mut taken);
        let mut keys: Vec<String> = taken.keys;
        let mut values: Vec<V> = taken.values;
        if i < keys.len() && same(&keys[i], &key) {
            values.remove(i);
            values.insert(i, value);
            proof {
                assert(values@ =~= v0.update(i as int, value));
                lemma_map_of(k0, values@);
                let after = map_of(k0, values@);
                assert(after =~= before.insert(key@, value)) by {
                    assert forall|k: Seq<char>| #[trigger] after.dom().contains(k) implies after[k]
                        == before.insert(key@, value)[k] by {
                        let j = choose|j: int| 0 <= j < k0.len() && #[trigger] k0[j]@ == k;
                        if j != i {
                            lemma_text_lt_irreflexive(key@);
                            if j < i {
                                assert(text_lt(k0[j]@, k0[i as int]@));
                            } else {
                                assert(text_lt(k0[i as int]@, k0[j]@));
                            }
                        }
                    }
                    assert(k0[i as int]@ == key@);
                }
            }
        } else {
            proof {
                lemma_insert_sorted(k0, i as int, key);
                lemma_insert_map(k0, v0, i as int, key, value);
            }
            keys.insert(i, key);
            values.insert(i, value);
        }
        *self = PathMap { keys, values };
    }

    /// The keys in order.
    pub fn keys(&self) -> (r: &Vec<String>)
        ensures
            forall|k: Seq<char>|
                #[trigger] self@.dom().contains(k) <==> exists|i: int|
                    0 <= i < r@.len() && #[trigger] r@[i]@ == k,
            forall|i: int, j: int|
                0 <= i < j < r@.len() ==> text_lt(#[trigger] r@[i]@, #[trigger] r@[j]@),
    {
        proof {
            use_type_invariant(self);
            lemma_map_of(self.keys@, self.values@);
        }
        &self.keys
    }
}

proof fn lemma_insert_sorted(keys: Seq<String>, i: int, key: String)
    requires
        sorted(keys),
        0 <= i <= keys.len(),
        forall|j: int| 0 <= j < i ==> text_lt(#[trigger] keys[j]@, key@),
        forall|j: int| i <= j < keys.len() ==> !text_lt(#[trigger] keys[j]@, key@),
        i < keys.len() ==> keys[i]@ != key@,
    ensures
        sorted(keys.insert(i, key)),
        forall|j: int| 0 <= j < keys.len() ==> #[trigger] keys[j]@ != key@,
{
    let s = keys.insert(i, key);
    lemma_text_lt_irreflexive(key@);
    assert forall|j: int| i <= j < keys.len() implies text_lt(key@, #[trigger] keys[j]@) by {
        lemma_text_lt_total(key@, keys[j]@);
        if j > i {
            assert(text_lt(keys[i]@, keys[j]@));
            lemma_text_lt_total(key@, keys[i]@);
            lemma_text_lt_transitive(key@, keys[i]@, keys[j]@);
        }
    }
    assert forall|a: int, b: int| 0 <= a < b < s.len() implies text_lt(
        #[trigger] s[a]@,
        #[trigger] s[b]@,
    ) by {
        if a < i && b < i {
            assert(s[a] == keys[a] && s[b] == keys[b]);
        } else if a < i && b == i {
            assert(s[a] == keys[a]);
        } else if a < i {
            assert(s[a] == keys[a] && s[b] == keys[b - 1]);
        } else if a == i {
            assert(s[b] == keys[b - 1]);
        } else {
            assert(s[a] == keys[a - 1] && s[b] == keys[b - 1]);
        }
    }
}

proof fn lemma_insert_map<V>(keys: Seq<String>, values: Seq<V>, i: int, key: String, value: V)
    requires
        keys.len() == values.len(),
        sorted(keys),
        sorted(keys.insert(i, key)),
        0 <= i <= keys.len(),
        forall|j: int| 0 <= j < keys.len() ==> #[trigger] keys[j]@ != key@,
    ensures
        map_of(keys.insert(i, key), values.insert(i, value)) == map_of(keys, values).insert(
            key@,
            value,
        ),
{
    let (ks, vs) = (keys.insert(i, key), values.insert(i, value));
    lemma_map_of(keys, values);
    lemma_map_of(ks, vs);
    let (a, b) = (map_of(ks, vs), map_of(keys, values).insert(key@, value));
    assert forall|k: Seq<char>| a.dom().contains(k) == #[trigger] b.dom().contains(k) by {
        if a.dom().contains(k) {
            let j = choose|j: int| 0 <= j < ks.len() && #[trigger] ks[j]@ == k;
            if j < i {
                assert(keys[j]@ == k);
            } else if j > i {
                assert(keys[j - 1]@ == k);
            }
        }
        if map_of(keys, values).dom().contains(k) {
            let j = choose|j: int| 0 <= j < keys.len() && #[trigger] keys[j]@ == k;
            if j < i {
                assert(ks[j]@ == k);
            } else {
                assert(ks[j + 1]@ == k);
            }
        }
        assert(ks[i]@ == key@);
    }
    assert forall|k: Seq<char>| #[trigger] a.dom().contains(k) implies a[k] == b[k] by {
        let j = choose|j: int| 0 <= j < ks.len() && #[trigger] ks[j]@ == k;
        if j < i {
            assert(keys[j]@ == k);
            assert(vs[j] == values[j]);
        } else if j > i {
            assert(keys[j - 1]@ == k);
            assert(vs[j] == values[j - 1]);
        }
    }
    assert(a =~= b);
}

} // verus!
