//! A small map from string slices to string slices, kept as a list of pairs
//! whose keys are pairwise different.
use crate::token::same_text;
use vstd::prelude::*;
use vstd::std_specs::cmp::PartialEqSpecImpl;

verus! {

/// Pairs of key and value, as text.
pub type Pairs = Seq<(Seq<char>, Seq<char>)>;

/// A map from text to text.
pub type TextMap = Map<Seq<char>, Seq<char>>;

/// Whether no key occurs twice in `p`.
pub open spec fn keys_distinct(p: Pairs) -> bool {
    forall|i: int, j: int| 0 <= i < j < p.len() ==> (#[trigger] p[i]).0 != (#[trigger] p[j]).0
}

/// Whether the pair at index `i` of `p` has the key `k`.
pub open spec fn key_at(p: Pairs, k: Seq<char>, i: int) -> bool {
    0 <= i < p.len() && p[i].0 == k
}

/// Whether some pair of `p` has the key `k`.
pub open spec fn holds_key(p: Pairs, k: Seq<char>) -> bool {
    exists|i: int| key_at(p, k, i)
}

/// An index at which `p` has the key `k`.
pub open spec fn index_of(p: Pairs, k: Seq<char>) -> int {
    choose|i: int| key_at(p, k, i)
}

/// The map that sends each key of `p` to the value paired with it.
pub open spec fn pairs_map(p: Pairs) -> TextMap {
    Map::new(|k: Seq<char>| holds_key(p, k), |k: Seq<char>| p[index_of(p, k)].1)
}

/// Each pair of a list with distinct keys is an entry of its map.
pub proof fn lemma_pairs_map_at(p: Pairs, i: int)
    requires
        keys_distinct(p),
        0 <= i < p.len(),
    ensures
        pairs_map(p).contains_key(p[i].0),
        pairs_map(p)[p[i].0] == p[i].1,
{
    assert(key_at(p, p[i].0, i));
    let j = index_of(p, p[i].0);
    assert(key_at(p, p[i].0, j));
    assert(i == j) by {
        if i < j {
            assert(p[i].0 != p[j].0);
        } else if j < i {
            assert(p[j].0 != p[i].0);
        }
    }
}

/// A pair with a new key, put at the end, is an insertion into the map.
pub proof fn lemma_pairs_map_push(p: Pairs, k: Seq<char>, v: Seq<char>)
    requires
        keys_distinct(p),
        !holds_key(p, k),
    ensures
        keys_distinct(p.push((k, v))),
        pairs_map(p.push((k, v))) == pairs_map(p).insert(k, v),
{
    let q = p.push((k, v));
    assert forall|i: int, j: int| 0 <= i < j < q.len() implies (#[trigger] q[i]).0 != (
    #[trigger] q[j]).0 by {
        if j == p.len() {
            assert(q[i] == p[i]);
            assert(!key_at(p, k, i));
        } else {
            assert(q[i] == p[i] && q[j] == p[j]);
        }
    }
    assert forall|x: Seq<char>| #[trigger]
        pairs_map(q).contains_key(x) == pairs_map(p).insert(k, v).contains_key(x) by {
        if holds_key(q, x) {
            let i = choose|i: int| key_at(q, x, i);
            if i < p.len() {
                assert(key_at(p, x, i));
            }
        }
        if holds_key(p, x) {
            let i = choose|i: int| key_at(p, x, i);
            assert(key_at(q, x, i));
        }
        if x == k {
            assert(key_at(q, x, p.len() as int));
        }
    }
    assert forall|x: Seq<char>| #[trigger] pairs_map(q).contains_key(x) implies pairs_map(q)[x]
        == pairs_map(p).insert(k, v)[x] by {
        let i = index_of(q, x);
        assert(key_at(q, x, i));
        lemma_pairs_map_at(q, i);
        if i < p.len() {
            assert(q[i] == p[i]);
            lemma_pairs_map_at(p, i);
            assert(key_at(p, x, i));
        }
    }
    assert(pairs_map(q) =~= pairs_map(p).insert(k, v));
}

/// A new value for the key at index `i` is an insertion into the map.
pub proof fn lemma_pairs_map_update(p: Pairs, i: int, v: Seq<char>)
    requires
        keys_distinct(p),
        0 <= i < p.len(),
    ensures
        keys_distinct(p.update(i, (p[i].0, v))),
        pairs_map(p.update(i, (p[i].0, v))) == pairs_map(p).insert(p[i].0, v),
{
    let k = p[i].0;
    let q = p.update(i, (k, v));
    assert forall|a: int, b: int| 0 <= a < b < q.len() implies (#[trigger] q[a]).0 != (
    #[trigger] q[b]).0 by {
        assert(q[a].0 == p[a].0 && q[b].0 == p[b].0);
    }
    assert forall|x: Seq<char>| #[trigger]
        pairs_map(q).contains_key(x) == pairs_map(p).insert(k, v).contains_key(x) by {
        if holds_key(q, x) {
            let j = choose|j: int| key_at(q, x, j);
            assert(key_at(p, x, j));
        }
        if holds_key(p, x) {
            let j = choose|j: int| key_at(p, x, j);
            assert(key_at(q, x, j));
        }
        if x == k {
            assert(key_at(q, x, i));
        }
    }
    assert forall|x: Seq<char>| #[trigger] pairs_map(q).contains_key(x) implies pairs_map(q)[x]
        == pairs_map(p).insert(k, v)[x] by {
        let j = index_of(q, x);
        assert(key_at(q, x, j));
        lemma_pairs_map_at(q, j);
        lemma_pairs_map_at(p, j);
    }
    assert(pairs_map(q) =~= pairs_map(p).insert(k, v));
}

/// A list with distinct keys has as many pairs as its map has entries.
pub proof fn lemma_pairs_map_len(p: Pairs)
    requires
        keys_distinct(p),
    ensures
        pairs_map(p).dom().finite(),
        pairs_map(p).dom().len() == p.len(),
    decreases p.len(),
{
    if p.len() == 0 {
        assert(pairs_map(p).dom() =~= Set::<Seq<char>>::empty()) by {
            assert forall|x: Seq<char>| !holds_key(p, x) by {
                if holds_key(p, x) {
                    let i = choose|i: int| key_at(p, x, i);
                    assert(key_at(p, x, i));
                }
            }
        }
    } else {
        let q = p.drop_last();
        let (k, v) = p.last();
        assert(p =~= q.push((k, v)));
        assert forall|i: int, j: int| 0 <= i < j < q.len() implies (#[trigger] q[i]).0 != (
        #[trigger] q[j]).0 by {
            assert(q[i] == p[i] && q[j] == p[j]);
        }
        assert(!holds_key(q, k)) by {
            if holds_key(q, k) {
                let i = choose|i: int| key_at(q, k, i);
                assert(key_at(q, k, i));
                assert(p[i].0 != p[p.len() - 1].0);
            }
        }
        lemma_pairs_map_len(q);
        lemma_pairs_map_push(q, k, v);
        assert(pairs_map(p).dom() =~= pairs_map(q).dom().insert(k));
        assert(!pairs_map(q).dom().contains(k));
    }
}

/// A map from string slices to string slices. Its keys are compared as text.
#[derive(Debug)]
pub struct StrMap<'a> {
    entries: Vec<(&'a str, &'a str)>,
}

impl<'a> View for StrMap<'a> {
    type V = TextMap;

    open spec fn view(&self) -> TextMap {
        pairs_map(self.pairs())
    }
}

impl<'a> StrMap<'a> {
    /// The pairs of the map in the order in which their keys first came in.
    pub closed spec fn pairs(&self) -> Pairs {
        self.entries@.map_values(|e: (&str, &str)| (e.0@, e.1@))
    }

    #[verifier::type_invariant]
    spec fn well_formed(&self) -> bool {
        keys_distinct(self.pairs())
    }

    /// An empty map.
    pub fn new() -> (m: Self)
        ensures
            m@ == TextMap::empty(),
            m.pairs() == Pairs::empty(),
    {
        let m = StrMap { entries: Vec::new() };
        proof {
            assert(m.pairs() =~= Pairs::empty());
            lemma_pairs_map_len(m.pairs());
            assert(m@.dom() =~= Set::<Seq<char>>::empty());
            assert(m@ =~= TextMap::empty());
        }
        m
    }

    /// The number of entries.
    pub fn len(&self) -> (n: usize)
        ensures
            n == self.pairs().len(),
            n == self@.len(),
            self@.dom().finite(),
            keys_distinct(self.pairs()),
    {
        proof {
            use_type_invariant(self);
            lemma_pairs_map_len(self.pairs());
        }
        self.entries.len()
    }

    /// Whether the map has no entry.
    pub fn is_empty(&self) -> (r: bool)
        ensures
            r == (self@.len() == 0),
            r == (self@ == TextMap::empty()),
            self@.dom().finite(),
    {
        let n = self.len();
        proof {
            if n == 0 {
                assert(self@.dom() =~= Set::<Seq<char>>::empty());
                assert(self@ =~= TextMap::empty());
            }
        }
        n == 0
    }

    /// The pair at position `i`, for walking over the entries.
    pub fn entry(&self, i: usize) -> (r: Option<(&'a str, &'a str)>)
        ensures
            match r {
                Some((k, v)) => i < self.pairs().len() && self.pairs()[i as int] == (k@, v@)
                    && self@.contains_key(k@) && self@[k@] == v@,
                None => i >= self.pairs().len(),
            },
    {
        if i < self.entries.len() {
            proof {
                use_type_invariant(self);
                lemma_pairs_map_at(self.pairs(), i as int);
            }
            let e = self.entries[i];
            Some((e.0, e.1))
        } else {
            None
        }
    }

    /// The position of `key` among the entries, if it is there.
    fn position(&self, key: &str) -> (r: Option<usize>)
        ensures
            match r {
                Some(i) => key_at(self.pairs(), key@, i as int),
                None => !holds_key(self.pairs(), key@),
            },
    {
        let mut i: usize = 0;
        while i < self.entries.len()
            invariant
                i <= self.entries.len(),
                forall|j: int| 0 <= j < i ==> !key_at(self.pairs(), key@, j),
            decreases self.entries.len() - i,
        {
            if same_text(self.entries[i].0, key) {
                return Some(i);
            }
            i = i + 1;
        }
        proof {
            if holds_key(self.pairs(), key@) {
                let j = choose|j: int| key_at(self.pairs(), key@, j);
                assert(!key_at(self.pairs(), key@, j));
            }
        }
        None
    }

    /// The value stored under `key`, if there is one.
    pub fn get(&self, key: &str) -> (r: Option<&'a str>)
        ensures
            match r {
                Some(v) => self@.contains_key(key@) && self@[key@] == v@,
                None => !self@.contains_key(key@),
            },
    {
        match self.position(key) {
            Some(i) => {
                proof {
                    use_type_invariant(self);
                    lemma_pairs_map_at(self.pairs(), i as int);
                }
                Some(self.entries[i].1)
            },
            None => None,
        }
    }

    /// Whether a value is stored under `key`.
    pub fn contains_key(&self, key: &str) -> (r: bool)
        ensures
            r == self@.contains_key(key@),
    {
        self.position(key).is_some()
    }

    /// Stores `value` under `key`. A value that was stored under `key` before is replaced.
    pub fn insert(&mut self, key: &'a str, value: &'a str)
        ensures
            final(self)@ == old(self)@.insert(key@, value@),
    {
        proof {
            use_type_invariant(&*self);
        }
        let ghost before = self.pairs();
        let found = self.position(key);
        let mut entries: Vec<(&'a str, &'a str)> = Vec::new();
        proof {
            assert(entries@.map_values(|e: (&str, &str)| (e.0@, e.1@)) =~= Pairs::empty());
        }
        core::mem::swap(&mut entries, &mut self.entries);
        match found {
            Some(i) => {
                entries.set(i, (key, value));
                proof {
                    lemma_pairs_map_update(before, i as int, value@);
                    assert(before.update(i as int, (key@, value@)) =~= entries@.map_values(
                        |e: (&str, &str)| (e.0@, e.1@),
                    ));
                }
            },
            None => {
                entries.push((key, value));
                proof {
                    lemma_pairs_map_push(before, key@, value@);
                    assert(before.push((key@, value@)) =~= entries@.map_values(
                        |e: (&str, &str)| (e.0@, e.1@),
                    ));
                }
            },
        }
        self.entries = entries;
    }

    /// Whether every entry of `self` is an entry of `other` too.
    pub fn is_part_of(&self, other: &StrMap<'_>) -> (r: bool)
        ensures
            r == self@.submap_of(other@),
    {
        proof {
            use_type_invariant(self);
        }
        let mut i: usize = 0;
        while i < self.entries.len()
            invariant
                i <= self.entries.len(),
                keys_distinct(self.pairs()),
                forall|j: int|
                    0 <= j < i ==> other@.contains_key(#[trigger] self.pairs()[j].0)
                        && other@[self.pairs()[j].0] == self.pairs()[j].1,
            decreases self.entries.len() - i,
        {
            let e = self.entries[i];
            proof {
                lemma_pairs_map_at(self.pairs(), i as int);
            }
            match other.get(e.0) {
                Some(v) => {
                    if !same_text(v, e.1) {
                        return false;
                    }
                },
                None => {
                    return false;
                },
            }
            i = i + 1;
        }
        proof {
            assert forall|k: Seq<char>| #[trigger]
                self@.dom().contains(k) implies other@.dom().contains(k) && self@[k]
                == other@[k] by {
                let j = index_of(self.pairs(), k);
                assert(key_at(self.pairs(), k, j));
                assert(other@.contains_key(self.pairs()[j].0));
            }
        }
        true
    }
}

impl<'a> PartialEq for StrMap<'a> {
    /// Two maps are equal when they hold the same entries, in whatever order.
    fn eq(&self, other: &StrMap<'a>) -> (r: bool) {
        let r = self.is_part_of(other) && other.is_part_of(self);
        proof {
            if r {
                assert(self@ =~= other@);
            }
        }
        r
    }
}

impl<'a> PartialEqSpecImpl for StrMap<'a> {
    open spec fn obeys_eq_spec() -> bool {
        true
    }

    open spec fn eq_spec(&self, other: &StrMap<'a>) -> bool {
        self@ == other@
    }
}

} // verus!
