//! The key/value map that a parsed `.env` file yields.
use vstd::prelude::*;

verus! {

/// The map from keys to values that folding `pairs` left to right gives:
/// a later pair overwrites an earlier one with the same key.
pub open spec fn assoc_map(pairs: Seq<(Seq<char>, Seq<char>)>) -> Map<Seq<char>, Seq<char>>
    decreases pairs.len(),
{
    if pairs.len() == 0 {
        Map::empty()
    } else {
        assoc_map(pairs.drop_last()).insert(pairs.last().0, pairs.last().1)
    }
}

/// No key occurs twice among `pairs`.
pub open spec fn distinct_keys(pairs: Seq<(Seq<char>, Seq<char>)>) -> bool {
    forall|i: int, j: int|
        0 <= i < pairs.len() && 0 <= j < pairs.len() && i != j ==> #[trigger] pairs[i].0
            != #[trigger] pairs[j].0
}

/// Keys of `assoc_map(pairs)` are the keys that occur in `pairs`; with
/// distinct keys each maps to the value paired with it, and the map has as
/// many entries as `pairs`.
pub proof fn lemma_assoc_map(pairs: Seq<(Seq<char>, Seq<char>)>)
    ensures
        assoc_map(pairs).dom().finite(),
        forall|k: Seq<char>|
            #[trigger] assoc_map(pairs).contains_key(k) <==> exists|i: int|
                0 <= i < pairs.len() && pairs[i].0 == k,
        distinct_keys(pairs) ==> forall|i: int|
            0 <= i < pairs.len() ==> #[trigger] assoc_map(pairs)[pairs[i].0] == pairs[i].1,
        distinct_keys(pairs) ==> assoc_map(pairs).len() == pairs.len(),
    decreases pairs.len(),
{
    if pairs.len() > 0 {
        let init = pairs.drop_last();
        lemma_assoc_map(init);
        assert forall|k: Seq<char>|
            #[trigger] assoc_map(pairs).contains_key(k) <==> exists|i: int|
                0 <= i < pairs.len() && pairs[i].0 == k by {
            if assoc_map(pairs).contains_key(k) {
                if k != pairs.last().0 {
                    let i = choose|i: int| 0 <= i < init.len() && init[i].0 == k;
                    assert(pairs[i].0 == k);
                } else {
                    assert(pairs[pairs.len() - 1].0 == k);
                }
            }
            if exists|i: int| 0 <= i < pairs.len() && pairs[i].0 == k {
                let i = choose|i: int| 0 <= i < pairs.len() && pairs[i].0 == k;
                if i < pairs.len() - 1 {
                    assert(init[i].0 == k);
                }
            }
        }
        if distinct_keys(pairs) {
            assert(distinct_keys(init)) by {
                assert forall|i: int, j: int|
                    0 <= i < init.len() && 0 <= j < init.len() && i != j implies #[trigger] init[i].0
                    != #[trigger] init[j].0 by {
                    assert(pairs[i].0 != pairs[j].0);
                }
            }
            assert forall|i: int| 0 <= i < pairs.len() implies #[trigger] assoc_map(pairs)[pairs[i].0]
                == pairs[i].1 by {
                if i < pairs.len() - 1 {
                    assert(init[i] == pairs[i]);
                    assert(pairs[i].0 != pairs[pairs.len() - 1].0);
                }
            }
            assert(!assoc_map(init).contains_key(pairs.last().0)) by {
                if assoc_map(init).contains_key(pairs.last().0) {
                    let i = choose|i: int| 0 <= i < init.len() && init[i].0 == pairs.last().0;
                    assert(pairs[i].0 == pairs[pairs.len() - 1].0);
                }
            }
        }
    }
}

/// Entries taken by their characters.
pub open spec fn pairs_of(entries: Seq<(String, String)>) -> Seq<(Seq<char>, Seq<char>)> {
    entries.map_values(|e: (String, String)| (e.0@, e.1@))
}

/// A map from keys to values. The pairs are kept in a vector, each key at
/// most once.
#[derive(Debug)]
pub struct EnvMap {
    entries: Vec<(String, String)>,
}

impl EnvMap {
    /// The pairs, each taken by its characters.
    pub closed spec fn pairs(self) -> Seq<(Seq<char>, Seq<char>)> {
        pairs_of(self.entries@)
    }

    #[verifier::type_invariant]
    closed spec fn keys_unique(self) -> bool {
        distinct_keys(self.pairs())
    }

    /// An empty map.
    pub fn new() -> (res: EnvMap)
        ensures
            res@ == Map::<Seq<char>, Seq<char>>::empty(),
    {
        let res = EnvMap { entries: Vec::new() };
        proof {
            assert(res.pairs() =~= Seq::<(Seq<char>, Seq<char>)>::empty());
        }
        res
    }

    /// Number of keys.
    pub fn len(&self) -> (res: usize)
        ensures
            res == self@.len(),
    {
        proof {
            use_type_invariant(self);
            lemma_assoc_map(self.pairs());
        }
        self.entries.len()
    }

    /// Whether the map holds no key.
    pub fn is_empty(&self) -> (res: bool)
        ensures
            res == (self@.len() == 0),
    {
        self.len() == 0
    }

    /// Position of `key` among the entries, if it is there.
    fn position(&self, key: &String) -> (res: Option<usize>)
        ensures
            match res {
                Some(i) => i < self.pairs().len() && self.pairs()[i as int].0 == key@,
                None => forall|i: int| 0 <= i < self.pairs().len() ==> self.pairs()[i].0 != key@,
            },
    {
        let n = self.entries.len();
        let mut i: usize = 0;
        while i < n
            invariant
                i <= n == self.entries.len() == self.pairs().len(),
                forall|j: int| 0 <= j < i ==> self.pairs()[j].0 != key@,
            decreases n - i,
        {
            if self.entries[i].0 == *key {
                return Some(i);
            }
            i = i + 1;
        }
        None
    }

    /// Sets `key` to `value`, replacing a value that `key` had.
    pub fn insert(&mut self, key: String, value: String)
        ensures
            final(self)@ == old(self)@.insert(key@, value@),
    {
        proof {
            use_type_invariant(&*self);
            lemma_assoc_map(self.pairs());
        }
        let ghost old_pairs = self.pairs();
        match self.position(&key) {
            Some(i) => {
                let ghost kv = key@;
                let ghost vv = value@;
                let mut entries: Vec<(String, String)> = Vec::new();
                std::mem::swap(&mut entries, &mut self.entries);
                entries.set(i, (key, value));
                proof {
                    let new_pairs = pairs_of(entries@);
                    assert(new_pairs =~= old_pairs.update(i as int, (kv, vv)));
                    assert(distinct_keys(new_pairs)) by {
                        assert forall|a: int, b: int|
                            0 <= a < new_pairs.len() && 0 <= b < new_pairs.len() && a != b implies #[trigger] new_pairs[a].0
                            != #[trigger] new_pairs[b].0 by {
                            assert(old_pairs[a].0 != old_pairs[b].0);
                        }
                    }
                }
                self.entries = entries;
                proof {
                    let new_pairs = self.pairs();
                    lemma_assoc_map(new_pairs);
                    let m_old = assoc_map(old_pairs).insert(kv, vv);
                    let m_new = assoc_map(new_pairs);
                    assert forall|k: Seq<char>| m_new.contains_key(k) <==> m_old.contains_key(k) by {
                        if m_old.contains_key(k) && k != kv {
                            assert(assoc_map(old_pairs).contains_key(k));
                            let j = choose|j: int| 0 <= j < old_pairs.len() && old_pairs[j].0 == k;
                            assert(new_pairs[j].0 == k);
                        }
                        if k == kv {
                            assert(new_pairs[i as int].0 == k);
                        }
                        if m_new.contains_key(k) {
                            let j = choose|j: int| 0 <= j < new_pairs.len() && new_pairs[j].0 == k;
                            if j != i {
                                assert(old_pairs[j].0 == k);
                            }
                        }
                    }
                    assert forall|k: Seq<char>| #[trigger] m_new.contains_key(k) implies m_new[k] == m_old[k] by {
                        let j = choose|j: int| 0 <= j < new_pairs.len() && new_pairs[j].0 == k;
                        assert(m_new[new_pairs[j].0] == new_pairs[j].1);
                        if j != i {
                            assert(old_pairs[j] == new_pairs[j]);
                            assert(assoc_map(old_pairs)[old_pairs[j].0] == old_pairs[j].1);
                        }
                    }
                    assert(m_new =~= m_old);
                }
            },
            None => {
                let ghost kv = key@;
                let ghost vv = value@;
                let mut entries: Vec<(String, String)> = Vec::new();
                std::mem::swap(&mut entries, &mut self.entries);
                entries.push((key, value));
                proof {
                    let new_pairs = pairs_of(entries@);
                    assert(new_pairs =~= old_pairs.push((kv, vv)));
                    assert(new_pairs.drop_last() =~= old_pairs);
                    assert(distinct_keys(new_pairs)) by {
                        assert forall|a: int, b: int|
                            0 <= a < new_pairs.len() && 0 <= b < new_pairs.len() && a != b implies #[trigger] new_pairs[a].0
                            != #[trigger] new_pairs[b].0 by {
                            if a < old_pairs.len() && b < old_pairs.len() {
                                assert(old_pairs[a].0 != old_pairs[b].0);
                            } else if a < old_pairs.len() {
                                assert(old_pairs[a].0 != kv);
                            } else {
                                assert(old_pairs[b].0 != kv);
                            }
                        }
                    }
                }
                self.entries = entries;
                proof {
                    assert(self.pairs().drop_last() =~= old_pairs);
                }
            },
        }
    }

    /// The value of `key`, if the map holds it.
    pub fn get(&self, key: &str) -> (res: Option<&String>)
        ensures
            match res {
                Some(v) => self@.contains_key(key@) && self@[key@] == v@,
                None => !self@.contains_key(key@),
            },
    {
        proof {
            use_type_invariant(self);
            lemma_assoc_map(self.pairs());
        }
        let k = key.to_owned();
        match self.position(&k) {
            Some(i) => {
                proof {
                    assert(self.pairs()[i as int].1 == self.entries@[i as int].1@);
                }
                Some(&self.entries[i].1)
            },
            None => None,
        }
    }

    /// Whether the map holds `key`.
    pub fn contains_key(&self, key: &str) -> (res: bool)
        ensures
            res == self@.contains_key(key@),
    {
        self.get(key).is_some()
    }

    /// The keys, each once, in no promised order.
    pub fn keys(&self) -> (res: Vec<String>)
        ensures
            forall|k: Seq<char>|
                self@.contains_key(k) <==> exists|i: int| 0 <= i < res.len() && #[trigger] res@[i]@ == k,
            res.len() == self@.len(),
    {
        proof {
            use_type_invariant(self);
            lemma_assoc_map(self.pairs());
        }
        let mut res: Vec<String> = Vec::new();
        let n = self.entries.len();
        let mut i: usize = 0;
        while i < n
            invariant
                i <= n == self.entries.len() == self.pairs().len(),
                res.len() == i,
                forall|j: int| 0 <= j < i ==> #[trigger] res@[j]@ == self.pairs()[j].0,
            decreases n - i,
        {
            res.push(self.entries[i].0.clone());
            i = i + 1;
        }
        proof {
            assert forall|k: Seq<char>|
                self@.contains_key(k) <==> exists|i: int| 0 <= i < res.len() && #[trigger] res@[i]@ == k by {
                if self@.contains_key(k) {
                    let j = choose|j: int| 0 <= j < self.pairs().len() && self.pairs()[j].0 == k;
                    assert(res@[j]@ == k);
                }
            }
        }
        res
    }
}

impl Clone for EnvMap {
    /// A copy with the same keys and values.
    fn clone(&self) -> (res: EnvMap)
        ensures
            res@ == self@,
    {
        proof {
            use_type_invariant(self);
        }
        let mut entries: Vec<(String, String)> = Vec::new();
        let n = self.entries.len();
        let mut i: usize = 0;
        while i < n
            invariant
                i <= n == self.entries.len(),
                entries.len() == i,
                pairs_of(entries@) == self.pairs().take(i as int),
            decreases n - i,
        {
            let k = self.entries[i].0.clone();
            let v = self.entries[i].1.clone();
            let ghost before = entries@;
            entries.push((k, v));
            proof {
                assert(entries@ =~= before.push((k, v)));
                assert(pairs_of(entries@)[i as int] == self.pairs()[i as int]);
                assert forall|j: int| 0 <= j < i implies pairs_of(entries@)[j] == pairs_of(before)[j] by {
                    assert(entries@[j] == before[j]);
                }
                assert(pairs_of(entries@) =~= self.pairs().take(i + 1));
            }
            i = i + 1;
        }
        proof {
            assert(pairs_of(entries@) =~= self.pairs());
        }
        EnvMap { entries }
    }
}

impl View for EnvMap {
    type V = Map<Seq<char>, Seq<char>>;

    closed spec fn view(&self) -> Map<Seq<char>, Seq<char>> {
        assoc_map(self.pairs())
    }
}

} // verus!
