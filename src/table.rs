use vstd::prelude::*;

use crate::text::same_text;

verus! {

/// No two entries of `s` carry the same key.
pub open spec fn keys_unique<V>(s: Seq<(String, V)>) -> bool {
    forall|i: int, j: int|
        0 <= i < s.len() && 0 <= j < s.len() && i != j ==> #[trigger] s[i].0@ != #[trigger] s[j].0@
}

/// The map that a list of entries denotes: a later entry for a key wins.
pub open spec fn map_of<V>(s: Seq<(String, V)>) -> Map<Seq<char>, V>
    decreases s.len(),
{
    if s.len() == 0 {
        Map::empty()
    } else {
        map_of(s.drop_last()).insert(s.last().0@, s.last().1)
    }
}

/// A key is in the map of `s` exactly when some entry carries it.
pub proof fn lemma_map_of_contains<V>(s: Seq<(String, V)>, k: Seq<char>)
    ensures
        map_of(s).contains_key(k) <==> exists|i: int| 0 <= i < s.len() && #[trigger] s[i].0@ == k,
    decreases s.len(),
{
    if s.len() > 0 {
        let t = s.drop_last();
        lemma_map_of_contains(t, k);
        if map_of(s).contains_key(k) && s.last().0@ != k {
            let i = choose|i: int| 0 <= i < t.len() && #[trigger] t[i].0@ == k;
            assert(s[i].0@ == k);
        }
        if exists|i: int| 0 <= i < s.len() && #[trigger] s[i].0@ == k {
            let i = choose|i: int| 0 <= i < s.len() && #[trigger] s[i].0@ == k;
            if i < s.len() - 1 {
                assert(t[i].0@ == k);
            }
        }
    }
}

/// With unique keys, the map of `s` holds each entry's value under its key.
pub proof fn lemma_map_of_value<V>(s: Seq<(String, V)>, i: int)
    requires
        keys_unique(s),
        0 <= i < s.len(),
    ensures
        map_of(s).contains_key(s[i].0@),
        map_of(s)[s[i].0@] == s[i].1,
    decreases s.len(),
{
    let t = s.drop_last();
    if i < s.len() - 1 {
        assert(t[i] == s[i]);
        assert(keys_unique(t)) by {
            assert forall|a: int, b: int|
                0 <= a < t.len() && 0 <= b < t.len() && a != b implies #[trigger] t[a].0@
                != #[trigger] t[b].0@ by {
                assert(t[a] == s[a] && t[b] == s[b]);
            }
        }
        lemma_map_of_value(t, i);
        assert(s[i].0@ != s[s.len() - 1].0@);
    }
}

/// A map from text keys to values that keeps its keys unique and its entries in the order
/// in which their keys were first inserted. It stands in for a `HashMap<String, V>`, whose
/// operations vstd specifies only for key types with a known hashing model, which `String`
/// lacks.
pub struct Table<V> {
    entries: Vec<(String, V)>,
}

impl<V> Table<V> {
    #[verifier::type_invariant]
    spec fn wf(&self) -> bool {
        keys_unique(self.entries@)
    }

    /// The entries in their order.
    pub closed spec fn entries(&self) -> Seq<(String, V)> {
        self.entries@
    }

    /// The keys in their order.
    pub open spec fn keys(&self) -> Seq<Seq<char>> {
        self.entries().map_values(|e: (String, V)| e.0@)
    }

    /// The map that the table holds.
    pub open spec fn view(&self) -> Map<Seq<char>, V> {
        map_of(self.entries())
    }

    /// An empty table.
    pub fn new() -> (r: Self)
        ensures
            r.entries().len() == 0,
            r@ == Map::<Seq<char>, V>::empty(),
            r.keys().no_duplicates(),
    {
        let r = Table { entries: Vec::new() };
        assert(r.keys() =~= Seq::<Seq<char>>::empty());
        r
    }

    /// The number of entries.
    pub fn len(&self) -> (r: usize)
        ensures
            r == self.entries().len(),
            r == self@.len(),
    {
        proof {
            use_type_invariant(self);
            lemma_map_of_len(self.entries@);
        }
        self.entries.len()
    }

    /// The position of the entry that carries `key`, if any.
    pub fn index_of(&self, key: &str) -> (r: Option<usize>)
        ensures
            match r {
                Some(i) => i < self.entries().len() && self.entries()[i as int].0@ == key@,
                None => !self@.contains_key(key@),
            },
    {
        let mut i: usize = 0;
        while i < self.entries.len()
            invariant
                i <= self.entries@.len(),
                forall|j: int| 0 <= j < i ==> #[trigger] self.entries@[j].0@ != key@,
            decreases self.entries@.len() - i,
        {
            if same_text(self.entries[i].0.as_str(), key) {
                return Some(i);
            }
            i = i + 1;
        }
        proof {
            lemma_map_of_contains(self.entries@, key@);
        }
        None
    }

    /// Whether some entry carries `key`.
    pub fn contains_key(&self, key: &str) -> (r: bool)
        ensures
            r == self@.contains_key(key@),
    {
        match self.index_of(key) {
            Some(i) => {
                proof {
                    use_type_invariant(self);
                    lemma_map_of_value(self.entries@, i as int);
                }
                true
            },
            None => false,
        }
    }

    /// The value stored under `key`, if any.
    pub fn get(&self, key: &str) -> (r: Option<&V>)
        ensures
            match r {
                Some(v) => self@.contains_key(key@) && *v == self@[key@],
                None => !self@.contains_key(key@),
            },
    {
        match self.index_of(key) {
            Some(i) => {
                proof {
                    use_type_invariant(self);
                    lemma_map_of_value(self.entries@, i as int);
                }
                Some(&self.entries[i].1)
            },
            None => None,
        }
    }

    /// The key of the entry at position `i`.
    pub fn key_at(&self, i: usize) -> (r: &String)
        requires
            i < self.entries().len(),
        ensures
            *r == self.entries()[i as int].0,
    {
        &self.entries[i].0
    }

    /// The value of the entry at position `i`.
    pub fn value_at(&self, i: usize) -> (r: &V)
        requires
            i < self.entries().len(),
        ensures
            *r == self.entries()[i as int].1,
    {
        &self.entries[i].1
    }

    /// Stores `value` under `key`, replacing the value that the key had. A key that was
    /// present keeps its position; a new key is added at the end.
    pub fn insert(&mut self, key: String, value: V)
        ensures
            final(self)@ == old(self)@.insert(key@, value),
            old(self)@.contains_key(key@) ==> final(self).keys() == old(self).keys(),
            !old(self)@.contains_key(key@) ==> final(self).keys() == old(self).keys().push(key@),
            final(self).keys().no_duplicates(),
    {
        proof {
            use_type_invariant(&*self);
        }
        let ghost k = key@;
        let ghost s0 = self.entries@;
        let found = self.index_of(key.as_str());
        let mut taken = Table::new();
        std::mem::swap(self, &mut taken);
        let Table { mut entries } = taken;
        match found {
            Some(i) => {
                entries.set(i, (key, value));
                proof {
                    let s1 = entries@;
                    assert(keys_unique(s1)) by {
                        assert forall|a: int, b: int|
                            0 <= a < s1.len() && 0 <= b < s1.len() && a != b implies #[trigger] s1[a].0@
                            != #[trigger] s1[b].0@ by {
                            assert(s1[a].0@ == s0[a].0@ && s1[b].0@ == s0[b].0@);
                        }
                    }
                    lemma_map_of_value(s0, i as int);
                    assert forall|x: Seq<char>|
                        #[trigger] map_of(s1).contains_key(x) == map_of(s0).insert(k, value).contains_key(x)
                        && (map_of(s1).contains_key(x) ==> map_of(s1)[x] == map_of(s0).insert(k, value)[x]) by {
                        lemma_map_of_contains(s0, x);
                        lemma_map_of_contains(s1, x);
                        if map_of(s1).contains_key(x) {
                            let j = choose|j: int| 0 <= j < s1.len() && #[trigger] s1[j].0@ == x;
                            lemma_map_of_value(s1, j);
                            if j != i {
                                assert(s0[j] == s1[j]);
                                lemma_map_of_value(s0, j);
                            }
                        }
                        if map_of(s0).contains_key(x) {
                            let j = choose|j: int| 0 <= j < s0.len() && #[trigger] s0[j].0@ == x;
                            assert(s1[j].0@ == x);
                        }
                    }
                    assert(map_of(s1) =~= map_of(s0).insert(k, value));
                    assert(s1.map_values(|e: (String, V)| e.0@) =~= s0.map_values(|e: (String, V)| e.0@));
                    lemma_unique_keys(s1);
                }
            },
            None => {
                entries.push((key, value));
                proof {
                    let s1 = entries@;
                    assert(s1.drop_last() =~= s0);
                    lemma_map_of_contains(s0, k);
                    assert(keys_unique(s1)) by {
                        assert forall|a: int, b: int|
                            0 <= a < s1.len() && 0 <= b < s1.len() && a != b implies #[trigger] s1[a].0@
                            != #[trigger] s1[b].0@ by {
                            if a < s0.len() && b < s0.len() {
                                assert(s1[a] == s0[a] && s1[b] == s0[b]);
                            } else if a < s0.len() {
                                assert(s1[a] == s0[a]);
                            } else {
                                assert(s1[b] == s0[b]);
                            }
                        }
                    }
                    assert(s1.map_values(|e: (String, V)| e.0@) =~= s0.map_values(|e: (String, V)| e.0@).push(k));
                    lemma_unique_keys(s1);
                }
            },
        }
        *self = Table { entries };
    }
}

/// Unique keys, stated over the sequence of keys.
proof fn lemma_unique_keys<V>(s: Seq<(String, V)>)
    requires
        keys_unique(s),
    ensures
        s.map_values(|e: (String, V)| e.0@).no_duplicates(),
{
    let ks = s.map_values(|e: (String, V)| e.0@);
    assert forall|a: int, b: int| 0 <= a < ks.len() && 0 <= b < ks.len() && a != b implies ks[a] != ks[b] by {
        assert(ks[a] == s[a].0@ && ks[b] == s[b].0@);
    }
}

/// With unique keys, the map has as many keys as there are entries.
proof fn lemma_map_of_len<V>(s: Seq<(String, V)>)
    requires
        keys_unique(s),
    ensures
        map_of(s).dom().finite(),
        map_of(s).len() == s.len(),
    decreases s.len(),
{
    if s.len() > 0 {
        let t = s.drop_last();
        assert(keys_unique(t)) by {
            assert forall|a: int, b: int|
                0 <= a < t.len() && 0 <= b < t.len() && a != b implies #[trigger] t[a].0@
                != #[trigger] t[b].0@ by {
                assert(t[a] == s[a] && t[b] == s[b]);
            }
        }
        lemma_map_of_len(t);
        lemma_map_of_contains(t, s.last().0@);
        if map_of(t).contains_key(s.last().0@) {
            let i = choose|i: int| 0 <= i < t.len() && #[trigger] t[i].0@ == s.last().0@;
            assert(s[i].0@ == s[s.len() - 1].0@);
        }
    }
}

} // verus!
