//! A small map keyed by text, in the order of first insertion.
use crate::text::str_eq;
use vstd::prelude::*;

verus! {

/// The map that a list of entries stands for; a later entry replaces an earlier one.
pub open spec fn map_of<V>(s: Seq<(String, V)>) -> Map<Seq<char>, V>
    decreases s.len(),
{
    if s.len() == 0 {
        Map::empty()
    } else {
        map_of(s.drop_last()).insert(s.last().0@, s.last().1)
    }
}

/// No key occurs twice.
pub open spec fn distinct_keys<V>(s: Seq<(String, V)>) -> bool {
    forall|i: int, j: int| 0 <= i < j < s.len() ==> (#[trigger] s[i]).0@ != (#[trigger] s[j]).0@
}

/// A key is in the map exactly when an entry holds it.
proof fn lemma_map_keys<V>(s: Seq<(String, V)>, k: Seq<char>)
    ensures
        map_of(s).contains_key(k) <==> exists|i: int| 0 <= i < s.len() && (#[trigger] s[i]).0@ == k,
    decreases s.len(),
{
    if s.len() > 0 {
        let t = s.drop_last();
        lemma_map_keys(t, k);
        if map_of(t).contains_key(k) {
            let i = choose|i: int| 0 <= i < t.len() && (#[trigger] t[i]).0@ == k;
            assert(s[i].0@ == k);
        }
        if exists|i: int| 0 <= i < s.len() && (#[trigger] s[i]).0@ == k {
            let i = choose|i: int| 0 <= i < s.len() && (#[trigger] s[i]).0@ == k;
            if i < s.len() - 1 {
                assert(t[i].0@ == k);
            }
        }
        assert(s[s.len() - 1] == s.last());
    }
}

/// A key is in the map exactly when an entry holds it, and its value is that of the last
/// entry that does.
pub proof fn last_entry_counts<V>(s: Seq<(String, V)>, i: int, k: Seq<char>)
    requires
        0 <= i < s.len(),
        forall|j: int| i < j < s.len() ==> (#[trigger] s[j]).0@ != s[i].0@,
    ensures
        map_of(s).contains_key(s[i].0@),
        map_of(s)[s[i].0@] == s[i].1,
        map_of(s).contains_key(k) <==> exists|j: int| 0 <= j < s.len() && (#[trigger] s[j]).0@ == k,
    decreases s.len(),
{
    lemma_map_keys(s, k);
    if i < s.len() - 1 {
        let t = s.drop_last();
        assert(s[s.len() - 1].0@ != s[i].0@);
        assert forall|j: int| i < j < t.len() implies (#[trigger] t[j]).0@ != t[i].0@ by {
            assert(s[j].0@ != s[i].0@);
        }
        last_entry_counts(t, i, k);
    }
}

/// Without repeated keys, the map holds each entry's value.
proof fn lemma_map_values<V>(s: Seq<(String, V)>, i: int)
    requires
        distinct_keys(s),
        0 <= i < s.len(),
    ensures
        map_of(s).contains_key(s[i].0@),
        map_of(s)[s[i].0@] == s[i].1,
    decreases s.len(),
{
    if i < s.len() - 1 {
        lemma_map_values(s.drop_last(), i);
        assert(s[i].0@ != s[s.len() - 1].0@);
    }
}

/// Without repeated keys, the map is as large as the list.
proof fn lemma_map_len<V>(s: Seq<(String, V)>)
    requires
        distinct_keys(s),
    ensures
        map_of(s).dom().finite(),
        map_of(s).len() == s.len(),
    decreases s.len(),
{
    if s.len() > 0 {
        let t = s.drop_last();
        lemma_map_len(t);
        lemma_map_keys(t, s.last().0@);
        if map_of(t).contains_key(s.last().0@) {
            let i = choose|i: int| 0 <= i < t.len() && (#[trigger] t[i]).0@ == s.last().0@;
            assert(s[i].0@ != s[s.len() - 1].0@);
        }
    }
}

/// A map from texts to values.
#[derive(Debug)]
pub struct TextMap<V> {
    entries: Vec<(String, V)>,
}

impl<V> View for TextMap<V> {
    type V = Map<Seq<char>, V>;

    closed spec fn view(&self) -> Map<Seq<char>, V> {
        map_of(self.entries@)
    }
}

impl<V> TextMap<V> {
    #[verifier::type_invariant]
    spec fn keys_distinct(&self) -> bool {
        distinct_keys(self.entries@)
    }

    /// A map without entries.
    pub fn new() -> (m: Self)
        ensures
            m@ == Map::<Seq<char>, V>::empty(),
    {
        TextMap { entries: Vec::new() }
    }

    /// Position of a key.
    fn position(&self, key: &str) -> (at: Option<usize>)
        ensures
            match at {
                Some(i) => i < self.entries@.len() && self.entries@[i as int].0@ == key@,
                None => !self@.contains_key(key@),
            },
    {
        let mut i: usize = 0;
        while i < self.entries.len()
            invariant
                i <= self.entries@.len(),
                forall|j: int| 0 <= j < i ==> (#[trigger] self.entries@[j]).0@ != key@,
            decreases self.entries@.len() - i,
        {
            if str_eq(self.entries[i].0.as_str(), key) {
                return Some(i);
            }
            i += 1;
        }
        proof {
            lemma_map_keys(self.entries@, key@);
        }
        None
    }

    /// The value of a key.
    pub fn get(&self, key: &str) -> (value: Option<&V>)
        ensures
            match value {
                Some(v) => self@.contains_key(key@) && *v == self@[key@],
                None => !self@.contains_key(key@),
            },
    {
        proof {
            use_type_invariant(self);
        }
        match self.position(key) {
            Some(i) => {
                proof {
                    lemma_map_values(self.entries@, i as int);
                }
                Some(&self.entries[i].1)
            },
            None => None,
        }
    }

    /// Whether a key has a value.
    pub fn contains_key(&self, key: &str) -> (r: bool)
        ensures
            r == self@.contains_key(key@),
    {
        self.get(key).is_some()
    }

    /// Number of keys.
    pub fn len(&self) -> (n: usize)
        ensures
            n == self@.len(),
            self@.dom().finite(),
    {
        proof {
            use_type_invariant(self);
            lemma_map_len(self.entries@);
        }
        self.entries.len()
    }

    /// The map with one key set, in place of the value it had.
    pub fn with(self, key: String, value: V) -> (m: Self)
        ensures
            m@ == self@.insert(key@, value),
    {
        proof {
            use_type_invariant(&self);
        }
        let ghost before = self.entries@;
        let at = self.position(key.as_str());
        let mut entries = self.entries;
        match at {
            Some(i) => {
                let ghost k = key@;
                entries.set(i, (key, value));
                proof {
                    let after = entries@;
                    assert(distinct_keys(after)) by {
                        assert forall|a: int, b: int| 0 <= a < b < after.len() implies (
                        #[trigger] after[a]).0@ != (#[trigger] after[b]).0@ by {
                            assert(before[a].0@ != before[b].0@);
                        }
                    }
                    assert forall|x: Seq<char>|
                        map_of(after).contains_key(x) == #[trigger] map_of(before).insert(
                            k,
                            value,
                        ).contains_key(x) && (map_of(after).contains_key(x) ==> map_of(after)[x]
                            == map_of(before).insert(k, value)[x]) by {
                        lemma_map_keys(before, x);
                        lemma_map_keys(after, x);
                        if map_of(after).contains_key(x) {
                            let j = choose|j: int| 0 <= j < after.len() && (#[trigger] after[j]).0@ == x;
                            assert(before[j].0@ == x);
                            lemma_map_values(after, j);
                            lemma_map_values(before, j);
                            if j != i {
                                assert(x != k) by {
                                    if j < i {
                                        assert(before[j].0@ != before[i as int].0@);
                                    } else {
                                        assert(before[i as int].0@ != before[j].0@);
                                    }
                                }
                            }
                        } else {
                            if map_of(before).contains_key(x) {
                                let j = choose|j: int|
                                    0 <= j < before.len() && (#[trigger] before[j]).0@ == x;
                                assert(after[j].0@ == x);
                            }
                            if x == k {
                                assert(after[i as int].0@ == x);
                            }
                        }
                    }
                    assert(map_of(after) =~= map_of(before).insert(k, value));
                }
            },
            None => {
                let ghost k = key@;
                entries.push((key, value));
                proof {
                    let after = entries@;
                    assert(after.drop_last() =~= before);
                    lemma_map_keys(before, k);
                    assert forall|a: int, b: int| 0 <= a < b < after.len() implies (
                    #[trigger] after[a]).0@ != (#[trigger] after[b]).0@ by {
                        assert(after[a] == before[a]);
                        if b < before.len() {
                            assert(after[b] == before[b]);
                            assert(before[a].0@ != before[b].0@);
                        }
                    }
                }
            },
        }
        TextMap { entries }
    }

    /// The map that a list of entries stands for.
    pub fn from_entries(list: Vec<(String, V)>) -> (m: Self)
        ensures
            m@ == map_of(list@),
    {
        let ghost all = list@;
        let mut m = TextMap::new();
        for entry in it: list
            invariant
                it.seq() == all,
                m@ == map_of(all.take(it.index() as int)),
        {
            let ghost i = it.index() as int;
            proof {
                assert(all.take(i + 1).drop_last() =~= all.take(i));
            }
            m = m.with(entry.0, entry.1);
        }
        assert(all.take(all.len() as int) =~= all);
        m
    }

    /// The entries in the order of first insertion.
    pub fn entries(&self) -> (list: &Vec<(String, V)>)
        ensures
            distinct_keys(list@),
            self@ == map_of(list@),
    {
        proof {
            use_type_invariant(self);
        }
        &self.entries
    }
}

impl Clone for TextMap<String> {
    fn clone(&self) -> (m: Self)
        ensures
            m@ == self@,
    {
        let mut list: Vec<(String, String)> = Vec::new();
        for i in 0..self.entries.len()
            invariant
                list@ == self.entries@.take(i as int),
        {
            let entry = (self.entries[i].0.clone(), self.entries[i].1.clone());
            list.push(entry);
            assert(list@ =~= self.entries@.take(i + 1));
        }
        assert(list@ =~= self.entries@);
        TextMap::from_entries(list)
    }
}

} // verus!
