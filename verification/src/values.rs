//! The values that templates draw on: a map from names to YAML values.
use vstd::prelude::*;

use crate::yaml::{Yaml, YamlView, tags_named};

verus! {

/// The map that the entries give: a later entry for a name replaces an earlier one.
pub open spec fn entries_map(entries: Seq<(String, Yaml)>) -> Map<Seq<char>, YamlView>
    decreases entries.len(),
{
    if entries.len() == 0 {
        Map::empty()
    } else {
        entries_map(entries.drop_last()).insert(entries.last().0@, entries.last().1@)
    }
}

/// No two entries hold the same name.
pub open spec fn names_distinct(entries: Seq<(String, Yaml)>) -> bool {
    forall|i: int, j: int|
        0 <= i < entries.len() && 0 <= j < entries.len() && i != j ==> #[trigger] entries[i].0@
            != #[trigger] entries[j].0@
}

proof fn lemma_entries_map(entries: Seq<(String, Yaml)>)
    requires
        names_distinct(entries),
    ensures
        forall|k: Seq<char>|
            #![trigger entries_map(entries).contains_key(k)]
            entries_map(entries).contains_key(k) <==> exists|i: int|
                0 <= i < entries.len() && entries[i].0@ == k,
        forall|i: int|
            0 <= i < entries.len() ==> entries_map(entries)[#[trigger] entries[i].0@]
                == entries[i].1@,
    decreases entries.len(),
{
    if entries.len() > 0 {
        let prefix = entries.drop_last();
        let n = entries.len() - 1;
        assert(names_distinct(prefix)) by {
            assert forall|i: int, j: int|
                0 <= i < prefix.len() && 0 <= j < prefix.len() && i != j implies #[trigger] prefix[i].0@
                != #[trigger] prefix[j].0@ by {
                assert(prefix[i] == entries[i]);
                assert(prefix[j] == entries[j]);
            }
        }
        lemma_entries_map(prefix);
        assert forall|k: Seq<char>|
            entries_map(entries).contains_key(k) implies exists|i: int|
                0 <= i < entries.len() && entries[i].0@ == k by {
            if k != entries[n].0@ {
                assert(entries_map(prefix).contains_key(k));
                let i = choose|i: int| 0 <= i < prefix.len() && prefix[i].0@ == k;
                assert(entries[i] == prefix[i]);
                assert(0 <= i < entries.len() && entries[i].0@ == k);
            } else {
                assert(0 <= n < entries.len() && entries[n].0@ == k);
            }
        }
        assert forall|k: Seq<char>|
            (exists|i: int| 0 <= i < entries.len() && entries[i].0@ == k) implies entries_map(
                entries,
            ).contains_key(k) by {
            let i = choose|i: int| 0 <= i < entries.len() && entries[i].0@ == k;
            if i < n {
                assert(prefix[i] == entries[i]);
                assert(entries_map(prefix).contains_key(k));
            }
        }
        assert forall|i: int| 0 <= i < entries.len() implies entries_map(
            entries,
        )[#[trigger] entries[i].0@] == entries[i].1@ by {
            if i < n {
                assert(prefix[i] == entries[i]);
            }
        }
    }
}

/// A map from names to YAML values.
///
/// The entries are held in a vector, each name once: vstd specifies `HashMap` lookups only for
/// key types with a hashing model (`obeys_key_model`), and `String` has none, so a `HashMap`
/// keyed by name would leave every lookup and insertion without a usable contract.
pub struct ValuesMap {
    entries: Vec<(String, Yaml)>,
}

impl View for ValuesMap {
    type V = Map<Seq<char>, YamlView>;

    closed spec fn view(&self) -> Map<Seq<char>, YamlView> {
        entries_map(self.entries@)
    }
}

impl ValuesMap {
    /// No name is held twice and every value's tags are non-empty.
    #[verifier::type_invariant]
    spec fn inv(self) -> bool {
        &&& names_distinct(self.entries@)
        &&& forall|i: int| 0 <= i < self.entries@.len() ==> tags_named(#[trigger] self.entries@[i].1@)
    }

    /// The empty map.
    pub fn new() -> (r: ValuesMap)
        ensures
            r@ == Map::<Seq<char>, YamlView>::empty(),
    {
        ValuesMap { entries: Vec::new() }
    }

    /// The position of the entry for `key`.
    fn position(&self, key: &String) -> (r: Option<usize>)
        ensures
            match r {
                Some(i) => i < self.entries@.len() && self.entries@[i as int].0@ == key@,
                None => forall|i: int|
                    0 <= i < self.entries@.len() ==> #[trigger] self.entries@[i].0@ != key@,
            },
    {
        let mut i: usize = 0;
        while i < self.entries.len()
            invariant
                0 <= i <= self.entries@.len(),
                forall|j: int| 0 <= j < i ==> #[trigger] self.entries@[j].0@ != key@,
            decreases self.entries@.len() - i,
        {
            if self.entries[i].0.eq(key) {
                return Some(i);
            }
            i = i + 1;
        }
        None
    }

    /// Gives `key` the value `value`, in place of any value it had.
    pub fn insert(&mut self, key: String, value: Yaml)
        requires
            tags_named(value@),
        ensures
            final(self)@ == old(self)@.insert(key@, value@),
    {
        proof {
            use_type_invariant(&*self);
            lemma_entries_map(self.entries@);
        }
        let ghost before = self.entries@;
        let found = self.position(&key);
        let mut entries: Vec<(String, Yaml)> = Vec::new();
        std::mem::swap(&mut entries, &mut self.entries);
        match found {
            Some(i) => {
                let ghost k = key@;
                let ghost v = value@;
                entries.set(i, (key, value));
                proof {
                    let after = entries@;
                    assert(names_distinct(after)) by {
                        assert forall|a: int, b: int|
                            0 <= a < after.len() && 0 <= b < after.len() && a != b implies #[trigger] after[a].0@
                            != #[trigger] after[b].0@ by {
                            if a != i {
                                assert(after[a] == before[a]);
                            }
                            if b != i {
                                assert(after[b] == before[b]);
                            }
                        }
                    }
                    lemma_entries_map(after);
                    let expected = entries_map(before).insert(k, v);
                    assert forall|n: Seq<char>|
                        #![trigger entries_map(after).contains_key(n)]
                        entries_map(after).contains_key(n) == expected.contains_key(n) by {
                        if n == k {
                            assert(after[i as int].0@ == n);
                        } else if entries_map(after).contains_key(n) {
                            let j = choose|j: int| 0 <= j < after.len() && after[j].0@ == n;
                            assert(before[j] == after[j]);
                            assert(entries_map(before).contains_key(n));
                        } else if entries_map(before).contains_key(n) {
                            let j = choose|j: int| 0 <= j < before.len() && before[j].0@ == n;
                            assert(before[j] == after[j]);
                            assert(entries_map(after).contains_key(n));
                        }
                    }
                    assert forall|n: Seq<char>| #[trigger]
                        entries_map(after).contains_key(n) implies entries_map(after)[n]
                        == expected[n] by {
                        let j = choose|j: int| 0 <= j < after.len() && after[j].0@ == n;
                        if j != i {
                            assert(before[j] == after[j]);
                        }
                    }
                    assert(entries_map(after) =~= expected);
                }
            },
            None => {
                entries.push((key, value));
                proof {
                    assert(entries@.drop_last() =~= before);
                }
            },
        }
        self.entries = entries;
    }

    /// The value of `key`, if the map holds one.
    pub fn get(&self, key: &str) -> (r: Option<&Yaml>)
        ensures
            match r {
                Some(v) => self@.contains_key(key@) && v@ == self@[key@] && tags_named(v@),
                None => !self@.contains_key(key@),
            },
    {
        proof {
            use_type_invariant(self);
            lemma_entries_map(self.entries@);
        }
        let name = String::from_str(key);
        match self.position(&name) {
            Some(i) => Some(&self.entries[i].1),
            None => None,
        }
    }

    /// A copy of the map, equal to it.
    pub fn deep_clone(&self) -> (r: ValuesMap)
        ensures
            r@ == self@,
    {
        proof {
            use_type_invariant(self);
        }
        let mut entries: Vec<(String, Yaml)> = Vec::new();
        let mut i: usize = 0;
        while i < self.entries.len()
            invariant
                0 <= i <= self.entries@.len(),
                entries@.len() == i,
                names_distinct(self.entries@),
                forall|j: int| 0 <= j < self.entries@.len() ==> tags_named(#[trigger] self.entries@[j].1@),
                forall|j: int|
                    0 <= j < i ==> #[trigger] entries@[j].0@ == self.entries@[j].0@ && entries@[j].1@
                        == self.entries@[j].1@,
            decreases self.entries@.len() - i,
        {
            let name = self.entries[i].0.clone();
            let value = self.entries[i].1.deep_clone();
            entries.push((name, value));
            i = i + 1;
        }
        proof {
            lemma_entries_map(self.entries@);
            assert forall|j: int| 0 <= j < entries@.len() implies tags_named(#[trigger] entries@[j].1@) by {
                assert(entries@[j].0@ == self.entries@[j].0@);
                assert(tags_named(self.entries@[j].1@));
            }
            assert forall|a: int, b: int|
                0 <= a < entries@.len() && 0 <= b < entries@.len() && a != b implies #[trigger] entries@[a].0@
                != #[trigger] entries@[b].0@ by {
                assert(entries@[a].0@ == self.entries@[a].0@);
                assert(entries@[b].0@ == self.entries@[b].0@);
            }
            lemma_entries_map(entries@);
            assert(entries_map(entries@) =~= entries_map(self.entries@)) by {
                assert forall|n: Seq<char>|
                    entries_map(entries@).contains_key(n) <==> entries_map(
                        self.entries@,
                    ).contains_key(n) by {
                    if exists|j: int| 0 <= j < entries@.len() && entries@[j].0@ == n {
                        let j = choose|j: int| 0 <= j < entries@.len() && entries@[j].0@ == n;
                        assert(self.entries@[j].0@ == n);
                    }
                    if exists|j: int| 0 <= j < self.entries@.len() && self.entries@[j].0@ == n {
                        let j = choose|j: int|
                            0 <= j < self.entries@.len() && self.entries@[j].0@ == n;
                        assert(entries@[j].0@ == n);
                    }
                }
                assert forall|n: Seq<char>| #[trigger]
                    entries_map(entries@).contains_key(n) implies entries_map(entries@)[n]
                    == entries_map(self.entries@)[n] by {
                    let j = choose|j: int| 0 <= j < entries@.len() && entries@[j].0@ == n;
                    assert(self.entries@[j].0@ == n);
                }
            }
        }
        ValuesMap { entries }
    }

    /// Gives every name of `other` its value there, in place of any value it had here.
    pub fn extend(&mut self, other: &ValuesMap)
        ensures
            final(self)@ == old(self)@.union_prefer_right(other@),
    {
        proof {
            use_type_invariant(other);
        }
        let ghost start = self@;
        let mut i: usize = 0;
        assert(other.entries@.take(0) =~= Seq::<(String, Yaml)>::empty());
        assert(start.union_prefer_right(Map::empty()) =~= start);
        while i < other.entries.len()
            invariant
                0 <= i <= other.entries@.len(),
                forall|j: int| 0 <= j < other.entries@.len() ==> tags_named(#[trigger] other.entries@[j].1@),
                self@ == start.union_prefer_right(entries_map(other.entries@.take(i as int))),
            decreases other.entries@.len() - i,
        {
            let name = other.entries[i].0.clone();
            let value = other.entries[i].1.deep_clone();
            let ghost before = self@;
            self.insert(name, value);
            proof {
                let taken = other.entries@.take(i + 1);
                assert(taken.drop_last() =~= other.entries@.take(i as int));
                assert(self@ =~= start.union_prefer_right(entries_map(taken)));
            }
            i = i + 1;
        }
        assert(other.entries@.take(other.entries@.len() as int) =~= other.entries@);
    }
}

} // verus!
