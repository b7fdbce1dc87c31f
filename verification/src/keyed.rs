//! A map from string keys to values, kept as a list of entries with distinct
//! keys, whose contents the contracts can state.

use vstd::prelude::*;

verus! {

/// The abstract value of a list of (key, value) entries with distinct keys.
pub open spec fn to_map<T>(s: Seq<(String, T)>) -> Map<Seq<char>, T>
    decreases s.len(),
{
    if s.len() == 0 {
        Map::empty()
    } else {
        to_map(s.drop_last()).insert(s.last().0@, s.last().1)
    }
}

/// No key occurs twice.
pub open spec fn unique_keys<T>(s: Seq<(String, T)>) -> bool {
    forall|i: int, j: int| 0 <= i < j < s.len() ==> (#[trigger] s[i]).0@ != (#[trigger] s[j]).0@
}

/// The keys present, and the value under each.
pub proof fn lemma_to_map<T>(s: Seq<(String, T)>)
    requires
        unique_keys(s),
    ensures
        to_map(s).dom().finite(),
        to_map(s).len() == s.len(),
        forall|k: Seq<char>| #[trigger] to_map(s).contains_key(k) <==> exists|i: int| 0 <= i < s.len() && (#[trigger] s[i]).0@ == k,
        forall|i: int| 0 <= i < s.len() ==> #[trigger] to_map(s)[s[i].0@] == s[i].1,
    decreases s.len(),
{
    if s.len() > 0 {
        let t = s.drop_last();
        assert(unique_keys(t)) by {
            assert forall|i: int, j: int| 0 <= i < j < t.len() implies (#[trigger] t[i]).0@ != (#[trigger] t[j]).0@ by {
                assert(t[i] == s[i] && t[j] == s[j]);
            }
        }
        lemma_to_map(t);
        let last = s.last();
        assert(!to_map(t).contains_key(last.0@)) by {
            if to_map(t).contains_key(last.0@) {
                let i = choose|i: int| 0 <= i < t.len() && (#[trigger] t[i]).0@ == last.0@;
                assert(s[i] == t[i]);
                assert(s[s.len() - 1] == last);
            }
        }
        assert forall|k: Seq<char>| #[trigger] to_map(s).contains_key(k) <==> exists|i: int| 0 <= i < s.len() && (#[trigger] s[i]).0@ == k by {
            if to_map(s).contains_key(k) && k != last.0@ {
                let i = choose|i: int| 0 <= i < t.len() && (#[trigger] t[i]).0@ == k;
                assert(s[i] == t[i]);
            }
            if exists|i: int| 0 <= i < s.len() && (#[trigger] s[i]).0@ == k {
                let i = choose|i: int| 0 <= i < s.len() && (#[trigger] s[i]).0@ == k;
                if i < s.len() - 1 {
                    assert(t[i] == s[i]);
                }
            }
        }
        assert forall|i: int| 0 <= i < s.len() implies #[trigger] to_map(s)[s[i].0@] == s[i].1 by {
            if i < s.len() - 1 {
                assert(t[i] == s[i]);
                assert(s[i].0@ != s[s.len() - 1].0@);
            }
        }
    }
}

/// Replacing the value of an existing key.
pub proof fn lemma_to_map_update<T>(s: Seq<(String, T)>, i: int, e: (String, T))
    requires
        unique_keys(s),
        0 <= i < s.len(),
        s[i].0@ == e.0@,
    ensures
        unique_keys(s.update(i, e)),
        to_map(s.update(i, e)) == to_map(s).insert(e.0@, e.1),
{
    let u = s.update(i, e);
    assert(unique_keys(u)) by {
        assert forall|a: int, b: int| 0 <= a < b < u.len() implies (#[trigger] u[a]).0@ != (#[trigger] u[b]).0@ by {
            assert(s[a].0@ != s[b].0@);
        }
    }
    lemma_to_map(s);
    lemma_to_map(u);
    assert forall|k: Seq<char>| #[trigger] to_map(u).contains_key(k) <==> to_map(s).insert(e.0@, e.1).contains_key(k) by {
        if to_map(u).contains_key(k) {
            let j = choose|j: int| 0 <= j < u.len() && (#[trigger] u[j]).0@ == k;
            if j != i {
                assert(s[j] == u[j]);
            }
        }
        if to_map(s).contains_key(k) {
            let j = choose|j: int| 0 <= j < s.len() && (#[trigger] s[j]).0@ == k;
            if j != i {
                assert(s[j] == u[j]);
            } else {
                assert(u[i] == e);
            }
        }
        if k == e.0@ {
            assert(u[i] == e);
        }
    }
    assert forall|k: Seq<char>| #[trigger] to_map(u).contains_key(k) implies to_map(u)[k] == to_map(s).insert(e.0@, e.1)[k] by {
        let j = choose|j: int| 0 <= j < u.len() && (#[trigger] u[j]).0@ == k;
        if j != i {
            assert(s[j] == u[j]);
        } else {
            assert(u[i] == e);
        }
    }
    assert(to_map(u) =~= to_map(s).insert(e.0@, e.1));
}

/// A map from string keys to values: entries with distinct keys, looked up by key.
///
/// vstd states what a `HashMap` holds only for key types with its key model,
/// which it gives to integer keys and not to `String`; with a
/// `HashMap<String, _>` no contract could say what an insert stores. This list
/// of entries with distinct keys behaves as such a map, and its contents can
/// be stated.
#[derive(Debug)]
pub struct Keyed<T> {
    entries: Vec<(String, T)>,
}

impl<T> Keyed<T> {
    /// The entries, in the order in which their keys first arrived.
    pub closed spec fn entries(&self) -> Seq<(String, T)> {
        self.entries@
    }

    /// The value under each key.
    pub open spec fn view(&self) -> Map<Seq<char>, T> {
        to_map(self.entries())
    }

    /// No key occurs twice among the entries.
    pub open spec fn wf(&self) -> bool {
        unique_keys(self.entries())
    }

    /// An empty collection.
    pub fn new() -> (r: Keyed<T>)
        ensures
            r.wf(),
            r.entries() == Seq::<(String, T)>::empty(),
            r.view() == Map::<Seq<char>, T>::empty(),
    {
        Keyed { entries: Vec::new() }
    }

    /// The number of keys.
    pub fn len(&self) -> (n: usize)
        requires
            self.wf(),
        ensures
            n == self.view().len(),
            n == self.entries().len(),
    {
        proof {
            lemma_to_map(self.entries@);
        }
        self.entries.len()
    }

    /// Stores `value` under `key`, replacing what was there.
    pub fn insert(&mut self, key: String, value: T)
        requires
            old(self).wf(),
        ensures
            final(self).wf(),
            final(self).view() == old(self).view().insert(key@, value),
    {
        let mut i: usize = 0;
        while i < self.entries.len()
            invariant
                i <= self.entries@.len(),
                forall|j: int| 0 <= j < i ==> (#[trigger] self.entries@[j]).0@ != key@,
                self.entries@ == old(self).entries@,
                unique_keys(self.entries@),
            decreases self.entries@.len() - i,
        {
            if self.entries[i].0 == key {
                proof {
                    lemma_to_map_update(self.entries@, i as int, (key, value));
                }
                self.entries.set(i, (key, value));
                return ;
            }
            i = i + 1;
        }
        let ghost old_entries = self.entries@;
        self.entries.push((key, value));
        proof {
            assert(self.entries@.drop_last() =~= old_entries);
            assert forall|a: int, b: int| 0 <= a < b < self.entries@.len() implies (#[trigger] self.entries@[a]).0@ != (#[trigger] self.entries@[b]).0@ by {
                if b == self.entries@.len() - 1 {
                    assert(old_entries[a] == self.entries@[a]);
                } else {
                    assert(old_entries[a] == self.entries@[a]);
                    assert(old_entries[b] == self.entries@[b]);
                }
            }
        }
    }

    /// The value under `key`.
    pub fn get(&self, key: &str) -> (r: Option<&T>)
        requires
            self.wf(),
        ensures
            match r {
                Some(v) => self.view().contains_key(key@) && *v == self.view()[key@],
                None => !self.view().contains_key(key@),
            },
    {
        let k = key.to_owned();
        let mut i: usize = 0;
        while i < self.entries.len()
            invariant
                i <= self.entries@.len(),
                k@ == key@,
                unique_keys(self.entries@),
                forall|j: int| 0 <= j < i ==> (#[trigger] self.entries@[j]).0@ != key@,
            decreases self.entries@.len() - i,
        {
            if self.entries[i].0 == k {
                proof {
                    lemma_to_map(self.entries@);
                }
                return Some(&self.entries[i].1);
            }
            i = i + 1;
        }
        proof {
            lemma_to_map(self.entries@);
        }
        None
    }

    /// Removes every entry.
    pub fn clear(&mut self)
        ensures
            final(self).wf(),
            final(self).entries() == Seq::<(String, T)>::empty(),
            final(self).view() == Map::<Seq<char>, T>::empty(),
    {
        self.entries.clear();
    }

    /// The entries, in order.
    pub fn as_vec(&self) -> (r: &Vec<(String, T)>)
        ensures
            r@ == self.entries(),
    {
        &self.entries
    }
}

impl<T> Default for Keyed<T> {
    /// An empty collection.
    fn default() -> (r: Keyed<T>)
        ensures
            r.wf(),
            r.entries() == Seq::<(String, T)>::empty(),
            r.view() == Map::<Seq<char>, T>::empty(),
    {
        Keyed::new()
    }
}

impl Clone for Keyed<String> {
    /// A copy with the same entries in the same order.
    fn clone(&self) -> (r: Keyed<String>)
        ensures
            r.entries() == self.entries(),
    {
        let mut entries: Vec<(String, String)> = Vec::new();
        let mut i: usize = 0;
        while i < self.entries.len()
            invariant
                i <= self.entries@.len(),
                entries@ == self.entries@.subrange(0, i as int),
            decreases self.entries@.len() - i,
        {
            let k = self.entries[i].0.clone();
            let v = self.entries[i].1.clone();
            entries.push((k, v));
            assert(entries@ =~= self.entries@.subrange(0, i + 1));
            i = i + 1;
        }
        assert(self.entries@.subrange(0, self.entries@.len() as int) =~= self.entries@);
        Keyed { entries }
    }
}

} // verus!
