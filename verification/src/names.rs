//! A map from names to values that keeps its entries in the order in which their names first
//! appeared.
use vstd::prelude::*;

use crate::text::same;

verus! {

/// The place of the first entry that carries the name, or the number of entries if none does.
pub open spec fn slot<W>(s: Seq<(Seq<char>, W)>, key: Seq<char>) -> int
    decreases s.len(),
{
    if s.len() == 0 || s[0].0 == key {
        0
    } else {
        1 + slot(s.drop_first(), key)
    }
}

/// Whether some entry carries the name.
pub open spec fn has_name<W>(s: Seq<(Seq<char>, W)>, key: Seq<char>) -> bool {
    slot(s, key) < s.len()
}

/// The value stored under the name, if there is one.
pub open spec fn lookup<W>(s: Seq<(Seq<char>, W)>, key: Seq<char>) -> Option<W> {
    if has_name(s, key) {
        Some(s[slot(s, key)].1)
    } else {
        None
    }
}

/// The entries after `value` was stored under `key`: an entry of that name keeps its place and
/// takes the new value, a new name goes to the end.
pub open spec fn put<W>(s: Seq<(Seq<char>, W)>, key: Seq<char>, value: W) -> Seq<(Seq<char>, W)> {
    if has_name(s, key) {
        s.update(slot(s, key), (key, value))
    } else {
        s.push((key, value))
    }
}

/// No name occurs twice.
pub open spec fn distinct<W>(s: Seq<(Seq<char>, W)>) -> bool {
    forall|i: int, j: int| 0 <= i < j < s.len() ==> (#[trigger] s[i]).0 != (#[trigger] s[j]).0
}

/// The slot of a name carries it, and no entry before it does.
pub proof fn lemma_slot<W>(s: Seq<(Seq<char>, W)>, key: Seq<char>)
    ensures
        0 <= slot(s, key) <= s.len(),
        slot(s, key) < s.len() ==> s[slot(s, key)].0 == key,
        forall|i: int| 0 <= i < slot(s, key) ==> (#[trigger] s[i]).0 != key,
    decreases s.len(),
{
    if s.len() > 0 && s[0].0 != key {
        let t = s.drop_first();
        lemma_slot(t, key);
        assert forall|i: int| 0 <= i < slot(s, key) implies (#[trigger] s[i]).0 != key by {
            if i > 0 {
                assert(s[i] == t[i - 1]);
            }
        }
    }
}

/// An entry with the name, behind entries without it, is the slot of the name.
pub proof fn lemma_slot_is<W>(s: Seq<(Seq<char>, W)>, key: Seq<char>, i: int)
    requires
        0 <= i <= s.len(),
        i < s.len() ==> s[i].0 == key,
        forall|k: int| 0 <= k < i ==> (#[trigger] s[k]).0 != key,
    ensures
        slot(s, key) == i,
{
    lemma_slot(s, key);
    if slot(s, key) < i {
        assert(s[slot(s, key)].0 != key);
    }
    if i < slot(s, key) {
        assert(s[i].0 != key);
    }
}

/// Where no name occurs twice, the lookup of an entry's name gives that entry's value.
pub proof fn lemma_lookup_entry<W>(s: Seq<(Seq<char>, W)>, i: int)
    requires
        distinct(s),
        0 <= i < s.len(),
    ensures
        slot(s, s[i].0) == i,
        lookup(s, s[i].0) == Some(s[i].1),
{
    lemma_slot_is(s, s[i].0, i);
}

/// Where the names stay in their places they stay distinct.
pub proof fn lemma_same_names<W>(s: Seq<(Seq<char>, W)>, t: Seq<(Seq<char>, W)>)
    requires
        s.len() == t.len(),
        forall|i: int| 0 <= i < s.len() ==> (#[trigger] s[i]).0 == t[i].0,
    ensures
        distinct(s) ==> distinct(t),
{
    if distinct(s) {
        assert forall|i: int, j: int| 0 <= i < j < t.len() implies (#[trigger] t[i]).0 != (
        #[trigger] t[j]).0 by {
            assert(s[i].0 != s[j].0);
        }
    }
}

/// Storing a value keeps the names distinct.
pub proof fn lemma_put_distinct<W>(s: Seq<(Seq<char>, W)>, key: Seq<char>, value: W)
    ensures
        distinct(s) ==> distinct(put(s, key, value)),
{
    let t = put(s, key, value);
    lemma_slot(s, key);
    if distinct(s) {
        assert forall|i: int, j: int| 0 <= i < j < t.len() implies (#[trigger] t[i]).0 != (
        #[trigger] t[j]).0 by {
            if has_name(s, key) {
                assert(t[i].0 == s[i].0 && t[j].0 == s[j].0);
            } else {
                assert(t[i] == s[i]);
                if j < s.len() {
                    assert(t[j] == s[j]);
                }
            }
        }
    }
}

/// A stored value is what the next lookup of its name gives, and no other name is affected.
pub proof fn lemma_lookup_put<W>(s: Seq<(Seq<char>, W)>, key: Seq<char>, value: W, other: Seq<char>)
    ensures
        lookup(put(s, key, value), other) == (if other == key {
            Some(value)
        } else {
            lookup(s, other)
        }),
{
    let t = put(s, key, value);
    lemma_slot(s, key);
    lemma_slot(s, other);
    assert forall|k: int| 0 <= k < slot(s, other) implies (#[trigger] t[k]).0 == s[k].0 by {}
    if other == key {
        lemma_slot_is(t, other, slot(s, key));
    } else if has_name(s, other) {
        lemma_slot_is(t, other, slot(s, other));
    } else {
        lemma_slot_is(t, other, t.len() as int);
    }
}

/// Dropping the entry of a name keeps the names distinct and the other values, and the name is gone.
pub proof fn lemma_removed<W>(s: Seq<(Seq<char>, W)>, key: Seq<char>)
    requires
        distinct(s),
        has_name(s, key),
    ensures
        distinct(s.remove(slot(s, key))),
        !has_name(s.remove(slot(s, key)), key),
        forall|other: Seq<char>|
            other != key ==> #[trigger] lookup(s.remove(slot(s, key)), other) == lookup(s, other),
{
    let k = slot(s, key);
    let t = s.remove(k);
    lemma_slot(s, key);
    assert forall|i: int| 0 <= i < t.len() implies #[trigger] t[i] == s[if i < k {
        i
    } else {
        i + 1
    }] by {}
    assert forall|i: int| 0 <= i < t.len() implies (#[trigger] t[i]).0 != key by {
        assert(s[k].0 == key);
        if i >= k {
            assert(s[k].0 != s[i + 1].0);
        }
    }
    lemma_slot_is(t, key, t.len() as int);
    assert forall|other: Seq<char>| other != key implies #[trigger] lookup(t, other) == lookup(
        s,
        other,
    ) by {
        let j = slot(s, other);
        lemma_slot(s, other);
        lemma_slot_is(
            t,
            other,
            if j <= k {
                j
            } else {
                j - 1
            },
        );
    }
}

/// A map from names to values, in the order in which the names were first stored.
#[derive(Debug)]
pub struct NameMap<V> {
    pub entries: Vec<(String, V)>,
}

impl<V> View for NameMap<V> {
    type V = Seq<(Seq<char>, V)>;

    open spec fn view(&self) -> Seq<(Seq<char>, V)> {
        self.entries@.map_values(|e: (String, V)| (e.0@, e.1))
    }
}

impl<V> NameMap<V> {
    /// No name occurs twice.
    pub open spec fn wf(&self) -> bool {
        distinct(self@)
    }

    /// The empty map.
    pub fn new() -> (r: Self)
        ensures
            r@ == Seq::<(Seq<char>, V)>::empty(),
            r.wf(),
    {
        let r = NameMap { entries: Vec::new() };
        assert(r@ =~= Seq::<(Seq<char>, V)>::empty());
        r
    }

    /// The place of the first entry that carries the name.
    pub fn position(&self, key: &str) -> (r: Option<usize>)
        ensures
            match r {
                Some(i) => has_name(self@, key@) && i == slot(self@, key@),
                None => !has_name(self@, key@),
            },
    {
        let n: usize = self.entries.len();
        let mut i: usize = 0;
        while i < n
            invariant
                i <= n,
                n == self.entries@.len(),
                forall|k: int| 0 <= k < i ==> (#[trigger] self@[k]).0 != key@,
            decreases n - i,
        {
            if same(self.entries[i].0.as_str(), key) {
                proof {
                    lemma_slot_is(self@, key@, i as int);
                }
                return Some(i);
            }
            assert(self@[i as int].0 == self.entries@[i as int].0@);
            i += 1;
        }
        proof {
            lemma_slot_is(self@, key@, n as int);
        }
        None
    }

    /// The value stored under a name.
    pub fn get(&self, key: &str) -> (r: Option<&V>)
        ensures
            match r {
                Some(v) => lookup(self@, key@) == Some(*v),
                None => lookup(self@, key@) is None,
            },
    {
        match self.position(key) {
            Some(i) => {
                proof {
                    lemma_slot(self@, key@);
                }
                Some(&self.entries[i].1)
            },
            None => None,
        }
    }

    /// Stores a value under a name.
    pub fn insert(&mut self, key: String, value: V)
        ensures
            final(self)@ == put(old(self)@, key@, value),
            old(self).wf() ==> final(self).wf(),
    {
        let ghost before = self@;
        let ghost k = key@;
        proof {
            lemma_slot(self@, key@);
            lemma_put_distinct(self@, key@, value);
        }
        match self.position(key.as_str()) {
            Some(i) => {
                self.entries.set(i, (key, value));
                assert(self@ =~= put(before, k, value));
            },
            None => {
                self.entries.push((key, value));
                assert(self@ =~= put(before, k, value));
            },
        }
    }

    /// Takes the value stored under a name out of the map.
    pub fn remove(&mut self, key: &str) -> (r: Option<V>)
        ensures
            r == lookup(old(self)@, key@),
            final(self)@ == (if has_name(old(self)@, key@) {
                old(self)@.remove(slot(old(self)@, key@))
            } else {
                old(self)@
            }),
            old(self).wf() ==> {
                &&& final(self).wf()
                &&& !has_name(final(self)@, key@)
                &&& forall|other: Seq<char>|
                    other != key@ ==> #[trigger] lookup(final(self)@, other) == lookup(
                        old(self)@,
                        other,
                    )
            },
    {
        let ghost before = self@;
        proof {
            lemma_slot(self@, key@);
            if distinct(self@) && has_name(self@, key@) {
                lemma_removed(self@, key@);
            }
        }
        match self.position(key) {
            Some(i) => {
                let (_, value) = self.entries.remove(i);
                assert(self@ =~= before.remove(i as int));
                Some(value)
            },
            None => None,
        }
    }
}

} // verus!
