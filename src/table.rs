use vstd::prelude::*;
use std::collections::HashMap;
use diff::Diff;

verus! {

/// A table of environment variables: each key appears at most once.
///
/// Its view is the mapping from key to value.
pub struct EnvTable {
    entries: Vec<(String, String)>,
    contents: Ghost<Map<Seq<char>, Seq<char>>>,
}

impl View for EnvTable {
    type V = Map<Seq<char>, Seq<char>>;

    closed spec fn view(&self) -> Map<Seq<char>, Seq<char>> {
        self.contents@
    }
}

/// The pairs of `s` hold distinct keys and list exactly the mapping `m`.
pub open spec fn lists_map(s: Seq<(String, String)>, m: Map<Seq<char>, Seq<char>>) -> bool {
    &&& forall|i: int, j: int|
        0 <= i < j < s.len() ==> (#[trigger] s[i]).0@ != (#[trigger] s[j]).0@
    &&& forall|i: int|
        0 <= i < s.len() ==> m.contains_key((#[trigger] s[i]).0@) && m[s[i].0@] == s[i].1@
    &&& forall|k: Seq<char>|
        #[trigger] m.contains_key(k) ==> exists|i: int| 0 <= i < s.len() && (#[trigger] s[i]).0@ == k
}

impl EnvTable {
    /// The table is well formed: its pairs list its view.
    pub closed spec fn wf(&self) -> bool {
        lists_map(self.entries@, self.contents@)
    }

    /// An empty table.
    pub fn new() -> (r: EnvTable)
        ensures
            r.wf(),
            r@ == Map::<Seq<char>, Seq<char>>::empty(),
    {
        EnvTable { entries: Vec::new(), contents: Ghost(Map::empty()) }
    }

    /// A copy of the table.
    pub fn duplicate(&self) -> (r: EnvTable)
        requires
            self.wf(),
        ensures
            r.wf(),
            r@ == self@,
    {
        let mut entries: Vec<(String, String)> = Vec::new();
        let mut i: usize = 0;
        while i < self.entries.len()
            invariant
                i <= self.entries@.len(),
                entries@.len() == i,
                forall|j: int|
                    0 <= j < i ==> (#[trigger] entries@[j]).0@ == self.entries@[j].0@
                        && entries@[j].1@ == self.entries@[j].1@,
            decreases self.entries@.len() - i,
        {
            let (k, v) = &self.entries[i];
            entries.push((k.clone(), v.clone()));
            i = i + 1;
        }
        let r = EnvTable { entries, contents: Ghost(self.contents@) };
        proof {
            let s = r.entries@;
            let o = self.entries@;
            assert forall|a: int, b: int|
                0 <= a < b < s.len() implies (#[trigger] s[a]).0@ != (#[trigger] s[b]).0@ by {
                assert(o[a].0@ != o[b].0@);
            }
            assert forall|j: int| 0 <= j < s.len() implies r.contents@.contains_key(
                (#[trigger] s[j]).0@,
            ) && r.contents@[s[j].0@] == s[j].1@ by {
                assert(o[j].0@ == s[j].0@);
            }
            assert forall|k: Seq<char>| #[trigger] r.contents@.contains_key(k) implies exists|j: int|
                0 <= j < s.len() && (#[trigger] s[j]).0@ == k by {
                let j = choose|j: int| 0 <= j < o.len() && (#[trigger] o[j]).0@ == k;
                assert(s[j].0@ == k);
            }
        }
        r
    }

    /// The pairs of the table, each key once, in no particular order.
    pub fn pairs(&self) -> (r: &Vec<(String, String)>)
        requires
            self.wf(),
        ensures
            lists_map(r@, self@),
    {
        &self.entries
    }

    /// The position of `key` among the pairs, if it is there.
    fn position(&self, key: &String) -> (r: Option<usize>)
        requires
            self.wf(),
        ensures
            r is None <==> !self@.contains_key(key@),
            r matches Some(i) ==> i < self.entries@.len() && self.entries@[i as int].0@ == key@,
    {
        let mut i: usize = 0;
        while i < self.entries.len()
            invariant
                self.wf(),
                i <= self.entries@.len(),
                forall|j: int| 0 <= j < i ==> (#[trigger] self.entries@[j]).0@ != key@,
            decreases self.entries@.len() - i,
        {
            if self.entries[i].0 == *key {
                return Some(i);
            }
            i = i + 1;
        }
        None
    }

    /// The value stored under `key`.
    pub fn get(&self, key: &String) -> (r: Option<&String>)
        requires
            self.wf(),
        ensures
            r is Some <==> self@.contains_key(key@),
            r matches Some(v) ==> v@ == self@[key@],
    {
        match self.position(key) {
            Some(i) => Some(&self.entries[i].1),
            None => None,
        }
    }

    /// The number of keys in the table.
    pub fn len(&self) -> (r: usize)
        requires
            self.wf(),
        ensures
            r == self@.len(),
    {
        proof {
            let keys = self.entries@.map_values(|p: (String, String)| p.0@);
            assert(keys.no_duplicates()) by {
                assert forall|i: int, j: int|
                    0 <= i < keys.len() && 0 <= j < keys.len() && i != j implies keys[i]
                    != keys[j] by {
                    if i < j {
                        assert(self.entries@[i].0@ != self.entries@[j].0@);
                    } else {
                        assert(self.entries@[j].0@ != self.entries@[i].0@);
                    }
                }
            }
            keys.unique_seq_to_set();
            assert(keys.to_set() =~= self@.dom()) by {
                assert forall|k: Seq<char>| self@.dom().contains(k) implies keys.to_set().contains(
                    k,
                ) by {
                    let i = choose|i: int|
                        0 <= i < self.entries@.len() && (#[trigger] self.entries@[i]).0@ == k;
                    assert(keys[i] == k);
                }
                assert forall|k: Seq<char>| keys.to_set().contains(k) implies self@.dom().contains(
                    k,
                ) by {
                    let i = choose|i: int| 0 <= i < keys.len() && keys[i] == k;
                    assert(self.entries@[i].0@ == k);
                }
            }
        }
        self.entries.len()
    }

    /// Stores `value` under `key`, replacing what was there.
    pub fn insert(&mut self, key: String, value: String)
        requires
            old(self).wf(),
        ensures
            final(self).wf(),
            final(self)@ == old(self)@.insert(key@, value@),
    {
        let ghost m = self.contents@.insert(key@, value@);
        let ghost k0 = key@;
        let ghost v0 = value@;
        let ghost o = self.entries@;
        let ghost idx: int;
        match self.position(&key) {
            Some(i) => {
                self.entries.set(i, (key, value));
                proof {
                    idx = i as int;
                }
            },
            None => {
                proof {
                    idx = o.len() as int;
                }
                self.entries.push((key, value));
            },
        }
        self.contents = Ghost(m);
        proof {
            let s = self.entries@;
            assert(s[idx].0@ == k0 && s[idx].1@ == v0);
            assert forall|j: int| 0 <= j < s.len() && j != idx implies #[trigger] s[j] == o[j] by {}
            assert forall|a: int, b: int|
                0 <= a < b < s.len() implies (#[trigger] s[a]).0@ != (#[trigger] s[b]).0@ by {
                if a != idx && b != idx {
                    assert(o[a].0@ != o[b].0@);
                }
            }
            assert forall|j: int| 0 <= j < s.len() implies m.contains_key((#[trigger] s[j]).0@)
                && m[s[j].0@] == s[j].1@ by {
                if j != idx {
                    assert(o[j].0@ == s[j].0@);
                }
            }
            assert forall|k: Seq<char>| #[trigger] m.contains_key(k) implies exists|i: int|
                0 <= i < s.len() && (#[trigger] s[i]).0@ == k by {
                if k != k0 {
                    let i = choose|i: int| 0 <= i < o.len() && (#[trigger] o[i]).0@ == k;
                    assert(s[i].0@ == k);
                } else {
                    assert(s[idx].0@ == k);
                }
            }
        }
    }

    /// Takes `key` out of the table; nothing happens where it is absent.
    pub fn remove(&mut self, key: &String) -> (r: Option<String>)
        requires
            old(self).wf(),
        ensures
            final(self).wf(),
            final(self)@ == old(self)@.remove(key@),
            r is Some <==> old(self)@.contains_key(key@),
            r matches Some(v) ==> v@ == old(self)@[key@],
    {
        match self.position(key) {
            Some(i) => {
                let ghost m = self.contents@.remove(key@);
                let (_, v) = self.entries.remove(i);
                self.contents = Ghost(m);
                proof {
                    let o = old(self).entries@;
                    let s = self.entries@;
                    assert forall|j: int| 0 <= j < s.len() implies #[trigger] s[j] == (if j < i {
                        o[j]
                    } else {
                        o[j + 1]
                    }) by {}
                    assert forall|a: int, b: int|
                        0 <= a < b < s.len() implies (#[trigger] s[a]).0@ != (#[trigger] s[b]).0@ by {
                        let a2 = if a < i { a } else { a + 1 };
                        let b2 = if b < i { b } else { b + 1 };
                        assert(o[a2].0@ != o[b2].0@);
                    }
                    assert forall|j: int| 0 <= j < s.len() implies m.contains_key(
                        (#[trigger] s[j]).0@,
                    ) && m[s[j].0@] == s[j].1@ by {
                        let j2 = if j < i { j } else { j + 1 };
                        assert(o[j2].0@ != o[i as int].0@);
                    }
                    assert forall|k: Seq<char>| #[trigger] m.contains_key(k) implies exists|j: int|
                        0 <= j < s.len() && (#[trigger] s[j]).0@ == k by {
                        let j = choose|j: int| 0 <= j < o.len() && (#[trigger] o[j]).0@ == k;
                        if j < i {
                            assert(s[j].0@ == k);
                        } else {
                            assert(s[j - 1].0@ == k);
                        }
                    }
                }
                Some(v)
            },
            None => {
                proof {
                    assert(self@.remove(key@) =~= self@);
                }
                None
            },
        }
    }
}

/// The value that a string-valued entry of a map difference stands for:
/// `None` is the empty string.
pub open spec fn altered_value(r: Option<String>) -> Seq<char> {
    match r {
        Some(v) => v@,
        None => Seq::empty(),
    }
}

/// Relies on `diff::Diff::diff` for `HashMap<String, String>` (crate
/// diff-struct): `removed` holds each key of `a` missing from `b`; `altered`
/// holds each key of `b` missing from `a` or holding another value, with
/// `Some` of the value of `b`, or `None` where a new key's value is empty.
/// Keys appear once in each, as they come from a `HashSet` and a `HashMap`.
#[verifier::external_body]
pub(crate) fn table_diff(a: &EnvTable, b: &EnvTable) -> (r: (Vec<String>, Vec<(String, Option<String>)>))
    requires
        a.wf(),
        b.wf(),
    ensures
        forall|i: int, j: int|
            0 <= i < j < r.0@.len() ==> (#[trigger] r.0@[i])@ != (#[trigger] r.0@[j])@,
        forall|i: int|
            0 <= i < r.0@.len() ==> a@.contains_key((#[trigger] r.0@[i])@) && !b@.contains_key(
                r.0@[i]@,
            ),
        forall|k: Seq<char>|
            a@.contains_key(k) && !b@.contains_key(k) ==> exists|i: int|
                0 <= i < r.0@.len() && (#[trigger] r.0@[i])@ == k,
        forall|i: int, j: int|
            0 <= i < j < r.1@.len() ==> (#[trigger] r.1@[i]).0@ != (#[trigger] r.1@[j]).0@,
        forall|i: int|
            0 <= i < r.1@.len() ==> {
                let k = (#[trigger] r.1@[i]).0@;
                &&& b@.contains_key(k)
                &&& !a@.contains_key(k) || a@[k] != b@[k]
                &&& altered_value(r.1@[i].1) == b@[k]
            },
        forall|k: Seq<char>|
            b@.contains_key(k) && (!a@.contains_key(k) || a@[k] != b@[k]) ==> exists|i: int|
                0 <= i < r.1@.len() && (#[trigger] r.1@[i]).0@ == k,
{
    let old: HashMap<String, String> = a.entries.iter().cloned().collect();
    let new: HashMap<String, String> = b.entries.iter().cloned().collect();
    let d = old.diff(&new);
    (d.removed.into_iter().collect(), d.altered.into_iter().collect())
}

} // verus!
