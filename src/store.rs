use vstd::prelude::*;

use crate::codec::copy_range;
use crate::frame::text_view;

verus! {

struct Entry {
    key: String,
    value: Vec<u8>,
}

/// The key-value map that all connections share: keys are unique, and each
/// holds one owned byte value.
pub struct Store {
    entries: Vec<Entry>,
    contents: Ghost<Map<Seq<u8>, Seq<u8>>>,
}

impl View for Store {
    type V = Map<Seq<u8>, Seq<u8>>;

    /// Each key, as its UTF-8 bytes, mapped to its value.
    closed spec fn view(&self) -> Map<Seq<u8>, Seq<u8>> {
        self.contents@
    }
}

/// Whether two byte strings are equal.
pub fn bytes_equal(a: &[u8], b: &[u8]) -> (r: bool)
    ensures
        r == (a@ == b@),
{
    if a.len() != b.len() {
        return false;
    }
    let mut i: usize = 0;
    while i < a.len()
        invariant
            a@.len() == b@.len(),
            i <= a@.len(),
            forall|k: int| 0 <= k < i ==> a@[k] == b@[k],
        decreases a@.len() - i,
    {
        if a[i] != b[i] {
            return false;
        }
        i = i + 1;
    }
    assert(a@ =~= b@);
    true
}

spec fn entry_key(e: Entry) -> Seq<u8> {
    text_view(e.key)
}

/// `entries` hold exactly `m`, one entry per key.
spec fn holds_exactly(entries: Seq<Entry>, m: Map<Seq<u8>, Seq<u8>>) -> bool {
    &&& forall|i: int|
        0 <= i < entries.len() ==> m.contains_key(#[trigger] entry_key(entries[i])) && m[entry_key(
            entries[i],
        )] == entries[i].value@
    &&& forall|k: Seq<u8>|
        m.contains_key(k) ==> exists|i: int|
            0 <= i < entries.len() && #[trigger] entry_key(entries[i]) == k
    &&& forall|i: int, j: int|
        0 <= i < j < entries.len() ==> entry_key(entries[i]) != entry_key(entries[j])
}

impl Store {
    #[verifier::type_invariant]
    spec fn wf(&self) -> bool {
        holds_exactly(self.entries@, self.contents@)
    }

    pub fn new() -> (r: Self)
        ensures
            r@ == Map::<Seq<u8>, Seq<u8>>::empty(),
    {
        Store { entries: Vec::new(), contents: Ghost(Map::empty()) }
    }

    fn find(&self, key: &[u8]) -> (r: Option<usize>)
        ensures
            match r {
                Some(i) => i < self.entries@.len() && entry_key(self.entries@[i as int]) == key@,
                None => !self@.contains_key(key@),
            },
    {
        proof {
            use_type_invariant(self);
        }
        let mut i: usize = 0;
        while i < self.entries.len()
            invariant
                holds_exactly(self.entries@, self.contents@),
                i <= self.entries@.len(),
                forall|k: int| 0 <= k < i ==> #[trigger] entry_key(self.entries@[k]) != key@,
            decreases self.entries@.len() - i,
        {
            if bytes_equal(self.entries[i].key.as_str().as_bytes(), key) {
                return Some(i);
            }
            i = i + 1;
        }
        None
    }

    /// The value stored under `key`, if any.
    pub fn get(&self, key: &String) -> (r: Option<Vec<u8>>)
        ensures
            match r {
                Some(v) => self@.contains_key(text_view(*key)) && v@ == self@[text_view(*key)],
                None => !self@.contains_key(text_view(*key)),
            },
    {
        proof {
            use_type_invariant(self);
        }
        match self.find(key.as_str().as_bytes()) {
            Some(i) => {
                let stored = self.entries[i].value.as_slice();
                let v = copy_range(stored, 0, stored.len());
                assert(v@ =~= self.entries@[i as int].value@);
                Some(v)
            },
            None => None,
        }
    }

    /// Stores `value` under `key`, replacing any earlier value.
    pub fn set(&mut self, key: String, value: Vec<u8>)
        ensures
            final(self)@ == old(self)@.insert(text_view(key), value@),
    {
        proof {
            use_type_invariant(&*self);
        }
        let ghost k = text_view(key);
        let ghost v = value@;
        let found = self.find(key.as_str().as_bytes());
        let mut taken = Store::new();
        std::mem::swap(self, &mut taken);
        proof {
            use_type_invariant(&taken);
        }
        let Store { mut entries, contents } = taken;
        let ghost before = entries@;
        let ghost m = contents@;
        let ghost m2 = m.insert(k, v);
        match found {
            Some(i) => {
                entries.set(i, Entry { key, value });
                assert forall|j: int| 0 <= j < entries@.len() && j != i implies #[trigger] entries@[j]
                    == before[j] by {}
                assert forall|j: int| 0 <= j < entries@.len() implies m2.contains_key(
                    #[trigger] entry_key(entries@[j]),
                ) && m2[entry_key(entries@[j])] == entries@[j].value@ by {
                    if j != i {
                        assert(entry_key(before[j]) != entry_key(before[i as int]));
                    }
                }
                assert forall|k2: Seq<u8>| m2.contains_key(k2) implies exists|j: int|
                    0 <= j < entries@.len() && #[trigger] entry_key(entries@[j]) == k2 by {
                    if k2 != k {
                        let j = choose|j: int|
                            0 <= j < before.len() && #[trigger] entry_key(before[j]) == k2;
                        assert(entry_key(entries@[j]) == k2);
                    } else {
                        assert(entry_key(entries@[i as int]) == k2);
                    }
                }
                assert forall|a: int, b: int| 0 <= a < b < entries@.len() implies entry_key(
                    entries@[a],
                ) != entry_key(entries@[b]) by {
                    assert(entry_key(before[a]) == entry_key(entries@[a]));
                    assert(entry_key(before[b]) == entry_key(entries@[b]));
                }
            },
            None => {
                entries.push(Entry { key, value });
                let ghost n = (entries@.len() - 1) as int;
                assert(entry_key(entries@[n]) == k);
                assert forall|j: int| 0 <= j < entries@.len() implies m2.contains_key(
                    #[trigger] entry_key(entries@[j]),
                ) && m2[entry_key(entries@[j])] == entries@[j].value@ by {
                    if j != n {
                        assert(entries@[j] == before[j]);
                        assert(m.contains_key(entry_key(before[j])));
                    }
                }
                assert forall|k2: Seq<u8>| m2.contains_key(k2) implies exists|j: int|
                    0 <= j < entries@.len() && #[trigger] entry_key(entries@[j]) == k2 by {
                    if k2 != k {
                        let j = choose|j: int|
                            0 <= j < before.len() && #[trigger] entry_key(before[j]) == k2;
                        assert(entries@[j] == before[j]);
                    } else {
                        assert(entry_key(entries@[n]) == k2);
                    }
                }
                assert forall|a: int, b: int| 0 <= a < b < entries@.len() implies entry_key(
                    entries@[a],
                ) != entry_key(entries@[b]) by {
                    assert(entries@[a] == before[a]);
                    if b == n {
                        assert(m.contains_key(entry_key(before[a])));
                    } else {
                        assert(entries@[b] == before[b]);
                    }
                }
            },
        }
        *self = Store { entries, contents: Ghost(m2) };
    }
}

} // verus!
