//! Descriptors by node identifier.

use crate::bytes::arr_eq;
use crate::identity::Descriptor;
use crate::NodeId;
use vstd::prelude::*;

verus! {

/// Descriptors, each under an identifier.
pub struct DescStore {
    entries: Vec<(NodeId, Descriptor)>,
}

/// The first entry under a key.
spec fn find(entries: Seq<(NodeId, Descriptor)>, key: Seq<u8>) -> Option<Descriptor>
    decreases entries.len(),
{
    if entries.len() == 0 {
        None
    } else if entries[0].0@ == key {
        Some(entries[0].1)
    } else {
        find(entries.drop_first(), key)
    }
}

impl View for DescStore {
    type V = Map<Seq<u8>, Descriptor>;

    closed spec fn view(&self) -> Map<Seq<u8>, Descriptor> {
        Map::new(
            |key: Seq<u8>| find(self.entries@, key) is Some,
            |key: Seq<u8>| find(self.entries@, key)->0,
        )
    }
}

/// What is found where an entry is changed, all before it being under other keys.
proof fn lemma_find_update(
    entries: Seq<(NodeId, Descriptor)>,
    i: int,
    e: (NodeId, Descriptor),
    key: Seq<u8>,
)
    requires
        0 <= i < entries.len(),
        entries[i].0@ == e.0@,
        forall|j: int| 0 <= j < i ==> (#[trigger] entries[j]).0@ != e.0@,
    ensures
        find(entries.update(i, e), key) == if key == e.0@ {
            Some(e.1)
        } else {
            find(entries, key)
        },
    decreases entries.len(),
{
    let rest = entries.drop_first();
    if i > 0 {
        assert(entries[0].0@ != e.0@);
        assert forall|j: int| 0 <= j < i - 1 implies (#[trigger] rest[j]).0@ != e.0@ by {
            assert(entries[j + 1].0@ != e.0@);
        }
        lemma_find_update(rest, i - 1, e, key);
        assert(entries.update(i, e).drop_first() =~= rest.update(i - 1, e));
    } else {
        assert(entries.update(0, e).drop_first() =~= rest);
    }
}

/// What is found where an entry is added, all before it being under other keys.
proof fn lemma_find_push(entries: Seq<(NodeId, Descriptor)>, e: (NodeId, Descriptor), key: Seq<u8>)
    requires
        forall|j: int| 0 <= j < entries.len() ==> (#[trigger] entries[j]).0@ != e.0@,
    ensures
        find(entries.push(e), key) == if key == e.0@ {
            Some(e.1)
        } else {
            find(entries, key)
        },
    decreases entries.len(),
{
    if entries.len() > 0 {
        let rest = entries.drop_first();
        assert(entries[0].0@ != e.0@);
        assert forall|j: int| 0 <= j < rest.len() implies (#[trigger] rest[j]).0@ != e.0@ by {
            assert(entries[j + 1].0@ != e.0@);
        }
        lemma_find_push(rest, e, key);
        assert(entries.push(e).drop_first() =~= rest.push(e));
    } else {
        assert(entries.push(e).drop_first() =~= entries);
    }
}

/// What is found past entries under other keys.
proof fn lemma_find_skip(entries: Seq<(NodeId, Descriptor)>, i: int, key: Seq<u8>)
    requires
        0 <= i <= entries.len(),
        forall|j: int| 0 <= j < i ==> (#[trigger] entries[j]).0@ != key,
    ensures
        find(entries, key) == find(entries.skip(i), key),
    decreases i,
{
    if i > 0 {
        lemma_find_skip(entries, i - 1, key);
        let s = entries.skip(i - 1);
        assert(s[0] == entries[i - 1]);
        assert(s.drop_first() =~= entries.skip(i));
    } else {
        assert(entries.skip(0) =~= entries);
    }
}

impl DescStore {
    /// A store without descriptors.
    pub fn new() -> (s: Self)
        ensures
            s@ == Map::<Seq<u8>, Descriptor>::empty(),
    {
        let s = DescStore { entries: Vec::new() };
        assert(s@ =~= Map::<Seq<u8>, Descriptor>::empty());
        s
    }

    /// The position of the first entry under a key, or the number of entries.
    fn position(&self, key: &NodeId) -> (i: usize)
        ensures
            i <= self.entries@.len(),
            forall|j: int| 0 <= j < i ==> (#[trigger] self.entries@[j]).0@ != key@,
            i < self.entries@.len() ==> self.entries@[i as int].0@ == key@,
    {
        let mut i: usize = 0;
        while i < self.entries.len()
            invariant
                i <= self.entries@.len(),
                forall|j: int| 0 <= j < i ==> (#[trigger] self.entries@[j]).0@ != key@,
            decreases self.entries@.len() - i,
        {
            if arr_eq(&self.entries[i].0, key) {
                return i;
            }
            i += 1;
        }
        i
    }

    /// The descriptor under a key.
    pub fn get(&self, key: &NodeId) -> (d: Option<Descriptor>)
        ensures
            match d {
                Some(d) => self@.contains_key(key@) && self@[key@] == d,
                None => !self@.contains_key(key@),
            },
    {
        let i = self.position(key);
        proof {
            lemma_find_skip(self.entries@, i as int, key@);
        }
        if i < self.entries.len() {
            Some(self.entries[i].1)
        } else {
            None
        }
    }

    /// Puts a descriptor under a key, in place of one that was there.
    pub fn insert(&mut self, key: NodeId, d: Descriptor)
        ensures
            final(self)@ == old(self)@.insert(key@, d),
    {
        let i = self.position(&key);
        let ghost before = self.entries@;
        if i < self.entries.len() {
            self.entries.set(i, (key, d));
            assert forall|k: Seq<u8>| #[trigger] find(self.entries@, k) == if k == key@ {
                Some(d)
            } else {
                find(before, k)
            } by {
                lemma_find_update(before, i as int, (key, d), k);
            }
        } else {
            self.entries.push((key, d));
            assert forall|k: Seq<u8>| #[trigger] find(self.entries@, k) == if k == key@ {
                Some(d)
            } else {
                find(before, k)
            } by {
                lemma_find_push(before, (key, d), k);
            }
        }
        assert(self@ =~= old(self)@.insert(key@, d));
    }
}

} // verus!
