use vstd::prelude::*;
use crate::bytemap::ByteMap;
use crate::types::Key;
use crate::types::Value;
use crate::types::clone_bytes;
use crate::types::opt_value_view;

verus! {

/// The effect of one batch of writes on a store: a present value in the
/// batch sets the key, an absent value deletes it, untouched keys keep their
/// prior value.
pub open spec fn apply_writes(
    store: Map<Seq<u8>, Seq<u8>>,
    writes: Map<Seq<u8>, Option<Seq<u8>>>,
) -> Map<Seq<u8>, Seq<u8>> {
    Map::new(
        |k: Seq<u8>|
            if writes.contains_key(k) {
                writes[k] is Some
            } else {
                store.contains_key(k)
            },
        |k: Seq<u8>|
            if writes.contains_key(k) && writes[k] is Some {
                writes[k]->0
            } else {
                store[k]
            },
    )
}

/// The write map described by a batch list; a later entry for a key wins.
pub open spec fn batch_map(s: Seq<(Key, Option<Value>)>) -> Map<Seq<u8>, Option<Seq<u8>>>
    decreases s.len(),
{
    if s.len() == 0 {
        Map::empty()
    } else {
        batch_map(s.drop_last()).insert(s.last().0@, opt_value_view(s.last().1))
    }
}

/// The persistent store adapter: an in-memory byte-level key-value map with
/// single-key lookups and an atomic batch commit.
pub struct Database {
    data: ByteMap<Value>,
}

impl View for Database {
    type V = Map<Seq<u8>, Seq<u8>>;

    closed spec fn view(&self) -> Map<Seq<u8>, Seq<u8>> {
        self.data@.map_values(|v: Value| v@)
    }
}

impl Default for Database {
    fn default() -> (r: Database)
        ensures
            r.wf(),
            r@ == Map::<Seq<u8>, Seq<u8>>::empty(),
    {
        let r = Database { data: ByteMap::new() };
        proof {
            assert(r@ =~= Map::<Seq<u8>, Seq<u8>>::empty());
        }
        r
    }
}

impl Database {
    pub closed spec fn wf(&self) -> bool {
        self.data.wf()
    }

    pub fn new() -> (r: Database)
        ensures
            r.wf(),
            r@ == Map::<Seq<u8>, Seq<u8>>::empty(),
    {
        Database::default()
    }

    /// Single-key lookup.
    pub fn get(&self, key: &Key) -> (r: Option<Value>)
        requires
            self.wf(),
        ensures
            opt_value_view(r) == (if self@.contains_key(key@) {
                Some(self@[key@])
            } else {
                None::<Seq<u8>>
            }),
    {
        match self.data.get(&key.key) {
            Some(v) => Some(v.clone()),
            None => None,
        }
    }

    /// Bind the key to the value.
    pub fn set(&mut self, key: &Key, value: Value)
        requires
            old(self).wf(),
        ensures
            final(self).wf(),
            final(self)@ == old(self)@.insert(key@, value@),
    {
        let ghost v = value@;
        self.data.insert(clone_bytes(&key.key), value);
        proof {
            assert(self@ =~= old(self)@.insert(key@, v));
        }
    }

    /// Remove the key, if present.
    pub fn delete(&mut self, key: &Key)
        requires
            old(self).wf(),
        ensures
            final(self).wf(),
            final(self)@ == old(self)@.remove(key@),
    {
        let _ = self.data.remove(&key.key);
        proof {
            assert(self@ =~= old(self)@.remove(key@));
        }
    }

    pub fn is_empty(&self) -> (r: bool)
        requires
            self.wf(),
        ensures
            r == (self@ == Map::<Seq<u8>, Seq<u8>>::empty()),
    {
        let r = self.data.is_empty();
        proof {
            if self.data@ == Map::<Seq<u8>, Value>::empty() {
                assert(self@ =~= Map::<Seq<u8>, Seq<u8>>::empty());
            } else {
                if self@ == Map::<Seq<u8>, Seq<u8>>::empty() {
                    assert forall|k: Seq<u8>| !self.data@.contains_key(k) by {
                        if self.data@.contains_key(k) {
                            assert(self@.contains_key(k));
                            assert(Map::<Seq<u8>, Seq<u8>>::empty().contains_key(k));
                        }
                    }
                    assert(self.data@ =~= Map::<Seq<u8>, Value>::empty());
                }
            }
        }
        r
    }

    /// Apply a batch of writes atomically: present values are set, absent
    /// values are deleted.
    pub fn commit(&mut self, batch: Vec<(Key, Option<Value>)>)
        requires
            old(self).wf(),
        ensures
            final(self).wf(),
            final(self)@ == apply_writes(old(self)@, batch_map(batch@)),
    {
        let n = batch.len();
        let mut i: usize = 0;
        while i < n
            invariant
                self.wf(),
                n == batch@.len(),
                0 <= i <= n,
                self@ == apply_writes(old(self)@, batch_map(batch@.take(i as int))),
            decreases n - i,
        {
            let ghost prefix = batch@.take(i as int);
            let key = batch[i].0.clone();
            proof {
                assert(batch@.take(i + 1).drop_last() =~= prefix);
                assert(batch@.take(i + 1).last() == batch@[i as int]);
            }
            match &batch[i].1 {
                Some(v) => {
                    self.set(&key, v.clone());
                    proof {
                        assert(self@ =~= apply_writes(
                            old(self)@,
                            batch_map(batch@.take(i + 1)),
                        ));
                    }
                },
                None => {
                    self.delete(&key);
                    proof {
                        assert(self@ =~= apply_writes(
                            old(self)@,
                            batch_map(batch@.take(i + 1)),
                        ));
                    }
                },
            }
            i += 1;
        }
        proof {
            assert(batch@.take(n as int) =~= batch@);
        }
    }
}

/// The interface the manager expects of a persistent store: an atomic batch
/// commit of a payload of writes.
pub trait Storage {
    /// The internal invariant the store maintains.
    spec fn inv(&self) -> bool;

    type Payload;

    fn commit(&mut self, data: Self::Payload)
        requires
            old(self).inv(),
        ensures
            final(self).inv(),
    ;
}

impl Storage for Database {
    open spec fn inv(&self) -> bool {
        self.wf()
    }

    type Payload = Vec<(Key, Option<Value>)>;

    fn commit(&mut self, data: Vec<(Key, Option<Value>)>) {
        Database::commit(self, data)
    }
}

} // verus!
