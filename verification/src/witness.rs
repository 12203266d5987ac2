use vstd::prelude::*;
use crate::types::Key;
use crate::types::Value;
use crate::types::clone_opt_value;
use crate::types::opt_value_view;

verus! {

/// An append-only, ordered record of `(key, optional value)` pairs: the
/// values a block's execution observed from outside its own layer.
pub struct Witness {
    data: Vec<(Key, Option<Value>)>,
}

impl View for Witness {
    type V = Seq<(Seq<u8>, Option<Seq<u8>>)>;

    closed spec fn view(&self) -> Seq<(Seq<u8>, Option<Seq<u8>>)> {
        Seq::new(self.data@.len(), |i: int| (self.data@[i].0@, opt_value_view(self.data@[i].1)))
    }
}

impl Default for Witness {
    fn default() -> (r: Witness)
        ensures
            r@ == Seq::<(Seq<u8>, Option<Seq<u8>>)>::empty(),
    {
        let r = Witness { data: Vec::new() };
        proof {
            assert(r@ =~= Seq::<(Seq<u8>, Option<Seq<u8>>)>::empty());
        }
        r
    }
}

impl Witness {
    /// Append one observed operation.
    pub fn track_operation(&mut self, key: &Key, value: Option<Value>)
        ensures
            final(self)@ == old(self)@.push((key@, opt_value_view(value))),
    {
        let ghost v = opt_value_view(value);
        self.data.push((key.clone(), value));
        proof {
            assert(self@ =~= old(self)@.push((key@, v)));
        }
    }

    pub fn len(&self) -> (r: usize)
        ensures
            r == self@.len(),
    {
        self.data.len()
    }

    /// The entry at the given position, oldest first.
    pub fn entry(&self, i: usize) -> (r: (Key, Option<Value>))
        requires
            i < self@.len(),
        ensures
            (r.0@, opt_value_view(r.1)) == self@[i as int],
    {
        let e = &self.data[i];
        (e.0.clone(), clone_opt_value(&e.1))
    }

    /// Append every entry of `other`, in order, after the entries of `self`.
    pub fn append(&mut self, other: Witness)
        ensures
            final(self)@ == old(self)@ + other@,
    {
        let mut data = other.data;
        self.data.append(&mut data);
        proof {
            assert(self@ =~= old(self)@ + other@);
        }
    }
}

} // verus!
