use vstd::prelude::*;

verus! {

/// A key in the key-value state: an opaque byte sequence.
#[derive(Debug)]
pub struct Key {
    pub key: Vec<u8>,
}

impl View for Key {
    type V = Seq<u8>;

    open spec fn view(&self) -> Seq<u8> {
        self.key@
    }
}

impl Clone for Key {
    fn clone(&self) -> (res: Self)
        ensures
            res@ == self@,
    {
        Key { key: clone_bytes(&self.key) }
    }
}

impl Key {
    pub fn new(key: Vec<u8>) -> (r: Key)
        ensures
            r@ == key@,
    {
        Key { key }
    }
}

/// A value in the key-value state: an opaque byte sequence.
#[derive(Debug, PartialEq)]
pub struct Value {
    pub value: Vec<u8>,
}

impl View for Value {
    type V = Seq<u8>;

    open spec fn view(&self) -> Seq<u8> {
        self.value@
    }
}

impl Clone for Value {
    fn clone(&self) -> (res: Self)
        ensures
            res@ == self@,
    {
        Value { value: clone_bytes(&self.value) }
    }
}

impl Value {
    pub fn new(value: Vec<u8>) -> (r: Value)
        ensures
            r@ == value@,
    {
        Value { value }
    }
}

/// The view of an optional value: `None` encodes a deletion or an
/// observed-absent entry, `Some` a present byte string.
pub open spec fn opt_value_view(v: Option<Value>) -> Option<Seq<u8>> {
    match v {
        Some(x) => Some(x@),
        None => None,
    }
}

/// Clone an optional value, preserving its view.
pub fn clone_opt_value(v: &Option<Value>) -> (r: Option<Value>)
    ensures
        opt_value_view(r) == opt_value_view(*v),
{
    match v {
        Some(x) => Some(x.clone()),
        None => None,
    }
}

/// Byte-exact copy of a byte vector.
pub fn clone_bytes(v: &Vec<u8>) -> (r: Vec<u8>)
    ensures
        r@ == v@,
{
    let r = v.clone();
    proof {
        assert(r@ =~= v@);
    }
    r
}

/// Byte-exact equality of two byte vectors.
pub fn bytes_eq(a: &Vec<u8>, b: &Vec<u8>) -> (r: bool)
    ensures
        r == (a@ == b@),
{
    if a.len() != b.len() {
        proof {
            assert(a@ != b@);
        }
        return false;
    }
    let n = a.len();
    let mut i: usize = 0;
    while i < n
        invariant
            n == a@.len() == b@.len(),
            0 <= i <= n,
            forall|j: int| 0 <= j < i ==> a@[j] == b@[j],
        decreases n - i,
    {
        if a[i] != b[i] {
            return false;
        }
        i += 1;
    }
    proof {
        assert(a@ =~= b@);
    }
    true
}

/// The failure conditions surfaced by the state core; none are retried
/// internally.
#[derive(Clone, Copy, Debug, PartialEq, Eq, Structural)]
pub enum StateError {
    /// The child block id already has a parent assignment.
    DuplicateChild,
    /// The block id is not known to the fork tree.
    UnknownBlock,
    /// A layer was already registered for this block id.
    DuplicateLayer,
    /// The finalization target has a layer but no parent entry.
    MissingParent,
    /// A read recorded a value different from the one now being recorded.
    InconsistentRead,
    /// The store reported a commit failure.
    StoreFailure,
}

/// A read-only view of a value: it hands out shared references only, so the
/// holder can never mutate what it wraps.
pub struct ReadOnlyLock<T> {
    pub lock: T,
}

impl<T> ReadOnlyLock<T> {
    pub fn new(lock: T) -> (r: Self)
        ensures
            r.lock == lock,
    {
        ReadOnlyLock { lock }
    }

    pub fn read(&self) -> (r: &T)
        ensures
            r == &self.lock,
    {
        &self.lock
    }
}

} // verus!
