//! Boundary to the first-read / last-write cache log that backs every layer.
//!
//! A `CacheLog` records, per key, the first value read through the layer and
//! the last value written by it.  Its contents are modelled by the two
//! uninterpreted maps `cache_reads` and `cache_writes`; every operation of the
//! log is reached through a wrapper whose contract says, over those two maps,
//! what the operation does.

use vstd::prelude::*;
use sov_first_read_last_write_cache::CacheKey;
use sov_first_read_last_write_cache::CacheValue;
use sov_first_read_last_write_cache::cache::CacheLog;
use sov_first_read_last_write_cache::cache::ValueExists;
use std::sync::Arc;
use crate::types::Key;
use crate::types::StateError;
use crate::types::Value;
use crate::types::opt_value_view;

verus! {

#[verifier::external_type_specification]
#[verifier::external_body]
pub struct ExCacheLog(CacheLog);

/// The first-read log of a cache log: for each key read through the layer
/// before being written, the value that was observed (`None` = observed
/// absent).
pub uninterp spec fn cache_reads(log: CacheLog) -> Map<Seq<u8>, Option<Seq<u8>>>;

/// The last-write log of a cache log: for each key the layer wrote (and did
/// not reset to its first-read value), the final value (`None` = deletion).
pub uninterp spec fn cache_writes(log: CacheLog) -> Map<Seq<u8>, Option<Seq<u8>>>;

/// What a lookup in a single layer yields: the last write if there is one,
/// otherwise the first read, otherwise nothing.
pub open spec fn spec_log_lookup(
    reads: Map<Seq<u8>, Option<Seq<u8>>>,
    writes: Map<Seq<u8>, Option<Seq<u8>>>,
    key: Seq<u8>,
) -> Option<Option<Seq<u8>>> {
    if writes.contains_key(key) {
        Some(writes[key])
    } else if reads.contains_key(key) {
        Some(reads[key])
    } else {
        None
    }
}

/// Outcome of a lookup in one cache layer, never consulting parents.
pub enum LayerLookup {
    /// The layer knows the key and it holds this value.
    Hit(Value),
    /// The layer knows the key as deleted or observed-absent.
    Tombstone,
    /// The layer knows nothing about the key.
    Miss,
}

impl View for LayerLookup {
    type V = Option<Option<Seq<u8>>>;

    open spec fn view(&self) -> Option<Option<Seq<u8>>> {
        match self {
            LayerLookup::Hit(v) => Some(Some(v@)),
            LayerLookup::Tombstone => Some(None),
            LayerLookup::Miss => None,
        }
    }
}

/// Relies on `CacheLog::default`: a log with no entries.
#[verifier::external_body]
pub(crate) fn new_cache_log() -> (log: CacheLog)
    ensures
        forall|k: Seq<u8>| !cache_reads(log).contains_key(k),
        forall|k: Seq<u8>| !cache_writes(log).contains_key(k),
{
    CacheLog::default()
}

/// Relies on `CacheLog::get_value`: returns the last value recorded for the
/// key, a write shadowing a read, or nothing when the key was never touched.
#[verifier::external_body]
pub(crate) fn cache_log_get(log: &CacheLog, key: &Key) -> (r: LayerLookup)
    ensures
        r@ == spec_log_lookup(cache_reads(*log), cache_writes(*log), key@),
{
    let cache_key = CacheKey { key: Arc::new(key.key.clone()) };
    match log.get_value(&cache_key) {
        ValueExists::Yes(Some(v)) => LayerLookup::Hit(Value { value: (*v.value).clone() }),
        ValueExists::Yes(None) => LayerLookup::Tombstone,
        ValueExists::No => LayerLookup::Miss,
    }
}

/// Relies on `CacheLog::add_read`: the first read of an untouched key is
/// recorded; a later read must repeat the value already recorded for the key,
/// else nothing changes and the read is inconsistent.
#[verifier::external_body]
pub(crate) fn cache_log_add_read(log: &mut CacheLog, key: &Key, value: &Option<Value>) -> (r: Result<
    (),
    StateError,
>)
    ensures
        ({
            let reads0 = cache_reads(*old(log));
            let writes0 = cache_writes(*old(log));
            match spec_log_lookup(reads0, writes0, key@) {
                None => {
                    &&& r is Ok
                    &&& cache_reads(*final(log)) == reads0.insert(key@, opt_value_view(*value))
                    &&& cache_writes(*final(log)) == writes0
                },
                Some(last) => {
                    &&& cache_reads(*final(log)) == reads0
                    &&& cache_writes(*final(log)) == writes0
                    &&& (r is Ok <==> last == opt_value_view(*value))
                    &&& (r is Err ==> r == Result::<(), StateError>::Err(
                        StateError::InconsistentRead,
                    ))
                },
            }
        }),
{
    let cache_key = CacheKey { key: Arc::new(key.key.clone()) };
    let cache_value = value.as_ref().map(|v| CacheValue { value: Arc::new(v.value.clone()) });
    match log.add_read(cache_key, cache_value) {
        Ok(()) => Ok(()),
        Err(_) => Err(StateError::InconsistentRead),
    }
}

/// Relies on `CacheLog::add_write`: the last write per key wins; writing back
/// exactly the first-read value of the key discards the write instead, so the
/// entry reverts to a plain read.
#[verifier::external_body]
pub(crate) fn cache_log_add_write(log: &mut CacheLog, key: &Key, value: &Option<Value>)
    ensures
        ({
            let reads0 = cache_reads(*old(log));
            let writes0 = cache_writes(*old(log));
            &&& cache_reads(*final(log)) == reads0
            &&& cache_writes(*final(log)) == (if reads0.contains_key(key@) && reads0[key@]
                == opt_value_view(*value) {
                writes0.remove(key@)
            } else {
                writes0.insert(key@, opt_value_view(*value))
            })
        }),
{
    let cache_key = CacheKey { key: Arc::new(key.key.clone()) };
    let cache_value = value.as_ref().map(|v| CacheValue { value: Arc::new(v.value.clone()) });
    log.add_write(cache_key, cache_value);
}

/// Relies on `CacheLog::take_writes`: consumes the log and yields exactly its
/// last-write entries, one per written key, in unspecified order.
#[verifier::external_body]
pub(crate) fn cache_log_take_writes(log: CacheLog) -> (r: Vec<(Key, Option<Value>)>)
    ensures
        forall|i: int, j: int| 0 <= i < j < r@.len() ==> r@[i].0@ != r@[j].0@,
        forall|i: int|
            0 <= i < r@.len() ==> cache_writes(log).contains_key(#[trigger] r@[i].0@)
                && cache_writes(log)[r@[i].0@] == opt_value_view(r@[i].1),
        forall|k: Seq<u8>|
            cache_writes(log).contains_key(k) ==> exists|i: int|
                0 <= i < r@.len() && r@[i].0@ == k,
{
    log.take_writes()
        .into_iter()
        .map(|(k, v)| {
            (
                Key { key: (*k.key).clone() },
                v.map(|cv| Value { value: (*cv.value).clone() }),
            )
        })
        .collect()
}

} // verus!
