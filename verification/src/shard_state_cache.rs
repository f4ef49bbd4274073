//! A cache of shard states by block, bounded in size and in the age of its
//! entries.
//!
//! The cache is the least-recently-used cache of `lru_time_cache` behind a
//! lock of `parking_lot`. What it holds at a given moment depends on the
//! clock, so nothing is promised of a lookup but that a cache that is
//! switched off finds nothing.

use vstd::prelude::*;
use std::sync::Arc;
use std::time::Duration;
use lru_time_cache::LruCache;
use parking_lot::Mutex;
use crate::block_id::BlockId;

verus! {

/// The cache of `lru_time_cache`.
#[verifier::external_type_specification]
#[verifier::external_body]
#[verifier::reject_recursive_types(Key)]
#[verifier::reject_recursive_types(Value)]
pub struct ExLruCache<Key, Value>(lru_time_cache::LruCache<Key, Value>);

/// The lock of `parking_lot`.
#[verifier::external_type_specification]
#[verifier::external_body]
#[verifier::reject_recursive_types(R)]
#[verifier::reject_recursive_types(T)]
pub struct ExMutex<R, T: ?Sized>(parking_lot::lock_api::Mutex<R, T>);

/// The raw lock behind the lock of `parking_lot`.
#[verifier::external_type_specification]
#[verifier::external_body]
pub struct ExRawMutex(parking_lot::RawMutex);

/// Most entries that a cache can be made for: room for the keys of a
/// cache is reserved when it is made, and so many keys, of eighty bytes
/// each, fit into the memory that one reservation can address.
pub const MAX_CACHE_CAPACITY: usize = usize::MAX / 256;

/// Most seconds that an entry can be given to live: so many can be added
/// to every point of time that the clock hands out.
pub const MAX_CACHE_TTL_SEC: u64 = 0xffff_ffff;

/// How a cache is to be made.
#[derive(Clone, Copy, Debug)]
pub struct ShardStateCacheOptions {
    /// Number of seconds after which an entry is dropped.
    pub ttl_sec: u64,
    /// Number of entries that the cache holds at most.
    pub capacity: usize,
}

impl ShardStateCacheOptions {
    /// Whether a cache can be made as the options describe it: it holds at
    /// least one entry and no more than can be reserved, and the time to
    /// live of an entry is one that the clock can add.
    pub open spec fn valid(self) -> bool {
        1 <= self.capacity <= MAX_CACHE_CAPACITY && self.ttl_sec <= MAX_CACHE_TTL_SEC
    }

    /// Whether a cache can be made as the options describe it.
    pub fn is_valid(&self) -> (valid: bool)
        ensures
            valid == self.valid(),
    {
        1 <= self.capacity && self.capacity <= MAX_CACHE_CAPACITY && self.ttl_sec
            <= MAX_CACHE_TTL_SEC
    }
}

/// The parts of a block id, in the order in which ids are compared.
pub type BlockKey = (i32, u64, u32, [u8; 32], [u8; 32]);

/// A cache of shard states of type `S`, or nothing where caching is
/// switched off.
#[verifier::reject_recursive_types(S)]
pub struct ShardStateCache<S> {
    map: Option<Mutex<LruCache<BlockKey, Arc<S>>>>,
}

/// An empty cache behind a lock, made with
/// `LruCache::with_expiry_duration_and_capacity`: its entries are dropped
/// `ttl_sec` seconds after they were last used, and the least recently used
/// one once more than `capacity` are held. Room for `capacity` keys is
/// reserved at once. A cache without room for one entry cannot take one,
/// and a time to live that the clock cannot add cannot be held against it:
/// the cache is made within the bounds in which every later lookup and
/// insertion returns.
#[verifier::external_body]
fn new_map<S>(ttl_sec: u64, capacity: usize) -> Mutex<LruCache<BlockKey, Arc<S>>>
    requires
        1 <= capacity <= MAX_CACHE_CAPACITY,
        ttl_sec <= MAX_CACHE_TTL_SEC,
{
    Mutex::new(LruCache::with_expiry_duration_and_capacity(Duration::from_secs(ttl_sec), capacity))
}

/// Looks `key` up with `LruCache::get`, under the lock. Whether an entry
/// is found depends on what was inserted, on the capacity and on the time
/// that has passed. The cache is one that [`new_map`] made.
#[verifier::external_body]
fn map_get<S>(map: &Mutex<LruCache<BlockKey, Arc<S>>>, key: &BlockKey) -> Option<Arc<S>> {
    map.lock().get(key).cloned()
}

/// Stores `value` under `key` with `LruCache::insert`, under the lock. The
/// cache is one that [`new_map`] made, so that it has room for an entry.
#[verifier::external_body]
fn map_insert<S>(map: &Mutex<LruCache<BlockKey, Arc<S>>>, key: BlockKey, value: Arc<S>) {
    map.lock().insert(key, value);
}

fn key_of(block_id: &BlockId) -> (key: BlockKey)
    ensures
        key == (
            block_id.shard_id.workchain_id,
            block_id.shard_id.shard_prefix,
            block_id.seq_no,
            block_id.root_hash,
            block_id.file_hash,
        ),
{
    (
        block_id.shard_id.workchain_id,
        block_id.shard_id.shard_prefix,
        block_id.seq_no,
        block_id.root_hash,
        block_id.file_hash,
    )
}

impl<S> ShardStateCache<S> {
    /// Whether caching is switched on.
    pub closed spec fn enabled(&self) -> bool {
        self.map is Some
    }

    /// A cache as `config` describes it; one that is switched off where
    /// `config` is `None`. The options are to be ones that
    /// [`ShardStateCacheOptions::is_valid`] accepts.
    pub fn new(config: Option<ShardStateCacheOptions>) -> (cache: Self)
        requires
            config is Some ==> config->0.valid(),
        ensures
            cache.enabled() == (config is Some),
    {
        ShardStateCache {
            map: match config {
                Some(config) => Some(new_map(config.ttl_sec, config.capacity)),
                None => None,
            },
        }
    }

    /// Whether caching is switched on.
    pub fn is_enabled(&self) -> (enabled: bool)
        ensures
            enabled == self.enabled(),
    {
        self.map.is_some()
    }

    /// The state of the block, where the cache holds it. A cache that is
    /// switched off holds nothing.
    pub fn get(&self, block_id: &BlockId) -> (state: Option<Arc<S>>)
        ensures
            !self.enabled() ==> state is None,
    {
        match &self.map {
            Some(map) => map_get(map, &key_of(block_id)),
            None => None,
        }
    }

    /// Stores the state of the block. The state is made with `factory`,
    /// and only where caching is switched on.
    pub fn set<F: FnOnce() -> Arc<S>>(&self, block_id: &BlockId, factory: F)
        requires
            self.enabled() ==> factory.requires(()),
    {
        if let Some(map) = &self.map {
            map_insert(map, key_of(block_id), factory());
        }
    }
}

} // verus!
