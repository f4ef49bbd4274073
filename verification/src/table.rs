//! A map from byte strings to values that remembers the order in which its
//! keys came.
//!
//! The transactions of the cell store are kept in such a map, and so are the
//! rows of the in-memory columns that stand for the key-value engine. Keys
//! and values are kept in the order of insertion; an index from the hash
//! code of a key to the positions of the keys with that code finds a key
//! without going through all of them.

use vstd::prelude::*;
use std::collections::HashMap;
use crate::bytes::{bytes_eq, push_bytes};

verus! {

broadcast use vstd::std_specs::hash::group_hash_axioms;

/// A map from byte strings to `V`, in the order of first insertion.
pub struct Table<V> {
    /// The keys, each once.
    pub keys: Vec<Vec<u8>>,
    /// The value of each key, at the key's position.
    pub values: Vec<V>,
    /// The positions of the keys, by the hash code of the key.
    pub index: HashMap<u64, Vec<usize>>,
}

/// The hash code of a key.
pub open spec fn hash_code(key: Seq<u8>) -> u64
    decreases key.len(),
{
    if key.len() == 0 {
        0
    } else {
        ((hash_code(key.drop_last()) as int * 31 + key.last() as int) % 0x1_0000_0000_0000_0000) as u64
    }
}

/// The hash code of a key.
pub fn code_of(key: &[u8]) -> (code: u64)
    ensures
        code == hash_code(key@),
{
    let mut code: u64 = 0;
    let mut i: usize = 0;
    assert(key@.take(0) =~= Seq::<u8>::empty());
    while i < key.len()
        invariant
            i <= key@.len(),
            code == hash_code(key@.take(i as int)),
        decreases key@.len() - i,
    {
        assert(key@.take(i + 1).drop_last() =~= key@.take(i as int));
        let wide: u128 = (code as u128 * 31 + key[i] as u128) % 0x1_0000_0000_0000_0000;
        code = wide as u64;
        i = i + 1;
    }
    assert(key@.take(key@.len() as int) =~= key@);
    code
}

/// The positions that `index` holds for a hash code.
pub open spec fn bucket_of(index: Map<u64, Vec<usize>>, code: u64) -> Seq<usize> {
    if index.contains_key(code) {
        index[code]@
    } else {
        Seq::empty()
    }
}

/// Takes the position `at` out of the bucket of `code`.
fn bucket_take(index: &mut HashMap<u64, Vec<usize>>, code: u64, at: usize)
    requires
        bucket_of(old(index)@, code).contains(at),
        bucket_of(old(index)@, code).no_duplicates(),
    ensures
        forall|other: u64|
            other != code ==> #[trigger] bucket_of(final(index)@, other) == bucket_of(
                old(index)@,
                other,
            ),
        bucket_of(final(index)@, code).no_duplicates(),
        forall|x: usize| #[trigger]
            bucket_of(final(index)@, code).contains(x) <==> bucket_of(old(index)@, code).contains(
                x,
            ) && x != at,
{
    let mut bucket = match index.remove(&code) {
        Some(bucket) => bucket,
        None => Vec::new(),
    };
    let ghost before = bucket@;
    let mut p: usize = 0;
    while p < bucket.len()
        invariant
            bucket@ == before,
            before.contains(at),
            p <= before.len(),
            forall|j: int| 0 <= j < p ==> before[j] != at,
        ensures
            p < before.len(),
            bucket@ == before,
            before[p as int] == at,
        decreases before.len() - p,
    {
        if bucket[p] == at {
            break ;
        }
        p = p + 1;
    }
    let _ = bucket.swap_remove(p);
    proof {
        let after = bucket@;
        let last = before.len() - 1;
        assert forall|j: int| 0 <= j < after.len() implies after[j] == (if j == p {
            before[last]
        } else {
            before[j]
        }) by {}
        assert forall|a: int, b: int| 0 <= a < after.len() && 0 <= b < after.len() && a
            != b implies after[a] != after[b] by {
            let a0 = if a == p { last } else { a };
            let b0 = if b == p { last } else { b };
            assert(before[a0] != before[b0]);
        }
        assert forall|x: usize| #[trigger] after.contains(x) <==> before.contains(x) && x
            != at by {
            if after.contains(x) {
                let j = choose|j: int| 0 <= j < after.len() && after[j] == x;
                let j0 = if j == p { last } else { j };
                assert(before[j0] == x);
                assert(before[j0] != before[p as int]);
            }
            if before.contains(x) && x != at {
                let j = choose|j: int| 0 <= j < before.len() && before[j] == x;
                let j1 = if j == last { p as int } else { j };
                assert(after[j1] == x);
            }
        }
    }
    index.insert(code, bucket);
}

/// Puts the position `to` in place of the position `from` in the bucket
/// of `code`.
fn bucket_move(index: &mut HashMap<u64, Vec<usize>>, code: u64, from: usize, to: usize)
    requires
        bucket_of(old(index)@, code).contains(from),
        !bucket_of(old(index)@, code).contains(to),
        bucket_of(old(index)@, code).no_duplicates(),
    ensures
        forall|other: u64|
            other != code ==> #[trigger] bucket_of(final(index)@, other) == bucket_of(
                old(index)@,
                other,
            ),
        bucket_of(final(index)@, code).no_duplicates(),
        forall|x: usize| #[trigger]
            bucket_of(final(index)@, code).contains(x) <==> x == to || (bucket_of(
                old(index)@,
                code,
            ).contains(x) && x != from),
{
    let mut bucket = match index.remove(&code) {
        Some(bucket) => bucket,
        None => Vec::new(),
    };
    let ghost before = bucket@;
    let mut p: usize = 0;
    while p < bucket.len()
        invariant
            bucket@ == before,
            before.contains(from),
            p <= before.len(),
            forall|j: int| 0 <= j < p ==> before[j] != from,
        ensures
            p < before.len(),
            bucket@ == before,
            before[p as int] == from,
        decreases before.len() - p,
    {
        if bucket[p] == from {
            break ;
        }
        p = p + 1;
    }
    bucket[p] = to;
    proof {
        let after = bucket@;
        assert forall|a: int, b: int| 0 <= a < after.len() && 0 <= b < after.len() && a
            != b implies after[a] != after[b] by {
            if a != p && b != p {
                assert(before[a] != before[b]);
            } else {
                let other = if a == p { b } else { a };
                assert(before.contains(before[other]));
            }
        }
        assert forall|x: usize| #[trigger] after.contains(x) <==> x == to || (before.contains(x)
            && x != from) by {
            if after.contains(x) {
                let j = choose|j: int| 0 <= j < after.len() && after[j] == x;
                if j != p {
                    assert(before[j] == x);
                    assert(before[j] != before[p as int]);
                }
            }
            if x == to {
                assert(after[p as int] == x);
            }
            if before.contains(x) && x != from {
                let j = choose|j: int| 0 <= j < before.len() && before[j] == x;
                assert(after[j] == x);
            }
        }
    }
    index.insert(code, bucket);
}

/// The keys of `keys` as plain byte sequences.
pub open spec fn key_seq(keys: Seq<Vec<u8>>) -> Seq<Seq<u8>> {
    Seq::new(keys.len(), |i: int| keys[i]@)
}

/// Whether no byte string occurs twice in `keys`.
pub open spec fn distinct(keys: Seq<Seq<u8>>) -> bool {
    forall|i: int, j: int| 0 <= i < j < keys.len() ==> keys[i] != keys[j]
}

/// Whether `key` stands at `i` in `keys`.
pub open spec fn key_at(keys: Seq<Seq<u8>>, key: Seq<u8>, i: int) -> bool {
    0 <= i < keys.len() && keys[i] == key
}

/// A position of `key` in `keys`, where it has one.
pub open spec fn position(keys: Seq<Seq<u8>>, key: Seq<u8>) -> int {
    choose|i: int| key_at(keys, key, i)
}

impl<V> Table<V> {
    /// The keys in the order in which they were first inserted.
    pub open spec fn keys(&self) -> Seq<Seq<u8>> {
        key_seq(self.keys@)
    }

    /// The positions that the index holds for a hash code.
    pub open spec fn bucket(&self, code: u64) -> Seq<usize> {
        bucket_of(self.index@, code)
    }

    /// The index holds each position once, under the hash code of its key.
    pub open spec fn indexed(&self) -> bool {
        &&& forall|code: u64, x: usize| #[trigger]
            self.bucket(code).contains(x) ==> x < self.keys@.len() && hash_code(
                self.keys()[x as int],
            ) == code
        &&& forall|i: int|
            0 <= i < self.keys@.len() ==> self.bucket(hash_code(#[trigger] self.keys()[i])).contains(
                i as usize,
            )
        &&& forall|code: u64| (#[trigger] self.bucket(code)).no_duplicates()
    }

    /// Every key has its value, no key occurs twice, and the index is in
    /// order.
    pub open spec fn wf(&self) -> bool {
        self.keys@.len() == self.values@.len() && distinct(self.keys()) && self.indexed()
    }

    /// Whether the table has a value for `key`.
    pub open spec fn has(&self, key: Seq<u8>) -> bool {
        exists|i: int| key_at(self.keys(), key, i)
    }

    /// The value of `key`, where the table has one.
    pub open spec fn value(&self, key: Seq<u8>) -> V {
        self.values@[position(self.keys(), key)]
    }

    /// The table as a map.
    pub open spec fn view(&self) -> Map<Seq<u8>, V> {
        Map::new(|key: Seq<u8>| self.has(key), |key: Seq<u8>| self.value(key))
    }

    /// In a table without repeated keys, a key found at `i` has the value at `i`.
    pub proof fn lemma_found(&self, key: Seq<u8>, i: int)
        requires
            self.wf(),
            key_at(self.keys(), key, i),
        ensures
            self.has(key),
            position(self.keys(), key) == i,
            self.value(key) == self.values@[i],
            self@.contains_key(key),
            self@[key] == self.values@[i],
    {
        let p = position(self.keys(), key);
        assert(key_at(self.keys(), key, p));
        if p < i {
            assert(self.keys()[p] != self.keys()[i]);
        } else if i < p {
            assert(self.keys()[i] != self.keys()[p]);
        }
    }

    /// An empty table.
    pub fn new() -> (table: Self)
        ensures
            table.wf(),
            table.keys() == Seq::<Seq<u8>>::empty(),
            table@ == Map::<Seq<u8>, V>::empty(),
    {
        let table = Table { keys: Vec::new(), values: Vec::new(), index: HashMap::new() };
        assert(table.keys() =~= Seq::<Seq<u8>>::empty());
        assert forall|code: u64| (#[trigger] table.bucket(code)).len() == 0 by {}
        assert(table@ =~= Map::<Seq<u8>, V>::empty());
        table
    }

    /// Number of keys.
    pub fn len(&self) -> (n: usize)
        requires
            self.wf(),
        ensures
            n == self.keys().len(),
            n == self@.dom().len(),
            self@.dom().finite(),
    {
        proof {
            self.lemma_dom();
        }
        self.keys.len()
    }

    /// The keys of the map are the keys of the table, each once.
    pub proof fn lemma_dom(&self)
        requires
            self.wf(),
        ensures
            self@.dom() == self.keys().to_set(),
            self@.dom().finite(),
            self@.dom().len() == self.keys().len(),
    {
        let keys = self.keys();
        assert forall|key: Seq<u8>| self@.dom().contains(key) <==> keys.to_set().contains(
            key,
        ) by {
            if self@.dom().contains(key) {
                let i = choose|i: int| key_at(keys, key, i);
                assert(keys[i] == key);
            }
            if keys.to_set().contains(key) {
                let i = choose|i: int| 0 <= i < keys.len() && keys[i] == key;
                assert(key_at(keys, key, i));
            }
        }
        assert(self@.dom() =~= keys.to_set());
        assert(keys.no_duplicates());
        keys.unique_seq_to_set();
    }

    /// The position of `key`, where the table has it.
    pub fn find(&self, key: &[u8]) -> (found: Option<usize>)
        requires
            self.wf(),
        ensures
            found is Some <==> self@.contains_key(key@),
            found is Some ==> key_at(self.keys(), key@, found->0 as int) && self@[key@]
                == self.values@[found->0 as int],
    {
        let code = code_of(key);
        let n = self.keys.len();
        let bucket = match self.index.get(&code) {
            Some(bucket) => bucket,
            None => {
                assert(!self.has(key@)) by {
                    if self.has(key@) {
                        let i = choose|i: int| key_at(self.keys(), key@, i);
                        assert(self.bucket(hash_code(self.keys()[i])).contains(i as usize));
                    }
                }
                return None;
            },
        };
        assert(bucket@ == self.bucket(code));
        let mut j: usize = 0;
        while j < bucket.len()
            invariant
                self.wf(),
                n == self.keys@.len(),
                bucket@ == self.bucket(code),
                code == hash_code(key@),
                j <= bucket@.len(),
                forall|k: int|
                    0 <= k < j ==> (#[trigger] bucket@[k]) < self.keys@.len() && self.keys()[bucket@[k] as int]
                        != key@,
            decreases bucket@.len() - j,
        {
            let at = bucket[j];
            assert(self.bucket(code).contains(at));
            if bytes_eq(self.keys[at].as_slice(), key) {
                proof {
                    self.lemma_found(key@, at as int);
                }
                return Some(at);
            }
            j = j + 1;
        }
        assert(!self.has(key@)) by {
            if self.has(key@) {
                let i = choose|i: int| key_at(self.keys(), key@, i);
                let at = i as usize;
                assert(self.keys()[i] == key@);
                assert(self.bucket(hash_code(self.keys()[i])).contains(at));
                assert(bucket@.contains(at));
                let k = choose|k: int| 0 <= k < bucket@.len() && bucket@[k] == at;
                assert(self.keys()[bucket@[k] as int] != key@);
            }
        }
        None
    }

    /// The value of `key`, where the table has one.
    pub fn get(&self, key: &[u8]) -> (value: Option<&V>)
        requires
            self.wf(),
        ensures
            value is Some <==> self@.contains_key(key@),
            value is Some ==> *value->0 == self@[key@],
    {
        match self.find(key) {
            Some(i) => Some(&self.values[i]),
            None => None,
        }
    }

    /// Adds a key that the table does not have yet, behind all others.
    pub fn insert_new(&mut self, key: &[u8], value: V)
        requires
            old(self).wf(),
            !old(self)@.contains_key(key@),
        ensures
            final(self).wf(),
            final(self).keys() == old(self).keys().push(key@),
            final(self).values@ == old(self).values@.push(value),
            final(self)@ == old(self)@.insert(key@, value),
    {
        let code = code_of(key);
        let at = self.keys.len();
        let mut own: Vec<u8> = Vec::new();
        push_bytes(&mut own, key);
        self.keys.push(own);
        self.values.push(value);
        let mut bucket = match self.index.remove(&code) {
            Some(bucket) => bucket,
            None => Vec::new(),
        };
        bucket.push(at);
        self.index.insert(code, bucket);
        proof {
            let n = old(self).keys@.len() as int;
            assert(self.keys() =~= old(self).keys().push(key@));
            let before = old(self).bucket(code);
            assert(self.bucket(code) =~= before.push(at));
            assert forall|other: u64| other != code implies #[trigger] self.bucket(other)
                == old(self).bucket(other) by {}
            assert forall|c: u64, x: usize| #[trigger] self.bucket(c).contains(x) implies x
                < self.keys@.len() && hash_code(self.keys()[x as int]) == c by {
                if c == code {
                    let j = choose|j: int| 0 <= j < self.bucket(c).len() && self.bucket(c)[j] == x;
                    if j < before.len() {
                        assert(before[j] == x);
                        assert(old(self).bucket(c).contains(x));
                    }
                } else {
                    assert(old(self).bucket(c).contains(x));
                }
            }
            assert forall|i: int| 0 <= i < self.keys@.len() implies self.bucket(
                hash_code(#[trigger] self.keys()[i]),
            ).contains(i as usize) by {
                if i < n {
                    let c = hash_code(old(self).keys()[i]);
                    assert(old(self).bucket(c).contains(i as usize));
                    if c == code {
                        let j = choose|j: int| 0 <= j < before.len() && before[j] == i as usize;
                        assert(self.bucket(code)[j] == i as usize);
                    }
                } else {
                    assert(self.bucket(code)[before.len() as int] == at);
                }
            }
            assert forall|c: u64| (#[trigger] self.bucket(c)).no_duplicates() by {
                if c == code {
                    assert(old(self).bucket(c).no_duplicates());
                    assert forall|a: int, b: int|
                        0 <= a < self.bucket(c).len() && 0 <= b < self.bucket(c).len() && a
                            != b implies self.bucket(c)[a] != self.bucket(c)[b] by {
                        if a < before.len() && b < before.len() {
                            assert(before[a] != before[b]);
                        } else {
                            let other = if a < before.len() { a } else { b };
                            assert(old(self).bucket(c).contains(before[other]));
                        }
                    }
                } else {
                    assert(old(self).bucket(c).no_duplicates());
                }
            }
            assert forall|i: int, j: int| 0 <= i < j < self.keys().len() implies self.keys()[i]
                != self.keys()[j] by {
                if j == n {
                    if self.keys()[i] == key@ {
                        assert(key_at(old(self).keys(), key@, i));
                    }
                }
            }
            self.lemma_found(key@, n);
            assert forall|k: Seq<u8>| #[trigger]
                self@.contains_key(k) <==> old(self)@.insert(key@, value).contains_key(k) by {
                if self@.contains_key(k) {
                    let i = choose|i: int| key_at(self.keys(), k, i);
                    if i < n {
                        assert(key_at(old(self).keys(), k, i));
                    }
                }
                if old(self)@.contains_key(k) {
                    let i = choose|i: int| key_at(old(self).keys(), k, i);
                    assert(key_at(self.keys(), k, i));
                }
            }
            assert forall|k: Seq<u8>| #[trigger] self@.contains_key(k) implies self@[k] == old(
                self,
            )@.insert(key@, value)[k] by {
                if k != key@ {
                    let i = choose|i: int| key_at(self.keys(), k, i);
                    assert(key_at(old(self).keys(), k, i));
                    self.lemma_found(k, i);
                    old(self).lemma_found(k, i);
                }
            }
            assert(self@ =~= old(self)@.insert(key@, value));
        }
    }

    /// Puts `value` in place of the value at position `i`.
    pub fn replace_at(&mut self, i: usize, value: V)
        requires
            old(self).wf(),
            i < old(self).keys().len(),
        ensures
            final(self).wf(),
            final(self).keys() == old(self).keys(),
            final(self).values@ == old(self).values@.update(i as int, value),
            final(self)@ == old(self)@.insert(old(self).keys()[i as int], value),
    {
        self.values[i] = value;
        proof {
            let key = old(self).keys()[i as int];
            assert(self.keys() =~= old(self).keys());
            assert forall|c: u64| #[trigger] self.bucket(c) == old(self).bucket(c) by {}
            self.lemma_found(key, i as int);
            assert forall|k: Seq<u8>| #[trigger] self@.contains_key(k) implies self@[k] == old(
                self,
            )@.insert(key, value)[k] by {
                let j = choose|j: int| key_at(self.keys(), k, j);
                self.lemma_found(k, j);
                old(self).lemma_found(k, j);
            }
            assert(self@ =~= old(self)@.insert(key, value));
        }
    }

    /// Takes the key at position `i` and its value out of the table. The
    /// last key takes the freed position.
    pub fn remove_at(&mut self, i: usize)
        requires
            old(self).wf(),
            i < old(self).keys().len(),
        ensures
            final(self).wf(),
            final(self)@ == old(self)@.remove(old(self).keys()[i as int]),
            final(self).keys() == old(self).keys().update(i as int, old(self).keys().last()).drop_last(),
            final(self).values@ == old(self).values@.update(
                i as int,
                old(self).values@.last(),
            ).drop_last(),
    {
        let last_at = self.keys.len() - 1;
        let code = code_of(self.keys[i].as_slice());
        assert(self.bucket(hash_code(self.keys()[i as int])).contains(i));
        assert(self.bucket(code).no_duplicates());
        bucket_take(&mut self.index, code, i);
        let ghost taken = self.index@;
        proof {
            assert forall|c: u64, x: usize| #[trigger]
                bucket_of(taken, c).contains(x) <==> old(self).bucket(c).contains(x) && x
                    != i by {
                if c != code {
                    assert(bucket_of(taken, c) == old(self).bucket(c));
                    if old(self).bucket(c).contains(x) && x == i {
                        assert(hash_code(old(self).keys()[x as int]) == c);
                    }
                }
            }
        }
        if i != last_at {
            let last_code = code_of(self.keys[last_at].as_slice());
            assert(old(self).bucket(hash_code(old(self).keys()[last_at as int])).contains(last_at));
            assert(bucket_of(taken, last_code).contains(last_at));
            assert(!bucket_of(taken, last_code).contains(i));
            bucket_move(&mut self.index, last_code, last_at, i);
            proof {
                assert forall|c: u64, x: usize| #[trigger]
                    self.bucket(c).contains(x) <==> (c == last_code && x == i) || (old(
                        self,
                    ).bucket(c).contains(x) && x != i && x != last_at) by {
                    if c != last_code {
                        assert(self.bucket(c) == bucket_of(taken, c));
                        assert(bucket_of(taken, c).contains(x) <==> old(self).bucket(c).contains(
                            x,
                        ) && x != i);
                        if old(self).bucket(c).contains(x) && x == last_at {
                            assert(hash_code(old(self).keys()[x as int]) == c);
                        }
                    } else {
                        assert(bucket_of(taken, c).contains(x) <==> old(self).bucket(c).contains(
                            x,
                        ) && x != i);
                    }
                }
            }
        }
        let ghost moved = self.index@;
        assert forall|c: u64| (#[trigger] bucket_of(moved, c)).no_duplicates() by {
            assert(old(self).bucket(c).no_duplicates());
            assert(bucket_of(taken, c).no_duplicates()) by {
                if c != code {
                    assert(bucket_of(taken, c) == old(self).bucket(c));
                }
            }
            if i != last_at {
                let last_code = hash_code(old(self).keys()[last_at as int]);
                if c != last_code {
                    assert(bucket_of(moved, c) == bucket_of(taken, c));
                }
            }
        }
        assert forall|c: u64, x: usize| #[trigger]
            bucket_of(moved, c).contains(x) <==> (i != last_at && c == hash_code(
                old(self).keys()[last_at as int],
            ) && x == i) || (old(self).bucket(c).contains(x) && x != i && x != last_at) by {
            if i == last_at {
                assert(bucket_of(taken, c).contains(x) <==> old(self).bucket(c).contains(x) && x
                    != i);
            }
        }
        let _ = self.keys.swap_remove(i);
        let _ = self.values.swap_remove(i);
        proof {
            let before = old(self).keys();
            let after = self.keys();
            let key = before[i as int];
            let last = before.len() - 1;
            assert forall|j: int| 0 <= j < after.len() implies #[trigger] after[j] == (if j == i {
                before[last]
            } else {
                before[j]
            }) by {}
            assert forall|c: u64, x: usize| #[trigger] self.bucket(c).contains(x) implies x
                < self.keys@.len() && hash_code(self.keys()[x as int]) == c by {
                assert(bucket_of(moved, c).contains(x));
                if old(self).bucket(c).contains(x) && x != i && x != last_at {
                    assert(x < before.len());
                    assert(after[x as int] == before[x as int]);
                } else {
                    assert(after[i as int] == before[last]);
                }
            }
            assert forall|j: int| 0 <= j < self.keys@.len() implies self.bucket(
                hash_code(#[trigger] self.keys()[j]),
            ).contains(j as usize) by {
                if j == i {
                    assert(after[j] == before[last]);
                    assert(bucket_of(moved, hash_code(before[last])).contains(i));
                } else {
                    assert(after[j] == before[j]);
                    assert(old(self).bucket(hash_code(before[j])).contains(j as usize));
                    assert(bucket_of(moved, hash_code(before[j])).contains(j as usize));
                }
            }
            assert forall|j: int| 0 <= j < after.len() implies after[j] == (if j == i {
                before[last]
            } else {
                before[j]
            }) by {}
            assert forall|a: int, b: int| 0 <= a < b < after.len() implies after[a]
                != after[b] by {
                let a0 = if a == i { last } else { a };
                let b0 = if b == i { last } else { b };
                if a0 < b0 {
                    assert(before[a0] != before[b0]);
                } else {
                    assert(before[b0] != before[a0]);
                }
            }
            assert forall|k: Seq<u8>| #[trigger]
                self@.contains_key(k) <==> old(self)@.remove(key).contains_key(k) by {
                if self@.contains_key(k) {
                    let j = choose|j: int| key_at(after, k, j);
                    let j0 = if j == i { last } else { j };
                    assert(key_at(before, k, j0));
                    if k == key {
                        if j0 < i {
                            assert(before[j0] != before[i as int]);
                        } else {
                            assert(before[i as int] != before[j0]);
                        }
                    }
                }
                if old(self)@.remove(key).contains_key(k) {
                    let j = choose|j: int| key_at(before, k, j);
                    let j1 = if j == last { i as int } else { j };
                    assert(key_at(after, k, j1));
                }
            }
            assert forall|k: Seq<u8>| #[trigger] self@.contains_key(k) implies self@[k] == old(
                self,
            )@.remove(key)[k] by {
                let j = choose|j: int| key_at(after, k, j);
                let j0 = if j == i { last } else { j };
                assert(key_at(before, k, j0));
                self.lemma_found(k, j);
                old(self).lemma_found(k, j0);
            }
            assert(self@ =~= old(self)@.remove(key));
        }
    }
}

/// The rows of a column: the table as a map to plain byte sequences.
pub open spec fn rows_of(table: Table<Vec<u8>>) -> Map<Seq<u8>, Seq<u8>> {
    Map::new(|key: Seq<u8>| table@.contains_key(key), |key: Seq<u8>| table@[key]@)
}

/// The row stored under `key`.
pub fn row_get<'a>(table: &'a Table<Vec<u8>>, key: &[u8]) -> (row: Option<&'a [u8]>)
    requires
        table.wf(),
    ensures
        rows_of(*table).get(key@) == (match row {
            Some(bytes) => Some(bytes@),
            None => None,
        }),
{
    match table.get(key) {
        Some(row) => Some(row.as_slice()),
        None => None,
    }
}

/// Stores `row` under `key`, in place of the row that was there.
pub fn row_put(table: &mut Table<Vec<u8>>, key: &[u8], row: Vec<u8>)
    requires
        old(table).wf(),
    ensures
        final(table).wf(),
        rows_of(*final(table)) == rows_of(*old(table)).insert(key@, row@),
{
    match table.find(key) {
        Some(at) => {
            table.replace_at(at, row);
        },
        None => {
            table.insert_new(key, row);
        },
    }
    assert(rows_of(*table) =~= rows_of(*old(table)).insert(key@, row@));
}

/// Removes the row stored under `key`, if there is one.
pub fn row_delete(table: &mut Table<Vec<u8>>, key: &[u8])
    requires
        old(table).wf(),
    ensures
        final(table).wf(),
        rows_of(*final(table)) == rows_of(*old(table)).remove(key@),
{
    if let Some(at) = table.find(key) {
        table.remove_at(at);
    }
    assert(rows_of(*table) =~= rows_of(*old(table)).remove(key@));
}

} // verus!
