use vstd::prelude::*;
use lru::LruCache;
use crate::cache::{
    cache_capacity, cache_contains, cache_entries, cache_get, cache_new, cache_pop, cache_put,
    entries_after_put, entries_ok, holds_key, position_of,
};
use crate::frame::{Frame, FrameModel};
use crate::num::{decimal_text, push_decimal};
use crate::text::{same_text, text_bytes};
use std::collections::hash_map::DefaultHasher;
use std::hash::{Hash, Hasher};
use vstd::std_specs::hash::DefaultHasherAdditionalSpecFns;
use vstd::utf8::encode_utf8;

verus! {

/// How many shards the store is split into.
pub const SHARD_COUNT: usize = 16;

/// How many keys each shard holds before it evicts.
pub const SHARD_CAPACITY: usize = 10000;

/// Nanoseconds in a second.
pub const NANOS_PER_SEC: u128 = 1_000_000_000;

/// Whether the deadline `secs` seconds after `now` (nanoseconds since the
/// Unix epoch) can be held in a `u128`.
pub open spec fn deadline_fits(now: int, secs: int) -> bool {
    now + secs * NANOS_PER_SEC <= u128::MAX
}

/// One shard: values in an LRU cache, and the deadlines (nanoseconds since the
/// Unix epoch) of the keys that expire.
pub struct DbShard {
    pub storage: LruCache<String, Vec<u8>>,
    pub expirations: Vec<(String, u128)>,
}

/// The mathematical value of a shard.
pub struct ShardModel {
    /// Key and value of each entry, most recently used first.
    pub entries: Seq<(Seq<char>, Seq<u8>)>,
    pub cap: nat,
    /// Key and deadline of each expiring key.
    pub expirations: Seq<(Seq<char>, int)>,
}

impl View for DbShard {
    type V = ShardModel;

    open spec fn view(&self) -> ShardModel {
        ShardModel {
            entries: cache_entries(self.storage),
            cap: cache_capacity(self.storage),
            expirations: self.expirations@.map_values(|p: (String, u128)| (p.0@, p.1 as int)),
        }
    }
}

pub open spec fn has_deadline(x: Seq<(Seq<char>, int)>, k: Seq<char>) -> bool {
    exists|i: int| 0 <= i < x.len() && (#[trigger] x[i]).0 == k
}

pub open spec fn deadline_index(x: Seq<(Seq<char>, int)>, k: Seq<char>) -> int {
    choose|i: int| 0 <= i < x.len() && (#[trigger] x[i]).0 == k
}

/// The deadline of `k`, if it has one.
pub open spec fn deadline_of(x: Seq<(Seq<char>, int)>, k: Seq<char>) -> Option<int> {
    if has_deadline(x, k) {
        Some(x[deadline_index(x, k)].1)
    } else {
        None
    }
}

pub open spec fn deadlines_ok(x: Seq<(Seq<char>, int)>) -> bool {
    forall|i: int, j: int| 0 <= i < j < x.len() ==> (#[trigger] x[i]).0 != (#[trigger] x[j]).0
}

/// Gives `k` the deadline `d`, in place if it had one.
pub open spec fn deadlines_insert(x: Seq<(Seq<char>, int)>, k: Seq<char>, d: int) -> Seq<
    (Seq<char>, int),
> {
    if has_deadline(x, k) {
        x.update(deadline_index(x, k), (k, d))
    } else {
        x.push((k, d))
    }
}

/// Takes the deadline of `k` away.
pub open spec fn deadlines_remove(x: Seq<(Seq<char>, int)>, k: Seq<char>) -> Seq<
    (Seq<char>, int),
> {
    if has_deadline(x, k) {
        x.remove(deadline_index(x, k))
    } else {
        x
    }
}

/// The entries once the one under `k` is gone.
pub open spec fn entries_after_pop(e: Seq<(Seq<char>, Seq<u8>)>, k: Seq<char>) -> Seq<
    (Seq<char>, Seq<u8>),
> {
    if holds_key(e, k) {
        e.remove(position_of(e, k))
    } else {
        e
    }
}

impl ShardModel {
    pub open spec fn wf(self) -> bool {
        entries_ok(self.entries, self.cap) && deadlines_ok(self.expirations)
    }

    /// Whether `k` has a deadline that `now` is past.
    pub open spec fn expired(self, k: Seq<char>, now: int) -> bool {
        match deadline_of(self.expirations, k) {
            Some(d) => now > d,
            None => false,
        }
    }

    /// Removes `k` and its deadline; says whether it had a value.
    pub open spec fn remove(self, k: Seq<char>) -> (ShardModel, bool) {
        (
            ShardModel {
                entries: entries_after_pop(self.entries, k),
                cap: self.cap,
                expirations: deadlines_remove(self.expirations, k),
            },
            holds_key(self.entries, k),
        )
    }

    /// Reading `k` at time `now`: a key past its deadline is dropped and reads
    /// as absent; a present key becomes the most recently used.
    pub open spec fn get(self, k: Seq<char>, now: int) -> (ShardModel, Option<Seq<u8>>) {
        if self.expired(k, now) {
            (self.remove(k).0, None)
        } else if holds_key(self.entries, k) {
            let i = position_of(self.entries, k);
            (
                ShardModel {
                    entries: seq![self.entries[i]] + self.entries.remove(i),
                    ..self
                },
                Some(self.entries[i].1),
            )
        } else {
            (self, None)
        }
    }

    /// Storing `v` under `k`: the value goes in as most recently used and any
    /// deadline of `k` is dropped.
    pub open spec fn set(self, k: Seq<char>, v: Seq<u8>) -> ShardModel {
        ShardModel {
            entries: entries_after_put(self.entries, self.cap, k, v),
            cap: self.cap,
            expirations: deadlines_remove(self.expirations, k),
        }
    }

    /// Giving `k` the deadline `d`, whether or not it holds a value.
    pub open spec fn set_deadline(self, k: Seq<char>, d: int) -> ShardModel {
        ShardModel { expirations: deadlines_insert(self.expirations, k, d), ..self }
    }

    /// Giving `k` the deadline `d` if it holds a value; says whether it did.
    pub open spec fn expire(self, k: Seq<char>, d: int) -> (ShardModel, bool) {
        if holds_key(self.entries, k) {
            (self.set_deadline(k, d), true)
        } else {
            (self, false)
        }
    }
}

impl DbShard {
    pub open spec fn wf(&self) -> bool {
        self@.wf()
    }

    /// An empty shard that holds at most `capacity` values.
    pub fn new(capacity: usize) -> (r: DbShard)
        requires
            capacity > 0,
        ensures
            r.wf(),
            r@.entries == Seq::<(Seq<char>, Seq<u8>)>::empty(),
            r@.cap == capacity,
            r@.expirations == Seq::<(Seq<char>, int)>::empty(),
    {
        let r = DbShard { storage: cache_new(capacity), expirations: Vec::new() };
        assert(r@.expirations =~= Seq::<(Seq<char>, int)>::empty());
        r
    }

    /// Where `key` stands among the deadlines.
    fn find_deadline(&self, key: &str) -> (r: Option<usize>)
        requires
            self.wf(),
        ensures
            match r {
                Some(i) => has_deadline(self@.expirations, key@) && i == deadline_index(
                    self@.expirations,
                    key@,
                ) && i < self.expirations@.len(),
                None => !has_deadline(self@.expirations, key@),
            },
    {
        let mut i: usize = 0;
        let ghost x = self@.expirations;
        while i < self.expirations.len()
            invariant
                i <= self.expirations@.len() == x.len(),
                x == self@.expirations,
                deadlines_ok(x),
                forall|j: int| 0 <= j < i ==> (#[trigger] x[j]).0 != key@,
            decreases self.expirations.len() - i,
        {
            if same_text(self.expirations[i].0.as_str(), key) {
                assert(x[i as int].0 == key@);
                let ghost c = deadline_index(x, key@);
                assert(x[c].0 == key@);
                assert(c == i) by {
                    if c < i {
                        assert(x[c].0 != key@);
                    } else if c > i {
                        assert(x[i as int].0 != x[c].0);
                    }
                }
                return Some(i);
            }
            i = i + 1;
        }
        None
    }

    /// Drops the deadline of `key`, if it has one.
    fn remove_deadline(&mut self, key: &str)
        requires
            old(self).wf(),
        ensures
            final(self).wf(),
            final(self)@ == (ShardModel {
                expirations: deadlines_remove(old(self)@.expirations, key@),
                ..old(self)@
            }),
    {
        match self.find_deadline(key) {
            Some(i) => {
                let ghost x = self@.expirations;
                self.expirations.remove(i);
                assert(self@.expirations =~= x.remove(i as int));
            },
            None => {},
        }
    }

    /// Gives `key` the deadline `deadline`, in place if it had one.
    pub fn set_deadline(&mut self, key: String, deadline: u128)
        requires
            old(self).wf(),
        ensures
            final(self).wf(),
            final(self)@ == old(self)@.set_deadline(key@, deadline as int),
    {
        let ghost x = self@.expirations;
        match self.find_deadline(key.as_str()) {
            Some(i) => {
                self.expirations.set(i, (key, deadline));
                assert(self@.expirations =~= x.update(i as int, (key@, deadline as int)));
            },
            None => {
                self.expirations.push((key, deadline));
                assert(self@.expirations =~= x.push((key@, deadline as int)));
            },
        }
    }

    /// Whether `key` has a deadline that `now` is past.
    fn is_expired(&self, key: &str, now: u128) -> (r: bool)
        requires
            self.wf(),
        ensures
            r == self@.expired(key@, now as int),
    {
        match self.find_deadline(key) {
            Some(i) => now > self.expirations[i].1,
            None => false,
        }
    }

    /// Removes `key` and its deadline; says whether it held a value.
    pub fn remove(&mut self, key: &str) -> (r: bool)
        requires
            old(self).wf(),
        ensures
            final(self).wf(),
            (final(self)@, r) == old(self)@.remove(key@),
    {
        let popped = cache_pop(&mut self.storage, key);
        self.remove_deadline(key);
        popped.is_some()
    }

    /// Reads `key` at time `now`.
    pub fn get(&mut self, key: &str, now: u128) -> (r: Option<Vec<u8>>)
        requires
            old(self).wf(),
        ensures
            final(self).wf(),
            final(self)@ == old(self)@.get(key@, now as int).0,
            match r {
                Some(v) => old(self)@.get(key@, now as int).1 == Some(v@),
                None => old(self)@.get(key@, now as int).1 is None,
            },
    {
        if self.is_expired(key, now) {
            self.remove(key);
            return None;
        }
        cache_get(&mut self.storage, key)
    }

    /// Stores `value` under `key`, dropping any deadline it had.
    pub fn set(&mut self, key: String, value: Vec<u8>)
        requires
            old(self).wf(),
        ensures
            final(self).wf(),
            final(self)@ == old(self)@.set(key@, value@),
    {
        let k = key.clone();
        cache_put(&mut self.storage, key, value);
        self.remove_deadline(k.as_str());
    }

    /// Gives `key` the deadline `deadline` if it holds a value; says whether
    /// it did.
    pub fn expire(&mut self, key: String, deadline: u128) -> (r: bool)
        requires
            old(self).wf(),
        ensures
            final(self).wf(),
            (final(self)@, r) == old(self)@.expire(key@, deadline as int),
    {
        if cache_contains(&self.storage, key.as_str()) {
            self.set_deadline(key, deadline);
            true
        } else {
            false
        }
    }
}


// ---------------------------------------------------------------------------
// The sharded store.
// ---------------------------------------------------------------------------

/// The bytes that `<str as Hash>::hash` writes into a hasher for `key`, one
/// write after another.
pub uninterp spec fn str_hash_writes(key: Seq<char>) -> Seq<Seq<u8>>;

/// `<str as Hash>::hash`: feeds `key` to the hasher, adding to what it was
/// fed the writes that depend on `key` alone.
#[verifier::external_body]
fn hash_str(key: &str, hasher: &mut DefaultHasher)
    ensures
        final(hasher)@ == old(hasher)@ + str_hash_writes(key@),
{
    key.hash(hasher)
}

/// The hash of `key` by a `DefaultHasher` made by `new`, which hashes alike
/// in every instance.
pub open spec fn default_hash(key: Seq<char>) -> u64 {
    DefaultHasher::spec_finish(str_hash_writes(key))
}

fn hash_key(key: &str) -> (r: u64)
    ensures
        r == default_hash(key@),
{
    let mut hasher = DefaultHasher::new();
    hash_str(key, &mut hasher);
    assert(hasher@ =~= str_hash_writes(key@));
    hasher.finish()
}

/// The shard that holds `key`.
pub open spec fn shard_of(key: Seq<char>) -> int {
    (default_hash(key) % 16) as int
}

/// The shard that holds `key`.
pub fn get_shard_index(key: &str) -> (r: usize)
    ensures
        r == shard_of(key@),
        r < SHARD_COUNT,
{
    (hash_key(key) % 16) as usize
}

pub open spec fn bulk_word_set() -> Seq<u8> {
    seq![83u8, 69u8, 84u8]
}

pub open spec fn bulk_word_expire() -> Seq<u8> {
    seq![69u8, 88u8, 80u8, 73u8, 82u8, 69u8]
}

pub open spec fn bulk_word_del() -> Seq<u8> {
    seq![68u8, 69u8, 76u8]
}

/// The record of `SET key value` in the append-only file.
pub open spec fn set_record(k: Seq<char>, v: Seq<u8>) -> FrameModel {
    FrameModel::Array(
        seq![
            FrameModel::Bulk(bulk_word_set()),
            FrameModel::Bulk(encode_utf8(k)),
            FrameModel::Bulk(v),
        ],
    )
}

/// The record of `EXPIRE key seconds` in the append-only file.
pub open spec fn expire_record(k: Seq<char>, secs: nat) -> FrameModel {
    FrameModel::Array(
        seq![
            FrameModel::Bulk(bulk_word_expire()),
            FrameModel::Bulk(encode_utf8(k)),
            FrameModel::Bulk(decimal_text(secs)),
        ],
    )
}

/// The record of `DEL key` in the append-only file.
pub open spec fn del_record(k: Seq<char>) -> FrameModel {
    FrameModel::Array(seq![FrameModel::Bulk(bulk_word_del()), FrameModel::Bulk(encode_utf8(k))])
}

/// The keys whose deadline `now` is past, in the order of the deadlines.
pub open spec fn expired_keys(x: Seq<(Seq<char>, int)>, now: int) -> Seq<Seq<char>>
    decreases x.len(),
{
    if x.len() == 0 {
        seq![]
    } else if now > x.last().1 {
        expired_keys(x.drop_last(), now).push(x.last().0)
    } else {
        expired_keys(x.drop_last(), now)
    }
}

/// The records of deleting `ks`, in order.
pub open spec fn del_records(ks: Seq<Seq<char>>) -> Seq<FrameModel> {
    Seq::new(ks.len(), |i: int| del_record(ks[i]))
}

impl ShardModel {
    /// Removes every key of `ks`, in order.
    pub open spec fn remove_all(self, ks: Seq<Seq<char>>) -> ShardModel
        decreases ks.len(),
    {
        if ks.len() == 0 {
            self
        } else {
            self.remove_all(ks.drop_last()).remove(ks.last()).0
        }
    }

    /// Removing every key whose deadline `now` is past.
    pub open spec fn purge(self, now: int) -> ShardModel {
        self.remove_all(expired_keys(self.expirations, now))
    }
}

/// The store: its shards, and the records for the append-only file that were
/// made since they were last taken.
pub struct Db {
    shards: Vec<DbShard>,
    pending: Vec<Frame>,
}

/// The mathematical value of the store.
pub struct DbModel {
    pub shards: Seq<ShardModel>,
    pub pending: Seq<FrameModel>,
}

impl View for Db {
    type V = DbModel;

    closed spec fn view(&self) -> DbModel {
        DbModel {
            shards: self.shards@.map_values(|s: DbShard| s@),
            pending: self.pending@.map_values(|f: Frame| f@),
        }
    }
}

impl DbModel {
    pub open spec fn wf(self) -> bool {
        &&& self.shards.len() == SHARD_COUNT
        &&& forall|i: int|
            0 <= i < self.shards.len() ==> (#[trigger] self.shards[i]).wf() && self.shards[i].cap
                == SHARD_CAPACITY
    }

    /// The shard that holds `k`.
    pub open spec fn shard(self, k: Seq<char>) -> ShardModel {
        self.shards[shard_of(k)]
    }

    /// The store with the shard of `k` replaced by `m`.
    pub open spec fn with_shard(self, k: Seq<char>, m: ShardModel) -> DbModel {
        DbModel { shards: self.shards.update(shard_of(k), m), ..self }
    }

    /// The store with `r` added to the records.
    pub open spec fn log(self, r: FrameModel) -> DbModel {
        DbModel { pending: self.pending.push(r), ..self }
    }

    /// Reading `k` at time `now`.
    pub open spec fn get(self, k: Seq<char>, now: int) -> (DbModel, Option<Seq<u8>>) {
        (self.with_shard(k, self.shard(k).get(k, now).0), self.shard(k).get(k, now).1)
    }

    /// Storing `v` under `k`, without a record.
    pub open spec fn set_inner(self, k: Seq<char>, v: Seq<u8>) -> DbModel {
        self.with_shard(k, self.shard(k).set(k, v))
    }

    /// Storing `v` under `k`, with its record.
    pub open spec fn set(self, k: Seq<char>, v: Seq<u8>) -> DbModel {
        self.set_inner(k, v).log(set_record(k, v))
    }

    /// Making `k` expire `secs` seconds after `now`, if it holds a value.
    pub open spec fn set_expires(self, k: Seq<char>, secs: nat, now: int) -> (DbModel, bool) {
        let (m, ok) = self.shard(k).expire(k, now + secs * NANOS_PER_SEC);
        if ok {
            (self.with_shard(k, m).log(expire_record(k, secs)), true)
        } else {
            (self, false)
        }
    }

    /// Deleting one key at time `now`: it counts if it holds a value that is
    /// not past its deadline; a key that holds a value leaves a record.
    pub open spec fn del_one(self, k: Seq<char>, now: int) -> (DbModel, bool) {
        let m = self.shard(k);
        let held = holds_key(m.entries, k);
        let d = self.with_shard(k, m.remove(k).0);
        (
            if held {
                d.log(del_record(k))
            } else {
                d
            },
            held && !m.expired(k, now),
        )
    }

    /// Deleting `ks` in order; the number of them that counted.
    pub open spec fn del(self, ks: Seq<Seq<char>>, now: int) -> (DbModel, nat)
        decreases ks.len(),
    {
        if ks.len() == 0 {
            (self, 0)
        } else {
            let (d, n) = self.del(ks.drop_last(), now);
            let (d2, counted) = d.del_one(ks.last(), now);
            (
                d2,
                if counted {
                    n + 1
                } else {
                    n
                },
            )
        }
    }

    /// Purging the shards before `n`, one after another.
    pub open spec fn purge_shards(self, now: int, n: int) -> DbModel
        decreases n,
    {
        if n <= 0 {
            self
        } else {
            let d = self.purge_shards(now, n - 1);
            let m = d.shards[n - 1];
            DbModel {
                shards: d.shards.update(n - 1, m.purge(now)),
                pending: d.pending + del_records(expired_keys(m.expirations, now)),
            }
        }
    }

    /// Removing every key whose deadline `now` is past, with a record for each.
    pub open spec fn purge(self, now: int) -> DbModel {
        self.purge_shards(now, SHARD_COUNT as int)
    }
}

pub(crate) fn bulk_word(word: &[u8]) -> (r: Frame)
    ensures
        r@ == FrameModel::Bulk(word@),
{
    let mut v: Vec<u8> = Vec::new();
    let mut i: usize = 0;
    while i < word.len()
        invariant
            i <= word@.len(),
            v@ == word@.subrange(0, i as int),
        decreases word.len() - i,
    {
        v.push(word[i]);
        i = i + 1;
        assert(v@ =~= word@.subrange(0, i as int));
    }
    assert(v@ =~= word@);
    Frame::Bulk(v)
}

pub(crate) fn make_record(items: Vec<Frame>) -> (r: Frame)
    ensures
        r@ == FrameModel::Array(Seq::new(items@.len(), |i: int| items@[i]@)),
{
    let r = Frame::Array(items);
    assert(match r@ {
        FrameModel::Array(v) => v =~= Seq::new(items@.len(), |i: int| items@[i]@),
        _ => false,
    });
    r
}

pub(crate) fn set_record_frame(key: &str, value: &Vec<u8>) -> (r: Frame)
    ensures
        r@ == set_record(key@, value@),
{
    let mut items: Vec<Frame> = Vec::new();
    items.push(bulk_word(&[83u8, 69u8, 84u8]));
    items.push(Frame::Bulk(text_bytes(key)));
    items.push(Frame::Bulk(value.clone()));
    let r = make_record(items);
    assert(match r@ {
        FrameModel::Array(v) => v =~= seq![
            FrameModel::Bulk(bulk_word_set()),
            FrameModel::Bulk(encode_utf8(key@)),
            FrameModel::Bulk(value@),
        ],
        _ => false,
    });
    r
}

pub(crate) fn expire_record_frame(key: &str, secs: u64) -> (r: Frame)
    ensures
        r@ == expire_record(key@, secs as nat),
{
    let mut items: Vec<Frame> = Vec::new();
    items.push(bulk_word(&[69u8, 88u8, 80u8, 73u8, 82u8, 69u8]));
    items.push(Frame::Bulk(text_bytes(key)));
    let mut digits: Vec<u8> = Vec::new();
    push_decimal(secs, &mut digits);
    assert(digits@ =~= decimal_text(secs as nat));
    items.push(Frame::Bulk(digits));
    let r = make_record(items);
    assert(match r@ {
        FrameModel::Array(v) => v =~= seq![
            FrameModel::Bulk(bulk_word_expire()),
            FrameModel::Bulk(encode_utf8(key@)),
            FrameModel::Bulk(decimal_text(secs as nat)),
        ],
        _ => false,
    });
    r
}

fn del_record_frame(key: &str) -> (r: Frame)
    ensures
        r@ == del_record(key@),
{
    let mut items: Vec<Frame> = Vec::new();
    items.push(bulk_word(&[68u8, 69u8, 76u8]));
    items.push(Frame::Bulk(text_bytes(key)));
    let r = make_record(items);
    assert(match r@ {
        FrameModel::Array(v) => v =~= seq![
            FrameModel::Bulk(bulk_word_del()),
            FrameModel::Bulk(encode_utf8(key@)),
        ],
        _ => false,
    });
    r
}

impl Db {
    pub open spec fn wf(&self) -> bool {
        self@.wf()
    }

    /// An empty store of `SHARD_COUNT` shards of `SHARD_CAPACITY` keys each.
    pub fn new() -> (r: Db)
        ensures
            r.wf(),
            r@.pending == Seq::<FrameModel>::empty(),
            forall|i: int|
                0 <= i < SHARD_COUNT ==> (#[trigger] r@.shards[i]).entries.len() == 0
                    && r@.shards[i].expirations.len() == 0 && r@.shards[i].cap == SHARD_CAPACITY,
    {
        let mut shards: Vec<DbShard> = Vec::new();
        let mut i: usize = 0;
        while i < SHARD_COUNT
            invariant
                i <= SHARD_COUNT,
                shards@.len() == i,
                forall|j: int|
                    0 <= j < i ==> (#[trigger] shards@[j]).wf() && shards@[j]@.entries.len() == 0
                        && shards@[j]@.expirations.len() == 0 && shards@[j]@.cap
                        == SHARD_CAPACITY,
            decreases SHARD_COUNT - i,
        {
            shards.push(DbShard::new(SHARD_CAPACITY));
            i = i + 1;
        }
        let r = Db { shards, pending: Vec::new() };
        assert(r@.pending =~= Seq::<FrameModel>::empty());
        r
    }

    proof fn lemma_shard_view(&self, i: int)
        requires
            0 <= i < self.shards@.len(),
        ensures
            self@.shards[i] == self.shards@[i]@,
            self@.shards.len() == self.shards@.len(),
    {
    }

    /// Reads `key` at time `now`: a key past its deadline is dropped and reads
    /// as absent.
    pub fn get(&mut self, key: &str, now: u128) -> (r: Option<Vec<u8>>)
        requires
            old(self).wf(),
        ensures
            final(self).wf(),
            final(self)@ == old(self)@.get(key@, now as int).0,
            match r {
                Some(v) => old(self)@.get(key@, now as int).1 == Some(v@),
                None => old(self)@.get(key@, now as int).1 is None,
            },
    {
        let idx = get_shard_index(key);
        proof {
            self.lemma_shard_view(idx as int);
        }
        let shard = &mut self.shards[idx];
        let r = shard.get(key, now);
        assert(self@.shards =~= old(self)@.shards.update(idx as int, self.shards@[idx as int]@));
        assert(self@.pending =~= old(self)@.pending);
        r
    }

    /// Stores `value` under `key` with no record, as replaying the
    /// append-only file does.
    pub fn set_inner(&mut self, key: String, value: Vec<u8>)
        requires
            old(self).wf(),
        ensures
            final(self).wf(),
            final(self)@ == old(self)@.set_inner(key@, value@),
    {
        let idx = get_shard_index(key.as_str());
        proof {
            self.lemma_shard_view(idx as int);
        }
        let shard = &mut self.shards[idx];
        shard.set(key, value);
        assert(self@.shards =~= old(self)@.shards.update(idx as int, self.shards@[idx as int]@));
        assert(self@.pending =~= old(self)@.pending);
    }

    /// Gives `key` the deadline `deadline` with no record, whether or not it
    /// holds a value, as replaying an `EXPIRE` record does.
    pub fn set_deadline(&mut self, key: String, deadline: u128)
        requires
            old(self).wf(),
        ensures
            final(self).wf(),
            final(self)@ == old(self)@.with_shard(
                key@,
                old(self)@.shard(key@).set_deadline(key@, deadline as int),
            ),
    {
        let idx = get_shard_index(key.as_str());
        proof {
            self.lemma_shard_view(idx as int);
        }
        let shard = &mut self.shards[idx];
        shard.set_deadline(key, deadline);
        assert(self@.shards =~= old(self)@.shards.update(idx as int, self.shards@[idx as int]@));
        assert(self@.pending =~= old(self)@.pending);
    }

    /// Removes `key` and its deadline with no record, as replaying a `DEL`
    /// record does.
    pub fn remove_key(&mut self, key: &str)
        requires
            old(self).wf(),
        ensures
            final(self).wf(),
            final(self)@ == old(self)@.with_shard(key@, old(self)@.shard(key@).remove(key@).0),
    {
        let idx = get_shard_index(key);
        proof {
            self.lemma_shard_view(idx as int);
        }
        let shard = &mut self.shards[idx];
        shard.remove(key);
        assert(self@.shards =~= old(self)@.shards.update(idx as int, self.shards@[idx as int]@));
        assert(self@.pending =~= old(self)@.pending);
    }

    fn push_record(&mut self, record: Frame)
        requires
            old(self).wf(),
        ensures
            final(self).wf(),
            final(self)@ == old(self)@.log(record@),
    {
        self.pending.push(record);
        assert(self@.pending =~= old(self)@.pending.push(record@));
        assert(self@.shards =~= old(self)@.shards);
    }

    /// Stores `value` under `key`, drops any deadline it had, and records the
    /// write.
    pub fn set(&mut self, key: String, value: Vec<u8>)
        requires
            old(self).wf(),
        ensures
            final(self).wf(),
            final(self)@ == old(self)@.set(key@, value@),
    {
        let record = set_record_frame(key.as_str(), &value);
        self.set_inner(key, value);
        self.push_record(record);
    }

    /// Makes `key` expire `secs` seconds after `now` (nanoseconds since the
    /// Unix epoch) if it holds a value, and records it; says whether it held
    /// one.
    pub fn set_expires(&mut self, key: String, secs: u64, now: u128) -> (r: bool)
        requires
            old(self).wf(),
            deadline_fits(now as int, secs as int),
        ensures
            final(self).wf(),
            (final(self)@, r) == old(self)@.set_expires(key@, secs as nat, now as int),
    {
        let idx = get_shard_index(key.as_str());
        proof {
            self.lemma_shard_view(idx as int);
        }
        let record = expire_record_frame(key.as_str(), secs);
        let deadline = now + (secs as u128) * NANOS_PER_SEC;
        let shard = &mut self.shards[idx];
        let ok = shard.expire(key, deadline);
        assert(self@.shards =~= old(self)@.shards.update(idx as int, self.shards@[idx as int]@));
        assert(self@.pending =~= old(self)@.pending);
        if ok {
            self.push_record(record);
        } else {
            assert(self@.shards =~= old(self)@.shards);
        }
        ok
    }

    /// Deletes one key at time `now`; says whether it counted.
    fn del_one(&mut self, key: &str, now: u128) -> (r: bool)
        requires
            old(self).wf(),
        ensures
            final(self).wf(),
            (final(self)@, r) == old(self)@.del_one(key@, now as int),
    {
        let idx = get_shard_index(key);
        proof {
            self.lemma_shard_view(idx as int);
        }
        let shard = &mut self.shards[idx];
        let expired = shard.is_expired(key, now);
        let held = shard.remove(key);
        assert(self@.shards =~= old(self)@.shards.update(idx as int, self.shards@[idx as int]@));
        assert(self@.pending =~= old(self)@.pending);
        if held {
            let record = del_record_frame(key);
            self.push_record(record);
        }
        held && !expired
    }

    /// Deletes `keys` at time `now`: returns how many of them held a value
    /// that was not past its deadline.
    pub fn del(&mut self, keys: Vec<String>, now: u128) -> (r: usize)
        requires
            old(self).wf(),
        ensures
            final(self).wf(),
            final(self)@ == old(self)@.del(keys@.map_values(|k: String| k@), now as int).0,
            r == old(self)@.del(keys@.map_values(|k: String| k@), now as int).1,
    {
        let ghost ks = keys@.map_values(|k: String| k@);
        let mut count: usize = 0;
        let mut i: usize = 0;
        while i < keys.len()
            invariant
                i <= keys@.len() == ks.len(),
                ks == keys@.map_values(|k: String| k@),
                count <= i,
                self.wf(),
                (self@, count as nat) == old(self)@.del(ks.take(i as int), now as int),
            decreases keys.len() - i,
        {
            assert(ks.take(i + 1).drop_last() =~= ks.take(i as int));
            let counted = self.del_one(keys[i].as_str(), now);
            if counted {
                count = count + 1;
            }
            i = i + 1;
        }
        assert(ks.take(i as int) =~= ks);
        count
    }

    /// Removes from shard `idx` every key whose deadline `now` is past, with a
    /// record for each.
    fn purge_shard(&mut self, idx: usize, now: u128)
        requires
            old(self).wf(),
            idx < SHARD_COUNT,
        ensures
            final(self).wf(),
            final(self)@ == (DbModel {
                shards: old(self)@.shards.update(
                    idx as int,
                    old(self)@.shards[idx as int].purge(now as int),
                ),
                pending: old(self)@.pending + del_records(
                    expired_keys(old(self)@.shards[idx as int].expirations, now as int),
                ),
            }),
    {
        proof {
            self.lemma_shard_view(idx as int);
        }
        let ghost m0 = self@.shards[idx as int];
        let ghost x = m0.expirations;
        let mut expired: Vec<String> = Vec::new();
        let mut i: usize = 0;
        while i < self.shards[idx].expirations.len()
            invariant
                self.wf(),
                self@ == old(self)@,
                idx < SHARD_COUNT,
                x == self.shards@[idx as int]@.expirations,
                i <= x.len(),
                expired@.map_values(|k: String| k@) == expired_keys(x.take(i as int), now as int),
            decreases x.len() - i,
        {
            proof {
                self.lemma_shard_view(idx as int);
            }
            assert(x.take(i + 1).drop_last() =~= x.take(i as int));
            let entry = &self.shards[idx].expirations[i];
            if now > entry.1 {
                expired.push(entry.0.clone());
                assert(expired@.map_values(|k: String| k@) =~= expired_keys(
                    x.take(i + 1),
                    now as int,
                ));
            } else {
                assert(expired@.map_values(|k: String| k@) =~= expired_keys(
                    x.take(i + 1),
                    now as int,
                ));
            }
            i = i + 1;
        }
        assert(x.take(i as int) =~= x);
        let ghost ks = expired@.map_values(|k: String| k@);
        let mut j: usize = 0;
        while j < expired.len()
            invariant
                self.wf(),
                idx < SHARD_COUNT,
                j <= expired@.len() == ks.len(),
                old(self)@.wf(),
                m0 == old(self)@.shards[idx as int],
                ks == expired@.map_values(|k: String| k@),
                self@.shards == old(self)@.shards.update(idx as int, m0.remove_all(ks.take(j as int))),
                self@.pending == old(self)@.pending + del_records(ks.take(j as int)),
            decreases expired.len() - j,
        {
            proof {
                self.lemma_shard_view(idx as int);
            }
            assert(ks.take(j + 1).drop_last() =~= ks.take(j as int));
            assert(ks.take(j + 1).last() == ks[j as int]);
            let ghost before = self@;
            let key = expired[j].as_str();
            assert(key@ == ks[j as int]);
            let shard = &mut self.shards[idx];
            shard.remove(key);
            assert(self@.shards =~= before.shards.update(idx as int, self.shards@[idx as int]@));
            let record = del_record_frame(key);
            self.pending.push(record);
            assert(self@.pending =~= before.pending.push(del_record(ks[j as int])));
            j = j + 1;
            assert(del_records(ks.take(j as int)) =~= del_records(ks.take(j - 1)).push(
                del_record(ks[j - 1]),
            ));
            assert(self@.shards =~= old(self)@.shards.update(
                idx as int,
                m0.remove_all(ks.take(j as int)),
            ));
            assert(self@.pending =~= old(self)@.pending + del_records(ks.take(j as int)));
        }
        assert(ks.take(j as int) =~= ks);
    }

    /// Removes every key whose deadline `now` is past, shard by shard, with a
    /// record for each, as the background cleaner does once a second.
    pub fn purge_expired(&mut self, now: u128)
        requires
            old(self).wf(),
        ensures
            final(self).wf(),
            final(self)@ == old(self)@.purge(now as int),
    {
        let mut i: usize = 0;
        while i < SHARD_COUNT
            invariant
                i <= SHARD_COUNT,
                self.wf(),
                self@ == old(self)@.purge_shards(now as int, i as int),
            decreases SHARD_COUNT - i,
        {
            self.purge_shard(i, now);
            i = i + 1;
        }
    }

    /// Hands out the records made since the last call, oldest first.
    pub fn take_log(&mut self) -> (r: Vec<Frame>)
        requires
            old(self).wf(),
        ensures
            final(self).wf(),
            final(self)@.shards == old(self)@.shards,
            final(self)@.pending == Seq::<FrameModel>::empty(),
            r@.map_values(|f: Frame| f@) == old(self)@.pending,
    {
        let mut r: Vec<Frame> = Vec::new();
        std::mem::swap(&mut r, &mut self.pending);
        assert(self@.pending =~= Seq::<FrameModel>::empty());
        assert(r@.map_values(|f: Frame| f@) =~= old(self)@.pending);
        r
    }
}

} // verus!
