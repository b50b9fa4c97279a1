use vstd::prelude::*;
use crate::cache::{entries_after_put, entries_ok, holds_key, position_of};
use crate::db::{
    deadline_index, deadline_of, deadlines_insert, deadlines_ok, deadlines_remove, expired_keys,
    has_deadline, shard_of, DbModel, ShardModel, NANOS_PER_SEC, SHARD_CAPACITY, SHARD_COUNT,
};

verus! {

proof fn lemma_position_unique(e: Seq<(Seq<char>, Seq<u8>)>, k: Seq<char>, i: int)
    requires
        forall|a: int, b: int| 0 <= a < b < e.len() ==> (#[trigger] e[a]).0 != (#[trigger] e[b]).0,
        0 <= i < e.len(),
        e[i].0 == k,
    ensures
        holds_key(e, k),
        position_of(e, k) == i,
{
    assert(holds_key(e, k));
    let p = position_of(e, k);
    if p < i {
        assert(e[p].0 != e[i].0);
    } else if p > i {
        assert(e[i].0 != e[p].0);
    }
}

proof fn lemma_no_deadline_after_remove(x: Seq<(Seq<char>, int)>, k: Seq<char>)
    requires
        deadlines_ok(x),
    ensures
        !has_deadline(deadlines_remove(x, k), k),
        deadlines_ok(deadlines_remove(x, k)),
{
    let r = deadlines_remove(x, k);
    if has_deadline(x, k) {
        let i = deadline_index(x, k);
        assert forall|j: int| 0 <= j < r.len() implies (#[trigger] r[j]).0 != k by {
            if j < i {
                assert(r[j] == x[j]);
                assert(x[j].0 != x[i].0);
            } else {
                assert(r[j] == x[j + 1]);
                assert(x[i].0 != x[j + 1].0);
            }
        }
        assert forall|a: int, b: int| 0 <= a < b < r.len() implies (#[trigger] r[a]).0 != (
        #[trigger] r[b]).0 by {
            let a2 = if a < i { a } else { a + 1 };
            let b2 = if b < i { b } else { b + 1 };
            assert(r[a] == x[a2]);
            assert(r[b] == x[b2]);
        }
    }
}

proof fn lemma_deadline_after_insert(x: Seq<(Seq<char>, int)>, k: Seq<char>, d: int)
    requires
        deadlines_ok(x),
    ensures
        deadline_of(deadlines_insert(x, k, d), k) == Some(d),
        deadlines_ok(deadlines_insert(x, k, d)),
{
    let r = deadlines_insert(x, k, d);
    if has_deadline(x, k) {
        let i = deadline_index(x, k);
        assert forall|a: int, b: int| 0 <= a < b < r.len() implies (#[trigger] r[a]).0 != (
        #[trigger] r[b]).0 by {
            if a == i {
                assert(x[a].0 != x[b].0);
            } else if b == i {
                assert(x[a].0 != x[b].0);
            } else {
                assert(x[a].0 != x[b].0);
            }
        }
        assert(r[i].0 == k);
        assert(has_deadline(r, k));
        let c = deadline_index(r, k);
        if c != i {
            if c < i {
                assert(r[c].0 != r[i].0);
            } else {
                assert(r[i].0 != r[c].0);
            }
        }
    } else {
        let n = x.len() as int;
        assert forall|a: int, b: int| 0 <= a < b < r.len() implies (#[trigger] r[a]).0 != (
        #[trigger] r[b]).0 by {
            if b == n {
                assert(r[a] == x[a]);
                assert(!(0 <= a < x.len() && x[a].0 == k));
            } else {
                assert(x[a].0 != x[b].0);
            }
        }
        assert(r[n].0 == k);
        assert(has_deadline(r, k));
        let c = deadline_index(r, k);
        if c != n {
            assert(r[c] == x[c]);
            assert(!(0 <= c < x.len() && x[c].0 == k));
        }
    }
}

/// A value just put is the most recently used entry, and no key is twice.
proof fn lemma_put_front(e: Seq<(Seq<char>, Seq<u8>)>, cap: nat, k: Seq<char>, v: Seq<u8>)
    requires
        entries_ok(e, cap),
    ensures
        entries_ok(entries_after_put(e, cap, k, v), cap),
        holds_key(entries_after_put(e, cap, k, v), k),
        position_of(entries_after_put(e, cap, k, v), k) == 0,
        entries_after_put(e, cap, k, v)[0] == (k, v),
{
    let r = entries_after_put(e, cap, k, v);
    let rest = r.drop_first();
    assert(r == seq![(k, v)] + rest);
    if holds_key(e, k) {
        let i = position_of(e, k);
        assert(rest =~= e.remove(i));
        assert forall|j: int| 0 <= j < rest.len() implies (#[trigger] rest[j]).0 != k by {
            if j < i {
                assert(e[j].0 != e[i].0);
            } else {
                assert(e[i].0 != e[j + 1].0);
            }
        }
        assert forall|a: int, b: int| 0 <= a < b < rest.len() implies (#[trigger] rest[a]).0 != (
        #[trigger] rest[b]).0 by {
            let a2 = if a < i { a } else { a + 1 };
            let b2 = if b < i { b } else { b + 1 };
            assert(rest[a] == e[a2]);
            assert(rest[b] == e[b2]);
        }
    } else if e.len() == cap {
        assert(rest =~= e.drop_last());
        assert forall|j: int| 0 <= j < rest.len() implies (#[trigger] rest[j]).0 != k by {
            assert(rest[j] == e[j]);
        }
        assert forall|a: int, b: int| 0 <= a < b < rest.len() implies (#[trigger] rest[a]).0 != (
        #[trigger] rest[b]).0 by {
            assert(rest[a] == e[a]);
            assert(rest[b] == e[b]);
        }
    } else {
        assert(rest =~= e);
        assert forall|j: int| 0 <= j < rest.len() implies (#[trigger] rest[j]).0 != k by {}
    }
    assert forall|a: int, b: int| 0 <= a < b < r.len() implies (#[trigger] r[a]).0 != (
    #[trigger] r[b]).0 by {
        if a == 0 {
            assert(r[b] == rest[b - 1]);
        } else {
            assert(r[a] == rest[a - 1]);
            assert(r[b] == rest[b - 1]);
        }
    }
    lemma_position_unique(r, k, 0);
}

/// In a shard, a value just stored reads back, at any time.
pub proof fn lemma_shard_get_after_set(m: ShardModel, k: Seq<char>, v: Seq<u8>, now: int)
    requires
        m.wf(),
    ensures
        m.set(k, v).wf(),
        m.set(k, v).get(k, now).1 == Some(v),
{
    lemma_put_front(m.entries, m.cap, k, v);
    lemma_no_deadline_after_remove(m.expirations, k);
}

/// A full shard that takes a new key evicts its least recently used key, and
/// only that one: it still holds as many keys as its capacity, the new key
/// among them.
pub proof fn lemma_shard_lru_eviction(m: ShardModel, k: Seq<char>, v: Seq<u8>)
    requires
        m.wf(),
        m.entries.len() == m.cap,
        !holds_key(m.entries, k),
    ensures
        m.set(k, v).entries.len() == m.cap,
        m.set(k, v).entries[0] == (k, v),
        !holds_key(m.set(k, v).entries, m.entries.last().0),
        forall|i: int|
            0 <= i < m.entries.len() - 1 ==> holds_key(m.set(k, v).entries, #[trigger] m.entries[i].0),
{
    let e = m.entries;
    let after = m.set(k, v).entries;
    assert(after =~= seq![(k, v)] + e.drop_last());
    let last = e.last().0;
    if holds_key(after, last) {
        let j = choose|j: int| 0 <= j < after.len() && (#[trigger] after[j]).0 == last;
        if j == 0 {
            assert(e[e.len() - 1].0 == last);
            assert(holds_key(e, k));
        } else {
            assert(after[j] == e[j - 1]);
            assert(e[j - 1].0 != e[e.len() - 1].0);
        }
    }
    assert forall|i: int| 0 <= i < e.len() - 1 implies holds_key(after, #[trigger] e[i].0) by {
        assert(after[i + 1] == e[i]);
    }
}

/// No shard of a store holds more than `SHARD_CAPACITY` keys; storing a new
/// key in a full shard evicts that shard's least recently used key, and only
/// that one, and leaves the shard full.
pub proof fn lemma_store_lru(db: DbModel, k: Seq<char>, v: Seq<u8>)
    requires
        db.wf(),
    ensures
        forall|i: int| 0 <= i < SHARD_COUNT ==> (#[trigger] db.shards[i]).entries.len() <= SHARD_CAPACITY,
        db.shard(k).entries.len() == SHARD_CAPACITY && !holds_key(db.shard(k).entries, k) ==> {
            let after = db.set(k, v).shard(k).entries;
            &&& after.len() == SHARD_CAPACITY
            &&& after[0] == (k, v)
            &&& !holds_key(after, db.shard(k).entries.last().0)
            &&& forall|i: int|
                0 <= i < db.shard(k).entries.len() - 1 ==> holds_key(
                    after,
                    #[trigger] db.shard(k).entries[i].0,
                )
        },
{
    assert(0 <= shard_of(k) < SHARD_COUNT);
    let m = db.shard(k);
    assert(m.wf() && m.cap == SHARD_CAPACITY);
    if m.entries.len() == SHARD_CAPACITY && !holds_key(m.entries, k) {
        lemma_shard_lru_eviction(m, k, v);
        assert(db.set(k, v).shard(k) == m.set(k, v));
    }
}

/// Reading a key back after storing it gives the value stored, whenever the
/// read happens: storing drops any deadline the key had.
pub proof fn lemma_get_after_set(db: DbModel, k: Seq<char>, v: Seq<u8>, now: int)
    requires
        db.wf(),
    ensures
        db.set(k, v).get(k, now).1 == Some(v),
        db.set_inner(k, v).get(k, now).1 == Some(v),
        db.set(k, v).wf(),
{
    assert(0 <= shard_of(k) < 16);
    lemma_shard_get_after_set(db.shard(k), k, v, now);
    let d = db.set(k, v);
    assert(d.shard(k) == db.shard(k).set(k, v));
    assert forall|i: int| 0 <= i < d.shards.len() implies (#[trigger] d.shards[i]).wf() by {
        if i != shard_of(k) {
            assert(d.shards[i] == db.shards[i]);
        }
    }
}

/// A key made to expire reads as absent once its deadline has passed, and as
/// its value until then.
pub proof fn lemma_get_after_expire(db: DbModel, k: Seq<char>, secs: nat, t0: int, now: int)
    requires
        db.wf(),
        db.set_expires(k, secs, t0).1,
    ensures
        now > t0 + secs * NANOS_PER_SEC ==> db.set_expires(k, secs, t0).0.get(k, now).1 is None,
        now <= t0 + secs * NANOS_PER_SEC ==> db.set_expires(k, secs, t0).0.get(k, now).1 == Some(
            db.shard(k).entries[position_of(db.shard(k).entries, k)].1,
        ),
{
    assert(0 <= shard_of(k) < 16);
    let m = db.shard(k);
    let d = t0 + secs * NANOS_PER_SEC;
    lemma_deadline_after_insert(m.expirations, k, d);
    let d1 = db.set_expires(k, secs, t0).0;
    assert(d1.shard(k) == m.set_deadline(k, d));
}

/// Making a key that holds no value expire changes nothing and says so.
pub proof fn lemma_expire_absent(db: DbModel, k: Seq<char>, secs: nat, t0: int)
    requires
        !holds_key(db.shard(k).entries, k),
    ensures
        db.set_expires(k, secs, t0) == (db, false),
{
}

/// A deleted key reads as absent.
pub proof fn lemma_get_after_del(db: DbModel, k: Seq<char>, now: int, later: int)
    requires
        db.wf(),
    ensures
        db.del_one(k, now).0.get(k, later).1 is None,
{
    assert(0 <= shard_of(k) < 16);
    let m = db.shard(k);
    let m2 = m.remove(k).0;
    lemma_no_deadline_after_remove(m.expirations, k);
    if holds_key(m.entries, k) {
        let i = position_of(m.entries, k);
        let e = m.entries.remove(i);
        assert forall|j: int| 0 <= j < e.len() implies (#[trigger] e[j]).0 != k by {
            if j < i {
                assert(m.entries[j].0 != m.entries[i].0);
            } else {
                assert(m.entries[i].0 != m.entries[j + 1].0);
            }
        }
    }
    let d1 = db.del_one(k, now).0;
    assert(d1.shard(k) == m2);
}


/// Every deadline left after removing `k` was there before.
proof fn lemma_remove_keeps_others(x: Seq<(Seq<char>, int)>, k: Seq<char>)
    requires
        deadlines_ok(x),
    ensures
        forall|j: int|
            0 <= j < deadlines_remove(x, k).len() ==> x.contains(#[trigger] deadlines_remove(x, k)[j]),
{
    let r = deadlines_remove(x, k);
    if has_deadline(x, k) {
        let i = deadline_index(x, k);
        assert forall|j: int| 0 <= j < r.len() implies x.contains(#[trigger] r[j]) by {
            if j < i {
                assert(r[j] == x[j]);
            } else {
                assert(r[j] == x[j + 1]);
            }
        }
    } else {
        assert forall|j: int| 0 <= j < r.len() implies x.contains(#[trigger] r[j]) by {
            assert(r[j] == x[j]);
        }
    }
}

/// Removing keys leaves only deadlines that were there, none of a removed key.
proof fn lemma_remove_all(m: ShardModel, ks: Seq<Seq<char>>)
    requires
        deadlines_ok(m.expirations),
    ensures
        deadlines_ok(m.remove_all(ks).expirations),
        forall|j: int|
            0 <= j < m.remove_all(ks).expirations.len() ==> m.expirations.contains(
                #[trigger] m.remove_all(ks).expirations[j],
            ) && !ks.contains(m.remove_all(ks).expirations[j].0),
    decreases ks.len(),
{
    if ks.len() > 0 {
        let prev = m.remove_all(ks.drop_last());
        lemma_remove_all(m, ks.drop_last());
        let k = ks.last();
        let x = prev.expirations;
        lemma_no_deadline_after_remove(x, k);
        lemma_remove_keeps_others(x, k);
        let r = m.remove_all(ks).expirations;
        assert(r == deadlines_remove(x, k));
        assert forall|j: int| 0 <= j < r.len() implies m.expirations.contains(#[trigger] r[j])
            && !ks.contains(r[j].0) by {
            assert(x.contains(r[j]));
            let q = choose|q: int| 0 <= q < x.len() && x[q] == r[j];
            assert(m.expirations.contains(x[q]));
            assert(!ks.drop_last().contains(x[q].0));
            assert(r[j].0 != k) by {
                if r[j].0 == k {
                    assert(has_deadline(r, k));
                }
            }
            if ks.contains(r[j].0) {
                let w = choose|w: int| 0 <= w < ks.len() && ks[w] == r[j].0;
                if w < ks.len() - 1 {
                    assert(ks.drop_last()[w] == ks[w]);
                }
            }
        }
    }
}

/// A deadline that `now` is past names a key of `expired_keys`.
proof fn lemma_expired_listed(x: Seq<(Seq<char>, int)>, now: int, j: int)
    requires
        0 <= j < x.len(),
        now > x[j].1,
    ensures
        expired_keys(x, now).contains(x[j].0),
    decreases x.len(),
{
    if j == x.len() - 1 {
        let e = expired_keys(x, now);
        assert(e[e.len() - 1] == x[j].0);
    } else {
        assert(x.drop_last()[j] == x[j]);
        lemma_expired_listed(x.drop_last(), now, j);
        let p = expired_keys(x.drop_last(), now);
        let w = choose|w: int| 0 <= w < p.len() && p[w] == x[j].0;
        let e = expired_keys(x, now);
        assert(e[w] == p[w]);
    }
}

/// After a shard is purged at `now`, no key in it has a deadline that `now` is
/// past.
pub proof fn lemma_shard_purge(m: ShardModel, now: int)
    requires
        deadlines_ok(m.expirations),
    ensures
        deadlines_ok(m.purge(now).expirations),
        forall|j: int|
            0 <= j < m.purge(now).expirations.len() ==> !(now > (
            #[trigger] m.purge(now).expirations[j]).1),
{
    let ks = expired_keys(m.expirations, now);
    lemma_remove_all(m, ks);
    let r = m.purge(now).expirations;
    assert forall|j: int| 0 <= j < r.len() implies !(now > (#[trigger] r[j]).1) by {
        assert(m.expirations.contains(r[j]));
        let q = choose|q: int| 0 <= q < m.expirations.len() && m.expirations[q] == r[j];
        if now > r[j].1 {
            lemma_expired_listed(m.expirations, now, q);
        }
    }
}

/// After the cleaner runs at `now`, no key anywhere has a deadline that `now`
/// is past.
pub proof fn lemma_purge(db: DbModel, now: int)
    requires
        db.wf(),
    ensures
        forall|i: int, j: int|
            0 <= i < db.purge(now).shards.len() && 0 <= j < db.purge(now).shards[i].expirations.len()
                ==> !(now > (#[trigger] db.purge(now).shards[i].expirations[j]).1),
{
    lemma_purge_shards(db, now, 16);
}

proof fn lemma_purge_shards(db: DbModel, now: int, n: int)
    requires
        db.wf(),
        0 <= n <= 16,
    ensures
        db.purge_shards(now, n).shards.len() == 16,
        forall|i: int| n <= i < 16 ==> #[trigger] db.purge_shards(now, n).shards[i] == db.shards[i],
        forall|i: int|
            0 <= i < n ==> deadlines_ok(#[trigger] db.purge_shards(now, n).shards[i].expirations),
        forall|i: int, j: int|
            0 <= i < n && 0 <= j < db.purge_shards(now, n).shards[i].expirations.len() ==> !(now > (
            #[trigger] db.purge_shards(now, n).shards[i].expirations[j]).1),
    decreases n,
{
    if n > 0 {
        lemma_purge_shards(db, now, n - 1);
        let d = db.purge_shards(now, n - 1);
        let m = d.shards[n - 1];
        assert(m == db.shards[n - 1]);
        assert(db.shards[n - 1].wf());
        lemma_shard_purge(m, now);
    }
}

} // verus!
