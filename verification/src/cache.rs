use vstd::prelude::*;
use lru::LruCache;

verus! {

#[verifier::external_type_specification]
#[verifier::external_body]
#[verifier::reject_recursive_types(K)]
#[verifier::reject_recursive_types(V)]
#[verifier::reject_recursive_types(S)]
pub struct ExLruCache<K, V, S>(LruCache<K, V, S>);

#[verifier::external_type_specification]
#[verifier::external_body]
pub struct ExLruDefaultHasher(lru::DefaultHasher);

/// The entries of a cache, most recently used first.
pub uninterp spec fn cache_entries(c: LruCache<String, Vec<u8>>) -> Seq<(Seq<char>, Seq<u8>)>;

/// The number of entries a cache was made to hold.
pub uninterp spec fn cache_capacity(c: LruCache<String, Vec<u8>>) -> nat;

/// Whether some entry has the key `k`.
pub open spec fn holds_key(e: Seq<(Seq<char>, Seq<u8>)>, k: Seq<char>) -> bool {
    exists|i: int| 0 <= i < e.len() && (#[trigger] e[i]).0 == k
}

/// Where the entry with key `k` stands.
pub open spec fn position_of(e: Seq<(Seq<char>, Seq<u8>)>, k: Seq<char>) -> int {
    choose|i: int| 0 <= i < e.len() && (#[trigger] e[i]).0 == k
}

/// No key twice, no more entries than the capacity, and room for one.
pub open spec fn entries_ok(e: Seq<(Seq<char>, Seq<u8>)>, cap: nat) -> bool {
    &&& cap >= 1
    &&& e.len() <= cap
    &&& forall|i: int, j: int| 0 <= i < j < e.len() ==> (#[trigger] e[i]).0 != (#[trigger] e[j]).0
}

/// What `put` leaves: the entry goes to the front, replacing the entry with
/// the same key, or else evicting the least recently used entry when full.
pub open spec fn entries_after_put(
    e: Seq<(Seq<char>, Seq<u8>)>,
    cap: nat,
    k: Seq<char>,
    v: Seq<u8>,
) -> Seq<(Seq<char>, Seq<u8>)> {
    if holds_key(e, k) {
        seq![(k, v)] + e.remove(position_of(e, k))
    } else if e.len() == cap {
        seq![(k, v)] + e.drop_last()
    } else {
        seq![(k, v)] + e
    }
}

/// `LruCache::new`, with the capacity made by `NonZeroUsize::new`: an empty
/// cache that holds at most `cap` entries.
#[verifier::external_body]
pub(crate) fn cache_new(cap: usize) -> (r: LruCache<String, Vec<u8>>)
    requires
        cap > 0,
    ensures
        cache_entries(r) == Seq::<(Seq<char>, Seq<u8>)>::empty(),
        cache_capacity(r) == cap,
{
    LruCache::new(std::num::NonZeroUsize::new(cap).unwrap())
}

/// `LruCache::put`: stores `v` under `k` as the most recently used entry and
/// gives back the value it replaced; a full cache without `k` evicts its least
/// recently used entry.
#[verifier::external_body]
pub(crate) fn cache_put(c: &mut LruCache<String, Vec<u8>>, k: String, v: Vec<u8>) -> (r: Option<
    Vec<u8>,
>)
    ensures
        cache_capacity(*final(c)) == cache_capacity(*old(c)),
        entries_ok(cache_entries(*final(c)), cache_capacity(*final(c))),
        cache_entries(*final(c)) == entries_after_put(
            cache_entries(*old(c)),
            cache_capacity(*old(c)),
            k@,
            v@,
        ),
        match r {
            Some(old_value) => holds_key(cache_entries(*old(c)), k@) && old_value@ == cache_entries(
                *old(c),
            )[position_of(cache_entries(*old(c)), k@)].1,
            None => !holds_key(cache_entries(*old(c)), k@),
        },
{
    c.put(k, v)
}

/// `LruCache::get`, the value copied out: the value under `k`, which becomes
/// the most recently used entry.
#[verifier::external_body]
pub(crate) fn cache_get(c: &mut LruCache<String, Vec<u8>>, k: &str) -> (r: Option<Vec<u8>>)
    ensures
        cache_capacity(*final(c)) == cache_capacity(*old(c)),
        entries_ok(cache_entries(*final(c)), cache_capacity(*final(c))),
        if holds_key(cache_entries(*old(c)), k@) {
            let e = cache_entries(*old(c));
            let i = position_of(e, k@);
            &&& r is Some
            &&& r->0@ == e[i].1
            &&& cache_entries(*final(c)) == seq![e[i]] + e.remove(i)
        } else {
            &&& r is None
            &&& cache_entries(*final(c)) == cache_entries(*old(c))
        },
{
    c.get(k).cloned()
}

/// `LruCache::contains`: whether `k` has an entry; the order stays.
#[verifier::external_body]
pub(crate) fn cache_contains(c: &LruCache<String, Vec<u8>>, k: &str) -> (r: bool)
    ensures
        r == holds_key(cache_entries(*c), k@),
{
    c.contains(k)
}

/// `LruCache::pop`: removes the entry under `k` and gives back its value.
#[verifier::external_body]
pub(crate) fn cache_pop(c: &mut LruCache<String, Vec<u8>>, k: &str) -> (r: Option<Vec<u8>>)
    ensures
        cache_capacity(*final(c)) == cache_capacity(*old(c)),
        entries_ok(cache_entries(*final(c)), cache_capacity(*final(c))),
        if holds_key(cache_entries(*old(c)), k@) {
            let e = cache_entries(*old(c));
            let i = position_of(e, k@);
            &&& r is Some
            &&& r->0@ == e[i].1
            &&& cache_entries(*final(c)) == e.remove(i)
        } else {
            &&& r is None
            &&& cache_entries(*final(c)) == cache_entries(*old(c))
        },
{
    c.pop(k)
}

} // verus!
