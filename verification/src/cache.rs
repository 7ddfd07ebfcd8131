//! The two-tier cache engine: the in-memory L1 tier with its LRU queue and
//! the hit counters that drive promotion from the durable L2 tier.
//!
//! This module holds the verified cache state and every decision the cache
//! makes: L1 lookup and eviction, hit counting, promotion, expiry-driven
//! removal, and the plan for storing an entry in L2.  The L2 backend round
//! trips themselves are performed outside and their results are fed back in
//! as plain values.

use vstd::prelude::*;

use crate::entry::{born_stale, entry_valid_at, CacheEntry, EntryView};
use crate::text::{chars_to_string, eq_chars, to_chars};

verus! {

// ---------------------------------------------------------------------------
// Configuration.
// ---------------------------------------------------------------------------

/// Configuration of the cache.
pub struct CacheConfig {
    /// Maximum number of entries in the in-memory L1 tier.
    pub l1_max_size: usize,
    /// Default time-to-live for L1 entries, in seconds (reserved; the
    /// freshness policy currently decides expiry on its own).
    pub l1_default_ttl: u64,
    /// Number of L2 hits required to promote an entry into L1.
    pub promotion_threshold: usize,
    /// Connection string of the L2 backend.
    pub redis_url: String,
}

impl Default for CacheConfig {
    /// The default configuration.
    fn default() -> (r: CacheConfig)
        ensures
            r.l1_max_size == 1000,
            r.l1_default_ttl == 20,
            r.promotion_threshold == 5,
            r.redis_url@ == "redis://127.0.0.1/"@,
    {
        CacheConfig {
            l1_max_size: 1000,
            l1_default_ttl: 20,
            promotion_threshold: 5,
            redis_url: String::from_str("redis://127.0.0.1/"),
        }
    }
}

// ---------------------------------------------------------------------------
// The mathematical cache state.
// ---------------------------------------------------------------------------

/// The mathematical content of the cache's own state: the L1 tier (host
/// key, entry, access count), the LRU queue (front is the eviction victim),
/// the hit counters, and the two configuration numbers the decisions use.
#[verifier::ext_equal]
pub struct CacheView {
    pub l1: Seq<(Seq<char>, EntryView, int)>,
    pub lru: Seq<Seq<char>>,
    pub counters: Seq<(Seq<char>, int)>,
    pub l1_max: int,
    pub threshold: int,
}

/// The first index at or after `i` of key `k` in a key sequence, or the
/// length if there is none.
pub open spec fn kidx(ks: Seq<Seq<char>>, i: int, k: Seq<char>) -> int
    decreases ks.len() - i,
{
    if i < 0 || i >= ks.len() {
        ks.len() as int
    } else if ks[i] == k {
        i
    } else {
        kidx(ks, i + 1, k)
    }
}

pub proof fn lemma_kidx(ks: Seq<Seq<char>>, i: int, k: Seq<char>)
    requires
        0 <= i <= ks.len(),
    ensures
        i <= kidx(ks, i, k) <= ks.len(),
        kidx(ks, i, k) < ks.len() ==> ks[kidx(ks, i, k)] == k,
        forall|j: int| i <= j < kidx(ks, i, k) ==> ks[j] != k,
    decreases ks.len() - i,
{
    if i < ks.len() && ks[i] != k {
        lemma_kidx(ks, i + 1, k);
    }
}

/// The first index at or after `i` of key `k` in the L1 tier, or the length
/// if there is none.
pub open spec fn kidx3(l1: Seq<(Seq<char>, EntryView, int)>, i: int, k: Seq<char>) -> int
    decreases l1.len() - i,
{
    if i < 0 || i >= l1.len() {
        l1.len() as int
    } else if l1[i].0 == k {
        i
    } else {
        kidx3(l1, i + 1, k)
    }
}

pub proof fn lemma_kidx3(l1: Seq<(Seq<char>, EntryView, int)>, i: int, k: Seq<char>)
    requires
        0 <= i <= l1.len(),
    ensures
        i <= kidx3(l1, i, k) <= l1.len(),
        kidx3(l1, i, k) < l1.len() ==> l1[kidx3(l1, i, k)].0 == k,
        forall|j: int| i <= j < kidx3(l1, i, k) ==> (#[trigger] l1[j]).0 != k,
    decreases l1.len() - i,
{
    if i < l1.len() && l1[i].0 != k {
        lemma_kidx3(l1, i + 1, k);
    }
}

/// The first index at or after `i` of key `k` among the counters, or the
/// length if there is none.
pub open spec fn kidx2(cs: Seq<(Seq<char>, int)>, i: int, k: Seq<char>) -> int
    decreases cs.len() - i,
{
    if i < 0 || i >= cs.len() {
        cs.len() as int
    } else if cs[i].0 == k {
        i
    } else {
        kidx2(cs, i + 1, k)
    }
}

pub proof fn lemma_kidx2(cs: Seq<(Seq<char>, int)>, i: int, k: Seq<char>)
    requires
        0 <= i <= cs.len(),
    ensures
        i <= kidx2(cs, i, k) <= cs.len(),
        kidx2(cs, i, k) < cs.len() ==> cs[kidx2(cs, i, k)].0 == k,
        forall|j: int| i <= j < kidx2(cs, i, k) ==> (#[trigger] cs[j]).0 != k,
    decreases cs.len() - i,
{
    if i < cs.len() && cs[i].0 != k {
        lemma_kidx2(cs, i + 1, k);
    }
}

/// Whether key `k` occurs in the key sequence.
pub open spec fn has_key(ks: Seq<Seq<char>>, k: Seq<char>) -> bool {
    exists|i: int| 0 <= i < ks.len() && ks[i] == k
}

/// Whether some L1 slot holds key `k`.
pub open spec fn l1_has_key(l1: Seq<(Seq<char>, EntryView, int)>, k: Seq<char>) -> bool {
    exists|i: int| 0 <= i < l1.len() && (#[trigger] l1[i]).0 == k
}

/// Well-formedness of the cache state:
/// keys are pairwise distinct in each structure; the L1 keys and the LRU
/// queue are in bijection (mutual membership and equal length); L1 never
/// exceeds its capacity; no stored entry is born stale; and every stored
/// hit counter is positive and below the promotion threshold.
pub open spec fn cv_wf(c: CacheView) -> bool {
    &&& forall|i: int, j: int|
        0 <= i < j < c.l1.len() ==> (#[trigger] c.l1[i]).0 != (#[trigger] c.l1[j]).0
    &&& forall|i: int, j: int|
        0 <= i < j < c.lru.len() ==> #[trigger] c.lru[i] != #[trigger] c.lru[j]
    &&& forall|i: int, j: int|
        0 <= i < j < c.counters.len() ==> (#[trigger] c.counters[i]).0 != (
        #[trigger] c.counters[j]).0
    &&& c.l1.len() == c.lru.len()
    &&& forall|i: int| 0 <= i < c.l1.len() ==> has_key(c.lru, (#[trigger] c.l1[i]).0)
    &&& forall|i: int| 0 <= i < c.lru.len() ==> l1_has_key(c.l1, #[trigger] c.lru[i])
    &&& c.l1.len() <= c.l1_max
    &&& forall|i: int| 0 <= i < c.l1.len() ==> !born_stale((#[trigger] c.l1[i]).1)
    &&& forall|i: int|
        0 <= i < c.counters.len() ==> 0 < (#[trigger] c.counters[i]).1 < c.threshold
}

// ---------------------------------------------------------------------------
// The spec-level transitions.
// ---------------------------------------------------------------------------

/// Removal of key `k` from the L1 tier and the LRU queue, if present.
pub open spec fn cv_remove_key(c: CacheView, k: Seq<char>) -> CacheView {
    let i = kidx3(c.l1, 0, k);
    if i < c.l1.len() {
        CacheView { l1: c.l1.remove(i), lru: c.lru.remove(kidx(c.lru, 0, k)), ..c }
    } else {
        c
    }
}

/// The L1 lookup step at instant `now`: a present, still-valid entry has
/// its access count bumped and is returned; a present but expired entry is
/// removed from L1 and the LRU queue; an absent key changes nothing.
pub open spec fn cv_get_l1(c: CacheView, k: Seq<char>, now: u64) -> (CacheView, Option<
    EntryView,
>) {
    let i = kidx3(c.l1, 0, k);
    if i >= c.l1.len() {
        (c, None)
    } else {
        let slot = c.l1[i];
        if entry_valid_at(slot.1, now) {
            let bumped = if slot.2 < usize::MAX {
                slot.2 + 1
            } else {
                slot.2
            };
            (CacheView { l1: c.l1.update(i, (slot.0, slot.1, bumped)), ..c }, Some(slot.1))
        } else {
            (CacheView { l1: c.l1.remove(i), lru: c.lru.remove(kidx(c.lru, 0, k)), ..c }, None)
        }
    }
}

/// Emptying of the L1 tier and the LRU queue; hit counters are kept.
pub open spec fn cv_clear(c: CacheView) -> CacheView {
    CacheView { l1: Seq::empty(), lru: Seq::empty(), ..c }
}

/// Whether an entry may be stored at `now`: it is still valid and was not
/// born stale.
pub open spec fn storable_at(e: EntryView, now: u64) -> bool {
    entry_valid_at(e, now) && !born_stale(e)
}

/// One recorded hit for key `k`: the counter is created at 1 or bumped;
/// reaching the promotion threshold erases it and signals promotion.
pub open spec fn cv_note_hit(c: CacheView, k: Seq<char>) -> (CacheView, bool) {
    let i = kidx2(c.counters, 0, k);
    let prev = if i < c.counters.len() {
        c.counters[i].1
    } else {
        0
    };
    let newv = prev + 1;
    if newv >= c.threshold {
        (
            CacheView {
                counters: if i < c.counters.len() {
                    c.counters.remove(i)
                } else {
                    c.counters
                },
                ..c
            },
            true,
        )
    } else if i < c.counters.len() {
        (CacheView { counters: c.counters.update(i, (k, newv)), ..c }, false)
    } else {
        (CacheView { counters: c.counters.push((k, newv)), ..c }, false)
    }
}

/// Eviction of the least recently used key: the front of the LRU queue
/// leaves the queue and its slot leaves L1.
pub open spec fn cv_evict_front(c: CacheView) -> CacheView {
    if c.lru.len() == 0 {
        c
    } else {
        let v = c.lru[0];
        let i = kidx3(c.l1, 0, v);
        if i < c.l1.len() {
            CacheView { l1: c.l1.remove(i), lru: c.lru.drop_first(), ..c }
        } else {
            CacheView { lru: c.lru.drop_first(), ..c }
        }
    }
}

/// Insertion into L1 at instant `now`, with LRU eviction.
///
/// An entry that may not be stored, or a capacity of zero, changes
/// nothing.  Otherwise any old slot of the key is removed, the least
/// recently used key is evicted if L1 is full, and the entry is inserted
/// with access count 1 and its key at the back of the LRU queue.  The
/// second component is the time to the entry's expiry, to be used for the
/// deferred removal.
pub open spec fn cv_put_l1(c: CacheView, k: Seq<char>, e: EntryView, now: u64) -> (CacheView, Option<
    u64,
>) {
    if !storable_at(e, now) || c.l1_max <= 0 {
        (c, None)
    } else {
        let c1 = cv_remove_key(c, k);
        let c2 = if c1.l1.len() >= c.l1_max {
            cv_evict_front(c1)
        } else {
            c1
        };
        let c3 = CacheView { l1: c2.l1.push((k, e, 1)), lru: c2.lru.push(k), ..c2 };
        (
            c3,
            match e.expires_at {
                Some(x) => Some((x - now) as u64),
                None => None,
            },
        )
    }
}

/// The outcome of taking an entry fetched from L2 at instant `now`: an
/// expired entry is ignored; a valid one is returned and counted as a hit,
/// possibly signalling promotion.
pub open spec fn cv_accept_l2(c: CacheView, k: Seq<char>, e: EntryView, now: u64) -> (
    CacheView,
    bool,
    bool,
) {
    if !entry_valid_at(e, now) {
        (c, false, false)
    } else {
        let r = cv_note_hit(c, k);
        (r.0, true, r.1)
    }
}

// ---------------------------------------------------------------------------
// Well-formedness lemmas for the transitions.
// ---------------------------------------------------------------------------

/// Removing the slot at `i` and its LRU twin at `j` preserves
/// well-formedness, and removes exactly that key.
pub proof fn lemma_wf_remove_pair(c: CacheView, i: int, j: int)
    requires
        cv_wf(c),
        0 <= i < c.l1.len(),
        0 <= j < c.lru.len(),
        c.l1[i].0 == c.lru[j],
    ensures
        cv_wf(CacheView { l1: c.l1.remove(i), lru: c.lru.remove(j), ..c }),
        !l1_has_key(c.l1.remove(i), c.l1[i].0),
        forall|k2: Seq<char>|
            k2 != c.l1[i].0 ==> #[trigger] l1_has_key(c.l1.remove(i), k2) == l1_has_key(c.l1, k2),
{
    let k = c.l1[i].0;
    let nl1 = c.l1.remove(i);
    let nlru = c.lru.remove(j);
    c.l1.remove_ensures(i);
    c.lru.remove_ensures(j);
    assert forall|t: int| 0 <= t < nl1.len() implies has_key(nlru, (#[trigger] nl1[t]).0) by {
        let ot = if t < i {
            t
        } else {
            t + 1
        };
        assert(nl1[t] == c.l1[ot]);
        assert(c.l1[ot].0 != k);
        assert(has_key(c.lru, c.l1[ot].0));
        let w = choose|w: int| 0 <= w < c.lru.len() && c.lru[w] == c.l1[ot].0;
        assert(w != j);
        if w < j {
            assert(nlru[w] == c.lru[w]);
        } else {
            assert(nlru[w - 1] == c.lru[w]);
        }
    }
    assert forall|t: int| 0 <= t < nlru.len() implies l1_has_key(nl1, #[trigger] nlru[t]) by {
        let ot = if t < j {
            t
        } else {
            t + 1
        };
        assert(nlru[t] == c.lru[ot]);
        assert(c.lru[ot] != k);
        assert(l1_has_key(c.l1, c.lru[ot]));
        let w = choose|w: int| 0 <= w < c.l1.len() && (#[trigger] c.l1[w]).0 == c.lru[ot];
        assert(w != i);
        if w < i {
            assert(nl1[w] == c.l1[w]);
        } else {
            assert(nl1[w - 1] == c.l1[w]);
        }
    }
    assert forall|k2: Seq<char>|
        k2 != k implies #[trigger] l1_has_key(nl1, k2) == l1_has_key(c.l1, k2) by {
        if l1_has_key(nl1, k2) {
            let w = choose|w: int| 0 <= w < nl1.len() && (#[trigger] nl1[w]).0 == k2;
            let ow = if w < i {
                w
            } else {
                w + 1
            };
            assert(c.l1[ow].0 == k2);
        }
        if l1_has_key(c.l1, k2) {
            let w = choose|w: int| 0 <= w < c.l1.len() && (#[trigger] c.l1[w]).0 == k2;
            assert(w != i);
            if w < i {
                assert(nl1[w].0 == k2);
            } else {
                assert(nl1[w - 1].0 == k2);
            }
        }
    }
    assert forall|t: int| 0 <= t < nl1.len() implies (#[trigger] nl1[t]).0 != k by {
        let ot = if t < i {
            t
        } else {
            t + 1
        };
        assert(nl1[t] == c.l1[ot]);
    }
}

/// Appending a fresh key to both L1 and the LRU queue preserves
/// well-formedness.
pub proof fn lemma_wf_push_pair(c: CacheView, k: Seq<char>, e: EntryView)
    requires
        cv_wf(c),
        !l1_has_key(c.l1, k),
        !has_key(c.lru, k),
        c.l1.len() < c.l1_max,
        !born_stale(e),
    ensures
        cv_wf(CacheView { l1: c.l1.push((k, e, 1)), lru: c.lru.push(k), ..c }),
{
    let nl1 = c.l1.push((k, e, 1));
    let nlru = c.lru.push(k);
    assert forall|i: int, j: int|
        0 <= i < j < nl1.len() implies (#[trigger] nl1[i]).0 != (#[trigger] nl1[j]).0 by {
        if j == nl1.len() - 1 {
            assert(nl1[i] == c.l1[i]);
            if nl1[i].0 == k {
                assert(l1_has_key(c.l1, k)) by {
                    assert((c.l1[i]).0 == k);
                }
            }
        } else {
            assert(nl1[i] == c.l1[i]);
            assert(nl1[j] == c.l1[j]);
        }
    }
    assert forall|i: int, j: int|
        0 <= i < j < nlru.len() implies #[trigger] nlru[i] != #[trigger] nlru[j] by {
        if j == nlru.len() - 1 {
            assert(nlru[i] == c.lru[i]);
        } else {
            assert(nlru[i] == c.lru[i]);
            assert(nlru[j] == c.lru[j]);
        }
    }
    assert forall|i: int| 0 <= i < nl1.len() implies has_key(nlru, (#[trigger] nl1[i]).0) by {
        if i == nl1.len() - 1 {
            assert(nlru[nlru.len() - 1] == k);
        } else {
            assert(nl1[i] == c.l1[i]);
            assert(has_key(c.lru, c.l1[i].0));
            let w = choose|w: int| 0 <= w < c.lru.len() && c.lru[w] == c.l1[i].0;
            assert(nlru[w] == c.lru[w]);
        }
    }
    assert forall|i: int| 0 <= i < nlru.len() implies l1_has_key(nl1, #[trigger] nlru[i]) by {
        if i == nlru.len() - 1 {
            assert((nl1[nl1.len() - 1]).0 == k);
        } else {
            assert(nlru[i] == c.lru[i]);
            assert(l1_has_key(c.l1, c.lru[i]));
            let w = choose|w: int| 0 <= w < c.l1.len() && (#[trigger] c.l1[w]).0 == c.lru[i];
            assert((nl1[w]).0 == c.lru[i]);
        }
    }
    assert forall|i: int| 0 <= i < nl1.len() implies !born_stale((#[trigger] nl1[i]).1) by {
        if i < nl1.len() - 1 {
            assert(nl1[i] == c.l1[i]);
        }
    }
}

// ---------------------------------------------------------------------------
// Laws of the cache state.
// ---------------------------------------------------------------------------

/// Law: in every well-formed cache state, L1 holds at most `l1_max`
/// entries, and the L1 keys and the LRU queue are in bijection: both are
/// duplicate-free, of equal length, and each key of one occurs in the
/// other.  Every transition of this module preserves well-formedness, so
/// this holds of all reachable states.
pub proof fn lemma_l1_lru_bijection(c: CacheView)
    requires
        cv_wf(c),
    ensures
        c.l1.len() <= c.l1_max,
        c.l1.len() == c.lru.len(),
        forall|i: int| 0 <= i < c.l1.len() ==> has_key(c.lru, (#[trigger] c.l1[i]).0),
        forall|i: int| 0 <= i < c.lru.len() ==> l1_has_key(c.l1, #[trigger] c.lru[i]),
        forall|i: int, j: int|
            0 <= i < j < c.lru.len() ==> #[trigger] c.lru[i] != #[trigger] c.lru[j],
{
}

/// Law: no born-stale entry, and no entry already expired, is ever
/// observable through the L1 lookup of a well-formed cache.
pub proof fn lemma_no_stale_entry_served(c: CacheView, k: Seq<char>, now: u64)
    requires
        cv_wf(c),
    ensures
        cv_get_l1(c, k, now).1 matches Some(e) ==> entry_valid_at(e, now) && !born_stale(e),
{
    lemma_kidx3(c.l1, 0, k);
}

/// Law: after clearing, L1 and the LRU queue are empty, and a lookup of
/// any host at any instant yields nothing and changes nothing.
pub proof fn lemma_clear_then_miss(c: CacheView, k: Seq<char>, now: u64)
    ensures
        cv_clear(c).l1.len() == 0,
        cv_clear(c).lru.len() == 0,
        cv_get_l1(cv_clear(c), k, now).1 is None,
        cv_get_l1(cv_clear(c), k, now).0 == cv_clear(c),
{
}

/// Law: inserting an entry and then looking its host up, while the entry
/// is still valid, yields exactly that entry.
pub proof fn lemma_put_then_get(c: CacheView, k: Seq<char>, e: EntryView, now: u64, later: u64)
    requires
        cv_wf(c),
        storable_at(e, now),
        c.l1_max >= 1,
        entry_valid_at(e, later),
    ensures
        cv_get_l1(cv_put_l1(c, k, e, now).0, k, later).1 == Some(e),
{
    let c3 = cv_put_l1(c, k, e, now).0;
    let n = c3.l1.len();
    assert(c3.l1[n - 1] == (k, e, 1int));
    lemma_cv_put_l1_wf(c, k, e, now);
    lemma_kidx3(c3.l1, 0, k);
    let i = kidx3(c3.l1, 0, k);
    assert(i < n) by {
        if i >= n {
            assert((c3.l1[n - 1]).0 != k);
        }
    }
    assert(c3.l1[i].0 == k);
    assert(i == n - 1) by {
        if i < n - 1 {
            assert((c3.l1[i]).0 != (c3.l1[n - 1]).0);
        }
    }
}

/// Law: caching a response and then looking its host up yields an entry
/// holding exactly the origin's response bytes, provided the response's
/// headers did not make it born stale and it has not expired by the time
/// of the lookup.
pub proof fn lemma_put_then_get_bytes(
    c: CacheView,
    k: Seq<char>,
    data: Seq<u8>,
    headers: Seq<(Seq<char>, Seq<char>)>,
    now: u64,
    later: u64,
)
    requires
        cv_wf(c),
        c.l1_max >= 1,
        storable_at(crate::entry::spec_new_entry(data, headers, now), now),
        entry_valid_at(crate::entry::spec_new_entry(data, headers, now), later),
    ensures
        ({
            let e = crate::entry::spec_new_entry(data, headers, now);
            cv_get_l1(cv_put_l1(c, k, e, now).0, k, later).1 == Some(e) && e.response_data == data
        }),
{
    lemma_put_then_get(c, k, crate::entry::spec_new_entry(data, headers, now), now, later);
}

/// Law: two inserts for the same host leave the second entry, and only it,
/// in the host's slot.
pub proof fn lemma_second_put_wins(
    c: CacheView,
    k: Seq<char>,
    e1: EntryView,
    e2: EntryView,
    now: u64,
    later: u64,
)
    requires
        cv_wf(c),
        storable_at(e1, now),
        storable_at(e2, now),
        c.l1_max >= 1,
        entry_valid_at(e2, later),
    ensures
        cv_get_l1(cv_put_l1(cv_put_l1(c, k, e1, now).0, k, e2, now).0, k, later).1 == Some(e2),
{
    lemma_cv_put_l1_wf(c, k, e1, now);
    lemma_put_then_get(cv_put_l1(c, k, e1, now).0, k, e2, now, later);
}

/// The insertion transition preserves well-formedness.
pub proof fn lemma_cv_put_l1_wf(c: CacheView, k: Seq<char>, e: EntryView, now: u64)
    requires
        cv_wf(c),
    ensures
        cv_wf(cv_put_l1(c, k, e, now).0),
{
    if storable_at(e, now) && c.l1_max >= 1 {
        let c1 = cv_remove_key(c, k);
        lemma_kidx3(c.l1, 0, k);
        if kidx3(c.l1, 0, k) < c.l1.len() {
            let j = kidx(c.lru, 0, k);
            assert(has_key(c.lru, c.l1[kidx3(c.l1, 0, k)].0));
            lemma_kidx(c.lru, 0, k);
            let w = choose|w: int| 0 <= w < c.lru.len() && c.lru[w] == k;
            assert(j <= w < c.lru.len());
            lemma_wf_remove_pair(c, kidx3(c.l1, 0, k), j);
        }
        assert(!l1_has_key(c1.l1, k)) by {
            if kidx3(c.l1, 0, k) >= c.l1.len() {
                if l1_has_key(c1.l1, k) {
                    let w = choose|w: int| 0 <= w < c1.l1.len() && (#[trigger] c1.l1[w]).0 == k;
                }
            }
        }
        assert(!has_key(c1.lru, k)) by {
            if has_key(c1.lru, k) {
                let w = choose|w: int| 0 <= w < c1.lru.len() && c1.lru[w] == k;
                assert(l1_has_key(c1.l1, c1.lru[w]));
            }
        }
        let c2 = if c1.l1.len() >= c.l1_max {
            cv_evict_front(c1)
        } else {
            c1
        };
        if c1.l1.len() >= c.l1_max {
            assert(c1.lru.len() > 0);
            assert(l1_has_key(c1.l1, c1.lru[0]));
            lemma_kidx3(c1.l1, 0, c1.lru[0]);
            let vi = kidx3(c1.l1, 0, c1.lru[0]);
            assert(vi < c1.l1.len()) by {
                let w = choose|w: int|
                    0 <= w < c1.l1.len() && (#[trigger] c1.l1[w]).0 == c1.lru[0];
                if vi >= c1.l1.len() {
                    assert((c1.l1[w]).0 != c1.lru[0]);
                }
            }
            lemma_wf_remove_pair(c1, vi, 0);
            assert(c1.lru.remove(0) =~= c1.lru.drop_first());
            assert(cv_evict_front(c1) == CacheView {
                l1: c1.l1.remove(vi),
                lru: c1.lru.remove(0),
                ..c1
            });
            assert(!l1_has_key(c2.l1, k)) by {
                if l1_has_key(c2.l1, k) {
                    let w = choose|w: int| 0 <= w < c2.l1.len() && (#[trigger] c2.l1[w]).0 == k;
                    let ow = if w < vi {
                        w
                    } else {
                        w + 1
                    };
                    assert(c1.l1[ow].0 == k);
                }
            }
            assert(!has_key(c2.lru, k)) by {
                if has_key(c2.lru, k) {
                    let w = choose|w: int| 0 <= w < c2.lru.len() && c2.lru[w] == k;
                    assert(c1.lru[w + 1] == k);
                }
            }
        }
        lemma_wf_push_pair(c2, k, e);
    }
}

/// Law: inserting a fresh host into a full L1 evicts exactly the least
/// recently used host: the front of the LRU queue leaves both structures,
/// every other host stays, the new host enters at the back, and the size
/// stays at its maximum.
pub proof fn lemma_put_evicts_lru_front(c: CacheView, k: Seq<char>, e: EntryView, now: u64)
    requires
        cv_wf(c),
        storable_at(e, now),
        c.l1_max >= 1,
        c.l1.len() == c.l1_max,
        !l1_has_key(c.l1, k),
    ensures
        !l1_has_key(cv_put_l1(c, k, e, now).0.l1, c.lru[0]),
        l1_has_key(cv_put_l1(c, k, e, now).0.l1, k),
        cv_put_l1(c, k, e, now).0.l1.len() == c.l1_max,
        cv_put_l1(c, k, e, now).0.lru =~= c.lru.drop_first().push(k),
        forall|k2: Seq<char>|
            k2 != c.lru[0] && k2 != k ==> #[trigger] l1_has_key(cv_put_l1(c, k, e, now).0.l1, k2)
                == l1_has_key(c.l1, k2),
{
    lemma_kidx3(c.l1, 0, k);
    assert(kidx3(c.l1, 0, k) >= c.l1.len()) by {
        if kidx3(c.l1, 0, k) < c.l1.len() {
            assert((c.l1[kidx3(c.l1, 0, k)]).0 == k);
        }
    }
    let c1 = cv_remove_key(c, k);
    assert(c1 == c);
    assert(c.lru.len() > 0);
    assert(l1_has_key(c.l1, c.lru[0]));
    lemma_kidx3(c.l1, 0, c.lru[0]);
    let vi = kidx3(c.l1, 0, c.lru[0]);
    assert(vi < c.l1.len()) by {
        let w = choose|w: int| 0 <= w < c.l1.len() && (#[trigger] c.l1[w]).0 == c.lru[0];
        if vi >= c.l1.len() {
            assert((c.l1[w]).0 != c.lru[0]);
        }
    }
    lemma_wf_remove_pair(c, vi, 0);
    let victim = c.lru[0];
    assert(victim != k);
    let c2 = cv_evict_front(c1);
    assert(c2.l1 == c.l1.remove(vi));
    let c3 = cv_put_l1(c, k, e, now).0;
    assert(c3.l1 == c2.l1.push((k, e, 1int)));
    assert(c3.l1.len() == c.l1_max);
    assert(l1_has_key(c3.l1, k)) by {
        assert((c3.l1[c3.l1.len() - 1]).0 == k);
    }
    assert(!l1_has_key(c3.l1, victim)) by {
        if l1_has_key(c3.l1, victim) {
            let w = choose|w: int| 0 <= w < c3.l1.len() && (#[trigger] c3.l1[w]).0 == victim;
            if w < c3.l1.len() - 1 {
                assert(c2.l1[w].0 == victim);
                assert(l1_has_key(c2.l1, victim)) by {
                    assert((c2.l1[w]).0 == victim);
                }
            }
        }
    }
    assert forall|k2: Seq<char>|
        k2 != victim && k2 != k implies #[trigger] l1_has_key(c3.l1, k2) == l1_has_key(
        c.l1,
        k2,
    ) by {
        assert(l1_has_key(c2.l1, k2) == l1_has_key(c.l1, k2));
        if l1_has_key(c2.l1, k2) {
            let w = choose|w: int| 0 <= w < c2.l1.len() && (#[trigger] c2.l1[w]).0 == k2;
            assert((c3.l1[w]).0 == k2);
        }
        if l1_has_key(c3.l1, k2) {
            let w = choose|w: int| 0 <= w < c3.l1.len() && (#[trigger] c3.l1[w]).0 == k2;
            assert(w < c3.l1.len() - 1);
            assert((c2.l1[w]).0 == k2);
            assert(l1_has_key(c2.l1, k2)) by {
                assert((c2.l1[w]).0 == k2);
            }
        }
    }
    assert(c3.lru =~= c.lru.drop_first().push(k));
}

// ---------------------------------------------------------------------------
// The L2 store plan.
// ---------------------------------------------------------------------------

/// How an entry is to be written to the L2 backend: with a TTL equal to
/// the time left until its expiry, without a TTL when it has no expiry, or
/// not at all when it is already expired.
#[derive(Debug, PartialEq, Eq, Structural)]
pub enum StorePlan {
    WithTtl(u64),
    NoTtl,
    Skip,
}

/// The plan for storing an entry at instant `now`.
pub open spec fn spec_store_plan(e: EntryView, now: u64) -> StorePlan {
    match e.expires_at {
        Some(x) => if x > now {
            StorePlan::WithTtl((x - now) as u64)
        } else {
            StorePlan::Skip
        },
        None => StorePlan::NoTtl,
    }
}

/// The TTL carried by a plan.
pub open spec fn plan_ttl(p: StorePlan) -> int {
    match p {
        StorePlan::WithTtl(t) => t as int,
        _ => 0,
    }
}

/// Law: a plan that stores with a TTL stores for no longer than the
/// entry's own lifetime: whenever the entry was inserted no later than
/// `now`, the TTL is at most `expires_at - inserted_at`.
pub proof fn lemma_store_ttl_within_lifetime(e: EntryView, now: u64)
    requires
        e.timestamp <= now,
        spec_store_plan(e, now) is WithTtl,
    ensures
        e.expires_at is Some,
        plan_ttl(spec_store_plan(e, now)) == e.expires_at->0 - now,
        plan_ttl(spec_store_plan(e, now)) <= e.expires_at->0 - e.timestamp,
{
}

/// Computes how an entry is to be written to the L2 backend, as
/// `spec_store_plan` describes.
pub fn l2_store_plan(entry: &CacheEntry, now: u64) -> (r: StorePlan)
    ensures
        r == spec_store_plan(entry@, now),
{
    match entry.expires_at {
        Some(x) => if x > now {
            StorePlan::WithTtl(x - now)
        } else {
            StorePlan::Skip
        },
        None => StorePlan::NoTtl,
    }
}

// ---------------------------------------------------------------------------
// The cache.
// ---------------------------------------------------------------------------

/// The cache's own state: the L1 tier, its LRU queue, the hit counters and
/// the configuration.  The durable L2 tier lives behind the backend; this
/// state drives every decision about it.
pub struct HttpCache {
    l1: Vec<(String, CacheEntry, usize)>,
    lru: Vec<String>,
    counters: Vec<(String, usize)>,
    config: CacheConfig,
}

impl View for HttpCache {
    type V = CacheView;

    closed spec fn view(&self) -> CacheView {
        CacheView {
            l1: self.l1@.map_values(|t: (String, CacheEntry, usize)| (t.0@, t.1@, t.2 as int)),
            lru: self.lru@.map_values(|s: String| s@),
            counters: self.counters@.map_values(|t: (String, usize)| (t.0@, t.1 as int)),
            l1_max: self.config.l1_max_size as int,
            threshold: self.config.promotion_threshold as int,
        }
    }
}

impl HttpCache {
    /// Well-formedness of the cache state.
    pub open spec fn wf(&self) -> bool {
        cv_wf(self@)
    }

    /// An empty cache with the given configuration.
    pub fn new(config: CacheConfig) -> (r: HttpCache)
        ensures
            r.wf(),
            r@.l1 == Seq::<(Seq<char>, EntryView, int)>::empty(),
            r@.lru == Seq::<Seq<char>>::empty(),
            r@.counters == Seq::<(Seq<char>, int)>::empty(),
            r@.l1_max == config.l1_max_size as int,
            r@.threshold == config.promotion_threshold as int,
    {
        let r = HttpCache { l1: Vec::new(), lru: Vec::new(), counters: Vec::new(), config };
        proof {
            assert(r@.l1 =~= Seq::<(Seq<char>, EntryView, int)>::empty());
            assert(r@.lru =~= Seq::<Seq<char>>::empty());
            assert(r@.counters =~= Seq::<(Seq<char>, int)>::empty());
        }
        r
    }

    /// Finds the L1 slot of key `k`.
    fn find_l1(&self, k: &[char]) -> (r: usize)
        ensures
            r == kidx3(self@.l1, 0, k@),
            r <= self@.l1.len(),
    {
        let n = self.l1.len();
        let mut i: usize = 0;
        while i < n
            invariant
                0 <= i <= n,
                n == self@.l1.len(),
                kidx3(self@.l1, 0, k@) == kidx3(self@.l1, i as int, k@),
            decreases n - i,
        {
            let key = to_chars(self.l1[i].0.as_str());
            proof {
                assert(self@.l1[i as int].0 == self.l1@[i as int].0@);
            }
            if eq_chars(key.as_slice(), k) {
                return i;
            }
            i = i + 1;
        }
        i
    }

    /// Finds the LRU queue position of key `k`.
    fn find_lru(&self, k: &[char]) -> (r: usize)
        ensures
            r == kidx(self@.lru, 0, k@),
            r <= self@.lru.len(),
    {
        let n = self.lru.len();
        let mut i: usize = 0;
        while i < n
            invariant
                0 <= i <= n,
                n == self@.lru.len(),
                kidx(self@.lru, 0, k@) == kidx(self@.lru, i as int, k@),
            decreases n - i,
        {
            let key = to_chars(self.lru[i].as_str());
            proof {
                assert(self@.lru[i as int] == self.lru@[i as int]@);
            }
            if eq_chars(key.as_slice(), k) {
                return i;
            }
            i = i + 1;
        }
        i
    }

    /// Finds the counter slot of key `k`.
    fn find_counter(&self, k: &[char]) -> (r: usize)
        ensures
            r == kidx2(self@.counters, 0, k@),
            r <= self@.counters.len(),
    {
        let n = self.counters.len();
        let mut i: usize = 0;
        while i < n
            invariant
                0 <= i <= n,
                n == self@.counters.len(),
                kidx2(self@.counters, 0, k@) == kidx2(self@.counters, i as int, k@),
            decreases n - i,
        {
            let key = to_chars(self.counters[i].0.as_str());
            proof {
                assert(self@.counters[i as int].0 == self.counters@[i as int].0@);
            }
            if eq_chars(key.as_slice(), k) {
                return i;
            }
            i = i + 1;
        }
        i
    }

    /// The L1 probe of a lookup, as `cv_get_l1` describes: a fresh entry is
    /// returned (with its access count bumped), an expired one is dropped
    /// from L1 and the LRU queue, an absent key yields nothing.
    pub fn get_l1(&mut self, host: &str, now: u64) -> (r: Option<CacheEntry>)
        requires
            old(self).wf(),
        ensures
            final(self).wf(),
            final(self)@ == cv_get_l1(old(self)@, host@, now).0,
            match r {
                Some(e) => cv_get_l1(old(self)@, host@, now).1 == Some(e@) && entry_valid_at(
                    e@,
                    now,
                ) && !born_stale(e@),
                None => cv_get_l1(old(self)@, host@, now).1 is None,
            },
    {
        let hk = to_chars(host);
        let i = self.find_l1(hk.as_slice());
        proof {
            lemma_kidx3(self@.l1, 0, hk@);
        }
        if i >= self.l1.len() {
            return None;
        }
        let key_clone = chars_to_string(&to_chars(self.l1[i].0.as_str()));
        let entry_clone = self.l1[i].1.clone();
        let count = self.l1[i].2;
        proof {
            assert(self@.l1[i as int].0 == self.l1@[i as int].0@);
            assert(self@.l1[i as int].1 == self.l1@[i as int].1@);
            assert(self@.l1[i as int].2 == self.l1@[i as int].2 as int);
        }
        if entry_clone.is_valid_at(now) {
            let new_count = if count < usize::MAX {
                count + 1
            } else {
                count
            };
            let returned = entry_clone.clone();
            self.l1.set(i, (key_clone, entry_clone, new_count));
            proof {
                let cv = cv_get_l1(old(self)@, host@, now);
                assert(self@.l1 =~~= cv.0.l1);
                assert(self@ =~~= cv.0);
                assert(forall|t: int|
                    0 <= t < self@.l1.len() ==> (#[trigger] self@.l1[t]).0 == old(self)@.l1[t].0);
                assert(forall|t: int|
                    0 <= t < self@.l1.len() ==> (#[trigger] self@.l1[t]).1 == old(self)@.l1[t].1);
                assert forall|t: int|
                    0 <= t < self@.lru.len() implies l1_has_key(self@.l1, #[trigger] self@.lru[t])
                by {
                    assert(self@.lru[t] == old(self)@.lru[t]);
                    assert(l1_has_key(old(self)@.l1, old(self)@.lru[t]));
                    let w = choose|w: int|
                        0 <= w < old(self)@.l1.len() && (#[trigger] old(self)@.l1[w]).0 == old(
                            self,
                        )@.lru[t];
                    assert((self@.l1[w]).0 == old(self)@.lru[t]);
                }
            }
            Some(returned)
        } else {
            proof {
                assert(has_key(old(self)@.lru, hk@)) by {
                    assert(has_key(old(self)@.lru, (old(self)@.l1[i as int]).0));
                }
                lemma_kidx(self@.lru, 0, hk@);
            }
            let j = self.find_lru(hk.as_slice());
            proof {
                let w = choose|w: int|
                    0 <= w < old(self)@.lru.len() && old(self)@.lru[w] == hk@;
                assert(j <= w < old(self)@.lru.len());
            }
            self.l1.remove(i);
            self.lru.remove(j);
            proof {
                assert(self@.l1 =~= old(self)@.l1.remove(i as int));
                assert(self@.lru =~= old(self)@.lru.remove(j as int));
                lemma_wf_remove_pair(old(self)@, i as int, j as int);
                assert(self@ =~= cv_get_l1(old(self)@, host@, now).0);
            }
            None
        }
    }

    /// Removes a host from L1 and the LRU queue, as `cv_remove_key`
    /// describes.  This is the expiry step: when a scheduled removal fires,
    /// it calls this; losing a race with eviction or clearing is a no-op.
    pub fn remove_l1(&mut self, host: &str)
        requires
            old(self).wf(),
        ensures
            final(self).wf(),
            final(self)@ == cv_remove_key(old(self)@, host@),
    {
        let hk = to_chars(host);
        let i = self.find_l1(hk.as_slice());
        proof {
            lemma_kidx3(self@.l1, 0, hk@);
        }
        if i >= self.l1.len() {
            return ;
        }
        proof {
            assert(has_key(old(self)@.lru, hk@)) by {
                assert(has_key(old(self)@.lru, (old(self)@.l1[i as int]).0));
            }
            lemma_kidx(self@.lru, 0, hk@);
        }
        let j = self.find_lru(hk.as_slice());
        proof {
            let w = choose|w: int| 0 <= w < old(self)@.lru.len() && old(self)@.lru[w] == hk@;
            assert(j <= w < old(self)@.lru.len());
        }
        self.l1.remove(i);
        self.lru.remove(j);
        proof {
            assert(self@.l1 =~= old(self)@.l1.remove(i as int));
            assert(self@.lru =~= old(self)@.lru.remove(j as int));
            lemma_wf_remove_pair(old(self)@, i as int, j as int);
            assert(self@ =~= cv_remove_key(old(self)@, host@));
        }
    }

    /// Records one hit for a host, as `cv_note_hit` describes; the result
    /// says whether the host's counter reached the promotion threshold and
    /// the entry should now be promoted into L1.
    pub fn note_hit(&mut self, host: &str) -> (promote: bool)
        requires
            old(self).wf(),
        ensures
            final(self).wf(),
            final(self)@ == cv_note_hit(old(self)@, host@).0,
            promote == cv_note_hit(old(self)@, host@).1,
    {
        let hk = to_chars(host);
        let i = self.find_counter(hk.as_slice());
        proof {
            lemma_kidx2(self@.counters, 0, hk@);
        }
        let prev: usize = if i < self.counters.len() {
            self.counters[i].1
        } else {
            0
        };
        proof {
            if i < self.counters@.len() {
                assert(self@.counters[i as int].1 == self.counters@[i as int].1 as int);
            }
        }
        let newv = prev + 1;
        if newv >= self.config.promotion_threshold {
            if i < self.counters.len() {
                self.counters.remove(i);
                proof {
                    assert(self@.counters =~~= cv_note_hit(old(self)@, host@).0.counters);
                    assert(self@ =~~= cv_note_hit(old(self)@, host@).0);
                    old(self)@.counters.remove_ensures(i as int);
                }
            }
            proof {
                assert(self@ =~~= cv_note_hit(old(self)@, host@).0);
            }
            true
        } else {
            let key = chars_to_string(&hk);
            if i < self.counters.len() {
                self.counters.set(i, (key, newv));
            } else {
                self.counters.push((key, newv));
            }
            proof {
                assert(self@.counters =~~= cv_note_hit(old(self)@, host@).0.counters);
                assert(self@ =~~= cv_note_hit(old(self)@, host@).0);
                assert(forall|t: int|
                    0 <= t < old(self)@.counters.len() && t != i ==> #[trigger] self@.counters[t]
                        == old(self)@.counters[t]);
            }
            false
        }
    }

    /// Takes an entry fetched from the L2 tier, as `cv_accept_l2`
    /// describes: an expired entry yields nothing; a valid one is returned
    /// together with the promotion signal of its recorded hit.
    pub fn accept_l2_entry(&mut self, host: &str, entry: &CacheEntry, now: u64) -> (r: (
        Option<CacheEntry>,
        bool,
    ))
        requires
            old(self).wf(),
        ensures
            final(self).wf(),
            final(self)@ == cv_accept_l2(old(self)@, host@, entry@, now).0,
            (r.0 is Some) == cv_accept_l2(old(self)@, host@, entry@, now).1,
            r.1 == cv_accept_l2(old(self)@, host@, entry@, now).2,
            match r.0 {
                Some(e) => e@ == entry@ && entry_valid_at(entry@, now),
                None => !entry_valid_at(entry@, now),
            },
    {
        if !entry.is_valid_at(now) {
            return (None, false);
        }
        let promote = self.note_hit(host);
        (Some(entry.clone()), promote)
    }

    /// Inserts an entry into L1, as `cv_put_l1` describes: the key's old
    /// slot is replaced, a full L1 first evicts the least recently used
    /// key, the new key joins the back of the LRU queue.  The result is
    /// the seconds until the entry expires, for the deferred removal; an
    /// entry that may not be stored (or a capacity of zero) is refused.
    pub fn put_l1(&mut self, host: &str, entry: CacheEntry, now: u64) -> (r: Option<u64>)
        requires
            old(self).wf(),
        ensures
            final(self).wf(),
            final(self)@ == cv_put_l1(old(self)@, host@, entry@, now).0,
            r == cv_put_l1(old(self)@, host@, entry@, now).1,
    {
        let storable = match entry.expires_at {
            None => true,
            Some(x) => now < x && entry.timestamp < x,
        };
        if !storable || self.config.l1_max_size == 0 {
            return None;
        }
        let ghost c0 = self@;
        self.remove_l1(host);
        let ghost c1 = self@;
        proof {
            lemma_kidx3(c0.l1, 0, host@);
            if kidx3(c0.l1, 0, host@) < c0.l1.len() {
                let j = kidx(c0.lru, 0, host@);
                assert(has_key(c0.lru, c0.l1[kidx3(c0.l1, 0, host@)].0));
                lemma_kidx(c0.lru, 0, host@);
                let w = choose|w: int| 0 <= w < c0.lru.len() && c0.lru[w] == host@;
                assert(j <= w < c0.lru.len());
                lemma_wf_remove_pair(c0, kidx3(c0.l1, 0, host@), j);
            }
            assert(!l1_has_key(c1.l1, host@)) by {
                if kidx3(c0.l1, 0, host@) >= c0.l1.len() {
                    if l1_has_key(c1.l1, host@) {
                        let w = choose|w: int|
                            0 <= w < c1.l1.len() && (#[trigger] c1.l1[w]).0 == host@;
                    }
                }
            }
            assert(!has_key(c1.lru, host@)) by {
                if has_key(c1.lru, host@) {
                    let w = choose|w: int| 0 <= w < c1.lru.len() && c1.lru[w] == host@;
                    assert(l1_has_key(c1.l1, c1.lru[w]));
                }
            }
        }
        if self.l1.len() >= self.config.l1_max_size {
            let victim = to_chars(self.lru[0].as_str());
            proof {
                assert(self@.lru[0] == self.lru@[0]@);
                assert(l1_has_key(c1.l1, c1.lru[0]));
                lemma_kidx3(c1.l1, 0, c1.lru[0]);
                let w = choose|w: int|
                    0 <= w < c1.l1.len() && (#[trigger] c1.l1[w]).0 == c1.lru[0];
                assert(kidx3(c1.l1, 0, c1.lru[0]) <= w);
            }
            let vi = self.find_l1(victim.as_slice());
            self.l1.remove(vi);
            self.lru.remove(0);
            proof {
                assert(self@.l1 =~~= c1.l1.remove(vi as int));
                assert(self@.lru =~~= c1.lru.remove(0));
                lemma_wf_remove_pair(c1, vi as int, 0);
                assert(c1.lru.remove(0) =~= c1.lru.drop_first());
                assert(self@ =~~= cv_evict_front(c1));
                assert(!l1_has_key(self@.l1, host@)) by {
                    if l1_has_key(self@.l1, host@) {
                        let w = choose|w: int|
                            0 <= w < self@.l1.len() && (#[trigger] self@.l1[w]).0 == host@;
                        let ow = if w < vi {
                            w
                        } else {
                            w + 1
                        };
                        assert(c1.l1[ow].0 == host@);
                    }
                }
                assert(!has_key(self@.lru, host@)) by {
                    if has_key(self@.lru, host@) {
                        let w = choose|w: int| 0 <= w < self@.lru.len() && self@.lru[w] == host@;
                        assert(c1.lru[w + 1] == host@);
                    }
                }
            }
        }
        let ghost c2 = self@;
        let exp = entry.expires_at;
        let key1 = chars_to_string(&to_chars(host));
        let key2 = chars_to_string(&to_chars(host));
        let ghost ev = entry@;
        self.l1.push((key1, entry, 1));
        self.lru.push(key2);
        proof {
            assert(self@.l1 =~~= c2.l1.push((host@, ev, 1)));
            assert(self@.lru =~~= c2.lru.push(host@));
            assert(self@ =~~= cv_put_l1(c0, host@, ev, now).0);
            lemma_wf_push_pair(c2, host@, ev);
        }
        match exp {
            Some(x) => Some(x - now),
            None => None,
        }
    }

    /// Empties the L1 tier and the LRU queue, as `cv_clear` describes.
    /// The caller then flushes the L2 backend.
    pub fn clear_l1(&mut self)
        requires
            old(self).wf(),
        ensures
            final(self).wf(),
            final(self)@ == cv_clear(old(self)@),
            final(self)@.l1.len() == 0,
            final(self)@.lru.len() == 0,
    {
        self.l1 = Vec::new();
        self.lru = Vec::new();
        proof {
            assert(self@.l1 =~= Seq::<(Seq<char>, EntryView, int)>::empty());
            assert(self@.lru =~= Seq::<Seq<char>>::empty());
            assert(self@ =~= cv_clear(old(self)@));
        }
    }
}

} // verus!
