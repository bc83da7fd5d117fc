//! The cache: entries with a saturating uses counter, the S3-FIFO small and
//! main queues with their weight ledger, and the TinyLFU admission filter.
use std::collections::HashMap;
use std::collections::VecDeque;
use vstd::prelude::*;

use crate::estimator::{optimal_depth, optimal_width, SketchModel, TinyLFU};
use crate::ledger::{
    key_sum, lemma_drop_first_contains, lemma_key_sum_first, lemma_key_sum_frame,
    lemma_key_sum_push, lemma_push_contains,
};

verus! {

broadcast use vstd::std_specs::hash::group_hash_axioms;

/// The cap of an entry's uses counter.
pub const USES_CAP: u8 = 3;

/// Room the weight ledger keeps above the total weight limit, so that the
/// ledger never overflows.
pub const LEDGER_HEADROOM: usize = 131072;

/// Fingerprint of a user key: the table and the queues hold these.
pub type Key = u64;

/// Weight of an entry against the cache's budget.
pub type Weight = u16;

/// The queue an entry belongs to.
#[derive(PartialEq, Eq, Structural, Clone, Copy, Debug)]
pub enum Queue {
    Small,
    Main,
}

/// Cache entry: its data and its metadata.
pub struct Entry<T> {
    /// Recent uses, saturating at 3.
    pub uses: u8,
    pub queue: Queue,
    pub weight: Weight,
    pub data: T,
}

impl<T> Entry<T> {
    pub open spec fn wf(&self) -> bool {
        self.uses <= USES_CAP
    }

    /// A fresh entry: one use, in the small queue, weight 0.
    pub fn new(data: T) -> (r: Self)
        ensures
            r.uses == 1,
            r.queue == Queue::Small,
            r.weight == 0,
            r.data == data,
    {
        Entry { uses: 1, queue: Queue::Small, weight: 0, data }
    }

    /// Increment the uses counter, saturating at 3; returns the new value.
    pub fn incr_uses(&mut self) -> (r: u8)
        requires
            old(self).wf(),
        ensures
            final(self).uses == if old(self).uses < USES_CAP { (old(self).uses + 1) as u8 } else { USES_CAP },
            r == final(self).uses,
            final(self).queue == old(self).queue,
            final(self).weight == old(self).weight,
            final(self).data == old(self).data,
    {
        let uses: u8 = self.uses();
        if uses >= USES_CAP {
            return uses;
        }
        self.uses = uses + 1;
        uses + 1
    }

    /// Decrement the uses counter, saturating at 0; returns the previous
    /// value.
    pub fn decr_uses(&mut self) -> (r: u8)
        ensures
            final(self).uses == if old(self).uses > 0 { (old(self).uses - 1) as u8 } else { 0 },
            r == old(self).uses,
            final(self).queue == old(self).queue,
            final(self).weight == old(self).weight,
            final(self).data == old(self).data,
    {
        let uses: u8 = self.uses();
        if uses == 0 {
            return uses;
        }
        self.uses = uses - 1;
        uses
    }

    /// The uses counter.
    pub fn uses(&self) -> (r: u8)
        ensures
            r == self.uses,
    {
        self.uses
    }

    /// Tag the entry as belonging to the main queue.
    pub fn move_to_main(&mut self)
        ensures
            final(self).queue == Queue::Main,
            final(self).uses == old(self).uses,
            final(self).weight == old(self).weight,
            final(self).data == old(self).data,
    {
        self.queue = Queue::Main;
    }
}

/// An entry taken out of the cache by eviction.
pub struct EvictedEntry<T> {
    /// The fingerprint it was stored under.
    pub key: Key,
    pub data: T,
    pub weight: Weight,
}

/// Weight of each key's entry in `t`.
pub open spec fn weights<T>(t: Map<Key, Entry<T>>) -> spec_fn(Key) -> nat {
    |k: Key| t[k].weight as nat
}

/// Uses counter of each key's entry in `t`.
pub open spec fn uses_of<T>(t: Map<Key, Entry<T>>) -> spec_fn(Key) -> nat {
    |k: Key| t[k].uses as nat
}

/// Total weight of the entries of `t` listed in `keys`.
pub open spec fn weight_sum<T>(keys: Seq<Key>, t: Map<Key, Entry<T>>) -> nat {
    key_sum(keys, weights(t))
}

/// Index in `keys` of the first entry of `t` whose uses are at most `r`,
/// or the length of `keys` if there is none.
pub open spec fn first_at_most<T>(keys: Seq<Key>, t: Map<Key, Entry<T>>, r: nat) -> nat
    decreases keys.len(),
{
    if keys.len() == 0 {
        0
    } else if t[keys[0]].uses <= r {
        0
    } else {
        1 + first_at_most(keys.drop_first(), t, r)
    }
}

/// Index in `keys` of the first entry of `t` used at most once, or the
/// length of `keys` if every one was used more.
pub open spec fn first_cold<T>(keys: Seq<Key>, t: Map<Key, Entry<T>>) -> nat {
    first_at_most(keys, t, 1)
}

/// The fewest uses among the entries of `t` listed in `keys` (0 if none).
pub open spec fn min_uses<T>(keys: Seq<Key>, t: Map<Key, Entry<T>>) -> nat
    decreases keys.len(),
{
    if keys.len() == 0 {
        0
    } else if keys.len() == 1 {
        t[keys[0]].uses as nat
    } else {
        let rest = min_uses(keys.drop_first(), t);
        if (t[keys[0]].uses as nat) <= rest { t[keys[0]].uses as nat } else { rest }
    }
}

/// Index in `keys` of the entry that the main-queue scan evicts: the first
/// one with the fewest uses.
pub open spec fn main_victim<T>(keys: Seq<Key>, t: Map<Key, Entry<T>>) -> nat {
    first_at_most(keys, t, min_uses(keys, t))
}

/// `t` with the entries listed in `keys` tagged for the main queue.
pub open spec fn promoted<T>(t: Map<Key, Entry<T>>, keys: Seq<Key>) -> Map<Key, Entry<T>> {
    Map::new(
        |k: Key| t.contains_key(k),
        |k: Key|
            if keys.contains(k) {
                Entry { queue: Queue::Main, ..t[k] }
            } else {
                t[k]
            },
    )
}

proof fn lemma_first_at_most<T>(keys: Seq<Key>, t: Map<Key, Entry<T>>, r: nat, p: int)
    requires
        0 <= p <= keys.len(),
        forall|i: int| 0 <= i < p ==> t[#[trigger] keys[i]].uses > r,
        p == keys.len() || t[keys[p]].uses <= r,
    ensures
        first_at_most(keys, t, r) == p,
    decreases p,
{
    if p > 0 {
        let rest = keys.drop_first();
        assert forall|i: int| 0 <= i < p - 1 implies t[#[trigger] rest[i]].uses > r by {
            assert(rest[i] == keys[i + 1]);
        }
        lemma_first_at_most(rest, t, r, p - 1);
    }
}

proof fn lemma_min_uses<T>(keys: Seq<Key>, t: Map<Key, Entry<T>>, r: nat, i: int)
    requires
        0 <= i < keys.len(),
        forall|j: int| 0 <= j < keys.len() ==> t[#[trigger] keys[j]].uses >= r,
        t[keys[i]].uses == r,
    ensures
        min_uses(keys, t) == r,
    decreases keys.len(),
{
    if keys.len() > 1 {
        let rest = keys.drop_first();
        assert forall|j: int| 0 <= j < rest.len() implies t[#[trigger] rest[j]].uses >= r by {
            assert(rest[j] == keys[j + 1]);
        }
        if i > 0 {
            assert(rest[i - 1] == keys[i]);
            lemma_min_uses(rest, t, r, i - 1);
        } else {
            lemma_min_uses_lower(rest, t, r);
        }
    }
}

proof fn lemma_min_uses_lower<T>(keys: Seq<Key>, t: Map<Key, Entry<T>>, r: nat)
    requires
        forall|j: int| 0 <= j < keys.len() ==> t[#[trigger] keys[j]].uses >= r,
    ensures
        keys.len() > 0 ==> min_uses(keys, t) >= r,
    decreases keys.len(),
{
    if keys.len() > 1 {
        let rest = keys.drop_first();
        assert forall|j: int| 0 <= j < rest.len() implies t[#[trigger] rest[j]].uses >= r by {
            assert(rest[j] == keys[j + 1]);
        }
        lemma_min_uses_lower(rest, t, r);
    }
}

/// The entry that one eviction step takes out of the queues `s` (small) and
/// `m` (main) over the table `t`, where `over` says whether the small queue
/// is above its weight limit: the first entry of the small queue used at
/// most once; failing that, with every small entry promoted, the main
/// queue's victim; and with the small queue within its limit, the main
/// queue's victim.
pub open spec fn first_victim<T>(s: Seq<Key>, m: Seq<Key>, t: Map<Key, Entry<T>>, over: bool) -> Key {
    if over {
        if first_cold(s, t) < s.len() {
            s[first_cold(s, t) as int]
        } else {
            let m2 = m + s;
            m2[main_victim(m2, promoted(t, s)) as int]
        }
    } else {
        m[main_victim(m, t) as int]
    }
}

/// The queues and the table, as an eviction step sees them.
pub ghost struct QueueState<T> {
    pub small: Seq<Key>,
    pub main: Seq<Key>,
    pub table: Map<Key, Entry<T>>,
}

/// The table after the main-queue scan over `m`: its victim is removed; every
/// entry of `m` has lost `min_uses(m, t)` uses, and those ahead of the victim
/// one more.
pub open spec fn main_scanned<T>(m: Seq<Key>, t: Map<Key, Entry<T>>) -> Map<Key, Entry<T>> {
    let n = main_victim(m, t) as int;
    let low = min_uses(m, t) as int;
    Map::new(
        |k: Key| t.contains_key(k) && k != m[n],
        |k: Key|
            if m.contains(k) {
                Entry {
                    uses: (t[k].uses - low - (if m.index_of(k) < n { 1int } else { 0int })) as u8,
                    ..t[k]
                }
            } else {
                t[k]
            },
    )
}

/// The state after the main-queue scan: the entries ahead of the victim go
/// round to the tail.
pub open spec fn main_step<T>(st: QueueState<T>) -> QueueState<T> {
    let m = st.main;
    let n = main_victim(m, st.table) as int;
    QueueState {
        small: st.small,
        main: m.subrange(n + 1, m.len() as int) + m.subrange(0, n),
        table: main_scanned(m, st.table),
    }
}

/// The state after the small-queue scan finds a cold entry: the entries
/// ahead of it are promoted to the main queue, it is removed.
pub open spec fn small_step<T>(st: QueueState<T>) -> QueueState<T> {
    let s = st.small;
    let n = first_cold(s, st.table) as int;
    QueueState {
        small: s.subrange(n + 1, s.len() as int),
        main: st.main + s.subrange(0, n),
        table: promoted(st.table, s.subrange(0, n)).remove(s[n]),
    }
}

/// Whether the small queue is above its weight limit `ls`.
pub open spec fn small_over<T>(st: QueueState<T>, ls: nat) -> bool {
    weight_sum(st.small, st.table) > ls
}

/// Whether an eviction step finds a victim.
pub open spec fn can_evict<T>(st: QueueState<T>, ls: nat) -> bool {
    small_over(st, ls) || st.main.len() > 0
}

/// The entry that the next eviction step takes out.
pub open spec fn step_victim<T>(st: QueueState<T>, ls: nat) -> Key {
    first_victim(st.small, st.main, st.table, small_over(st, ls))
}

/// One eviction step: from the small queue while it is above its limit
/// (promoting every entry if none is cold), else from the main queue.
pub open spec fn evict_step<T>(st: QueueState<T>, ls: nat) -> QueueState<T> {
    if small_over(st, ls) {
        if first_cold(st.small, st.table) < st.small.len() {
            small_step(st)
        } else {
            main_step(
                QueueState {
                    small: Seq::empty(),
                    main: st.main + st.small,
                    table: promoted(st.table, st.small),
                },
            )
        }
    } else {
        main_step(st)
    }
}

/// Whether the entries of the state weigh more than `limit`.
pub open spec fn over_limit<T>(st: QueueState<T>, limit: nat) -> bool {
    weight_sum(st.small, st.table) + weight_sum(st.main, st.table) > limit
}

/// The state after evicting, at most `fuel` times, while over `limit` and a
/// victim can be found.
pub open spec fn drained<T>(st: QueueState<T>, limit: nat, ls: nat, fuel: nat) -> QueueState<T>
    decreases fuel,
{
    if fuel == 0 || !over_limit(st, limit) || !can_evict(st, ls) {
        st
    } else {
        drained(evict_step(st, ls), limit, ls, (fuel - 1) as nat)
    }
}

/// The keys evicted, in order, on the way to `drained`.
pub open spec fn drain_victims<T>(st: QueueState<T>, limit: nat, ls: nat, fuel: nat) -> Seq<Key>
    decreases fuel,
{
    if fuel == 0 || !over_limit(st, limit) || !can_evict(st, ls) {
        Seq::empty()
    } else {
        seq![step_victim(st, ls)] + drain_victims(evict_step(st, ls), limit, ls, (fuel - 1) as nat)
    }
}

/// Upper bound of the weight limit, so that the ledger cannot overflow.
pub open spec fn limit_fits(total_weight_limit: nat) -> bool {
    total_weight_limit + LEDGER_HEADROOM <= usize::MAX
}

/// Small queue limit: 10% of the total weight limit, plus one.
pub open spec fn small_limit_of(total_weight_limit: nat) -> nat {
    total_weight_limit / 10 + 1
}

pub open spec fn max_of(a: nat, b: nat) -> nat {
    if a >= b { a } else { b }
}

/// S3-FIFO queues: a small probationary queue and a main queue of
/// fingerprints, their weight ledger, and the TinyLFU oracle that stands in
/// for a ghost queue.
struct FifoQueues<T> {
    small: VecDeque<Key>,
    small_weight: usize,
    main: VecDeque<Key>,
    main_weight: usize,
    estimator: TinyLFU,
    small_weight_limit: usize,
    total_weight_limit: usize,
    /// The largest weight ever put.
    max_weight: Ghost<nat>,
    /// Number of entries created so far.
    admissions: Ghost<nat>,
    /// Number of entries evicted so far.
    evictions: Ghost<nat>,
    _t: std::marker::PhantomData<T>,
}

impl<T> FifoQueues<T> {
    /// The queues and the ledger agree with the table `t`.
    spec fn inv(&self, t: Map<Key, Entry<T>>) -> bool {
        let s = self.small@;
        let m = self.main@;
        &&& s.no_duplicates()
        &&& m.no_duplicates()
        &&& forall|k: Key| #[trigger] s.contains(k) ==> !m.contains(k)
        &&& forall|k: Key| #[trigger] t.contains_key(k) <==> (s.contains(k) || m.contains(k))
        &&& forall|k: Key| #[trigger] s.contains(k) ==> t[k].queue == Queue::Small
        &&& forall|k: Key| #[trigger] m.contains(k) ==> t[k].queue == Queue::Main
        &&& forall|k: Key| #[trigger] t.contains_key(k) ==> t[k].wf() && t[k].weight <= self.max_weight@
        &&& t.dom().finite()
        &&& self.small_weight == weight_sum(s, t)
        &&& self.main_weight == weight_sum(m, t)
        &&& limit_fits(self.total_weight_limit as nat)
        &&& self.small_weight_limit == small_limit_of(self.total_weight_limit as nat)
        &&& self.max_weight@ <= u16::MAX
        &&& self.small_weight + self.main_weight <= max_of(
            self.total_weight_limit as nat,
            self.small_weight_limit as nat,
        ) + self.max_weight@
        &&& self.estimator.wf()
        &&& t.len() + self.evictions@ == self.admissions@
    }

    /// The queues together with the table `t`.
    spec fn state(&self, t: Map<Key, Entry<T>>) -> QueueState<T> {
        QueueState { small: self.small@, main: self.main@, table: t }
    }

    /// Parts that the eviction paths leave alone.
    spec fn same_config(&self, other: &Self) -> bool {
        &&& self.estimator == other.estimator
        &&& self.small_weight_limit == other.small_weight_limit
        &&& self.total_weight_limit == other.total_weight_limit
        &&& self.max_weight == other.max_weight
        &&& self.admissions == other.admissions
    }

    fn new(total_weight_limit: usize, capacity: usize) -> (r: Self)
        requires
            limit_fits(total_weight_limit as nat),
            8 * capacity <= usize::MAX,
            optimal_depth(capacity as nat) * optimal_width(capacity as nat) <= usize::MAX,
        ensures
            r.inv(Map::empty()),
            r.total_weight_limit == total_weight_limit,
            r.small@.len() == 0,
            r.main@.len() == 0,
            r.max_weight@ == 0,
            r.admissions@ == 0,
            r.evictions@ == 0,
            r.small_weight == 0,
            r.main_weight == 0,
            r.estimator.window_limit() == 8 * capacity,
            r.estimator.window_counter() == 0,
            r.estimator.sketch().rows() == optimal_depth(capacity as nat),
            r.estimator.sketch().width == optimal_width(capacity as nat),
            r.estimator.sketch() == SketchModel::zeroed(r.estimator.sketch().seeds, r.estimator.sketch().width),
    {
        let small_weight_limit: usize = total_weight_limit / 10 + 1;
        FifoQueues {
            small: VecDeque::with_capacity(capacity / 10),
            small_weight: 0,
            main: VecDeque::with_capacity(capacity),
            main_weight: 0,
            estimator: TinyLFU::new(capacity),
            small_weight_limit,
            total_weight_limit,
            max_weight: Ghost(0),
            admissions: Ghost(0),
            evictions: Ghost(0),
            _t: std::marker::PhantomData,
        }
    }

    /// Evict one entry from the small queue.
    ///
    /// Pops the head of the small queue; an entry used more than once is
    /// promoted to the tail of the main queue and the scan goes on, the
    /// first entry used at most once is removed and returned.
    fn evict_small(&mut self, cache: &mut HashMap<Key, Entry<T>>) -> (r: Option<EvictedEntry<T>>)
        requires
            old(self).inv(old(cache)@),
        ensures
            final(self).inv(final(cache)@),
            final(self).same_config(old(self)),
            forall|k: Key| #[trigger] final(cache)@.contains_key(k) ==> final(cache)@[k].data
                == old(cache)@[k].data && final(cache)@[k].weight == old(cache)@[k].weight,
            ({
                let s = old(self).small@;
                let n = first_cold(s, old(cache)@) as int;
                &&& n <= s.len()
                &&& final(self).main@ == old(self).main@ + s.subrange(0, n)
                &&& match r {
                    Some(v) => {
                        &&& n < s.len()
                        &&& v.key == s[n]
                        &&& final(self).small@ == s.subrange(n + 1, s.len() as int)
                        &&& final(cache)@ == promoted(old(cache)@, s.subrange(0, n)).remove(v.key)
                    },
                    None => {
                        &&& n == s.len()
                        &&& final(cache)@ == promoted(old(cache)@, s)
                    },
                }
            }),
            match r {
                Some(v) => {
                    &&& old(cache)@.contains_key(v.key)
                    &&& old(cache)@[v.key].queue == Queue::Small
                    &&& old(cache)@[v.key].uses <= 1
                    &&& v.data == old(cache)@[v.key].data
                    &&& v.weight == old(cache)@[v.key].weight
                    &&& final(cache)@.dom() == old(cache)@.dom().remove(v.key)
                    &&& final(self).evictions@ == old(self).evictions@ + 1
                },
                None => {
                    &&& final(self).small@.len() == 0
                    &&& final(self).small_weight == 0
                    &&& final(cache)@.dom() == old(cache)@.dom()
                    &&& final(self).evictions@ == old(self).evictions@
                    &&& (old(self).small@.len() > 0 ==> final(self).main@.len() > 0)
                    &&& (old(self).small@.len() == 0 ==> final(cache)@ == old(cache)@
                        && final(self).main_weight == old(self).main_weight)
                    &&& forall|k: Key| #[trigger] final(cache)@.contains_key(k) ==> final(cache)@[k].data
                        == old(cache)@[k].data && final(cache)@[k].weight == old(cache)@[k].weight
                },
            },
    {
        let ghost pre = *old(self);
        let ghost pre_t = old(cache)@;
        let ghost mut p: int = 0;
        proof {
            assert(pre.small@.subrange(0, 0) =~= Seq::<Key>::empty());
            assert(pre.main@ + pre.small@.subrange(0, 0) =~= pre.main@);
            assert(pre.small@.subrange(0, pre.small@.len() as int) =~= pre.small@);
            assert(promoted(pre_t, pre.small@.subrange(0, 0)) =~= pre_t);
        }
        loop
            invariant
                self.inv(cache@),
                pre == *old(self),
                pre_t == old(cache)@,
                self.same_config(&pre),
                self.evictions@ == pre.evictions@,
                cache@.dom() == pre_t.dom(),
                forall|k: Key| #[trigger] cache@.contains_key(k) && cache@[k].queue == Queue::Small
                    ==> cache@[k] == pre_t[k],
                pre.small@.len() > 0 && self.small@.len() == 0 ==> self.main@.len() > 0,
                pre.small@.len() == 0 ==> cache@ == pre_t && self.main_weight == pre.main_weight,
                forall|k: Key| #[trigger] cache@.contains_key(k) ==> cache@[k].data == pre_t[k].data
                    && cache@[k].weight == pre_t[k].weight,
                pre.small@.len() == 0 ==> self.small@.len() == 0,
                0 <= p <= pre.small@.len(),
                self.small@ == pre.small@.subrange(p, pre.small@.len() as int),
                self.main@ == pre.main@ + pre.small@.subrange(0, p),
                cache@ == promoted(pre_t, pre.small@.subrange(0, p)),
                forall|i: int| 0 <= i < p ==> pre_t[#[trigger] pre.small@[i]].uses > 1,
                pre.small@.no_duplicates(),
            decreases self.small@.len(),
        {
            let ghost s0 = self.small@;
            let ghost m0 = self.main@;
            let ghost t0 = cache@;
            let ghost sp = pre.small@;
            let to_evict: Key = match self.small.pop_front() {
                Some(k) => k,
                None => {
                    proof {
                        lemma_first_at_most(sp, pre_t, 1, p);
                        assert(sp.subrange(0, p) =~= sp);
                    }
                    return None;
                },
            };
            proof {
                assert(sp[p] == to_evict);
                assert(!sp.subrange(0, p).contains(to_evict)) by {
                    if sp.subrange(0, p).contains(to_evict) {
                        let i = choose|i: int| 0 <= i < p && sp.subrange(0, p)[i] == to_evict;
                        assert(sp[i] == sp[p]);
                    }
                }
                assert(t0[to_evict] == pre_t[to_evict]);
                assert(sp.subrange(0, p + 1) =~= sp.subrange(0, p).push(to_evict));
                assert(self.small@ =~= sp.subrange(p + 1, sp.len() as int));
            }
            proof {
                assert(s0[0] == to_evict);
                assert(s0.contains(to_evict));
                assert(t0.contains_key(to_evict));
                assert(self.small@ == s0.drop_first());
                lemma_key_sum_first(s0, weights(t0));
            }
            let mut entry: Entry<T> = match cache.remove(&to_evict) {
                Some(e) => e,
                None => {
                    return None;
                },
            };
            let ghost t1 = cache@;
            let ghost rest = s0.drop_first();
            assert forall|i: int| 0 <= i < rest.len() implies #[trigger] rest[i] != to_evict by {
                assert(s0[i + 1] == rest[i]);
            }
            proof {
                lemma_drop_first_contains(s0, to_evict);
            }
            if entry.uses() > 1 {
                entry.move_to_main();
                let w: Weight = entry.weight;
                cache.insert(to_evict, entry);
                self.main.push_back(to_evict);
                proof {
                    let t2 = cache@;
                    assert(t2 == t0.insert(to_evict, t2[to_evict]));
                    lemma_key_sum_frame(rest, weights(t0), weights(t2));
                    assert forall|i: int| 0 <= i < m0.len() implies weights(t0)(#[trigger] m0[i])
                        == weights(t2)(m0[i]) by {
                        assert(m0.contains(m0[i]));
                    }
                    lemma_key_sum_frame(m0, weights(t0), weights(t2));
                    lemma_key_sum_push(m0, weights(t2), to_evict);
                    assert(self.main@ == m0.push(to_evict));
                }
                self.small_weight = self.small_weight - w as usize;
                self.main_weight = self.main_weight + w as usize;
                proof {
                    assert(self.main@.no_duplicates()) by {
                        assert(!m0.contains(to_evict));
                    }
                    assert forall|k: Key| #[trigger] self.small@.contains(k) implies !self.main@.contains(k)
                        && cache@[k].queue == Queue::Small by {
                        lemma_drop_first_contains(s0, k);
                        lemma_push_contains(m0, to_evict, k);
                    }
                    assert forall|k: Key| #[trigger] cache@.contains_key(k) <==> (self.small@.contains(k)
                        || self.main@.contains(k)) by {
                        lemma_drop_first_contains(s0, k);
                        lemma_push_contains(m0, to_evict, k);
                    }
                    assert forall|k: Key| #[trigger] self.main@.contains(k) implies cache@[k].queue
                        == Queue::Main by {
                        lemma_push_contains(m0, to_evict, k);
                    }
                }
                proof {
                    let sub = sp.subrange(0, p);
                    assert(self.main@ =~= pre.main@ + sp.subrange(0, p + 1));
                    assert forall|x: Key| #[trigger] cache@.contains_key(x) implies cache@[x]
                        == promoted(pre_t, sp.subrange(0, p + 1))[x] by {
                        lemma_push_contains(sub, to_evict, x);
                    }
                    assert(cache@ =~= promoted(pre_t, sp.subrange(0, p + 1)));
                    p = p + 1;
                }
            } else {
                let weight: Weight = entry.weight;
                proof {
                    lemma_first_at_most(sp, pre_t, 1, p);
                    assert(t1 == t0.remove(to_evict));
                    lemma_key_sum_frame(rest, weights(t0), weights(t1));
                    assert forall|i: int| 0 <= i < m0.len() implies weights(t0)(#[trigger] m0[i])
                        == weights(t1)(m0[i]) by {
                        assert(m0.contains(m0[i]));
                    }
                    lemma_key_sum_frame(m0, weights(t0), weights(t1));
                    self.evictions@ = self.evictions@ + 1;
                }
                self.small_weight = self.small_weight - weight as usize;
                proof {
                    assert forall|k: Key| #[trigger] self.small@.contains(k) implies !self.main@.contains(k)
                        && t1[k].queue == Queue::Small by {
                        lemma_drop_first_contains(s0, k);
                    }
                    assert forall|k: Key| #[trigger] t1.contains_key(k) <==> (self.small@.contains(k)
                        || self.main@.contains(k)) by {
                        lemma_drop_first_contains(s0, k);
                    }
                    assert(t1.dom() == pre_t.dom().remove(to_evict));
                }
                return Some(EvictedEntry { key: to_evict, data: entry.data, weight });
            }
        }
    }

    /// Evict one entry from the main queue.
    ///
    /// Pops the head of the main queue and decrements its uses; an entry
    /// whose previous uses were positive goes back to the tail and the scan
    /// goes on, the first one found at zero is removed and returned.
    fn evict_main(&mut self, cache: &mut HashMap<Key, Entry<T>>) -> (r: Option<EvictedEntry<T>>)
        requires
            old(self).inv(old(cache)@),
        ensures
            final(self).inv(final(cache)@),
            final(self).same_config(old(self)),
            forall|k: Key| #[trigger] final(cache)@.contains_key(k) ==> final(cache)@[k].data
                == old(cache)@[k].data && final(cache)@[k].weight == old(cache)@[k].weight,
            final(self).small@ == old(self).small@,
            final(self).small_weight == old(self).small_weight,
            ({
                let m = old(self).main@;
                let t = old(cache)@;
                let n = main_victim(m, t) as int;
                let low = min_uses(m, t) as int;
                match r {
                    Some(v) => {
                        &&& 0 <= n < m.len()
                        &&& v.key == m[n]
                        &&& final(self).main@ == m.subrange(n + 1, m.len() as int) + m.subrange(0, n)
                        &&& forall|j: int| 0 <= j < m.len() && j != n ==> #[trigger] final(cache)@[m[j]].uses
                            == t[m[j]].uses - low - (if j < n { 1int } else { 0int })
                        &&& forall|k: Key| #[trigger] final(cache)@.contains_key(k) && !m.contains(k)
                            ==> final(cache)@[k] == t[k]
                        &&& final(cache)@ == main_scanned(m, t)
                    },
                    None => true,
                }
            }),
            match r {
                Some(v) => {
                    &&& old(cache)@.contains_key(v.key)
                    &&& old(cache)@[v.key].queue == Queue::Main
                    &&& v.data == old(cache)@[v.key].data
                    &&& v.weight == old(cache)@[v.key].weight
                    &&& final(cache)@.dom() == old(cache)@.dom().remove(v.key)
                    &&& final(self).evictions@ == old(self).evictions@ + 1
                },
                None => {
                    &&& old(self).main@.len() == 0
                    &&& final(self).main@ == old(self).main@
                    &&& final(self).main_weight == 0
                    &&& final(cache)@ == old(cache)@
                    &&& final(self).evictions@ == old(self).evictions@
                },
            },
    {
        let ghost pre = *old(self);
        let ghost pre_t = old(cache)@;
        let ghost mut p: int = 0;
        let ghost mut rounds: int = 0;
        proof {
            assert(pre.main@.subrange(0, pre.main@.len() as int) + pre.main@.subrange(0, 0)
                =~= pre.main@);
        }
        loop
            invariant
                self.inv(cache@),
                pre == *old(self),
                pre_t == old(cache)@,
                self.same_config(&pre),
                self.small@ == pre.small@,
                self.small_weight == pre.small_weight,
                self.evictions@ == pre.evictions@,
                self.main@.len() == pre.main@.len(),
                cache@.dom() == pre_t.dom(),
                pre.main@.len() == 0 ==> cache@ == pre_t,
                forall|k: Key| #[trigger] cache@.contains_key(k) ==> cache@[k].data == pre_t[k].data
                    && cache@[k].weight == pre_t[k].weight && cache@[k].queue == pre_t[k].queue,
                0 <= p <= pre.main@.len(),
                pre.main@.len() > 0 ==> p < pre.main@.len(),
                pre.main@.no_duplicates(),
                self.main@ == pre.main@.subrange(p, pre.main@.len() as int) + pre.main@.subrange(0, p),
                forall|j: int| 0 <= j < pre.main@.len() ==> pre_t[#[trigger] pre.main@[j]].uses >= rounds,
                forall|j: int| 0 <= j < p ==> pre_t[#[trigger] pre.main@[j]].uses > rounds,
                forall|j: int| 0 <= j < pre.main@.len() ==> #[trigger] cache@[pre.main@[j]].uses
                    == pre_t[pre.main@[j]].uses - rounds - (if j < p { 1int } else { 0int }),
                forall|k: Key| #[trigger] cache@.contains_key(k) && !pre.main@.contains(k) ==> cache@[k]
                    == pre_t[k],
            decreases key_sum(self.main@, uses_of(cache@)),
        {
            let ghost m0 = self.main@;
            let ghost t0 = cache@;
            let to_evict: Key = match self.main.pop_front() {
                Some(k) => k,
                None => {
                    proof {
                        assert(self.main@ =~= pre.main@);
                    }
                    return None;
                },
            };
            let ghost rest = m0.drop_first();
            let ghost mp = pre.main@;
            proof {
                assert(m0[0] == mp[p]);
                assert(m0[0] == to_evict);
                assert(m0.contains(to_evict));
                assert(t0.contains_key(to_evict));
                assert(self.main@ == rest);
                lemma_key_sum_first(m0, weights(t0));
                lemma_key_sum_first(m0, uses_of(t0));
                lemma_drop_first_contains(m0, to_evict);
            }
            let mut entry: Entry<T> = match cache.remove(&to_evict) {
                Some(e) => e,
                None => {
                    return None;
                },
            };
            let ghost t1 = cache@;
            if entry.decr_uses() > 0 {
                cache.insert(to_evict, entry);
                self.main.push_back(to_evict);
                proof {
                    let t2 = cache@;
                    assert(t2 == t0.insert(to_evict, t2[to_evict]));
                    let s = self.small@;
                    assert forall|i: int| 0 <= i < s.len() implies weights(t0)(#[trigger] s[i])
                        == weights(t2)(s[i]) by {
                    }
                    lemma_key_sum_frame(s, weights(t0), weights(t2));
                    assert forall|i: int| 0 <= i < rest.len() implies weights(t0)(#[trigger] rest[i])
                        == weights(t2)(rest[i]) by {
                    }
                    lemma_key_sum_frame(rest, weights(t0), weights(t2));
                    lemma_key_sum_push(rest, weights(t2), to_evict);
                    assert forall|i: int| 0 <= i < rest.len() implies uses_of(t0)(#[trigger] rest[i])
                        == uses_of(t2)(rest[i]) by {
                        assert(rest.contains(rest[i]));
                    }
                    lemma_key_sum_frame(rest, uses_of(t0), uses_of(t2));
                    lemma_key_sum_push(rest, uses_of(t2), to_evict);
                    assert(self.main@ == rest.push(to_evict));
                    assert(self.main@.no_duplicates());
                    assert forall|k: Key| #[trigger] self.small@.contains(k) implies !self.main@.contains(k)
                        by {
                        lemma_drop_first_contains(m0, k);
                        lemma_push_contains(rest, to_evict, k);
                    }
                    assert forall|k: Key| #[trigger] t2.contains_key(k) <==> (self.small@.contains(k)
                        || self.main@.contains(k)) by {
                        lemma_drop_first_contains(m0, k);
                        lemma_push_contains(rest, to_evict, k);
                    }
                    assert forall|k: Key| #[trigger] self.main@.contains(k) implies t2[k].queue
                        == Queue::Main by {
                        lemma_drop_first_contains(m0, k);
                        lemma_push_contains(rest, to_evict, k);
                    }
                }
                proof {
                    let len = mp.len() as int;
                    assert(pre_t[mp[p]].uses > rounds);
                    assert forall|k: Key| #[trigger] cache@.contains_key(k) && !mp.contains(k) implies cache@[k]
                        == pre_t[k] by {
                        assert(k != mp[p]);
                    }
                    assert forall|j: int| 0 <= j < len && j != p implies #[trigger] cache@[mp[j]] == t0[mp[j]] by {
                        assert(mp[j] != mp[p]);
                    }
                    if p + 1 == len {
                        assert(self.main@ =~= mp.subrange(0, len) + mp.subrange(0, 0));
                        p = 0;
                        rounds = rounds + 1;
                    } else {
                        assert(self.main@ =~= mp.subrange(p + 1, len) + mp.subrange(0, p + 1));
                        p = p + 1;
                    }
                }
            } else {
                let weight: Weight = entry.weight;
                proof {
                    let len = mp.len() as int;
                    assert(pre_t[mp[p]].uses == rounds);
                    lemma_min_uses(mp, pre_t, rounds as nat, p);
                    lemma_first_at_most(mp, pre_t, rounds as nat, p);
                    assert(self.main@ =~= mp.subrange(p + 1, len) + mp.subrange(0, p));
                    assert forall|j: int| 0 <= j < len && j != p implies #[trigger] t1[mp[j]] == t0[mp[j]] by {
                        assert(mp[j] != mp[p]);
                    }
                    assert forall|k: Key| #[trigger] t1.contains_key(k) && !mp.contains(k) implies t1[k]
                        == pre_t[k] by {
                    }
                    let scanned = main_scanned(mp, pre_t);
                    assert forall|k: Key| #[trigger] t1.contains_key(k) implies t1[k] == scanned[k] by {
                        if mp.contains(k) {
                            let j = mp.index_of(k);
                            assert(mp[j] == k);
                            assert(j != p);
                            assert(t1[mp[j]] == t0[mp[j]]);
                        }
                    }
                    assert(t1 =~= scanned);
                }
                proof {
                    assert(t1 == t0.remove(to_evict));
                    let s = self.small@;
                    assert forall|i: int| 0 <= i < s.len() implies weights(t0)(#[trigger] s[i])
                        == weights(t1)(s[i]) by {
                        assert(s.contains(s[i]));
                    }
                    lemma_key_sum_frame(s, weights(t0), weights(t1));
                    assert forall|i: int| 0 <= i < rest.len() implies weights(t0)(#[trigger] rest[i])
                        == weights(t1)(rest[i]) by {
                        assert(rest.contains(rest[i]));
                    }
                    lemma_key_sum_frame(rest, weights(t0), weights(t1));
                    self.evictions@ = self.evictions@ + 1;
                }
                self.main_weight = self.main_weight - weight as usize;
                proof {
                    assert forall|k: Key| #[trigger] self.small@.contains(k) implies !self.main@.contains(k)
                        by {
                        lemma_drop_first_contains(m0, k);
                    }
                    assert forall|k: Key| #[trigger] t1.contains_key(k) <==> (self.small@.contains(k)
                        || self.main@.contains(k)) by {
                        lemma_drop_first_contains(m0, k);
                    }
                    assert forall|k: Key| #[trigger] self.main@.contains(k) implies t1[k].queue
                        == Queue::Main by {
                        lemma_drop_first_contains(m0, k);
                    }
                    assert(t1.dom() == pre_t.dom().remove(to_evict));
                }
                return Some(EvictedEntry { key: to_evict, data: entry.data, weight });
            }
        }
    }

    /// Evict one entry: from the small queue first while it is over its
    /// limit, else (or if that found nothing) from the main queue.
    fn evict_one(&mut self, cache: &mut HashMap<Key, Entry<T>>) -> (r: Option<EvictedEntry<T>>)
        requires
            old(self).inv(old(cache)@),
        ensures
            final(self).inv(final(cache)@),
            final(self).same_config(old(self)),
            forall|k: Key| #[trigger] final(cache)@.contains_key(k) ==> final(cache)@[k].data
                == old(cache)@[k].data && final(cache)@[k].weight == old(cache)@[k].weight,
            ({
                let s = old(self).small@;
                let m = old(self).main@;
                let over = old(self).small_weight > old(self).small_weight_limit;
                &&& ((over || m.len() > 0) ==> r is Some && r->0.key == first_victim(s, m, old(cache)@, over))
                &&& (r is Some ==> over || m.len() > 0)
                &&& (r is Some ==> final(self).state(final(cache)@) == evict_step(
                    old(self).state(old(cache)@),
                    old(self).small_weight_limit as nat,
                ))
                &&& (r is None ==> final(self).state(final(cache)@) == old(self).state(old(cache)@))
            }),
            match r {
                Some(v) => {
                    &&& old(cache)@.contains_key(v.key)
                    &&& v.data == old(cache)@[v.key].data
                    &&& v.weight == old(cache)@[v.key].weight
                    &&& final(cache)@.dom() == old(cache)@.dom().remove(v.key)
                    &&& final(self).evictions@ == old(self).evictions@ + 1
                },
                None => {
                    &&& final(self).main_weight == 0
                    &&& final(self).small_weight <= final(self).small_weight_limit
                    &&& final(cache)@ == old(cache)@
                    &&& final(self).small_weight == old(self).small_weight
                    &&& final(self).main_weight == old(self).main_weight
                    &&& final(self).evictions@ == old(self).evictions@
                },
            },
    {
        let ghost s = self.small@;
        let ghost m = self.main@;
        let ghost t = cache@;
        let ghost st = self.state(t);
        if self.small_weight > self.small_weight_limit {
            if let Some(evicted) = self.evict_small(cache) {
                proof {
                    assert(small_over(st, self.small_weight_limit as nat));
                    assert(self.state(cache@) == small_step(st));
                }
                return Some(evicted);
            }
            proof {
                assert(s.subrange(0, s.len() as int) =~= s);
                if s.len() == 0 {
                    assert(weight_sum(s, t) == 0);
                }
                assert(self.small@ =~= Seq::<Key>::empty());
            }
        }
        let ghost mid = self.state(cache@);
        let r = self.evict_main(cache);
        proof {
            if r is Some {
                assert(self.state(cache@) == main_step(mid));
            }
        }
        r
    }

    /// Evict entries until the total weight is within the limit, or until
    /// nothing more can be evicted; returns the evicted entries in order.
    fn try_evict(&mut self, cache: &mut HashMap<Key, Entry<T>>) -> (r: Vec<EvictedEntry<T>>)
        requires
            old(self).inv(old(cache)@),
        ensures
            final(self).inv(final(cache)@),
            final(self).same_config(old(self)),
            forall|k: Key| #[trigger] final(cache)@.contains_key(k) ==> final(cache)@[k].data
                == old(cache)@[k].data && final(cache)@[k].weight == old(cache)@[k].weight,
            final(self).small_weight + final(self).main_weight <= final(self).total_weight_limit
                || (final(self).main_weight == 0 && final(self).small_weight
                <= final(self).small_weight_limit),
            old(self).small_weight + old(self).main_weight <= old(self).total_weight_limit ==> r@.len()
                == 0,
            forall|k: Key| #[trigger] final(cache)@.contains_key(k) ==> old(cache)@.contains_key(k),
            forall|i: int| 0 <= i < r@.len() ==> (#[trigger] r@[i]).weight <= final(self).max_weight@,
            final(self).evictions@ == old(self).evictions@ + r@.len(),
            r@.len() == 0 ==> final(cache)@ == old(cache)@,
            forall|i: int| 0 <= i < r@.len() ==> old(cache)@.contains_key(#[trigger] r@[i].key)
                && !final(cache)@.contains_key(r@[i].key) && r@[i].weight == old(cache)@[r@[i].key].weight
                && r@[i].data == old(cache)@[r@[i].key].data,
            final(self).state(final(cache)@) == drained(
                old(self).state(old(cache)@),
                old(self).total_weight_limit as nat,
                old(self).small_weight_limit as nat,
                old(cache)@.len(),
            ),
            final(cache)@.dom() == old(cache)@.dom().difference(
                r@.map_values(|e: EvictedEntry<T>| e.key).to_set(),
            ),
            r@.map_values(|e: EvictedEntry<T>| e.key) == drain_victims(
                old(self).state(old(cache)@),
                old(self).total_weight_limit as nat,
                old(self).small_weight_limit as nat,
                old(cache)@.len(),
            ),
    {
        let mut evicted: Vec<EvictedEntry<T>> = Vec::new();
        let ghost pre = *old(self);
        let ghost pre_t = old(cache)@;
        loop
            invariant_except_break
                evicted@.len() == 0 ==> self.small@ == pre.small@ && self.main@ == pre.main@,
            invariant
                self.inv(cache@),
                pre == *old(self),
                pre_t == old(cache)@,
                self.same_config(&pre),
                pre.small_weight + pre.main_weight <= pre.total_weight_limit ==> evicted@.len() == 0,
                forall|k: Key| #[trigger] cache@.contains_key(k) ==> pre_t.contains_key(k),
                forall|i: int| 0 <= i < evicted@.len() ==> (#[trigger] evicted@[i]).weight <= self.max_weight@,
                self.evictions@ == pre.evictions@ + evicted@.len(),
                evicted@.len() == 0 ==> cache@ == pre_t && self.small_weight == pre.small_weight
                    && self.main_weight == pre.main_weight,
                forall|k: Key| #[trigger] cache@.contains_key(k) ==> cache@[k].data == pre_t[k].data
                    && cache@[k].weight == pre_t[k].weight,
                forall|i: int| 0 <= i < evicted@.len() ==> pre_t.contains_key(#[trigger] evicted@[i].key)
                    && !cache@.contains_key(evicted@[i].key) && evicted@[i].weight == pre_t[evicted@[i].key].weight
                    && evicted@[i].data == pre_t[evicted@[i].key].data,
                drained(self.state(cache@), pre.total_weight_limit as nat, pre.small_weight_limit as nat,
                    cache@.len()) == drained(pre.state(pre_t), pre.total_weight_limit as nat,
                    pre.small_weight_limit as nat, pre_t.len()),
                evicted@.map_values(|e: EvictedEntry<T>| e.key) + drain_victims(self.state(cache@),
                    pre.total_weight_limit as nat, pre.small_weight_limit as nat, cache@.len())
                    == drain_victims(pre.state(pre_t), pre.total_weight_limit as nat,
                    pre.small_weight_limit as nat, pre_t.len()),
                cache@.dom() == pre_t.dom().difference(evicted@.map_values(|e: EvictedEntry<T>| e.key).to_set()),
            ensures
                self.inv(cache@),
                self.same_config(&pre),
                self.small_weight + self.main_weight <= self.total_weight_limit || (self.main_weight == 0
                    && self.small_weight <= self.small_weight_limit),
                pre.small_weight + pre.main_weight <= pre.total_weight_limit ==> evicted@.len() == 0,
                forall|k: Key| #[trigger] cache@.contains_key(k) ==> pre_t.contains_key(k),
                forall|i: int| 0 <= i < evicted@.len() ==> (#[trigger] evicted@[i]).weight <= self.max_weight@,
                self.evictions@ == pre.evictions@ + evicted@.len(),
                evicted@.len() == 0 ==> cache@ == pre_t,
                forall|k: Key| #[trigger] cache@.contains_key(k) ==> cache@[k].data == pre_t[k].data
                    && cache@[k].weight == pre_t[k].weight,
                forall|i: int| 0 <= i < evicted@.len() ==> pre_t.contains_key(#[trigger] evicted@[i].key)
                    && !cache@.contains_key(evicted@[i].key) && evicted@[i].weight == pre_t[evicted@[i].key].weight
                    && evicted@[i].data == pre_t[evicted@[i].key].data,
                drained(self.state(cache@), pre.total_weight_limit as nat, pre.small_weight_limit as nat,
                    cache@.len()) == drained(pre.state(pre_t), pre.total_weight_limit as nat,
                    pre.small_weight_limit as nat, pre_t.len()),
                evicted@.map_values(|e: EvictedEntry<T>| e.key) + drain_victims(self.state(cache@),
                    pre.total_weight_limit as nat, pre.small_weight_limit as nat, cache@.len())
                    == drain_victims(pre.state(pre_t), pre.total_weight_limit as nat,
                    pre.small_weight_limit as nat, pre_t.len()),
                drained(self.state(cache@), pre.total_weight_limit as nat, pre.small_weight_limit as nat,
                    cache@.len()) == self.state(cache@),
                drain_victims(self.state(cache@), pre.total_weight_limit as nat,
                    pre.small_weight_limit as nat, cache@.len()) == Seq::<Key>::empty(),
                cache@.dom() == pre_t.dom().difference(evicted@.map_values(|e: EvictedEntry<T>| e.key).to_set()),
            decreases cache@.len(),
        {
            let ghost lim = pre.total_weight_limit as nat;
            let ghost ls = pre.small_weight_limit as nat;
            let ghost cur = self.state(cache@);
            if self.total_weight_limit >= self.small_weight + self.main_weight {
                proof {
                    assert(!over_limit(cur, lim));
                }
                break;
            }
            let ghost t0 = cache@;
            let ghost keys0 = evicted@.map_values(|e: EvictedEntry<T>| e.key);
            match self.evict_one(cache) {
                Some(e) => {
                    proof {
                        assert(t0.contains_key(e.key));
                        assert(cache@.len() == t0.len() - 1) by {
                            assert(cache@.dom() == t0.dom().remove(e.key));
                        }
                        assert(over_limit(cur, lim));
                        assert(can_evict(cur, ls));
                        assert(e.key == step_victim(cur, ls));
                        assert(self.state(cache@) == evict_step(cur, ls));
                        assert(drained(cur, lim, ls, t0.len()) == drained(self.state(cache@), lim, ls,
                            cache@.len()));
                        assert(drain_victims(cur, lim, ls, t0.len()) == seq![e.key] + drain_victims(
                            self.state(cache@), lim, ls, cache@.len()));
                    }
                    let ghost k = e.key;
                    evicted.push(e);
                    proof {
                        assert(evicted@.map_values(|e: EvictedEntry<T>| e.key) =~= keys0.push(k));
                        assert forall|x: Key| #[trigger] keys0.push(k).to_set().contains(x) <==> (keys0.to_set().contains(x) || x == k) by {
                            lemma_push_contains(keys0, k, x);
                        }
                        assert(cache@.dom() =~= pre_t.dom().difference(keys0.push(k).to_set()));
                        assert(keys0 + (seq![e.key] + drain_victims(self.state(cache@), lim, ls,
                            cache@.len())) =~= keys0.push(e.key) + drain_victims(self.state(cache@), lim,
                            ls, cache@.len()));
                    }
                },
                None => {
                    proof {
                        assert(!can_evict(cur, ls));
                    }
                    break;
                },
            }
        }
        proof {
            let keys = evicted@.map_values(|e: EvictedEntry<T>| e.key);
            assert(keys + Seq::<Key>::empty() =~= keys);
            if evicted@.len() == 0 {
                assert(keys.to_set() =~= Set::<Key>::empty());
                assert(pre_t.dom().difference(keys.to_set()) =~= pre_t.dom());
            }
        }
        evicted
    }

    /// Admit a key to the fifos.
    ///
    /// A key already in the table only has its uses bumped. Otherwise the
    /// queues are first drained to the budget; when that evicted anything,
    /// the oracle decides the new entry's weight: the requested one if the
    /// key is now seen more often than the first victim, else the victim's.
    /// The entry then goes to the tail of the small queue.
    fn admit_entry(&mut self, key: Key, weight: Weight, data: T, cache: &mut HashMap<Key, Entry<T>>)
        requires
            old(self).inv(old(cache)@),
        ensures
            final(self).inv(final(cache)@),
            final(self).total_weight_limit == old(self).total_weight_limit,
            final(self).small_weight_limit == old(self).small_weight_limit,
            final(self).evictions@ >= old(self).evictions@,
            old(cache)@.contains_key(key) ==> {
                &&& final(cache)@ == old(cache)@.insert(key, bumped(old(cache)@[key]))
                &&& final(self).small@ == old(self).small@
                &&& final(self).main@ == old(self).main@
                &&& final(self).small_weight == old(self).small_weight
                &&& final(self).main_weight == old(self).main_weight
                &&& final(self).max_weight == old(self).max_weight
                &&& final(self).admissions == old(self).admissions
                &&& final(self).evictions == old(self).evictions
                &&& final(self).estimator == old(self).estimator
            },
            !old(cache)@.contains_key(key) ==> {
                &&& final(cache)@.contains_key(key)
                &&& final(cache)@[key].data == data
                &&& final(cache)@[key].uses == 1
                &&& final(cache)@[key].queue == Queue::Small
                &&& ({
                    let lim = old(self).total_weight_limit as nat;
                    let ls = old(self).small_weight_limit as nat;
                    let d = drained(old(self).state(old(cache)@), lim, ls, old(cache)@.len());
                    let vs = drain_victims(old(self).state(old(cache)@), lim, ls, old(cache)@.len());
                    let w = final(cache)@[key].weight;
                    &&& final(cache)@ == d.table.insert(key, Entry { uses: 1, queue: Queue::Small, weight: w, data })
                    &&& final(self).small@ == d.small.push(key)
                    &&& final(self).main@ == d.main
                    &&& final(self).evictions@ == old(self).evictions@ + vs.len()
                    &&& final(cache)@.dom() == old(cache)@.dom().difference(vs.to_set()).insert(key)
                    &&& final(cache)@.len() + vs.len() == old(cache)@.len() + 1
                    &&& forall|i: int| 0 <= i < vs.len() ==> old(cache)@.contains_key(#[trigger] vs[i])
                    &&& if vs.len() == 0 {
                        w == weight && final(self).estimator == old(self).estimator
                    } else {
                        &&& final(self).estimator.observed(&old(self).estimator, key)
                        &&& w == if final(self).estimator.sketch().estimate(vs[0])
                            < final(self).estimator.sketch().estimate(key) {
                            weight
                        } else {
                            old(cache)@[vs[0]].weight
                        }
                    }
                })
                &&& final(self).small@.last() == key
                &&& final(self).max_weight@ == max_of(old(self).max_weight@, weight as nat)
                &&& final(self).admissions@ == old(self).admissions@ + 1
                &&& forall|k: Key| #[trigger] final(cache)@.contains_key(k) ==> k == key || old(cache)@.contains_key(k)
            },
    {
        let ghost t_old = cache@;
        match cache.remove(&key) {
            Some(mut current_entry) => {
                // the key is already in the cache: only its uses grow
                current_entry.incr_uses();
                cache.insert(key, current_entry);
                proof {
                    assert(cache@ == t_old.insert(key, bumped(t_old[key])));
                    lemma_inv_bumped(self, t_old, key);
                }
            },
            None => {
                proof {
                    assert(cache@ == t_old);
                }
                let mut new_entry: Entry<T> = Entry::new(data);
                let evicts: Vec<EvictedEntry<T>> = self.try_evict(cache);
                proof {
                    self.max_weight@ = max_of(self.max_weight@, weight as nat);
                }
                if evicts.len() == 0 {
                    // nothing is evicted, the new entry gets its weight
                    new_entry.weight = weight;
                } else {
                    // tinylfu: the new entry keeps its weight only if it is
                    // now seen more often than the first victim
                    let new_freq: u8 = self.estimator.incr(key);
                    let evicted_first: &EvictedEntry<T> = &evicts[0];
                    let evicted_freq: u8 = self.estimator.get(evicted_first.key);
                    if evicted_freq < new_freq {
                        new_entry.weight = weight;
                    } else {
                        new_entry.weight = evicted_first.weight;
                    }
                }
                let w: Weight = new_entry.weight;
                let ghost t1 = cache@;
                proof {
                    let keys = evicts@.map_values(|e: EvictedEntry<T>| e.key);
                    assert(keys.len() == evicts@.len());
                    if evicts@.len() > 0 {
                        assert(keys[0] == evicts@[0].key);
                    }
                    assert forall|i: int| 0 <= i < keys.len() implies t_old.contains_key(#[trigger] keys[i]) by {
                        assert(keys[i] == evicts@[i].key);
                    }
                }
                let ghost s1 = self.small@;
                cache.insert(key, new_entry);
                self.small.push_back(key);
                proof {
                    let t2 = cache@;
                    assert(!s1.contains(key));
                    assert(!self.main@.contains(key));
                    assert forall|i: int| 0 <= i < s1.len() implies weights(t1)(#[trigger] s1[i])
                        == weights(t2)(s1[i]) by {
                        assert(s1.contains(s1[i]));
                    }
                    lemma_key_sum_frame(s1, weights(t1), weights(t2));
                    lemma_key_sum_push(s1, weights(t2), key);
                    let m = self.main@;
                    assert forall|i: int| 0 <= i < m.len() implies weights(t1)(#[trigger] m[i])
                        == weights(t2)(m[i]) by {
                        assert(m.contains(m[i]));
                    }
                    lemma_key_sum_frame(m, weights(t1), weights(t2));
                    assert forall|k: Key| #[trigger] self.small@.contains(k) implies !self.main@.contains(k)
                        && t2[k].queue == Queue::Small by {
                        lemma_push_contains(s1, key, k);
                    }
                    assert forall|k: Key| #[trigger] t2.contains_key(k) <==> (self.small@.contains(k)
                        || self.main@.contains(k)) by {
                        lemma_push_contains(s1, key, k);
                    }
                    self.admissions@ = self.admissions@ + 1;
                    assert(t2.dom() =~= t1.dom().insert(key));
                }
                self.small_weight = self.small_weight + w as usize;
            },
        }
    }
}

/// Relies on t1ha's `T1haBuildHasher::hash_one` (a default `T1haHasher`):
/// the 64-bit fingerprint of a user key. It goes through the key type's own
/// `Hash` impl, so nothing is stated of the value.
#[verifier::external_body]
fn fingerprint<K: std::hash::Hash>(key: &K) -> (r: Key) {
    std::hash::BuildHasher::hash_one(&t1ha::T1haBuildHasher::default(), key)
}

/// An entry after one more use, saturating at 3.
pub open spec fn bumped<T>(e: Entry<T>) -> Entry<T> {
    Entry { uses: if e.uses < USES_CAP { (e.uses + 1) as u8 } else { USES_CAP }, ..e }
}

/// Bumping the uses of an entry in the table keeps the queues in agreement.
proof fn lemma_inv_bumped<T>(q: &FifoQueues<T>, t: Map<Key, Entry<T>>, key: Key)
    requires
        q.inv(t),
        t.contains_key(key),
    ensures
        q.inv(t.insert(key, bumped(t[key]))),
{
    let t2 = t.insert(key, bumped(t[key]));
    let s = q.small@;
    let m = q.main@;
    assert forall|i: int| 0 <= i < s.len() implies weights(t)(#[trigger] s[i]) == weights(t2)(s[i]) by {}
    assert forall|i: int| 0 <= i < m.len() implies weights(t)(#[trigger] m[i]) == weights(t2)(m[i]) by {}
    lemma_key_sum_frame(s, weights(t), weights(t2));
    lemma_key_sum_frame(m, weights(t), weights(t2));
    assert(t2.dom() =~= t.dom());
}

/// TinyLFU cache: S3-FIFO eviction with a TinyLFU admission filter, over a
/// table keyed by 64-bit fingerprints of the user keys of type `K`.
pub struct TinyUFO<K, T> {
    capacity: usize,
    cache: HashMap<Key, Entry<T>>,
    queues: FifoQueues<T>,
    _k: std::marker::PhantomData<K>,
}

impl<K, T> TinyUFO<K, T> {
    /// The table: fingerprint to entry.
    pub closed spec fn table(&self) -> Map<Key, Entry<T>> {
        self.cache@
    }

    /// Fingerprints in the small queue, head first.
    pub closed spec fn small_queue(&self) -> Seq<Key> {
        self.queues.small@
    }

    /// Fingerprints in the main queue, head first.
    pub closed spec fn main_queue(&self) -> Seq<Key> {
        self.queues.main@
    }

    /// Ledger of the weight in the small queue.
    pub closed spec fn small_weight(&self) -> nat {
        self.queues.small_weight as nat
    }

    /// Ledger of the weight in the main queue.
    pub closed spec fn main_weight(&self) -> nat {
        self.queues.main_weight as nat
    }

    pub closed spec fn total_weight_limit(&self) -> nat {
        self.queues.total_weight_limit as nat
    }

    pub closed spec fn small_weight_limit(&self) -> nat {
        self.queues.small_weight_limit as nat
    }

    /// The largest weight passed to a `put` that created an entry.
    pub closed spec fn max_weight_put(&self) -> nat {
        self.queues.max_weight@
    }

    /// Number of entries created so far.
    pub closed spec fn admissions(&self) -> nat {
        self.queues.admissions@
    }

    /// The frequency oracle consulted on admission.
    pub closed spec fn oracle(&self) -> TinyLFU {
        self.queues.estimator
    }

    /// Number of entries evicted so far.
    pub closed spec fn evictions(&self) -> nat {
        self.queues.evictions@
    }

    pub closed spec fn wf(&self) -> bool {
        self.queues.inv(self.cache@)
    }

    /// The queues and the table.
    pub open spec fn queue_state(&self) -> QueueState<T> {
        QueueState { small: self.small_queue(), main: self.main_queue(), table: self.table() }
    }

    /// The state once the queues are drained to the budget.
    pub open spec fn drained_state(&self) -> QueueState<T> {
        drained(self.queue_state(), self.total_weight_limit(), self.small_weight_limit(), self.table().len())
    }

    /// The keys evicted, in order, while draining the queues to the budget.
    pub open spec fn victims(&self) -> Seq<Key> {
        drain_victims(
            self.queue_state(),
            self.total_weight_limit(),
            self.small_weight_limit(),
            self.table().len(),
        )
    }

    /// Queues, ledger and limits are those of `prev`.
    pub open spec fn same_queues(&self, prev: &Self) -> bool {
        &&& self.small_queue() == prev.small_queue()
        &&& self.main_queue() == prev.main_queue()
        &&& self.small_weight() == prev.small_weight()
        &&& self.main_weight() == prev.main_weight()
        &&& self.total_weight_limit() == prev.total_weight_limit()
        &&& self.small_weight_limit() == prev.small_weight_limit()
        &&& self.max_weight_put() == prev.max_weight_put()
        &&& self.admissions() == prev.admissions()
        &&& self.evictions() == prev.evictions()
        &&& self.oracle() == prev.oracle()
    }

    /// `self` is `prev` after a lookup of fingerprint `h` that returned `r`:
    /// on a hit the entry's uses grow by one (up to 3) and its data is
    /// returned; on a miss nothing changes.
    pub open spec fn looked_up(&self, prev: &Self, h: Key, r: Option<&T>) -> bool {
        &&& self.wf()
        &&& self.same_queues(prev)
        &&& if prev.table().contains_key(h) {
            &&& self.table() == prev.table().insert(h, bumped(prev.table()[h]))
            &&& r == Some(&prev.table()[h].data)
        } else {
            &&& self.table() == prev.table()
            &&& r.is_none()
        }
    }

    /// `self` is `prev` after a put of `data` with `weight` under
    /// fingerprint `h`.
    pub open spec fn put_done(&self, prev: &Self, h: Key, weight: Weight, data: T) -> bool {
        &&& self.wf()
        &&& self.total_weight_limit() == prev.total_weight_limit()
        &&& self.small_weight_limit() == prev.small_weight_limit()
        &&& self.evictions() >= prev.evictions()
        &&& if prev.table().contains_key(h) {
            // present: only the uses grow, the value is not replaced
            &&& self.table() == prev.table().insert(h, bumped(prev.table()[h]))
            &&& self.same_queues(prev)
        } else {
            // absent: the queues are drained to the budget, then a fresh
            // entry goes to the tail of the small queue
            let d = prev.drained_state();
            let victims = prev.victims();
            let w = self.table()[h].weight;
            &&& self.table() == d.table.insert(h, Entry { uses: 1, queue: Queue::Small, weight: w, data })
            &&& self.small_queue() == d.small.push(h)
            &&& self.main_queue() == d.main
            &&& if victims.len() == 0 {
                // nothing evicted: the requested weight, the oracle untouched
                w == weight && self.oracle() == prev.oracle()
            } else {
                // the key is observed, and keeps its weight only if now seen
                // more often than the first victim, else takes that victim's
                &&& self.oracle().observed(&prev.oracle(), h)
                &&& w == if self.oracle().sketch().estimate(victims[0])
                    < self.oracle().sketch().estimate(h) {
                    weight
                } else {
                    prev.table()[victims[0]].weight
                }
            }
            // the table loses exactly the victims, all of which it held, and
            // gains the new entry
            &&& self.table().dom() == prev.table().dom().difference(victims.to_set()).insert(h)
            &&& self.table().len() + victims.len() == prev.table().len() + 1
            &&& forall|i: int| 0 <= i < victims.len() ==> prev.table().contains_key(#[trigger] victims[i])
            &&& self.max_weight_put() == max_of(prev.max_weight_put(), weight as nat)
            &&& self.admissions() == prev.admissions() + 1
            &&& self.evictions() == prev.evictions() + victims.len()
        }
    }

    /// Create a new cache with a total weight budget and a capacity (the
    /// expected number of entries, which sizes the buffers and the sketch).
    pub fn new(total_weight_limit: usize, capacity: usize) -> (r: Self)
        requires
            limit_fits(total_weight_limit as nat),
            8 * capacity <= usize::MAX,
            optimal_depth(capacity as nat) * optimal_width(capacity as nat) <= usize::MAX,
        ensures
            r.wf(),
            r.table() == Map::<Key, Entry<T>>::empty(),
            r.small_queue().len() == 0,
            r.main_queue().len() == 0,
            r.small_weight() == 0,
            r.main_weight() == 0,
            r.total_weight_limit() == total_weight_limit,
            r.small_weight_limit() == small_limit_of(total_weight_limit as nat),
            r.max_weight_put() == 0,
            r.admissions() == 0,
            r.evictions() == 0,
            r.oracle().window_limit() == 8 * capacity,
            r.oracle().window_counter() == 0,
            r.oracle().sketch().rows() == optimal_depth(capacity as nat),
            r.oracle().sketch().width == optimal_width(capacity as nat),
            r.oracle().sketch() == SketchModel::zeroed(r.oracle().sketch().seeds, r.oracle().sketch().width),
    {
        TinyUFO {
            cache: HashMap::with_capacity(capacity),
            capacity,
            queues: FifoQueues::new(total_weight_limit, capacity),
            _k: std::marker::PhantomData,
        }
    }

    /// Get the value stored under fingerprint `key`, counting a use of it.
    pub fn get_hashed(&mut self, key: Key) -> (r: Option<&T>)
        requires
            old(self).wf(),
        ensures
            final(self).looked_up(old(self), key, r),
    {
        match self.cache.remove(&key) {
            None => {
                proof {
                    assert(self.cache@ =~= old(self).cache@);
                }
                None
            },
            Some(mut entry) => {
                entry.incr_uses();
                self.cache.insert(key, entry);
                proof {
                    assert(self.cache@ == old(self).cache@.insert(key, bumped(old(self).cache@[key])));
                    lemma_inv_bumped(&self.queues, old(self).cache@, key);
                }
                match self.cache.get(&key) {
                    Some(e) => Some(&e.data),
                    None => None,
                }
            },
        }
    }

    /// Put `data` with `weight` under fingerprint `key`. A fingerprint
    /// already present only counts a use; the value is not replaced.
    pub fn put_hashed(&mut self, key: Key, weight: Weight, data: T)
        requires
            old(self).wf(),
        ensures
            final(self).put_done(old(self), key, weight, data),
    {
        self.queues.admit_entry(key, weight, data, &mut self.cache);
    }

    /// Number of entries in the cache.
    pub fn len(&self) -> (r: usize)
        requires
            self.wf(),
        ensures
            r == self.table().len(),
    {
        self.cache.len()
    }

    /// The weight ledger: `(small queue weight, main queue weight)`.
    pub fn ledger(&self) -> (r: (usize, usize))
        ensures
            r.0 == self.small_weight(),
            r.1 == self.main_weight(),
    {
        (self.queues.small_weight, self.queues.main_weight)
    }

    /// Get a value from the cache, counting a use of it.
    pub fn get(&mut self, key: &K) -> (r: Option<&T>)
        where K: std::hash::Hash
        requires
            old(self).wf(),
        ensures
            exists|h: Key| #[trigger] final(self).looked_up(old(self), h, r),
    {
        let hashed_key: Key = fingerprint(key);
        self.get_hashed(hashed_key)
    }

    /// Set a key-value pair in the cache. The cache is bounded by its total
    /// weight limit and doesn't grow past it.
    pub fn put(&mut self, key: K, weight: Weight, data: T)
        where K: std::hash::Hash
        requires
            old(self).wf(),
        ensures
            exists|h: Key| #[trigger] final(self).put_done(old(self), h, weight, data),
    {
        let hashed_key: Key = fingerprint(&key);
        self.put_hashed(hashed_key, weight, data);
    }
}

/// In every reachable state the table holds exactly the entries created so
/// far less those evicted so far.
pub proof fn lemma_table_size<K, T>(c: &TinyUFO<K, T>)
    requires
        c.wf(),
    ensures
        c.table().len() == c.admissions() - c.evictions(),
        c.evictions() <= c.admissions(),
{
}

/// In every reachable state the weight ledger of each queue is the total
/// weight of the table's entries tagged with that queue: each queue lists
/// exactly those fingerprints, once each.
pub proof fn lemma_ledger_matches_table<K, T>(c: &TinyUFO<K, T>)
    requires
        c.wf(),
    ensures
        c.small_weight() == weight_sum(c.small_queue(), c.table()),
        c.main_weight() == weight_sum(c.main_queue(), c.table()),
        c.small_queue().no_duplicates(),
        c.main_queue().no_duplicates(),
        forall|k: Key| #[trigger] c.small_queue().contains(k) <==> (c.table().contains_key(k)
            && c.table()[k].queue == Queue::Small),
        forall|k: Key| #[trigger] c.main_queue().contains(k) <==> (c.table().contains_key(k)
            && c.table()[k].queue == Queue::Main),
{
    assert forall|k: Key| #[trigger] c.small_queue().contains(k) <==> (c.table().contains_key(k)
        && c.table()[k].queue == Queue::Small) by {
        if c.table().contains_key(k) && c.table()[k].queue == Queue::Small {
            assert(!c.main_queue().contains(k));
        }
    }
    assert forall|k: Key| #[trigger] c.main_queue().contains(k) <==> (c.table().contains_key(k)
        && c.table()[k].queue == Queue::Main) by {
        if c.table().contains_key(k) && c.table()[k].queue == Queue::Main {
            assert(!c.small_queue().contains(k));
        }
    }
}

/// With a positive weight limit, the total weight held exceeds the limit by
/// at most the largest weight ever put.
pub proof fn lemma_budget_bound<K, T>(c: &TinyUFO<K, T>)
    requires
        c.wf(),
        c.total_weight_limit() >= 1,
    ensures
        c.small_weight() + c.main_weight() <= c.total_weight_limit() + c.max_weight_put(),
{
}

/// Every entry's uses counter stays within `[0, 3]`.
pub proof fn lemma_uses_bounded<K, T>(c: &TinyUFO<K, T>)
    requires
        c.wf(),
    ensures
        forall|k: Key| #[trigger] c.table().contains_key(k) ==> c.table()[k].uses <= USES_CAP,
{
}

} // verus!
