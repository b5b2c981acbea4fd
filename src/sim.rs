use vstd::prelude::*;
use crate::error::SimError;
use crate::pool::{Entity, RandomPool};
use vstd::multiset::Multiset;
use crate::queue::{
    indexed, lemma_indexed_member, lemma_map_to_multiset, shift_entries, BucketQueue, Entry,
};

verus! {

broadcast use {vstd::seq_lib::group_to_multiset_ensures, vstd::multiset::group_multiset_axioms};

/// The parameters of a run.
#[derive(Debug, Clone, Copy, PartialEq, Eq, Structural)]
pub struct SimConfig {
    /// Number of entities.
    pub entity_count: usize,
    /// Pop, advance and reinsert steps per round.
    pub chunk_size: usize,
    /// Number of rounds.
    pub rounds: usize,
    /// Number of buckets of the queue.
    pub num_buckets: usize,
    /// The largest key that the key width can hold.
    pub key_max: u64,
    /// Headroom kept below `key_max` for one round's drift.
    pub margin: u64,
}

impl SimConfig {
    pub open spec fn valid(&self) -> bool {
        &&& self.entity_count > 0
        &&& self.num_buckets > 0
        &&& self.margin < self.key_max
    }

    /// The cap above which the keys are rebased.
    pub open spec fn cap(&self) -> int {
        self.key_max - self.margin
    }

    /// The cap above which the keys are rebased.
    pub fn time_cap(&self) -> (r: u64)
        requires
            self.margin <= self.key_max,
        ensures
            r == self.cap(),
    {
        self.key_max - self.margin
    }

    /// How many random values a whole run draws: one per entity and one per
    /// step; `None` if that does not fit in a `usize`.
    pub fn draws_needed(&self) -> (r: Option<usize>)
        ensures
            r matches Some(n) ==> n == self.entity_count + self.rounds * self.chunk_size,
            r is None ==> self.entity_count + self.rounds * self.chunk_size > usize::MAX,
    {
        match self.rounds.checked_mul(self.chunk_size) {
            None => {
                proof {
                    assert(self.rounds * self.chunk_size <= self.entity_count + self.rounds
                        * self.chunk_size);
                }
                None
            },
            Some(steps) => self.entity_count.checked_add(steps),
        }
    }
}

/// What the end of a round reports: the largest key before any rebase, and
/// the amount taken off every key if a rebase happened.
#[derive(Debug, Clone, Copy, PartialEq, Eq, Structural)]
pub struct RoundReport {
    pub max: u64,
    pub rebased_by: Option<u64>,
}

pub open spec fn times_of(es: Seq<Entity>) -> Seq<u64> {
    es.map_values(|e: Entity| e.time)
}

/// `k` is the smallest of `ts`.
pub open spec fn is_min_time(ts: Seq<u64>, k: u64) -> bool {
    &&& exists|i: int| 0 <= i < ts.len() && ts[i] == k
    &&& forall|i: int| 0 <= i < ts.len() ==> k <= ts[i]
}

/// `k` is the largest of `ts`.
pub open spec fn is_max_time(ts: Seq<u64>, k: u64) -> bool {
    &&& exists|i: int| 0 <= i < ts.len() && ts[i] == k
    &&& forall|i: int| 0 <= i < ts.len() ==> ts[i] <= k
}

pub open spec fn shift_times(ts: Seq<u64>, m: u64) -> Seq<u64> {
    ts.map_values(|t: u64| (t - m) as u64)
}

pub open spec fn is_min_at(ts: Seq<u64>, i: int) -> bool {
    0 <= i < ts.len() && forall|j: int| 0 <= j < ts.len() ==> ts[i] <= ts[j]
}

pub open spec fn is_max_at(ts: Seq<u64>, i: int) -> bool {
    0 <= i < ts.len() && forall|j: int| 0 <= j < ts.len() ==> ts[j] <= ts[i]
}

/// The position of a smallest key.
pub open spec fn min_index(ts: Seq<u64>) -> int {
    choose|i: int| #[trigger] is_min_at(ts, i)
}

/// The position of a largest key.
pub open spec fn max_index(ts: Seq<u64>) -> int {
    choose|i: int| #[trigger] is_max_at(ts, i)
}

/// The keys after one step for each value of `ds`: each step advances a
/// smallest key by the value; `None` as soon as an advanced key would pass
/// `key_max`.
pub open spec fn keys_after_steps(ts: Seq<u64>, ds: Seq<u8>, key_max: u64) -> Option<Seq<u64>>
    decreases ds.len(),
{
    if ds.len() == 0 {
        Some(ts)
    } else {
        let i = min_index(ts);
        if ts[i] + ds[0] > key_max {
            None
        } else {
            keys_after_steps(ts.update(i, (ts[i] + ds[0]) as u64), ds.drop_first(), key_max)
        }
    }
}

/// The keys after the end-of-round check: unchanged up to the cap, else
/// less the smallest key; `None` when that still leaves a key over the cap.
pub open spec fn keys_after_end(ts: Seq<u64>, cap: int) -> Option<Seq<u64>> {
    let mx = ts[max_index(ts)];
    let mn = ts[min_index(ts)];
    if mx <= cap {
        Some(ts)
    } else if mx - mn <= cap {
        Some(shift_times(ts, mn))
    } else {
        None
    }
}

/// The keys after one round whose steps draw `ds`.
pub open spec fn keys_after_round(ts: Seq<u64>, ds: Seq<u8>, c: SimConfig) -> Option<Seq<u64>> {
    match keys_after_steps(ts, ds, c.key_max) {
        Some(t) => keys_after_end(t, c.cap()),
        None => None,
    }
}

/// The keys after `n` rounds that draw, in order, from `vals`.
pub open spec fn keys_after_rounds(ts: Seq<u64>, vals: Seq<u8>, c: SimConfig, n: nat) -> Option<
    Seq<u64>,
>
    decreases n,
{
    if n == 0 {
        Some(ts)
    } else {
        match keys_after_round(ts, vals.take(c.chunk_size as int), c) {
            Some(t) => keys_after_rounds(t, vals.skip(c.chunk_size as int), c, (n - 1) as nat),
            None => None,
        }
    }
}

/// The same keys, in any order of entities.
pub open spec fn same_keys(a: Seq<u64>, b: Seq<u64>) -> bool {
    a.to_multiset() == b.to_multiset()
}

pub open spec fn same_outcome(x: Option<Seq<u64>>, y: Option<Seq<u64>>) -> bool {
    match (x, y) {
        (None, None) => true,
        (Some(a), Some(b)) => same_keys(a, b),
        _ => false,
    }
}

proof fn lemma_min_index(ts: Seq<u64>)
    requires
        ts.len() > 0,
    ensures
        is_min_at(ts, min_index(ts)),
        is_max_at(ts, max_index(ts)),
    decreases ts.len(),
{
    if ts.len() == 1 {
        assert(is_min_at(ts, 0));
        assert(is_max_at(ts, 0));
    } else {
        let d = ts.drop_last();
        lemma_min_index(d);
        let a = min_index(d);
        let b = max_index(d);
        let x = ts.last();
        assert(forall|j: int| 0 <= j < d.len() ==> d[j] == ts[j]);
        if x < d[a] {
            assert(is_min_at(ts, ts.len() - 1));
        } else {
            assert(is_min_at(ts, a));
        }
        if x > d[b] {
            assert(is_max_at(ts, ts.len() - 1));
        } else {
            assert(is_max_at(ts, b));
        }
    }
}

/// Equal multisets of keys have the same smallest and largest key.
proof fn lemma_same_extremes(a: Seq<u64>, b: Seq<u64>)
    requires
        same_keys(a, b),
        a.len() > 0,
    ensures
        a.len() == b.len(),
        a[min_index(a)] == b[min_index(b)],
        a[max_index(a)] == b[max_index(b)],
{
    assert(a.to_multiset().len() == a.len());
    assert(b.to_multiset().len() == b.len());
    lemma_min_index(a);
    lemma_min_index(b);
    let (ia, ib) = (min_index(a), min_index(b));
    let (xa, xb) = (max_index(a), max_index(b));
    assert(a.contains(a[ia]) && a.contains(a[xa]));
    assert(b.contains(b[ib]) && b.contains(b[xb]));
    assert(b.to_multiset().count(a[ia]) > 0 && b.to_multiset().count(a[xa]) > 0);
    assert(a.to_multiset().count(b[ib]) > 0 && a.to_multiset().count(b[xb]) > 0);
    assert(b.contains(a[ia]) && b.contains(a[xa]) && a.contains(b[ib]) && a.contains(b[xb]));
}

proof fn lemma_steps_perm(a: Seq<u64>, b: Seq<u64>, ds: Seq<u8>, key_max: u64)
    requires
        same_keys(a, b),
        a.len() > 0,
    ensures
        same_outcome(keys_after_steps(a, ds, key_max), keys_after_steps(b, ds, key_max)),
        keys_after_steps(a, ds, key_max) matches Some(t) ==> t.len() == a.len(),
    decreases ds.len(),
{
    if ds.len() > 0 {
        lemma_same_extremes(a, b);
        lemma_min_index(a);
        lemma_min_index(b);
        let ia = min_index(a);
        let ib = min_index(b);
        if a[ia] + ds[0] <= key_max {
            let v = (a[ia] + ds[0]) as u64;
            let a2 = a.update(ia, v);
            let b2 = b.update(ib, v);
            assert(a2.to_multiset() == a.to_multiset().insert(v).remove(a[ia]));
            assert(b2.to_multiset() == b.to_multiset().insert(v).remove(b[ib]));
            lemma_steps_perm(a2, b2, ds.drop_first(), key_max);
        }
    }
}

proof fn lemma_end_perm(a: Seq<u64>, b: Seq<u64>, cap: int)
    requires
        same_keys(a, b),
        a.len() > 0,
    ensures
        same_outcome(keys_after_end(a, cap), keys_after_end(b, cap)),
        keys_after_end(a, cap) matches Some(t) ==> t.len() == a.len(),
{
    lemma_same_extremes(a, b);
    let mn = a[min_index(a)];
    let f = |t: u64| (t - mn) as u64;
    lemma_map_to_multiset(a, b, f);
    assert(shift_times(a, mn) =~= a.map_values(f));
    assert(shift_times(b, mn) =~= b.map_values(f));
}

proof fn lemma_round_perm(a: Seq<u64>, b: Seq<u64>, ds: Seq<u8>, c: SimConfig)
    requires
        same_keys(a, b),
        a.len() > 0,
    ensures
        same_outcome(keys_after_round(a, ds, c), keys_after_round(b, ds, c)),
        keys_after_round(a, ds, c) matches Some(t) ==> t.len() == a.len(),
{
    lemma_steps_perm(a, b, ds, c.key_max);
    if let Some(ta) = keys_after_steps(a, ds, c.key_max) {
        let tb = keys_after_steps(b, ds, c.key_max)->Some_0;
        lemma_end_perm(ta, tb, c.cap());
    }
}

proof fn lemma_rounds_perm(a: Seq<u64>, b: Seq<u64>, vals: Seq<u8>, c: SimConfig, n: nat)
    requires
        same_keys(a, b),
        a.len() > 0,
    ensures
        same_outcome(keys_after_rounds(a, vals, c, n), keys_after_rounds(b, vals, c, n)),
    decreases n,
{
    if n > 0 {
        let ds = vals.take(c.chunk_size as int);
        lemma_round_perm(a, b, ds, c);
        if let Some(ta) = keys_after_round(a, ds, c) {
            let tb = keys_after_round(b, ds, c)->Some_0;
            lemma_rounds_perm(ta, tb, vals.skip(c.chunk_size as int), c, (n - 1) as nat);
        }
    }
}

/// A running simulation: the entities, and a queue that mirrors their keys,
/// entry `(i, t)` for entity `i` with key `t`.
pub struct Sim {
    entities: Vec<Entity>,
    queue: BucketQueue,
    config: SimConfig,
}

impl Sim {
    /// The entities' keys.
    pub closed spec fn times(&self) -> Seq<u64> {
        times_of(self.entities@)
    }

    pub closed spec fn config_of(&self) -> SimConfig {
        self.config
    }

    pub closed spec fn wf(&self) -> bool {
        &&& self.config.valid()
        &&& self.entities@.len() == self.config.entity_count
        &&& self.queue.wf()
        &&& self.queue.num_buckets() == self.config.num_buckets
        &&& self.queue.contents() == indexed(self.times()).to_multiset()
        &&& forall|i: int| 0 <= i < self.times().len() ==> self.times()[i] <= self.config.key_max
    }

    /// Checks the configuration, rewinds the pool, gives each entity its
    /// initial key from the pool, and builds the queue over them.
    pub fn setup(config: SimConfig, pool: &mut RandomPool) -> (r: Result<Sim, SimError>)
        requires
            old(pool).wf(),
        ensures
            final(pool).wf(),
            final(pool).values() == old(pool).values(),
            !config.valid() ==> r == Err::<Sim, SimError>(SimError::InvalidConfig),
            config.valid() && old(pool).values().len() < config.entity_count ==> r == Err::<
                Sim,
                SimError,
            >(SimError::Exhausted),
            config.valid() && old(pool).values().len() >= config.entity_count ==> {
                let first = old(pool).values().take(config.entity_count as int);
                &&& (exists|i: int| 0 <= i < first.len() && first[i] > config.key_max) ==> r
                    == Err::<Sim, SimError>(SimError::RangeExhausted)
                &&& (forall|i: int| 0 <= i < first.len() ==> first[i] <= config.key_max) ==> {
                    &&& r is Ok
                    &&& r->Ok_0.wf()
                    &&& r->Ok_0.config_of() == config
                    &&& r->Ok_0.times() == first.map_values(|v: u8| v as u64)
                    &&& final(pool).cursor() == config.entity_count
                }
            },
    {
        if config.entity_count == 0 || config.num_buckets == 0 || config.margin >= config.key_max {
            return Err(SimError::InvalidConfig);
        }
        pool.reset();
        if pool.remaining_count() < config.entity_count {
            return Err(SimError::Exhausted);
        }
        let ghost vals = pool.values();
        let ghost first = vals.take(config.entity_count as int);
        let mut entities: Vec<Entity> = Vec::new();
        let mut keys: Vec<u64> = Vec::new();
        let mut i: usize = 0;
        while i < config.entity_count
            invariant
                config.entity_count > 0,
                config.num_buckets > 0,
                config.margin < config.key_max,
                vals == old(pool).values(),
                pool.wf(),
                pool.values() == vals,
                vals.len() >= config.entity_count,
                first == vals.take(config.entity_count as int),
                pool.cursor() == i,
                i <= config.entity_count,
                times_of(entities@) == first.take(i as int).map_values(|v: u8| v as u64),
                keys@ == times_of(entities@),
                forall|j: int| 0 <= j < i ==> first[j] <= config.key_max,
            decreases config.entity_count - i,
        {
            let e = match Entity::new(pool) {
                Ok(e) => e,
                Err(err) => {
                    return Err(err);
                },
            };
            proof {
                assert(e.time == first[i as int] as u64);
            }
            if e.time > config.key_max {
                proof {
                    assert(first[i as int] > config.key_max);
                }
                return Err(SimError::RangeExhausted);
            }
            let ghost es0 = entities@;
            entities.push(e);
            keys.push(e.time);
            proof {
                assert(times_of(entities@) =~= times_of(es0).push(e.time));
                assert(first.take(i + 1).map_values(|v: u8| v as u64) =~= first.take(
                    i as int,
                ).map_values(|v: u8| v as u64).push(first[i as int] as u64));
                assert(first.take(i + 1) =~= first.take(i as int).push(first[i as int]));
                assert(times_of(entities@) =~= first.take(i + 1).map_values(|v: u8| v as u64));
            }
            i = i + 1;
        }
        proof {
            assert(first.take(i as int) =~= first);
        }
        let queue = BucketQueue::new(&keys, config.num_buckets);
        Ok(Sim { entities, queue, config })
    }

    /// One step: draws a delta from the pool, takes the entity with the
    /// smallest key, advances its key by the delta and puts it back.
    /// Fails with `Exhausted` when the pool is used up and with
    /// `RangeExhausted` when the advanced key would not fit under `key_max`;
    /// then nothing changes but the pool's cursor.
    pub fn step(&mut self, pool: &mut RandomPool) -> (r: Result<(), SimError>)
        requires
            old(self).wf(),
            old(pool).wf(),
        ensures
            final(self).wf(),
            final(self).config_of() == old(self).config_of(),
            final(pool).wf(),
            final(pool).values() == old(pool).values(),
            old(pool).remaining() == 0 ==> r == Err::<(), SimError>(SimError::Exhausted)
                && final(self).times() == old(self).times(),
            old(pool).remaining() > 0 ==> final(pool).cursor() == old(pool).cursor() + 1,
            r == Err::<(), SimError>(SimError::Exhausted) <==> old(pool).remaining() == 0,
            old(pool).remaining() > 0 ==> {
                let d = old(pool).values()[old(pool).cursor() as int];
                forall|m: u64| #[trigger]
                    is_min_time(old(self).times(), m) ==> {
                        &&& (m + d > old(self).config_of().key_max) ==> r == Err::<(), SimError>(
                            SimError::RangeExhausted,
                        ) && final(self).times() == old(self).times()
                        &&& (m + d <= old(self).config_of().key_max) ==> r is Ok && exists|i: int|
                            0 <= i < old(self).times().len() && old(self).times()[i] == m
                                && final(self).times() == old(self).times().update(
                                i,
                                (m + d) as u64,
                            )
                    }
            },
    {
        let ghost ts = self.times();
        let d = match pool.next() {
            Ok(v) => v,
            Err(err) => {
                proof {
                    assert(old(pool).cursor() >= old(pool).values().len());
                }
                return Err(err);
            },
        };
        proof {
            assert(self.queue.contents().len() == ts.len());
            lemma_min_link(ts, self.queue.contents());
        }
        let k = self.queue.min().unwrap();
        proof {
            assert(is_min_time(ts, k));
            lemma_min_unique(ts, k);
        }
        if d as u64 > self.config.key_max - k {
            return Err(SimError::RangeExhausted);
        }
        let e: Entry = self.queue.pop().unwrap();
        let i = e.0;
        proof {
            lemma_indexed_member(ts, e);
            assert(e.1 == k);
            lemma_indexed_once(ts);
            assert forall|x: Entry| self.queue.contents().count(x) > 0 implies x.0 != i by {
                lemma_indexed_member(ts, x);
                if x.0 == i {
                    assert(x == e);
                }
            }
        }
        let nk = k + d as u64;
        self.entities.set(i, Entity { time: nk });
        self.queue.reinsert(i, nk);
        proof {
            let ts2 = self.times();
            assert(ts2 =~= ts.update(i as int, nk));
            assert(indexed(ts2) =~= indexed(ts).update(i as int, (i, nk)));
            assert(indexed(ts)[i as int] == e);
            assert(self.queue.contents() =~= indexed(ts2).to_multiset());
            assert forall|j: int| 0 <= j < ts2.len() implies ts2[j] <= self.config.key_max by {
                if j != i {
                    assert(ts2[j] == ts[j]);
                }
            }
        }
        Ok(())
    }

    /// Ends a round: reads the largest key; above the cap, takes the smallest
    /// key off every key (entities and queue). Fails with `RangeExhausted`
    /// when the largest key is still above the cap after that.
    pub fn end_round(&mut self) -> (r: Result<RoundReport, SimError>)
        requires
            old(self).wf(),
        ensures
            final(self).config_of() == old(self).config_of(),
            r is Ok ==> final(self).wf(),
            r is Ok ==> forall|i: int|
                0 <= i < final(self).times().len() ==> final(self).times()[i] <= old(
                    self,
                ).config_of().cap(),
            r is Err ==> r == Err::<RoundReport, SimError>(SimError::RangeExhausted),
            forall|mx: u64, mn: u64|
                #![trigger is_max_time(old(self).times(), mx), is_min_time(old(self).times(), mn)]
                is_max_time(old(self).times(), mx) && is_min_time(old(self).times(), mn) ==> {
                    let cap = old(self).config_of().cap();
                    &&& mx <= cap ==> r == Ok::<RoundReport, SimError>(
                        RoundReport { max: mx, rebased_by: None },
                    ) && final(self).times() == old(self).times()
                    &&& mx > cap && mx - mn <= cap ==> r == Ok::<RoundReport, SimError>(
                        RoundReport { max: mx, rebased_by: Some(mn) },
                    ) && final(self).times() == shift_times(old(self).times(), mn)
                    &&& mx > cap && mx - mn > cap ==> r == Err::<RoundReport, SimError>(
                        SimError::RangeExhausted,
                    ) && final(self).times() == shift_times(old(self).times(), mn)
                },
    {
        let ghost ts = self.times();
        proof {
            assert(self.queue.contents().len() == ts.len());
            lemma_min_link(ts, self.queue.contents());
            lemma_max_link(ts, self.queue.contents());
        }
        let mx = self.queue.max().unwrap();
        let mn = self.queue.min().unwrap();
        proof {
            lemma_min_unique(ts, mn);
            lemma_max_unique(ts, mx);
        }
        let cap = self.config.time_cap();
        if mx <= cap {
            proof {
                assert(is_max_time(ts, mx));
                assert forall|j: int| 0 <= j < ts.len() implies ts[j] <= cap by {
                    assert(ts[j] <= mx);
                }
            }
            return Ok(RoundReport { max: mx, rebased_by: None });
        }
        let n = self.entities.len();
        let ghost q0 = self.queue;
        let mut i: usize = 0;
        while i < n
            invariant
                n == ts.len(),
                self.entities@.len() == n,
                i <= n,
                is_min_time(ts, mn),
                self.queue == q0,
                self.config == old(self).config,
                forall|j: int| 0 <= j < i ==> self.times()[j] == (ts[j] - mn) as u64,
                forall|j: int| i <= j < n ==> self.times()[j] == ts[j],
            decreases n - i,
        {
            let t = self.entities[i].time;
            proof {
                assert(self.times()[i as int] == t);
                assert(ts[i as int] >= mn);
            }
            let ghost before = self.times();
            self.entities.set(i, Entity { time: t - mn });
            proof {
                assert(self.times() =~= before.update(i as int, (t - mn) as u64));
            }
            i = i + 1;
        }
        let ghost entries = self.queue.entries();
        let ghost shifted = self.times();
        proof {
            assert(shifted.len() == ts.len());
            assert forall|j: int| 0 <= j < shifted.len() implies shifted[j] == shift_times(ts, mn)[j] by {
                assert(shifted[j] == (ts[j] - mn) as u64);
            }
            assert(shifted =~= shift_times(ts, mn));
            assert forall|e: Entry| self.queue.contents().count(e) > 0 implies mn <= e.1 by {
                lemma_indexed_member(ts, e);
                assert(ts[e.0 as int] >= mn);
            }
        }
        self.queue.rebase(mn);
        proof {
            let ts2 = self.times();
            assert(ts2 == shifted);
            let f = |e: Entry| (e.0, (e.1 - mn) as u64);
            lemma_map_to_multiset(entries, indexed(ts), f);
            assert(shift_entries(entries, mn) == entries.map_values(f));
            assert(indexed(ts).map_values(f) =~= indexed(ts2));
        }
        if mx - mn > cap {
            return Err(SimError::RangeExhausted);
        }
        proof {
            let ts2 = self.times();
            assert(is_max_time(ts, mx));
            assert(is_min_time(ts, mn));
            assert forall|j: int| 0 <= j < ts2.len() implies ts2[j] <= cap by {
                assert(ts[j] <= mx);
                assert(ts[j] >= mn);
            }
        }
        Ok(RoundReport { max: mx, rebased_by: Some(mn) })
    }

    /// One round: `chunk_size` steps, then the end-of-round check. With
    /// enough values in the pool the round succeeds exactly when the model
    /// round `keys_after_round` does, and leaves the same keys; with too few
    /// it fails with `Exhausted`, unless a step overflows first.
    pub fn run_round(&mut self, pool: &mut RandomPool) -> (r: Result<RoundReport, SimError>)
        requires
            old(self).wf(),
            old(pool).wf(),
        ensures
            final(self).config_of() == old(self).config_of(),
            final(pool).wf(),
            final(pool).values() == old(pool).values(),
            r is Ok ==> final(self).wf(),
            r is Ok ==> final(pool).cursor() == old(pool).cursor() + old(self).config_of().chunk_size,
            r is Ok ==> forall|i: int|
                0 <= i < final(self).times().len() ==> final(self).times()[i] <= old(
                    self,
                ).config_of().cap(),
            r == Err::<RoundReport, SimError>(SimError::Exhausted) ==> old(pool).remaining()
                < old(self).config_of().chunk_size,
            ({
                let c0 = old(pool).cursor() as int;
                let vals = old(pool).values();
                let chunk = old(self).config_of().chunk_size as int;
                let m = keys_after_round(
                    old(self).times(),
                    vals.subrange(c0, c0 + chunk),
                    old(self).config_of(),
                );
                old(pool).remaining() >= chunk ==> {
                    &&& (r is Ok <==> m is Some)
                    &&& r is Ok ==> same_keys(final(self).times(), m->Some_0)
                    &&& r is Err ==> r == Err::<RoundReport, SimError>(SimError::RangeExhausted)
                }
            }),
            ({
                let c0 = old(pool).cursor() as int;
                let vals = old(pool).values();
                let m = keys_after_steps(
                    old(self).times(),
                    vals.subrange(c0, vals.len() as int),
                    old(self).config_of().key_max,
                );
                old(pool).remaining() < old(self).config_of().chunk_size ==> {
                    &&& m is None ==> r == Err::<RoundReport, SimError>(SimError::RangeExhausted)
                    &&& m is Some ==> r == Err::<RoundReport, SimError>(SimError::Exhausted)
                }
            }),
    {
        let chunk = self.config.chunk_size;
        let ghost c0 = pool.cursor() as int;
        let ghost vals = pool.values();
        let ghost ts0 = self.times();
        let ghost km = self.config.key_max;
        let ghost avail: int = if old(pool).remaining() >= chunk {
            chunk as int
        } else {
            old(pool).remaining() as int
        };
        let ghost dd = vals.subrange(c0, c0 + avail);
        proof {
            assert(dd.skip(0) =~= dd);
        }
        let mut k: usize = 0;
        while k < chunk
            invariant
                self.wf(),
                pool.wf(),
                self.config_of() == old(self).config_of(),
                chunk == self.config_of().chunk_size,
                km == self.config_of().key_max,
                ts0 == old(self).times(),
                pool.values() == vals,
                vals == old(pool).values(),
                c0 == old(pool).cursor(),
                c0 <= vals.len(),
                avail == if old(pool).remaining() >= chunk {
                    chunk as int
                } else {
                    old(pool).remaining() as int
                },
                dd == vals.subrange(c0, c0 + avail),
                k <= chunk,
                k <= avail,
                pool.cursor() == c0 + k,
                self.times().len() > 0,
                same_outcome(
                    keys_after_steps(self.times(), dd.skip(k as int), km),
                    keys_after_steps(ts0, dd, km),
                ),
            decreases chunk - k,
        {
            let ghost t = self.times();
            proof {
                lemma_min_index(t);
                assert(is_min_time(t, t[min_index(t)]));
            }
            match self.step(pool) {
                Ok(()) => {
                    proof {
                        let i0 = min_index(t);
                        let m = t[i0];
                        let d = vals[c0 + k];
                        assert(dd.skip(k as int)[0] == d);
                        assert(dd.skip(k as int).drop_first() =~= dd.skip(k + 1));
                        let i = choose|i: int|
                            0 <= i < t.len() && t[i] == m && self.times() == t.update(
                                i,
                                (m + d) as u64,
                            );
                        let u = t.update(i0, (m + d) as u64);
                        assert(self.times().to_multiset() == t.to_multiset().insert(
                            (m + d) as u64,
                        ).remove(m));
                        assert(u.to_multiset() == t.to_multiset().insert((m + d) as u64).remove(m));
                        lemma_steps_perm(self.times(), u, dd.skip(k + 1), km);
                    }
                },
                Err(err) => {
                    proof {
                        if err == SimError::RangeExhausted {
                            assert(c0 + k < vals.len());
                            assert(k < avail);
                            assert(dd.skip(k as int)[0] == vals[c0 + k]);
                            assert(keys_after_steps(t, dd.skip(k as int), km) is None);
                            assert(keys_after_steps(ts0, dd, km) is None);
                        } else {
                            assert(c0 + k == vals.len());
                            assert(avail == k);
                            assert(dd.skip(k as int) =~= Seq::<u8>::empty());
                            assert(keys_after_steps(t, dd.skip(k as int), km) == Some(t));
                            assert(keys_after_steps(ts0, dd, km) is Some);
                        }
                        assert(ts0 == old(self).times());
                        assert(km == old(self).config_of().key_max);
                        if old(pool).remaining() < chunk {
                            assert(dd =~= vals.subrange(c0, vals.len() as int));
                        } else {
                            assert(err == SimError::RangeExhausted);
                            assert(dd == vals.subrange(c0, c0 + chunk as int));
                            assert(keys_after_round(ts0, dd, old(self).config_of()) is None);
                        }
                    }
                    return Err(err);
                },
            }
            k = k + 1;
        }
        let ghost t = self.times();
        proof {
            assert(dd.skip(k as int) =~= Seq::<u8>::empty());
            assert(avail == chunk);
            let tm = keys_after_steps(ts0, dd, km)->Some_0;
            lemma_end_perm(t, tm, self.config.cap());
            lemma_min_index(t);
            assert(is_max_time(t, t[max_index(t)]));
            assert(is_min_time(t, t[min_index(t)]));
        }
        self.end_round()
    }

    /// All the rounds of the run, with what each round reported.
    pub fn run_rounds(&mut self, pool: &mut RandomPool) -> (r: Result<Vec<RoundReport>, SimError>)
        requires
            old(self).wf(),
            old(pool).wf(),
        ensures
            final(self).config_of() == old(self).config_of(),
            final(pool).wf(),
            final(pool).values() == old(pool).values(),
            r is Ok ==> final(self).wf(),
            r is Ok ==> r->Ok_0@.len() == old(self).config_of().rounds,
            r is Ok && old(self).config_of().rounds > 0 ==> forall|i: int|
                0 <= i < final(self).times().len() ==> final(self).times()[i] <= old(
                    self,
                ).config_of().cap(),
            r == Err::<Vec<RoundReport>, SimError>(SimError::Exhausted) ==> old(pool).remaining()
                < old(self).config_of().rounds * old(self).config_of().chunk_size,
            r is Ok ==> final(pool).cursor() == old(pool).cursor() + old(self).config_of().rounds
                * old(self).config_of().chunk_size,
            ({
                let c = old(self).config_of();
                let m = keys_after_rounds(
                    old(self).times(),
                    old(pool).values().skip(old(pool).cursor() as int),
                    c,
                    c.rounds as nat,
                );
                old(pool).remaining() >= c.rounds * c.chunk_size ==> {
                    &&& (r is Ok <==> m is Some)
                    &&& r is Ok ==> same_keys(final(self).times(), m->Some_0)
                    &&& r is Err ==> r == Err::<Vec<RoundReport>, SimError>(
                        SimError::RangeExhausted,
                    )
                }
            }),
    {
        let rounds = self.config.rounds;
        let ghost chunk = self.config.chunk_size as int;
        let ghost c0 = pool.cursor() as int;
        let ghost vals = pool.values();
        let ghost ts0 = self.times();
        let ghost cfg = self.config;
        let ghost big = old(pool).remaining() >= cfg.rounds * cfg.chunk_size;
        let mut reports: Vec<RoundReport> = Vec::new();
        let mut i: usize = 0;
        while i < rounds
            invariant
                c0 == old(pool).cursor(),
                vals == old(pool).values(),
                ts0 == old(self).times(),
                cfg == old(self).config_of(),
                c0 <= vals.len(),
                big == (old(pool).remaining() >= cfg.rounds * cfg.chunk_size),
                self.times().len() > 0,
                big ==> same_outcome(
                    keys_after_rounds(
                        self.times(),
                        vals.skip(pool.cursor() as int),
                        cfg,
                        (rounds - i) as nat,
                    ),
                    keys_after_rounds(ts0, vals.skip(c0), cfg, rounds as nat),
                ),
                self.wf(),
                pool.wf(),
                self.config_of() == old(self).config_of(),
                rounds == self.config_of().rounds,
                chunk == self.config_of().chunk_size,
                pool.values() == old(pool).values(),
                i <= rounds,
                reports@.len() == i,
                pool.cursor() == old(pool).cursor() + i * chunk,
                i > 0 ==> forall|j: int|
                    0 <= j < self.times().len() ==> self.times()[j] <= self.config_of().cap(),
            decreases rounds - i,
        {
            let ghost c = pool.cursor() as int;
            let ghost t = self.times();
            let ghost vv = vals.skip(c);
            proof {
                if big {
                    assert(vals.len() - c0 >= rounds * chunk);
                    assert(i * chunk + chunk <= rounds * chunk) by (nonlinear_arith)
                        requires
                            i < rounds,
                            chunk >= 0,
                    ;
                    assert(vv.take(chunk) =~= vals.subrange(c, c + chunk));
                }
            }
            match self.run_round(pool) {
                Ok(rep) => {
                    reports.push(rep);
                    proof {
                        if big {
                            let u = keys_after_round(t, vv.take(chunk), cfg)->Some_0;
                            assert(vv.skip(chunk) =~= vals.skip(c + chunk));
                            lemma_rounds_perm(
                                self.times(),
                                u,
                                vals.skip(c + chunk),
                                cfg,
                                (rounds - i - 1) as nat,
                            );
                        }
                    }
                },
                Err(err) => {
                    proof {
                        if err == SimError::Exhausted {
                            assert(i * chunk + chunk <= rounds * chunk) by (nonlinear_arith)
                                requires
                                    i < rounds,
                                    chunk >= 0,
                            ;
                        }
                    }
                    return Err(err);
                },
            }
            proof {
                assert((i + 1) * chunk == i * chunk + chunk) by (nonlinear_arith);
            }
            i = i + 1;
        }
        proof {
            assert(keys_after_rounds(self.times(), vals.skip(pool.cursor() as int), cfg, 0) == Some(
                self.times(),
            ));
        }
        Ok(reports)
    }

    /// The entities' keys, in entity order.
    pub fn times_vec(&self) -> (r: Vec<u64>)
        ensures
            r@ == self.times(),
    {
        let mut out: Vec<u64> = Vec::new();
        let mut i: usize = 0;
        while i < self.entities.len()
            invariant
                i <= self.entities@.len(),
                out@ == self.times().take(i as int),
            decreases self.entities@.len() - i,
        {
            out.push(self.entities[i].time);
            proof {
                assert(self.times().take(i + 1) =~= self.times().take(i as int).push(
                    self.entities@[i as int].time,
                ));
            }
            i = i + 1;
        }
        proof {
            assert(self.times().take(i as int) =~= self.times());
        }
        out
    }
}

/// Each entry of `indexed(ts)` occurs once.
proof fn lemma_indexed_once(ts: Seq<u64>)
    requires
        ts.len() <= usize::MAX,
    ensures
        forall|x: Entry| #[trigger] indexed(ts).to_multiset().count(x) > 0 ==> indexed(
            ts,
        ).to_multiset().count(x) == 1,
{
    let s = indexed(ts);
    assert forall|a: int, b: int| 0 <= a < s.len() && 0 <= b < s.len() && a != b implies s[a]
        != s[b] by {
        assert(s[a].0 == a as usize && s[b].0 == b as usize);
    }
    s.lemma_multiset_has_no_duplicates();
}

proof fn lemma_min_unique(ts: Seq<u64>, k: u64)
    requires
        is_min_time(ts, k),
    ensures
        forall|m: u64| #[trigger] is_min_time(ts, m) ==> m == k,
{
    assert forall|m: u64| #[trigger] is_min_time(ts, m) implies m == k by {
        let i = choose|i: int| 0 <= i < ts.len() && ts[i] == k;
        let j = choose|j: int| 0 <= j < ts.len() && ts[j] == m;
        assert(m <= ts[i] && k <= ts[j]);
    }
}

proof fn lemma_max_unique(ts: Seq<u64>, k: u64)
    requires
        is_max_time(ts, k),
    ensures
        forall|m: u64| #[trigger] is_max_time(ts, m) ==> m == k,
{
    assert forall|m: u64| #[trigger] is_max_time(ts, m) implies m == k by {
        let i = choose|i: int| 0 <= i < ts.len() && ts[i] == k;
        let j = choose|j: int| 0 <= j < ts.len() && ts[j] == m;
        assert(ts[i] <= m && ts[j] <= k);
    }
}

/// The smallest key of the queue is the smallest of the keys it mirrors.
proof fn lemma_min_link(ts: Seq<u64>, c: Multiset<Entry>)
    requires
        c == indexed(ts).to_multiset(),
        ts.len() <= usize::MAX,
    ensures
        forall|k: u64| BucketQueue::is_min_key(c, k) ==> #[trigger] is_min_time(ts, k),
{
    assert forall|k: u64| BucketQueue::is_min_key(c, k) implies #[trigger] is_min_time(ts, k) by {
        let e = choose|e: Entry| c.count(e) > 0 && e.1 == k;
        lemma_indexed_member(ts, e);
        assert forall|i: int| 0 <= i < ts.len() implies k <= ts[i] by {
            lemma_indexed_member(ts, (i as usize, ts[i]));
            assert(c.count((i as usize, ts[i])) > 0);
        }
    }
}

/// The largest key of the queue is the largest of the keys it mirrors.
proof fn lemma_max_link(ts: Seq<u64>, c: Multiset<Entry>)
    requires
        c == indexed(ts).to_multiset(),
        ts.len() <= usize::MAX,
    ensures
        forall|k: u64| BucketQueue::is_max_key(c, k) ==> #[trigger] is_max_time(ts, k),
{
    assert forall|k: u64| BucketQueue::is_max_key(c, k) implies #[trigger] is_max_time(ts, k) by {
        let e = choose|e: Entry| c.count(e) > 0 && e.1 == k;
        lemma_indexed_member(ts, e);
        assert forall|i: int| 0 <= i < ts.len() implies ts[i] <= k by {
            lemma_indexed_member(ts, (i as usize, ts[i]));
            assert(c.count((i as usize, ts[i])) > 0);
        }
    }
}

} // verus!
