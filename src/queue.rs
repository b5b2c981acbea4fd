use vstd::prelude::*;
use vstd::multiset::Multiset;
use vstd::seq_lib::lemma_multiset_commutative;

verus! {

broadcast use {vstd::seq_lib::group_to_multiset_ensures, vstd::multiset::group_multiset_axioms};

/// A stored item: the index of its entity and its key.
pub type Entry = (usize, u64);

/// A head: a bucket id and that bucket's most urgent entry, if any.
pub type Head = (usize, Option<Entry>);

/// The sort key of a head. An empty bucket counts as later than every key.
pub open spec fn hkey(h: Option<Entry>) -> int {
    match h {
        Some(e) => e.1 as int,
        None => u64::MAX as int + 1,
    }
}

pub open spec fn keys_of(s: Seq<Entry>) -> Seq<int> {
    s.map_values(|e: Entry| e.1 as int)
}

pub open spec fn head_keys(hs: Seq<Head>) -> Seq<int> {
    hs.map_values(|h: Head| hkey(h.1))
}

pub open spec fn head_ids(hs: Seq<Head>) -> Seq<usize> {
    hs.map_values(|h: Head| h.0)
}

/// Non-increasing: the most urgent (smallest) value is at the tail.
pub open spec fn descending(ks: Seq<int>) -> bool {
    forall|i: int, j: int| 0 <= i < j < ks.len() ==> ks[i] >= ks[j]
}

/// The position just past the last value that is at least `k`: where a new
/// value `k` goes so that it follows every value it ties with.
pub open spec fn tail_pos(ks: Seq<int>, k: int) -> int
    decreases ks.len(),
{
    if ks.len() == 0 {
        0
    } else if ks.last() >= k {
        ks.len() as int
    } else {
        tail_pos(ks.drop_last(), k)
    }
}

pub open spec fn last_of(s: Seq<Entry>) -> Option<Entry> {
    if s.len() == 0 {
        None
    } else {
        Some(s.last())
    }
}

/// `hs` with `h` placed after every head that is not more urgent than it.
pub open spec fn place(hs: Seq<Head>, h: Head) -> Seq<Head> {
    hs.insert(tail_pos(head_keys(hs), hkey(h.1)), h)
}

pub open spec fn has_head(hs: Seq<Head>, b: int) -> bool {
    exists|i: int| 0 <= i < hs.len() && hs[i].0 == b
}

/// The position of bucket `b`'s head.
pub open spec fn head_pos(hs: Seq<Head>, b: int) -> int {
    choose|i: int| 0 <= i < hs.len() && hs[i].0 == b
}

/// The concatenation of the buckets.
pub open spec fn flat<A>(bs: Seq<Seq<A>>) -> Seq<A>
    decreases bs.len(),
{
    if bs.len() == 0 {
        Seq::empty()
    } else {
        flat(bs.drop_last()) + bs.last()
    }
}

/// Each bucket id below `n` exactly once.
pub open spec fn id_bag(n: nat) -> Multiset<usize>
    decreases n,
{
    if n == 0 {
        Multiset::empty()
    } else {
        id_bag((n - 1) as nat).insert((n - 1) as usize)
    }
}

/// The bucket that a key belongs to.
pub open spec fn bucket_of(key: u64, n: nat) -> int {
    (key as int) % (n as int)
}

/// Every bucket is sorted with its minimum at the tail, and holds only keys
/// that the bucketing function sends to it.
pub open spec fn buckets_ok(bs: Seq<Seq<Entry>>) -> bool {
    &&& forall|b: int| 0 <= b < bs.len() ==> #[trigger] descending(keys_of(bs[b]))
    &&& forall|b: int, j: int|
        0 <= b < bs.len() && 0 <= j < bs[b].len() ==> bucket_of((#[trigger] bs[b][j]).1, bs.len())
            == b
}

/// One head per bucket, each equal to its bucket's minimum, sorted so that
/// the global minimum is the last head.
pub open spec fn heads_ok(bs: Seq<Seq<Entry>>, hs: Seq<Head>) -> bool {
    &&& hs.len() == bs.len()
    &&& head_ids(hs).to_multiset() == id_bag(bs.len())
    &&& forall|i: int| 0 <= i < hs.len() ==> (#[trigger] hs[i]).0 < bs.len()
    &&& forall|i: int| 0 <= i < hs.len() ==> (#[trigger] hs[i]).1 == last_of(bs[hs[i].0 as int])
    &&& descending(head_keys(hs))
}

proof fn lemma_id_bag(n: nat)
    requires
        n <= usize::MAX as nat + 1,
    ensures
        forall|b: usize| #[trigger] id_bag(n).count(b) == if b < n { 1nat } else { 0nat },
    decreases n,
{
    if n > 0 {
        lemma_id_bag((n - 1) as nat);
        let m = id_bag((n - 1) as nat);
        assert(id_bag(n) == m.insert((n - 1) as usize));
        assert forall|b: usize| #[trigger] id_bag(n).count(b) == if b < n { 1nat } else { 0nat } by {
            if b == (n - 1) as usize {
                assert(id_bag(n).count(b) == m.count(b) + 1);
            } else {
                assert(id_bag(n).count(b) == m.count(b));
            }
        }
    }
}

/// What the id multiset tells about the heads: each id once, all below `n`.
proof fn lemma_head_ids(hs: Seq<Head>, n: nat)
    requires
        head_ids(hs).to_multiset() == id_bag(n),
        n <= usize::MAX,
    ensures
        forall|b: usize| b < n ==> #[trigger] has_head(hs, b as int),
        forall|i: int, j: int|
            0 <= i < hs.len() && 0 <= j < hs.len() && i != j ==> hs[i].0 != hs[j].0,
{
    lemma_id_bag(n);
    let ids = head_ids(hs);
    assert forall|b: usize| b < n implies #[trigger] has_head(hs, b as int) by {
        assert(ids.to_multiset().count(b) == 1);
        assert(ids.contains(b));
        let i = choose|i: int| 0 <= i < ids.len() && ids[i] == b;
        assert(hs[i].0 == b);
    }
    assert forall|i: int, j: int|
        0 <= i < hs.len() && 0 <= j < hs.len() && i != j implies hs[i].0 != hs[j].0 by {
        if hs[i].0 == hs[j].0 {
            let x = ids[i];
            assert(ids[j] == x);
            let r = ids.remove(i);
            let k = if j < i { j } else { j - 1 };
            assert(r[k] == x);
            assert(r.contains(x));
            assert(r.to_multiset().count(x) > 0);
            assert(ids.to_multiset().count(x) >= 2);
            assert(x < n);
        }
    }
}

/// The head of bucket `b` is found where `head_pos` says, and is unique.
proof fn lemma_head_pos(bs: Seq<Seq<Entry>>, hs: Seq<Head>, b: usize)
    requires
        heads_ok(bs, hs),
        b < bs.len() <= usize::MAX,
    ensures
        0 <= head_pos(hs, b as int) < hs.len(),
        hs[head_pos(hs, b as int)].0 == b,
        forall|i: int| 0 <= i < hs.len() && hs[i].0 == b ==> i == head_pos(hs, b as int),
{
    lemma_head_ids(hs, bs.len());
    assert(has_head(hs, b as int));
}

/// For a sorted sequence, a position that splits it at `k` is `tail_pos`.
proof fn lemma_tail_pos(ks: Seq<int>, k: int, p: int)
    requires
        0 <= p <= ks.len(),
        forall|i: int| 0 <= i < p ==> ks[i] >= k,
        forall|i: int| p <= i < ks.len() ==> ks[i] < k,
    ensures
        tail_pos(ks, k) == p,
    decreases ks.len(),
{
    if ks.len() > 0 && p < ks.len() {
        lemma_tail_pos(ks.drop_last(), k, p);
    }
}

proof fn lemma_tail_pos_range(ks: Seq<int>, k: int)
    ensures
        0 <= tail_pos(ks, k) <= ks.len(),
    decreases ks.len(),
{
    if ks.len() > 0 && ks.last() < k {
        lemma_tail_pos_range(ks.drop_last(), k);
    }
}

/// Inserting at `tail_pos` keeps a sorted sequence sorted.
proof fn lemma_insert_sorted(ks: Seq<int>, k: int, p: int)
    requires
        descending(ks),
        0 <= p <= ks.len(),
        forall|i: int| 0 <= i < p ==> ks[i] >= k,
        forall|i: int| p <= i < ks.len() ==> ks[i] < k,
    ensures
        descending(ks.insert(p, k)),
{
    let r = ks.insert(p, k);
    assert forall|i: int, j: int| 0 <= i < j < r.len() implies r[i] >= r[j] by {
        if i < p && j > p {
            assert(r[i] == ks[i] && r[j] == ks[j - 1]);
        }
    }
}

proof fn lemma_flat_update<A>(bs: Seq<Seq<A>>, b: int, s: Seq<A>)
    requires
        0 <= b < bs.len(),
    ensures
        flat(bs.update(b, s)).to_multiset().add(bs[b].to_multiset()) == flat(
            bs,
        ).to_multiset().add(s.to_multiset()),
        flat(bs.update(b, s)).len() + bs[b].len() == flat(bs).len() + s.len(),
    decreases bs.len(),
{
    let u = bs.update(b, s);
    if b == bs.len() - 1 {
        assert(u.drop_last() =~= bs.drop_last());
        lemma_multiset_commutative(flat(bs.drop_last()), s);
        lemma_multiset_commutative(flat(bs.drop_last()), bs[b]);
        assert(flat(u).to_multiset().add(bs[b].to_multiset()) =~= flat(bs).to_multiset().add(
            s.to_multiset(),
        ));
    } else {
        assert(u.drop_last() =~= bs.drop_last().update(b, s));
        assert(u.last() == bs.last());
        assert(bs.drop_last()[b] == bs[b]);
        assert(flat(u) == flat(u.drop_last()) + u.last());
        assert(flat(bs) == flat(bs.drop_last()) + bs.last());
        lemma_flat_update(bs.drop_last(), b, s);
        lemma_multiset_commutative(flat(u.drop_last()), bs.last());
        lemma_multiset_commutative(flat(bs.drop_last()), bs.last());
        let ma = flat(u.drop_last()).to_multiset();
        let mb = flat(bs.drop_last()).to_multiset();
        let ml = bs.last().to_multiset();
        assert(ma.add(bs[b].to_multiset()) == mb.add(s.to_multiset()));
        assert forall|x: A| #[trigger]
            flat(u).to_multiset().add(bs[b].to_multiset()).count(x) == flat(
                bs,
            ).to_multiset().add(s.to_multiset()).count(x) by {
            assert(ma.add(bs[b].to_multiset()).count(x) == mb.add(s.to_multiset()).count(x));
        }
        assert(flat(u).to_multiset().add(bs[b].to_multiset()) =~= flat(bs).to_multiset().add(
            s.to_multiset(),
        ));
    }
}

proof fn lemma_flat_member<A>(bs: Seq<Seq<A>>, x: A)
    requires
        flat(bs).contains(x),
    ensures
        exists|b: int, j: int| 0 <= b < bs.len() && 0 <= j < bs[b].len() && bs[b][j] == x,
    decreases bs.len(),
{
    let i = choose|i: int| 0 <= i < flat(bs).len() && flat(bs)[i] == x;
    let d = flat(bs.drop_last());
    if i < d.len() {
        assert(d[i] == x);
        lemma_flat_member(bs.drop_last(), x);
        let (b, j) = choose|b: int, j: int|
            0 <= b < bs.drop_last().len() && 0 <= j < bs.drop_last()[b].len()
                && bs.drop_last()[b][j] == x;
        assert(bs[b][j] == x);
    } else {
        assert(bs[bs.len() - 1][i - d.len()] == x);
    }
}

proof fn lemma_flat_contains<A>(bs: Seq<Seq<A>>, b: int, j: int)
    requires
        0 <= b < bs.len(),
        0 <= j < bs[b].len(),
    ensures
        flat(bs).contains(bs[b][j]),
    decreases bs.len(),
{
    let d = flat(bs.drop_last());
    if b == bs.len() - 1 {
        assert(flat(bs)[d.len() + j] == bs[b][j]);
    } else {
        lemma_flat_contains(bs.drop_last(), b, j);
        let i = choose|i: int| 0 <= i < d.len() && d[i] == bs[b][j];
        assert(flat(bs)[i] == bs[b][j]);
    }
}

proof fn lemma_flat_empty<A>(bs: Seq<Seq<A>>)
    requires
        forall|b: int| 0 <= b < bs.len() ==> #[trigger] bs[b].len() == 0,
    ensures
        flat(bs).len() == 0,
    decreases bs.len(),
{
    if bs.len() > 0 {
        lemma_flat_empty(bs.drop_last());
    }
}

pub open spec fn bucket_view(v: Seq<Vec<Entry>>) -> Seq<Seq<Entry>> {
    v.map_values(|b: Vec<Entry>| b@)
}

/// The entries `(i, keys[i])`.
pub open spec fn indexed(keys: Seq<u64>) -> Seq<Entry> {
    Seq::new(keys.len(), |i: int| (i as usize, keys[i]))
}

/// Inserting an entry at its sorted place in its own bucket.
proof fn lemma_bucket_insert(bs: Seq<Seq<Entry>>, k: int, p: int, e: Entry)
    requires
        buckets_ok(bs),
        0 <= k < bs.len(),
        bucket_of(e.1, bs.len()) == k,
        0 <= p <= bs[k].len(),
        forall|i: int| 0 <= i < p ==> bs[k][i].1 >= e.1,
        forall|i: int| p <= i < bs[k].len() ==> bs[k][i].1 < e.1,
    ensures
        buckets_ok(bs.update(k, bs[k].insert(p, e))),
        flat(bs.update(k, bs[k].insert(p, e))).to_multiset() == flat(bs).to_multiset().insert(e),
        flat(bs.update(k, bs[k].insert(p, e))).len() == flat(bs).len() + 1,
{
    let s = bs[k].insert(p, e);
    let u = bs.update(k, s);
    assert(keys_of(s) =~= keys_of(bs[k]).insert(p, e.1 as int));
    lemma_insert_sorted(keys_of(bs[k]), e.1 as int, p);
    assert forall|b: int| 0 <= b < u.len() implies #[trigger] descending(keys_of(u[b])) by {
        if b != k {
            assert(u[b] == bs[b]);
        }
    }
    assert forall|b: int, j: int| 0 <= b < u.len() && 0 <= j < u[b].len() implies bucket_of(
        (#[trigger] u[b][j]).1,
        u.len(),
    ) == b by {
        if b == k {
            if j < p {
                assert(u[b][j] == bs[k][j]);
            } else if j > p {
                assert(u[b][j] == bs[k][j - 1]);
            }
        } else {
            assert(u[b] == bs[b]);
        }
    }
    lemma_flat_update(bs, k, s);
    assert forall|x: Entry| #[trigger] flat(u).to_multiset().count(x) == flat(
        bs,
    ).to_multiset().insert(e).count(x) by {
        assert(flat(u).to_multiset().add(bs[k].to_multiset()).count(x) == flat(
            bs,
        ).to_multiset().add(s.to_multiset()).count(x));
    }
    assert(flat(u).to_multiset() =~= flat(bs).to_multiset().insert(e));
}

/// Removing the minimum (last entry) of a non-empty bucket.
proof fn lemma_bucket_pop(bs: Seq<Seq<Entry>>, k: int)
    requires
        buckets_ok(bs),
        0 <= k < bs.len(),
        bs[k].len() > 0,
    ensures
        buckets_ok(bs.update(k, bs[k].drop_last())),
        flat(bs.update(k, bs[k].drop_last())).to_multiset() == flat(bs).to_multiset().remove(
            bs[k].last(),
        ),
        flat(bs.update(k, bs[k].drop_last())).len() + 1 == flat(bs).len(),
{
    let s = bs[k].drop_last();
    let u = bs.update(k, s);
    assert forall|b: int| 0 <= b < u.len() implies #[trigger] descending(keys_of(u[b])) by {
        if b != k {
            assert(u[b] == bs[b]);
        } else {
            assert(descending(keys_of(bs[k])));
            assert forall|i: int, j: int| 0 <= i < j < keys_of(s).len() implies keys_of(s)[i]
                >= keys_of(s)[j] by {
                assert(keys_of(bs[k])[i] >= keys_of(bs[k])[j]);
            }
        }
    }
    assert forall|b: int, j: int| 0 <= b < u.len() && 0 <= j < u[b].len() implies bucket_of(
        (#[trigger] u[b][j]).1,
        u.len(),
    ) == b by {
        if b == k {
            assert(u[b][j] == bs[k][j]);
        } else {
            assert(u[b] == bs[b]);
        }
    }
    lemma_flat_update(bs, k, s);
    assert(bs[k] =~= s.push(bs[k].last()));
    assert(bs[k].to_multiset() == s.to_multiset().insert(bs[k].last()));
    assert forall|x: Entry| #[trigger] flat(u).to_multiset().count(x) == flat(
        bs,
    ).to_multiset().remove(bs[k].last()).count(x) by {
        assert(flat(u).to_multiset().add(bs[k].to_multiset()).count(x) == flat(
            bs,
        ).to_multiset().add(s.to_multiset()).count(x));
    }
    assert(flat(u).to_multiset() =~= flat(bs).to_multiset().remove(bs[k].last()));
}

/// The last head is the global minimum: no stored key is smaller.
proof fn lemma_least(bs: Seq<Seq<Entry>>, hs: Seq<Head>)
    requires
        buckets_ok(bs),
        heads_ok(bs, hs),
        0 < bs.len() <= usize::MAX,
    ensures
        forall|x: Entry| flat(bs).contains(x) ==> hkey(hs.last().1) <= x.1,
        hs.last().1 is None ==> flat(bs).len() == 0,
        hs.last().1 matches Some(e) ==> bs[hs.last().0 as int].len() > 0 && e == bs[hs.last().0 as int].last(),
{
    lemma_head_ids(hs, bs.len());
    assert(descending(head_keys(hs)));
    assert forall|x: Entry| flat(bs).contains(x) implies hkey(hs.last().1) <= x.1 by {
        lemma_flat_member(bs, x);
        let (b, j) = choose|b: int, j: int|
            0 <= b < bs.len() && 0 <= j < bs[b].len() && bs[b][j] == x;
        assert(has_head(hs, (b as usize) as int));
        let i = choose|i: int| 0 <= i < hs.len() && hs[i].0 == b;
        assert(hs[i].1 == last_of(bs[b]));
        assert(descending(keys_of(bs[b])));
        if j < bs[b].len() - 1 {
            assert(keys_of(bs[b])[j] >= keys_of(bs[b])[bs[b].len() - 1]);
        }
        if i < hs.len() - 1 {
            assert(head_keys(hs)[i] >= head_keys(hs)[hs.len() - 1]);
        }
    }
    if hs.last().1 is None && flat(bs).len() > 0 {
        assert(flat(bs).contains(flat(bs)[0]));
    }
}

/// The heads after the minimum of bucket `hb` (the last head) was removed and
/// the bucket's new head placed.
proof fn lemma_heads_after_pop(bs: Seq<Seq<Entry>>, hs: Seq<Head>)
    requires
        buckets_ok(bs),
        heads_ok(bs, hs),
        0 < bs.len() <= usize::MAX,
        bs[hs.last().0 as int].len() > 0,
    ensures
        ({
            let hb = hs.last().0 as int;
            let rest = bs[hb].drop_last();
            heads_ok(bs.update(hb, rest), place(hs.drop_last(), (hb as usize, last_of(rest))))
        }),
        descending(head_keys(hs.drop_last())),
{
    let hb = hs.last().0 as int;
    let rest = bs[hb].drop_last();
    let bs2 = bs.update(hb, rest);
    let d = hs.drop_last();
    let h: Head = (hb as usize, last_of(rest));
    let hs2 = place(d, h);
    let n = hs.len();
    lemma_head_ids(hs, bs.len());
    assert forall|i: int, j: int| 0 <= i < j < head_keys(d).len() implies head_keys(d)[i]
        >= head_keys(d)[j] by {
        assert(head_keys(hs)[i] >= head_keys(hs)[j]);
    }
    let t = tail_pos(head_keys(d), hkey(h.1));
    lemma_tail_pos_range(head_keys(d), hkey(h.1));
    assert(head_ids(hs2) =~= head_ids(d).insert(t, hb as usize));
    assert(head_ids(hs) =~= head_ids(d).push(hb as usize));
    assert forall|i: int| 0 <= i < hs2.len() implies (#[trigger] hs2[i]).0 < bs2.len() && hs2[i].1
        == last_of(bs2[hs2[i].0 as int]) by {
        if i < t {
            assert(hs2[i] == hs[i]);
            assert(hs[i].0 != hs[n - 1].0);
        } else if i > t {
            assert(hs2[i] == hs[i - 1]);
            assert(hs[i - 1].0 != hs[n - 1].0);
        }
    }
    assert(head_keys(hs2) =~= head_keys(d).insert(t, hkey(h.1)));
    lemma_tail_pos_split(head_keys(d), hkey(h.1));
    lemma_insert_sorted(head_keys(d), hkey(h.1), t);
}

/// For a sorted sequence, `tail_pos` splits it at `k`.
proof fn lemma_tail_pos_split(ks: Seq<int>, k: int)
    requires
        descending(ks),
    ensures
        forall|i: int| 0 <= i < tail_pos(ks, k) ==> ks[i] >= k,
        forall|i: int| tail_pos(ks, k) <= i < ks.len() ==> ks[i] < k,
    decreases ks.len(),
{
    if ks.len() > 0 {
        if ks.last() >= k {
            assert(tail_pos(ks, k) == ks.len());
            assert forall|i: int| 0 <= i < ks.len() implies ks[i] >= k by {
                if i < ks.len() - 1 {
                    assert(ks[i] >= ks[ks.len() - 1]);
                }
            }
        } else {
            let d = ks.drop_last();
            assert(tail_pos(ks, k) == tail_pos(d, k));
            assert forall|i: int, j: int| 0 <= i < j < d.len() implies d[i] >= d[j] by {
                assert(ks[i] >= ks[j]);
            }
            lemma_tail_pos_split(d, k);
            lemma_tail_pos_range(d, k);
            assert forall|i: int| 0 <= i < tail_pos(ks, k) implies ks[i] >= k by {
                assert(ks[i] == d[i]);
            }
            assert forall|i: int| tail_pos(ks, k) <= i < ks.len() implies ks[i] < k by {
                if i < d.len() {
                    assert(ks[i] == d[i]);
                }
            }
        }
    }
}

/// The heads after `e` became the new minimum of bucket `b`: the bucket's
/// old head is removed and a head for `e` placed.
proof fn lemma_heads_after_new_min(bs: Seq<Seq<Entry>>, hs: Seq<Head>, b: usize, e: Entry)
    requires
        buckets_ok(bs),
        heads_ok(bs, hs),
        b < bs.len() <= usize::MAX,
        forall|i: int| 0 <= i < bs[b as int].len() ==> bs[b as int][i].1 >= e.1,
    ensures
        heads_ok(
            bs.update(b as int, bs[b as int].push(e)),
            place(hs.remove(head_pos(hs, b as int)), (b, Some(e))),
        ),
        descending(head_keys(hs.remove(head_pos(hs, b as int)))),
        head_pos(hs, b as int) <= tail_pos(head_keys(hs.remove(head_pos(hs, b as int))), e.1 as int),
{
    let s = bs[b as int];
    let bs2 = bs.update(b as int, s.push(e));
    lemma_head_pos(bs, hs, b);
    let hp = head_pos(hs, b as int);
    let d = hs.remove(hp);
    let h: Head = (b, Some(e));
    let hs2 = place(d, h);
    lemma_head_ids(hs, bs.len());
    assert forall|x: int, y: int| 0 <= x < y < head_keys(d).len() implies head_keys(d)[x]
        >= head_keys(d)[y] by {
        let x0 = if x < hp { x } else { x + 1 };
        let y0 = if y < hp { y } else { y + 1 };
        assert(head_keys(hs)[x0] >= head_keys(hs)[y0]);
    }
    let t = tail_pos(head_keys(d), hkey(h.1));
    lemma_tail_pos_range(head_keys(d), hkey(h.1));
    assert(head_ids(hs2) =~= head_ids(d).insert(t, b));
    assert(head_ids(d) =~= head_ids(hs).remove(hp));
    assert(head_ids(hs)[hp] == b);
    assert(head_ids(hs).contains(b));
    assert(head_ids(hs).to_multiset().count(b) > 0);
    assert(head_ids(hs2).to_multiset() =~= head_ids(hs).to_multiset());
    assert forall|i: int| 0 <= i < hs2.len() implies (#[trigger] hs2[i]).0 < bs2.len() && hs2[i].1
        == last_of(bs2[hs2[i].0 as int]) by {
        if i != t {
            let i1 = if i < t { i } else { i - 1 };
            let i0 = if i1 < hp { i1 } else { i1 + 1 };
            assert(hs2[i] == d[i1]);
            assert(d[i1] == hs[i0]);
            assert(i0 != hp);
        }
    }
    assert(head_keys(hs2) =~= head_keys(d).insert(t, hkey(h.1)));
    lemma_tail_pos_split(head_keys(d), hkey(h.1));
    lemma_insert_sorted(head_keys(d), hkey(h.1), t);
    // the new head goes no earlier than the old one stood
    if t < hp {
        assert(head_keys(d)[t] < e.1);
        assert(head_keys(hs)[t] >= head_keys(hs)[hp]);
        if s.len() > 0 {
            assert(s[s.len() - 1].1 >= e.1);
        }
    }
}

/// The heads stay as they are when a new entry does not become its bucket's
/// minimum.
proof fn lemma_heads_keep(bs: Seq<Seq<Entry>>, hs: Seq<Head>, b: usize, p: int, e: Entry)
    requires
        heads_ok(bs, hs),
        b < bs.len(),
        0 <= p < bs[b as int].len(),
    ensures
        heads_ok(bs.update(b as int, bs[b as int].insert(p, e)), hs),
{
    let bs2 = bs.update(b as int, bs[b as int].insert(p, e));
    assert forall|i: int| 0 <= i < hs.len() implies (#[trigger] hs[i]).0 < bs2.len() && hs[i].1
        == last_of(bs2[hs[i].0 as int]) by {
        if hs[i].0 == b {
            assert(bs2[b as int].last() == bs[b as int].last());
        }
    }
}

/// Every entry with `m` taken off its key.
pub open spec fn shift_entries(s: Seq<Entry>, m: u64) -> Seq<Entry> {
    s.map_values(|e: Entry| (e.0, (e.1 - m) as u64))
}

/// Sequences with the same elements still have the same elements after each
/// is mapped by `f`.
pub proof fn lemma_map_to_multiset<A, B>(s1: Seq<A>, s2: Seq<A>, f: spec_fn(A) -> B)
    requires
        s1.to_multiset() == s2.to_multiset(),
    ensures
        s1.map_values(f).to_multiset() == s2.map_values(f).to_multiset(),
    decreases s1.len(),
{
    if s1.len() == 0 {
        assert(s1.to_multiset().len() == 0);
        assert(s2.to_multiset().len() == s2.len());
        assert(s2.len() == 0);
        assert(s1.map_values(f) =~= s2.map_values(f));
    } else {
        let x = s1.last();
        let d1 = s1.drop_last();
        assert(s1 =~= d1.push(x));
        assert(s2.to_multiset().count(x) > 0);
        assert(s2.contains(x));
        let i = choose|i: int| 0 <= i < s2.len() && s2[i] == x;
        let d2 = s2.remove(i);
        assert(d1.to_multiset() =~= d2.to_multiset());
        lemma_map_to_multiset(d1, d2, f);
        assert(s1.map_values(f) =~= d1.map_values(f).push(f(x)));
        assert(s2.map_values(f).remove(i) =~= d2.map_values(f));
        assert(s2.map_values(f)[i] == f(x));
        assert(s2.map_values(f).to_multiset() =~= d2.map_values(f).to_multiset().insert(f(x)));
    }
}

/// An entry is among `indexed(ts)` exactly when its key is `ts` at its index.
pub proof fn lemma_indexed_member(ts: Seq<u64>, e: Entry)
    requires
        ts.len() <= usize::MAX + 1,
    ensures
        indexed(ts).to_multiset().count(e) > 0 <==> (e.0 < ts.len() && ts[e.0 as int] == e.1),
{
    if e.0 < ts.len() && ts[e.0 as int] == e.1 {
        assert(indexed(ts)[e.0 as int] == e);
        assert(indexed(ts).contains(e));
    }
    if indexed(ts).to_multiset().count(e) > 0 {
        assert(indexed(ts).contains(e));
    }
}

/// The keys of a sequence of entries.
pub open spec fn keys_seq(s: Seq<Entry>) -> Seq<u64> {
    s.map_values(|e: Entry| e.1)
}

/// `b` holds exactly the keys of `a`, each with `m` taken off.
pub open spec fn keys_shifted(a: Multiset<u64>, b: Multiset<u64>, m: u64) -> bool {
    &&& forall|k: u64| #[trigger] a.count(k) > 0 ==> k >= m
    &&& forall|k: u64| k >= m ==> #[trigger] a.count(k) == b.count((k - m) as u64)
    &&& forall|k: u64| #[trigger] b.count(k) > 0 ==> k + m <= u64::MAX
}

/// A bucketed priority queue of `(index, key)` entries; smaller keys are
/// more urgent. An entry goes to bucket `key % num_buckets`; each bucket is
/// kept sorted with its minimum last, and `heads` holds every bucket's
/// minimum, sorted so that the global minimum is last. Ties are broken by
/// recency: within a bucket the entry inserted last is taken first, and
/// between buckets the one whose head was placed last.
pub struct BucketQueue {
    buckets: Vec<Vec<Entry>>,
    heads: Vec<Head>,
    len: usize,
}

impl BucketQueue {
    /// The buckets' contents, each with its minimum last.
    pub closed spec fn bucket_seqs(self) -> Seq<Seq<Entry>> {
        bucket_view(self.buckets@)
    }

    /// The head index.
    pub closed spec fn head_seq(self) -> Seq<Head> {
        self.heads@
    }

    pub open spec fn num_buckets(self) -> nat {
        self.bucket_seqs().len()
    }

    /// Every stored entry, bucket after bucket.
    pub open spec fn entries(self) -> Seq<Entry> {
        flat(self.bucket_seqs())
    }

    /// The multiset of stored entries.
    pub open spec fn contents(self) -> Multiset<Entry> {
        self.entries().to_multiset()
    }

    /// The multiset of stored keys.
    pub open spec fn key_bag(self) -> Multiset<u64> {
        keys_seq(self.entries()).to_multiset()
    }

    /// Every bucket is sorted by key with its minimum at the tail.
    pub open spec fn sorted_buckets(self) -> bool {
        buckets_ok(self.bucket_seqs())
    }

    /// Each bucket has exactly one head, equal to its current minimum (none
    /// when it is empty), and the heads are sorted with the global minimum last.
    pub open spec fn heads_consistent(self) -> bool {
        heads_ok(self.bucket_seqs(), self.head_seq())
    }

    /// The state after popping `e` off `pre`: `e` leaves the bucket named by
    /// the last head, and that bucket's new head is placed among the others.
    pub open spec fn popped(pre: Self, post: Self, e: Entry) -> bool {
        let hb = pre.head_seq().last().0 as int;
        let rest = pre.bucket_seqs()[hb].drop_last();
        &&& e == pre.bucket_seqs()[hb].last()
        &&& post.bucket_seqs() == pre.bucket_seqs().update(hb, rest)
        &&& post.head_seq() == place(pre.head_seq().drop_last(), (hb as usize, last_of(rest)))
    }

    /// The state after inserting `(index, key)` into `pre`: the entry goes into
    /// its bucket after every entry it ties with; where it becomes that
    /// bucket's minimum, the bucket's old head is replaced by a new one.
    pub open spec fn reinserted(pre: Self, index: usize, key: u64, post: Self) -> bool {
        let b = bucket_of(key, pre.num_buckets());
        let s = pre.bucket_seqs()[b];
        let p = tail_pos(keys_of(s), key as int);
        &&& post.bucket_seqs() == pre.bucket_seqs().update(b, s.insert(p, (index, key)))
        &&& if p == s.len() {
            post.head_seq() == place(
                pre.head_seq().remove(head_pos(pre.head_seq(), b)),
                (b as usize, Some((index, key))),
            )
        } else {
            post.head_seq() == pre.head_seq()
        }
    }

    /// `k` is the smallest key in `c`.
    pub open spec fn is_min_key(c: Multiset<Entry>, k: u64) -> bool {
        &&& exists|e: Entry| c.count(e) > 0 && e.1 == k
        &&& forall|e: Entry| c.count(e) > 0 ==> k <= e.1
    }

    /// `k` is the largest key in `c`.
    pub open spec fn is_max_key(c: Multiset<Entry>, k: u64) -> bool {
        &&& exists|e: Entry| c.count(e) > 0 && e.1 == k
        &&& forall|e: Entry| c.count(e) > 0 ==> e.1 <= k
    }

    pub closed spec fn wf(self) -> bool {
        &&& 0 < self.bucket_seqs().len() <= usize::MAX
        &&& self.sorted_buckets()
        &&& self.heads_consistent()
        &&& self.len == self.entries().len()
    }
}

/// `true` when head `a` is not more urgent than `b`.
fn head_ge(a: &Option<Entry>, b: &Option<Entry>) -> (r: bool)
    ensures
        r == (hkey(*a) >= hkey(*b)),
{
    match (a, b) {
        (None, _) => true,
        (Some(_), None) => false,
        (Some(x), Some(y)) => x.1 >= y.1,
    }
}

/// Where an entry with key `key` goes in a sorted bucket.
fn bucket_pos(bucket: &Vec<Entry>, key: u64) -> (r: usize)
    requires
        descending(keys_of(bucket@)),
    ensures
        r == tail_pos(keys_of(bucket@), key as int),
        forall|i: int| 0 <= i < r ==> bucket@[i].1 >= key,
        forall|i: int| r <= i < bucket@.len() ==> bucket@[i].1 < key,
{
    let ghost ks = keys_of(bucket@);
    let mut lo: usize = 0;
    let mut hi: usize = bucket.len();
    while lo < hi
        invariant
            0 <= lo <= hi <= bucket@.len(),
            ks == keys_of(bucket@),
            descending(ks),
            forall|i: int| 0 <= i < lo ==> bucket@[i].1 >= key,
            forall|i: int| hi <= i < bucket@.len() ==> bucket@[i].1 < key,
        decreases hi - lo,
    {
        let mid = lo + (hi - lo) / 2;
        if bucket[mid].1 >= key {
            proof {
                assert forall|i: int| 0 <= i <= mid implies bucket@[i].1 >= key by {
                    assert(ks[i] >= ks[mid as int]);
                }
            }
            lo = mid + 1;
        } else {
            proof {
                assert forall|i: int| mid <= i < bucket@.len() implies bucket@[i].1 < key by {
                    assert(ks[mid as int] >= ks[i]);
                }
            }
            hi = mid;
        }
    }
    proof {
        lemma_tail_pos(ks, key as int, lo as int);
    }
    lo
}

/// Where a head goes in the sorted head index.
fn head_insert_pos(heads: &Vec<Head>, h: &Option<Entry>) -> (r: usize)
    requires
        descending(head_keys(heads@)),
    ensures
        r == tail_pos(head_keys(heads@), hkey(*h)),
        forall|i: int| 0 <= i < r ==> hkey(heads@[i].1) >= hkey(*h),
        forall|i: int| r <= i < heads@.len() ==> hkey(heads@[i].1) < hkey(*h),
{
    let ghost ks = head_keys(heads@);
    let mut lo: usize = 0;
    let mut hi: usize = heads.len();
    while lo < hi
        invariant
            0 <= lo <= hi <= heads@.len(),
            ks == head_keys(heads@),
            descending(ks),
            forall|i: int| 0 <= i < lo ==> hkey(heads@[i].1) >= hkey(*h),
            forall|i: int| hi <= i < heads@.len() ==> hkey(heads@[i].1) < hkey(*h),
        decreases hi - lo,
    {
        let mid = lo + (hi - lo) / 2;
        if head_ge(&heads[mid].1, h) {
            proof {
                assert forall|i: int| 0 <= i <= mid implies hkey(heads@[i].1) >= hkey(*h) by {
                    assert(ks[i] >= ks[mid as int]);
                }
            }
            lo = mid + 1;
        } else {
            proof {
                assert forall|i: int| mid <= i < heads@.len() implies hkey(heads@[i].1) < hkey(
                    *h,
                ) by {
                    assert(ks[mid as int] >= ks[i]);
                }
            }
            hi = mid;
        }
    }
    proof {
        lemma_tail_pos(ks, hkey(*h), lo as int);
    }
    lo
}

/// The start of the run of heads tied with `h`: every head before it is
/// strictly less urgent than `h`.
fn head_run_start(heads: &Vec<Head>, h: &Option<Entry>) -> (r: usize)
    requires
        descending(head_keys(heads@)),
    ensures
        r <= heads@.len(),
        forall|i: int| 0 <= i < r ==> hkey(heads@[i].1) > hkey(*h),
        forall|i: int| r <= i < heads@.len() ==> hkey(heads@[i].1) <= hkey(*h),
{
    let ghost ks = head_keys(heads@);
    let mut lo: usize = 0;
    let mut hi: usize = heads.len();
    while lo < hi
        invariant
            0 <= lo <= hi <= heads@.len(),
            ks == head_keys(heads@),
            descending(ks),
            forall|i: int| 0 <= i < lo ==> hkey(heads@[i].1) > hkey(*h),
            forall|i: int| hi <= i < heads@.len() ==> hkey(heads@[i].1) <= hkey(*h),
        decreases hi - lo,
    {
        let mid = lo + (hi - lo) / 2;
        if !head_ge(h, &heads[mid].1) {
            proof {
                assert forall|i: int| 0 <= i <= mid implies hkey(heads@[i].1) > hkey(*h) by {
                    assert(ks[i] >= ks[mid as int]);
                }
            }
            lo = mid + 1;
        } else {
            proof {
                assert forall|i: int| mid <= i < heads@.len() implies hkey(heads@[i].1) <= hkey(
                    *h,
                ) by {
                    assert(ks[mid as int] >= ks[i]);
                }
            }
            hi = mid;
        }
    }
    lo
}

/// Places a head at its sorted position.
fn place_head(heads: &mut Vec<Head>, h: Head)
    requires
        descending(head_keys(old(heads)@)),
    ensures
        final(heads)@ == place(old(heads)@, h),
        descending(head_keys(final(heads)@)),
{
    let p = head_insert_pos(heads, &h.1);
    heads.insert(p, h);
    proof {
        assert(head_keys(heads@) =~= head_keys(old(heads)@).insert(p as int, hkey(h.1)));
        lemma_insert_sorted(head_keys(old(heads)@), hkey(h.1), p as int);
    }
}

impl BucketQueue {
    /// Builds the queue from `entries`.
    fn build(entries: &Vec<Entry>, num_buckets: usize) -> (r: Self)
        requires
            num_buckets > 0,
        ensures
            r.wf(),
            r.num_buckets() == num_buckets,
            r.contents() == entries@.to_multiset(),
    {
        let mut buckets: Vec<Vec<Entry>> = Vec::new();
        let mut b: usize = 0;
        while b < num_buckets
            invariant
                b <= num_buckets,
                buckets@.len() == b,
                forall|i: int| 0 <= i < b ==> (#[trigger] buckets@[i])@.len() == 0,
            decreases num_buckets - b,
        {
            buckets.push(Vec::new());
            b = b + 1;
        }
        proof {
            let bs = bucket_view(buckets@);
            assert forall|i: int| 0 <= i < bs.len() implies #[trigger] bs[i].len() == 0 by {
                assert(buckets@[i]@.len() == 0);
            }
            lemma_flat_empty(bs);
            assert(flat(bs) =~= Seq::<Entry>::empty());
            assert(entries@.take(0) =~= Seq::<Entry>::empty());
        }
        let mut i: usize = 0;
        while i < entries.len()
            invariant
                num_buckets > 0,
                i <= entries@.len(),
                buckets@.len() == num_buckets,
                buckets_ok(bucket_view(buckets@)),
                flat(bucket_view(buckets@)).to_multiset() == entries@.take(i as int).to_multiset(),
                flat(bucket_view(buckets@)).len() == i,
            decreases entries@.len() - i,
        {
            let e = entries[i];
            let k = (e.1 % num_buckets as u64) as usize;
            let ghost bs = bucket_view(buckets@);
            proof {
                assert(bs[k as int] == buckets@[k as int]@);
                assert(descending(keys_of(bs[k as int])));
            }
            let p = bucket_pos(&buckets[k], e.1);
            buckets[k].insert(p, e);
            proof {
                lemma_bucket_insert(bs, k as int, p as int, e);
                assert(bucket_view(buckets@) =~= bs.update(k as int, bs[k as int].insert(p as int, e)));
                assert(entries@.take(i + 1) =~= entries@.take(i as int).push(e));
            }
            i = i + 1;
        }
        proof {
            assert(entries@.take(i as int) =~= entries@);
        }
        let ghost bs = bucket_view(buckets@);
        let mut heads: Vec<Head> = Vec::new();
        let mut b: usize = 0;
        while b < num_buckets
            invariant
                b <= num_buckets,
                buckets@.len() == num_buckets,
                bs == bucket_view(buckets@),
                heads@.len() == b,
                head_ids(heads@).to_multiset() == id_bag(b as nat),
                forall|i: int| 0 <= i < heads@.len() ==> (#[trigger] heads@[i]).0 < b,
                forall|i: int|
                    0 <= i < heads@.len() ==> (#[trigger] heads@[i]).1 == last_of(
                        bs[heads@[i].0 as int],
                    ),
                descending(head_keys(heads@)),
            decreases num_buckets - b,
        {
            let n = buckets[b].len();
            let last = if n == 0 {
                None
            } else {
                Some(buckets[b][n - 1])
            };
            proof {
                assert(bs[b as int] == buckets@[b as int]@);
                assert(last == last_of(bs[b as int]));
            }
            let ghost old_heads = heads@;
            place_head(&mut heads, (b, last));
            proof {
                let t = tail_pos(head_keys(old_heads), hkey(last));
                lemma_tail_pos_range(head_keys(old_heads), hkey(last));
                assert(head_ids(heads@) =~= head_ids(old_heads).insert(t, b));
                assert forall|i: int| 0 <= i < heads@.len() implies (#[trigger] heads@[i]).0 < b + 1
                    && heads@[i].1 == last_of(bs[heads@[i].0 as int]) by {
                    if i < t {
                        assert(heads@[i] == old_heads[i]);
                    } else if i > t {
                        assert(heads@[i] == old_heads[i - 1]);
                    }
                }
            }
            b = b + 1;
        }
        BucketQueue { buckets, heads, len: entries.len() }
    }

    /// Builds a queue over `keys`, where entry `i` is `(i, keys[i])`, with
    /// `num_buckets` buckets.
    pub fn new(keys: &Vec<u64>, num_buckets: usize) -> (r: Self)
        requires
            num_buckets > 0,
        ensures
            r.wf(),
            r.num_buckets() == num_buckets,
            r.contents() == indexed(keys@).to_multiset(),
            r.contents().len() == keys@.len(),
    {
        let mut entries: Vec<Entry> = Vec::new();
        let mut i: usize = 0;
        while i < keys.len()
            invariant
                i <= keys@.len(),
                entries@ =~= indexed(keys@).take(i as int),
            decreases keys@.len() - i,
        {
            entries.push((i, keys[i]));
            i = i + 1;
        }
        proof {
            assert(entries@ =~= indexed(keys@));
        }
        Self::build(&entries, num_buckets)
    }

    /// Number of stored entries.
    pub fn len(&self) -> (r: usize)
        requires
            self.wf(),
        ensures
            r == self.contents().len(),
    {
        self.len
    }

    /// Number of buckets.
    pub fn bucket_count(&self) -> (r: usize)
        ensures
            r == self.num_buckets(),
    {
        self.buckets.len()
    }

    /// Removes and returns the entry with the smallest key; `None` when the
    /// queue is empty.
    pub fn pop(&mut self) -> (r: Option<Entry>)
        requires
            old(self).wf(),
        ensures
            final(self).wf(),
            final(self).num_buckets() == old(self).num_buckets(),
            r is None <==> old(self).contents().len() == 0,
            r is None ==> final(self).bucket_seqs() == old(self).bucket_seqs()
                && final(self).head_seq() == old(self).head_seq(),
            r matches Some(e) ==> {
                &&& Self::popped(*old(self), *final(self), e)
                &&& old(self).contents().count(e) > 0
                &&& forall|x: Entry| old(self).contents().count(x) > 0 ==> e.1 <= x.1
                &&& final(self).contents() == old(self).contents().remove(e)
                &&& final(self).contents().len() == old(self).contents().len() - 1
            },
    {
        let ghost bs = self.bucket_seqs();
        let ghost hs = self.head_seq();
        proof {
            lemma_least(bs, hs);
            lemma_head_ids(hs, bs.len());
        }
        let n = self.heads.len();
        if self.heads[n - 1].1.is_none() {
            return None;
        }
        let h = self.heads.pop().unwrap();
        let hb = h.0;
        proof {
            assert(bs[hb as int] == self.buckets@[hb as int]@);
        }
        let cur = self.buckets[hb].pop().unwrap();
        let bl = self.buckets[hb].len();
        let new_last = if bl == 0 {
            None
        } else {
            Some(self.buckets[hb][bl - 1])
        };
        let ghost rest = bs[hb as int].drop_last();
        proof {
            assert(self.heads@ == hs.drop_last());
            assert(self.bucket_seqs() =~= bs.update(hb as int, rest));
            assert(new_last == last_of(rest));
            lemma_bucket_pop(bs, hb as int);
            lemma_heads_after_pop(bs, hs);
            lemma_flat_contains(bs, hb as int, bs[hb as int].len() - 1);
        }
        place_head(&mut self.heads, (hb, new_last));
        self.len = self.len - 1;
        Some(cur)
    }

    /// Inserts `(index, key)`: an entry popped before, with its new key. No
    /// stored entry may have the same index.
    pub fn reinsert(&mut self, index: usize, key: u64)
        requires
            old(self).wf(),
            old(self).contents().len() < usize::MAX,
            forall|e: Entry| old(self).contents().count(e) > 0 ==> e.0 != index,
        ensures
            final(self).wf(),
            final(self).num_buckets() == old(self).num_buckets(),
            Self::reinserted(*old(self), index, key, *final(self)),
            final(self).contents() == old(self).contents().insert((index, key)),
            final(self).contents().len() == old(self).contents().len() + 1,
    {
        let ghost bs = self.bucket_seqs();
        let ghost hs = self.head_seq();
        let nb = self.buckets.len();
        let b = (key % nb as u64) as usize;
        let e: Entry = (index, key);
        proof {
            assert(bs[b as int] == self.buckets@[b as int]@);
            assert(descending(keys_of(bs[b as int])));
            lemma_head_ids(hs, bs.len());
            lemma_head_pos(bs, hs, b);
        }
        let p = bucket_pos(&self.buckets[b], key);
        let bl = self.buckets[b].len();
        if p == bl {
            let stale = if bl == 0 {
                None
            } else {
                Some(self.buckets[b][bl - 1])
            };
            let ghost hp = head_pos(hs, b as int);
            proof {
                assert(stale == last_of(bs[b as int]));
                assert(hs[hp].1 == stale);
            }
            // The heads are sorted by key only, so several buckets may share the
            // stale key: search for the start of that run, then scan it for `b`.
            let start = head_run_start(&self.heads, &stale);
            let mut j = start;
            while self.heads[j].0 != b
                invariant
                    self.heads@ == hs,
                    hs.len() <= usize::MAX,
                    start <= j <= hp,
                    0 <= hp < hs.len(),
                    hs[hp].0 == b,
                decreases hp - j,
            {
                assert(j != hp);
                j = j + 1;
            }
            self.heads.remove(j);
            proof {
                assert(j == hp);
                assert(self.heads@ == hs.remove(hp));
                assert(bs[b as int].insert(p as int, e) =~= bs[b as int].push(e));
                lemma_heads_after_new_min(bs, hs, b, e);
            }
            place_head(&mut self.heads, (b, Some(e)));
        } else {
            proof {
                lemma_heads_keep(bs, hs, b, p as int, e);
            }
        }
        self.buckets[b].insert(p, e);
        self.len = self.len + 1;
        proof {
            lemma_bucket_insert(bs, b as int, p as int, e);
            assert(self.bucket_seqs() =~= bs.update(b as int, bs[b as int].insert(p as int, e)));
        }
    }

    /// The smallest stored key; `None` when the queue is empty.
    pub fn min(&self) -> (r: Option<u64>)
        requires
            self.wf(),
        ensures
            r is None <==> self.contents().len() == 0,
            r matches Some(k) ==> Self::is_min_key(self.contents(), k),
    {
        proof {
            lemma_least(self.bucket_seqs(), self.head_seq());
        }
        let n = self.heads.len();
        match self.heads[n - 1].1 {
            None => None,
            Some(e) => {
                proof {
                    let bs = self.bucket_seqs();
                    let hb = self.head_seq().last().0 as int;
                    lemma_flat_contains(bs, hb, bs[hb].len() - 1);
                    assert(self.contents().count(e) > 0);
                }
                Some(e.1)
            },
        }
    }

    /// The largest stored key, read off the first (largest) entry of every
    /// bucket; `None` when the queue is empty.
    pub fn max(&self) -> (r: Option<u64>)
        requires
            self.wf(),
        ensures
            r is None <==> self.contents().len() == 0,
            r matches Some(k) ==> Self::is_max_key(self.contents(), k),
    {
        let ghost bs = self.bucket_seqs();
        let mut best: Option<u64> = None;
        let mut i: usize = 0;
        while i < self.buckets.len()
            invariant
                bs == self.bucket_seqs(),
                buckets_ok(bs),
                i <= bs.len(),
                best is None ==> forall|b: int| 0 <= b < i ==> #[trigger] bs[b].len() == 0,
                best matches Some(k) ==> exists|b: int|
                    0 <= b < i && bs[b].len() > 0 && #[trigger] bs[b][0].1 == k,
                best matches Some(k) ==> forall|b: int, j: int|
                    0 <= b < i && 0 <= j < bs[b].len() ==> #[trigger] bs[b][j].1 <= k,
            decreases bs.len() - i,
        {
            proof {
                assert(bs[i as int] == self.buckets@[i as int]@);
                assert(descending(keys_of(bs[i as int])));
            }
            if self.buckets[i].len() > 0 {
                let first = self.buckets[i][0].1;
                let take = match best {
                    None => true,
                    Some(k) => first > k,
                };
                proof {
                    assert forall|j: int| 0 <= j < bs[i as int].len() implies #[trigger] bs[i as int][j].1
                        <= first by {
                        if j > 0 {
                            assert(keys_of(bs[i as int])[0] >= keys_of(bs[i as int])[j]);
                        }
                    }
                }
                if take {
                    best = Some(first);
                }
            }
            i = i + 1;
        }
        proof {
            let c = self.contents();
            if best is None {
                lemma_flat_empty(bs);
            } else {
                let k = best->Some_0;
                let b = choose|b: int| 0 <= b < bs.len() && bs[b].len() > 0 && #[trigger] bs[b][0].1 == k;
                lemma_flat_contains(bs, b, 0);
                assert(c.count(bs[b][0]) > 0);
                assert forall|e: Entry| c.count(e) > 0 implies e.1 <= k by {
                    assert(flat(bs).contains(e));
                    lemma_flat_member(bs, e);
                    let (b1, j1) = choose|b1: int, j1: int|
                        0 <= b1 < bs.len() && 0 <= j1 < bs[b1].len() && bs[b1][j1] == e;
                    assert(bs[b1][j1].1 <= k);
                }
            }
        }
        best
    }

    /// Takes `shift` off every stored key and rebuilds the buckets and heads,
    /// keeping the number of buckets. Used to win back key range once every
    /// key has grown past `shift`.
    pub fn rebase(&mut self, shift: u64)
        requires
            old(self).wf(),
            forall|e: Entry| old(self).contents().count(e) > 0 ==> shift <= e.1,
        ensures
            final(self).wf(),
            final(self).num_buckets() == old(self).num_buckets(),
            final(self).contents() == shift_entries(old(self).entries(), shift).to_multiset(),
    {
        let ghost bs = self.bucket_seqs();
        proof {
            assert(self.contents() == flat(bs).to_multiset());
            assert(flat(bs.take(0)) =~= Seq::<Entry>::empty());
        }
        let mut out: Vec<Entry> = Vec::new();
        let nb = self.buckets.len();
        let mut b: usize = 0;
        while b < nb
            invariant
                nb == bs.len(),
                bs == self.bucket_seqs(),
                b <= nb,
                forall|e: Entry| flat(bs).to_multiset().count(e) > 0 ==> shift <= e.1,
                out@ == shift_entries(flat(bs.take(b as int)), shift),
            decreases nb - b,
        {
            proof {
                assert(bs[b as int] == self.buckets@[b as int]@);
            }
            let len = self.buckets[b].len();
            let mut j: usize = 0;
            while j < len
                invariant
                    nb == bs.len(),
                    bs == self.bucket_seqs(),
                    b < nb,
                    len == bs[b as int].len(),
                    j <= len,
                    forall|e: Entry| flat(bs).to_multiset().count(e) > 0 ==> shift <= e.1,
                    out@ == shift_entries(flat(bs.take(b as int)) + bs[b as int].take(j as int), shift),
                decreases len - j,
            {
                let e = self.buckets[b][j];
                proof {
                    assert(bs[b as int] == self.buckets@[b as int]@);
                    lemma_flat_contains(bs, b as int, j as int);
                    assert(e == bs[b as int][j as int]);
                    assert(flat(bs).to_multiset().count(e) > 0);
                }
                out.push((e.0, e.1 - shift));
                proof {
                    assert(bs[b as int].take(j + 1) =~= bs[b as int].take(j as int).push(e));
                    assert(out@ =~= shift_entries(
                        flat(bs.take(b as int)) + bs[b as int].take(j + 1),
                        shift,
                    ));
                }
                j = j + 1;
            }
            proof {
                assert(bs.take(b + 1).drop_last() =~= bs.take(b as int));
                assert(bs[b as int].take(len as int) =~= bs[b as int]);
                assert(flat(bs.take(b + 1)) == flat(bs.take(b as int)) + bs[b as int]);
            }
            b = b + 1;
        }
        proof {
            assert(bs.take(nb as int) =~= bs);
        }
        *self = Self::build(&out, nb);
    }
}

/// Popping an entry and at once reinserting it under the same key gives back
/// exactly the buckets and heads there were before.
pub proof fn lemma_pop_reinsert_round_trip(
    q0: BucketQueue,
    q1: BucketQueue,
    q2: BucketQueue,
    e: Entry,
)
    requires
        q0.wf(),
        q1.wf(),
        q0.contents().len() > 0,
        BucketQueue::popped(q0, q1, e),
        BucketQueue::reinserted(q1, e.0, e.1, q2),
    ensures
        q2.bucket_seqs() == q0.bucket_seqs(),
        q2.head_seq() == q0.head_seq(),
{
    let bs0 = q0.bucket_seqs();
    let hs0 = q0.head_seq();
    let bs1 = q1.bucket_seqs();
    let hs1 = q1.head_seq();
    lemma_least(bs0, hs0);
    let hb = hs0.last().0 as int;
    let s = bs0[hb];
    let rest = s.drop_last();
    assert(s.len() > 0);
    assert(bucket_of(s[s.len() - 1].1, bs0.len()) == hb);
    assert(bucket_of(e.1, q1.num_buckets()) == hb);
    assert(bs1[hb] == rest);
    assert(descending(keys_of(s)));
    assert forall|i: int| 0 <= i < rest.len() implies keys_of(rest)[i] >= e.1 by {
        assert(keys_of(s)[i] >= keys_of(s)[s.len() - 1]);
    }
    lemma_tail_pos(keys_of(rest), e.1 as int, rest.len() as int);
    assert(rest.insert(rest.len() as int, e) =~= s);
    assert(q2.bucket_seqs() =~= bs0);
    // heads
    let d = hs0.drop_last();
    let h1: Head = (hb as usize, last_of(rest));
    let t = tail_pos(head_keys(d), hkey(h1.1));
    lemma_tail_pos_range(head_keys(d), hkey(h1.1));
    assert(hs1[t] == h1);
    lemma_head_pos(bs1, hs1, hb as usize);
    assert(head_pos(hs1, hb) == t);
    assert(hs1.remove(t) =~= d);
    assert(descending(head_keys(hs0)));
    assert forall|i: int| 0 <= i < d.len() implies head_keys(d)[i] >= e.1 by {
        assert(head_keys(hs0)[i] >= head_keys(hs0)[hs0.len() - 1]);
    }
    lemma_tail_pos(head_keys(d), e.1 as int, d.len() as int);
    assert(d.insert(d.len() as int, (hb as usize, Some(e))) =~= hs0);
}

/// A well-formed queue keeps every bucket sorted with its minimum at the tail,
/// and holds for each bucket one head equal to that bucket's minimum (none
/// when it is empty), with the global minimum as the last head.
pub proof fn lemma_invariants(q: BucketQueue)
    requires
        q.wf(),
    ensures
        q.sorted_buckets(),
        q.heads_consistent(),
{
}

proof fn lemma_key_bag_of(q: BucketQueue, s: Seq<Entry>)
    requires
        q.contents() == s.to_multiset(),
    ensures
        q.key_bag() == keys_seq(s).to_multiset(),
{
    let f = |e: Entry| e.1;
    lemma_map_to_multiset(q.entries(), s, f);
    assert(keys_seq(q.entries()) =~= q.entries().map_values(f));
    assert(keys_seq(s) =~= s.map_values(f));
}

/// What a pop does to the stored keys.
proof fn lemma_popped_keys(q0: BucketQueue, q1: BucketQueue, e: Entry)
    requires
        q0.wf(),
        q0.contents().len() > 0,
        BucketQueue::popped(q0, q1, e),
    ensures
        q0.key_bag().count(e.1) > 0,
        forall|k: u64| #[trigger] q0.key_bag().count(k) > 0 ==> e.1 <= k,
        q1.key_bag() == q0.key_bag().remove(e.1),
{
    let bs0 = q0.bucket_seqs();
    let hs0 = q0.head_seq();
    lemma_least(bs0, hs0);
    let hb = hs0.last().0 as int;
    let s = flat(bs0);
    assert(s.len() > 0);
    assert(hs0.last().1 is Some);
    lemma_bucket_pop(bs0, hb);
    lemma_flat_contains(bs0, hb, bs0[hb].len() - 1);
    let i = choose|i: int| 0 <= i < s.len() && s[i] == e;
    assert(q1.contents() == s.remove(i).to_multiset());
    lemma_key_bag_of(q1, s.remove(i));
    assert(keys_seq(s.remove(i)) =~= keys_seq(s).remove(i));
    assert(keys_seq(s)[i] == e.1);
    assert(keys_seq(s).contains(e.1));
    assert forall|k: u64| #[trigger] q0.key_bag().count(k) > 0 implies e.1 <= k by {
        assert(keys_seq(s).contains(k));
        let j = choose|j: int| 0 <= j < keys_seq(s).len() && keys_seq(s)[j] == k;
        assert(s.contains(s[j]));
    }
}

/// What a reinsert does to the stored keys.
proof fn lemma_reinserted_keys(q0: BucketQueue, q1: BucketQueue, index: usize, key: u64)
    requires
        q0.wf(),
        BucketQueue::reinserted(q0, index, key, q1),
    ensures
        q1.key_bag() == q0.key_bag().insert(key),
{
    let bs0 = q0.bucket_seqs();
    let b = bucket_of(key, q0.num_buckets());
    let sb = bs0[b];
    let e: Entry = (index, key);
    assert(descending(keys_of(sb)));
    let p = tail_pos(keys_of(sb), key as int);
    lemma_tail_pos_split(keys_of(sb), key as int);
    lemma_tail_pos_range(keys_of(sb), key as int);
    assert forall|i: int| 0 <= i < p implies sb[i].1 >= e.1 by {
        assert(keys_of(sb)[i] >= key);
    }
    assert forall|i: int| p <= i < sb.len() implies sb[i].1 < e.1 by {
        assert(keys_of(sb)[i] < key);
    }
    lemma_bucket_insert(bs0, b, p, e);
    let s = flat(bs0);
    assert(q1.contents() == s.push(e).to_multiset());
    lemma_key_bag_of(q1, s.push(e));
    assert(keys_seq(s.push(e)) =~= keys_seq(s).push(key));
}

proof fn lemma_shift_counts(ks: Seq<u64>, m: u64)
    requires
        forall|i: int| 0 <= i < ks.len() ==> ks[i] >= m,
    ensures
        keys_shifted(
            ks.to_multiset(),
            ks.map_values(|k: u64| (k - m) as u64).to_multiset(),
            m,
        ),
    decreases ks.len(),
{
    let f = |k: u64| (k - m) as u64;
    let a = ks.to_multiset();
    let b = ks.map_values(f).to_multiset();
    if ks.len() == 0 {
        assert(a =~= Multiset::empty());
        assert(ks.map_values(f) =~= Seq::<u64>::empty());
        assert(b =~= Multiset::empty());
    } else {
        let d = ks.drop_last();
        let x = ks.last();
        lemma_shift_counts(d, m);
        assert(ks =~= d.push(x));
        assert(ks.map_values(f) =~= d.map_values(f).push(f(x)));
        let a0 = d.to_multiset();
        let b0 = d.map_values(f).to_multiset();
        assert(a == a0.insert(x));
        assert(b == b0.insert(f(x)));
        assert forall|k: u64| k >= m implies #[trigger] a.count(k) == b.count((k - m) as u64) by {
            assert(a0.count(k) == b0.count((k - m) as u64));
        }
        assert forall|k: u64| #[trigger] b.count(k) > 0 implies k + m <= u64::MAX by {
            if k != f(x) {
                assert(b0.count(k) > 0);
            }
        }
        assert forall|k: u64| #[trigger] a.count(k) > 0 implies k >= m by {
            if k != x {
                assert(a0.count(k) > 0);
            }
        }
    }
}

/// Rebasing by `m` leaves exactly the old keys, each less `m`.
pub proof fn lemma_rebase_shifts_keys(q0: BucketQueue, q1: BucketQueue, m: u64)
    requires
        q0.wf(),
        forall|e: Entry| q0.contents().count(e) > 0 ==> m <= e.1,
        q1.contents() == shift_entries(q0.entries(), m).to_multiset(),
    ensures
        keys_shifted(q0.key_bag(), q1.key_bag(), m),
{
    let s = q0.entries();
    lemma_key_bag_of(q1, shift_entries(s, m));
    let ks = keys_seq(s);
    assert forall|i: int| 0 <= i < ks.len() implies ks[i] >= m by {
        assert(s.contains(s[i]));
        assert(q0.contents().count(s[i]) > 0);
        assert(ks[i] == s[i].1);
    }
    lemma_shift_counts(ks, m);
    assert(keys_seq(shift_entries(s, m)) =~= ks.map_values(|k: u64| (k - m) as u64));
}

/// After a rebase by `m`, pops keep their order: popping from a queue and
/// from its rebased copy gives keys that differ by exactly `m`, and leaves
/// the remaining keys related in the same way.
pub proof fn lemma_pop_after_rebase(
    a0: BucketQueue,
    a1: BucketQueue,
    ea: Entry,
    b0: BucketQueue,
    b1: BucketQueue,
    eb: Entry,
    m: u64,
)
    requires
        a0.wf(),
        b0.wf(),
        a0.contents().len() > 0,
        b0.contents().len() > 0,
        keys_shifted(a0.key_bag(), b0.key_bag(), m),
        BucketQueue::popped(a0, a1, ea),
        BucketQueue::popped(b0, b1, eb),
    ensures
        eb.1 + m == ea.1,
        keys_shifted(a1.key_bag(), b1.key_bag(), m),
{
    lemma_popped_keys(a0, a1, ea);
    lemma_popped_keys(b0, b1, eb);
    let a = a0.key_bag();
    let b = b0.key_bag();
    let ka = ea.1;
    let kb = eb.1;
    assert(a.count(ka) > 0);
    assert(ka >= m);
    assert(a.count(ka) == b.count((ka - m) as u64));
    assert(b.count((ka - m) as u64) > 0);
    assert(kb <= ka - m);
    assert(b.count(kb) > 0);
    assert(kb + m <= u64::MAX);
    assert(a.count((kb + m) as u64) == b.count(kb));
    assert(ka <= kb + m);
    let a2 = a1.key_bag();
    let b2 = b1.key_bag();
    assert forall|k: u64| k >= m implies #[trigger] a2.count(k) == b2.count((k - m) as u64) by {
        assert(a.count(k) == b.count((k - m) as u64));
    }
    assert forall|k: u64| #[trigger] a2.count(k) > 0 implies k >= m by {
        assert(a.count(k) > 0);
    }
    assert forall|k: u64| #[trigger] b2.count(k) > 0 implies k + m <= u64::MAX by {
        assert(b.count(k) > 0);
    }
}

/// After a rebase by `m`, reinserting key `k + m` into a queue and key `k`
/// into its rebased copy keeps the two related.
pub proof fn lemma_reinsert_after_rebase(
    a0: BucketQueue,
    a1: BucketQueue,
    ia: usize,
    b0: BucketQueue,
    b1: BucketQueue,
    ib: usize,
    k: u64,
    m: u64,
)
    requires
        a0.wf(),
        b0.wf(),
        k + m <= u64::MAX,
        keys_shifted(a0.key_bag(), b0.key_bag(), m),
        BucketQueue::reinserted(a0, ia, (k + m) as u64, a1),
        BucketQueue::reinserted(b0, ib, k, b1),
    ensures
        keys_shifted(a1.key_bag(), b1.key_bag(), m),
{
    lemma_reinserted_keys(a0, a1, ia, (k + m) as u64);
    lemma_reinserted_keys(b0, b1, ib, k);
    let a = a0.key_bag();
    let b = b0.key_bag();
    let a2 = a1.key_bag();
    let b2 = b1.key_bag();
    assert forall|j: u64| j >= m implies #[trigger] a2.count(j) == b2.count((j - m) as u64) by {
        assert(a.count(j) == b.count((j - m) as u64));
    }
    assert forall|j: u64| #[trigger] a2.count(j) > 0 implies j >= m by {
        if j != k + m {
            assert(a.count(j) > 0);
        }
    }
    assert forall|j: u64| #[trigger] b2.count(j) > 0 implies j + m <= u64::MAX by {
        if j != k {
            assert(b.count(j) > 0);
        }
    }
}

} // verus!