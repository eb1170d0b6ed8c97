//! Choice of the chassis nodes that a wheel hub is mounted to.
//!
//! Candidates are numbered `0 .. n`. Every distance enters as a key: the
//! caller passes, for each squared distance, a `u32` that orders the same way
//! (the bit pattern of a non-negative `f32` does). `hub_key[i]` is candidate
//! `i`'s distance to the hub, `seed_key[i]` its distance to the inboard seed
//! target, `sep_key[i][j]` its distance to candidate `j`.
//!
//! The pool is every candidate within the radius (key below `radius_key`), in
//! index order; if that holds fewer than `count`, it is instead the
//! `min(3 count, n)` nearest candidates, nearest first, ties to the lower
//! index. The first mount is the pool member nearest the seed target (the
//! first such); each further mount is the pool member farthest from all
//! mounts chosen so far (the first such), until `count` mounts are chosen or
//! the pool is used up.

use vstd::prelude::*;

verus! {

/// Candidate `i` lies strictly before `j` in nearest-first order: a smaller
/// key, or an equal key and a lower index.
pub open spec fn nearer(key: Seq<u32>, i: int, j: int) -> bool {
    key[i] < key[j] || (key[i] == key[j] && i < j)
}

/// The candidates among `0 .. k` whose key is below `radius_key`, in index
/// order.
pub open spec fn within_radius(key: Seq<u32>, radius_key: u32, k: int) -> Seq<usize>
    decreases k,
{
    if k <= 0 {
        seq![]
    } else {
        within_radius(key, radius_key, k - 1) + if key[k - 1] < radius_key {
            seq![(k - 1) as usize]
        } else {
            seq![]
        }
    }
}

/// The nearest of the candidates `0 .. k` that are not in `excl` (the first
/// of several equally near), or -1 if there is none.
pub open spec fn nearest_excluding(key: Seq<u32>, excl: Seq<usize>, k: int) -> int
    decreases k,
{
    if k <= 0 {
        -1
    } else {
        let p = nearest_excluding(key, excl, k - 1);
        if excl.contains((k - 1) as usize) {
            p
        } else if p < 0 || key[k - 1] < key[p] {
            k - 1
        } else {
            p
        }
    }
}

/// The `m` nearest candidates, nearest first: each is the nearest of those not
/// taken before it.
pub open spec fn nearest(key: Seq<u32>, m: int) -> Seq<usize>
    decreases m,
{
    if m <= 0 {
        seq![]
    } else {
        let prev = nearest(key, m - 1);
        prev.push(nearest_excluding(key, prev, key.len() as int) as usize)
    }
}

/// The member of `pool[0 .. k]` with the least key, the first of several.
pub open spec fn first_least(pool: Seq<usize>, key: Seq<u32>, k: int) -> usize
    decreases k,
{
    if k <= 1 {
        pool[0]
    } else {
        let p = first_least(pool, key, k - 1);
        if key[pool[k - 1] as int] < key[p as int] {
            pool[k - 1]
        } else {
            p
        }
    }
}

/// Least separation key from candidate `c` to `picked[0 .. k]` (`k >= 1`).
pub open spec fn min_sep(sep: Seq<Vec<u32>>, c: usize, picked: Seq<usize>, k: int) -> u32
    decreases k,
{
    if k <= 1 {
        sep[c as int]@[picked[0] as int]
    } else {
        let m = min_sep(sep, c, picked, k - 1);
        let s = sep[c as int]@[picked[k - 1] as int];
        if s < m {
            s
        } else {
            m
        }
    }
}

/// Least separation key from `c` to all of `picked`.
pub open spec fn separation(sep: Seq<Vec<u32>>, c: usize, picked: Seq<usize>) -> u32 {
    min_sep(sep, c, picked, picked.len() as int)
}

/// Among the members of `pool[0 .. k]` not in `picked`, the first one with
/// the greatest separation from `picked`; `None` if all are picked.
pub open spec fn farthest(pool: Seq<usize>, sep: Seq<Vec<u32>>, picked: Seq<usize>, k: int) -> Option<usize>
    decreases k,
{
    if k <= 0 {
        None
    } else {
        let prev = farthest(pool, sep, picked, k - 1);
        let c = pool[k - 1];
        if picked.contains(c) {
            prev
        } else {
            match prev {
                None => Some(c),
                Some(b) => if separation(sep, c, picked) > separation(sep, b, picked) {
                    Some(c)
                } else {
                    prev
                },
            }
        }
    }
}

/// `picked` extended by `steps` farthest-point choices from `pool` (fewer if
/// the pool runs out).
pub open spec fn spread(pool: Seq<usize>, sep: Seq<Vec<u32>>, picked: Seq<usize>, steps: nat) -> Seq<usize>
    decreases steps,
{
    if steps == 0 {
        picked
    } else {
        match farthest(pool, sep, picked, pool.len() as int) {
            Some(c) => spread(pool, sep, picked.push(c), (steps - 1) as nat),
            None => picked,
        }
    }
}

/// The candidate pool (see the module documentation).
pub open spec fn mount_pool(hub_key: Seq<u32>, radius_key: u32, count: int) -> Seq<usize> {
    let near = within_radius(hub_key, radius_key, hub_key.len() as int);
    if near.len() < count {
        let m = if 3 * count < hub_key.len() { 3 * count } else { hub_key.len() as int };
        nearest(hub_key, m)
    } else {
        near
    }
}

/// How many mounts follow the first: `min(count, pool size) - 1`, at least 0.
pub open spec fn extra_mounts(count: int, pool_len: int) -> nat {
    let k = if count < pool_len { count } else { pool_len };
    if k >= 1 { (k - 1) as nat } else { 0 }
}

/// The chosen mounts, first the seed, then the spread.
pub open spec fn mounts_spec(
    hub_key: Seq<u32>,
    radius_key: u32,
    seed_key: Seq<u32>,
    sep: Seq<Vec<u32>>,
    count: int,
) -> Seq<usize> {
    let pool = mount_pool(hub_key, radius_key, count);
    spread(pool, sep, seq![first_least(pool, seed_key, pool.len() as int)], extra_mounts(count, pool.len() as int))
}

/// The keys are complete: one per candidate, and a full separation matrix.
pub open spec fn keys_ok(hub_key: Seq<u32>, seed_key: Seq<u32>, sep: Seq<Vec<u32>>) -> bool {
    &&& seed_key.len() == hub_key.len()
    &&& sep.len() == hub_key.len()
    &&& forall|i: int| 0 <= i < sep.len() ==> #[trigger] sep[i].len() == hub_key.len()
}

// ---------------------------------------------------------------------------
// Facts about the specifications.

proof fn lemma_within_radius_props(key: Seq<u32>, radius_key: u32, k: int)
    requires
        0 <= k <= key.len() <= usize::MAX,
    ensures
        within_radius(key, radius_key, k).no_duplicates(),
        within_radius(key, radius_key, k).len() <= k,
        forall|i: int|
            0 <= i < within_radius(key, radius_key, k).len() ==> #[trigger] within_radius(key, radius_key, k)[i]
                < k,
    decreases k,
{
    if k > 0 {
        lemma_within_radius_props(key, radius_key, k - 1);
        let prev = within_radius(key, radius_key, k - 1);
        if key[k - 1] < radius_key {
            assert(within_radius(key, radius_key, k) == prev.push((k - 1) as usize));
            assert(!prev.contains((k - 1) as usize));
        } else {
            assert(within_radius(key, radius_key, k) == prev);
        }
    }
}

proof fn lemma_nearest_len(key: Seq<u32>, m: int)
    requires
        0 <= m,
    ensures
        nearest(key, m).len() == m,
    decreases m,
{
    if m > 0 {
        lemma_nearest_len(key, m - 1);
    }
}

proof fn lemma_nearest_excluding_props(key: Seq<u32>, excl: Seq<usize>, k: int)
    requires
        0 <= k <= key.len() <= usize::MAX,
    ensures
        ({
            let p = nearest_excluding(key, excl, k);
            &&& -1 <= p < k
            &&& p >= 0 ==> !excl.contains(p as usize)
            &&& p >= 0 ==> forall|j: int| 0 <= j < k && j != p && !excl.contains(j as usize) ==> nearer(key, p, j)
            &&& p < 0 ==> forall|j: usize| j < k ==> #[trigger] excl.contains(j)
        }),
    decreases k,
{
    if k > 0 {
        lemma_nearest_excluding_props(key, excl, k - 1);
        let q = nearest_excluding(key, excl, k - 1);
        let p = nearest_excluding(key, excl, k);
        let last = (k - 1) as usize;
        assert(last as int == k - 1);
        if excl.contains(last) {
            assert(p == q);
            if p < 0 {
                assert forall|j: usize| j < k implies #[trigger] excl.contains(j) by {
                    if j as int == k - 1 {
                        assert(j == last);
                    }
                }
            }
        } else if q < 0 || key[k - 1] < key[q] {
            assert(p == k - 1);
            assert forall|j: int| 0 <= j < k && j != p && !excl.contains(j as usize) implies nearer(key, p, j) by {
                if q >= 0 && j != q {
                    assert(nearer(key, q, j));
                }
                if q < 0 {
                    assert(excl.contains(j as usize));
                }
            }
        } else {
            assert(p == q);
            assert forall|j: int| 0 <= j < k && j != p && !excl.contains(j as usize) implies nearer(key, p, j) by {
                if j < k - 1 {
                    assert(nearer(key, q, j));
                }
            }
        }
    }
}

/// The `m` nearest candidates are `m` distinct candidates in nearest-first
/// order, and every candidate left out lies after all of them.
pub proof fn lemma_nearest_props(key: Seq<u32>, m: int)
    requires
        0 <= m <= key.len() <= usize::MAX,
    ensures
        nearest(key, m).len() == m,
        nearest(key, m).no_duplicates(),
        forall|i: int| 0 <= i < m ==> #[trigger] nearest(key, m)[i] < key.len(),
        forall|i: int, j: int| 0 <= i < j < m ==> nearer(key, nearest(key, m)[i] as int, nearest(key, m)[j] as int),
        forall|i: int, c: usize|
            #![trigger nearest(key, m)[i], nearest(key, m).contains(c)]
            0 <= i < m && c < key.len() && !nearest(key, m).contains(c) ==> nearer(
                key,
                nearest(key, m)[i] as int,
                c as int,
            ),
    decreases m,
{
    if m > 0 {
        let prev = nearest(key, m - 1);
        lemma_nearest_props(key, m - 1);
        let n = key.len() as int;
        lemma_nearest_excluding_props(key, prev, n);
        let p = nearest_excluding(key, prev, n);
        if p < 0 {
            // every candidate is taken: m - 1 distinct values below n, so m - 1 >= n
            assert forall|j: usize| j < n implies #[trigger] prev.to_set().contains(j) by {
                assert(prev.contains(j));
            }
            lemma_range_in_set(prev.to_set(), n);
            prev.unique_seq_to_set();
            assert(false);
        }
        let cur = nearest(key, m);
        assert(cur == prev.push(p as usize));
        assert forall|i: int, j: int| 0 <= i < j < m implies nearer(key, cur[i] as int, cur[j] as int) by {
            if j == m - 1 {
                // prev[i] was chosen before p, while p was still available
                assert(cur[i] == prev[i]);
                lemma_chosen_before(key, m - 1, i, p);
            }
        }
        assert forall|i: int, c: usize|
            #![trigger cur[i], cur.contains(c)]
            0 <= i < m && c < key.len() && !cur.contains(c) implies nearer(
            key,
            cur[i] as int,
            c as int,
        ) by {
            assert(!prev.contains(c)) by {
                if prev.contains(c) {
                    let w = choose|w: int| 0 <= w < prev.len() && prev[w] == c;
                    assert(cur[w] == c);
                }
            }
            if i < m - 1 {
                assert(cur[i] == prev[i]);
            } else {
                assert(cur[m - 1] == p as usize);
                if c == p as usize {
                    assert(cur[m - 1] == c);
                    assert(cur.contains(c));
                }
                assert(c as int != p);
            }
        }
    }
}

/// The element taken at step `i` lies before `p`, which was not yet taken.
proof fn lemma_chosen_before(key: Seq<u32>, m: int, i: int, p: int)
    requires
        0 <= i < m <= key.len() <= usize::MAX,
        0 <= p < key.len(),
        !nearest(key, m).contains(p as usize),
    ensures
        nearer(key, nearest(key, m)[i] as int, p),
    decreases m,
{
    let prev = nearest(key, m - 1);
    lemma_nearest_len(key, m - 1);
    assert(nearest(key, m) == prev.push(nearest_excluding(key, prev, key.len() as int) as usize));
    if i < m - 1 {
        assert(nearest(key, m)[i] == prev[i]);
        assert(!prev.contains(p as usize)) by {
            if prev.contains(p as usize) {
                let w = choose|w: int| 0 <= w < prev.len() && prev[w] == p as usize;
                assert(nearest(key, m)[w] == p as usize);
            }
        }
        lemma_chosen_before(key, m - 1, i, p);
    } else {
        lemma_nearest_excluding_props(key, prev, key.len() as int);
        let q = nearest_excluding(key, prev, key.len() as int);
        assert(!prev.contains(p as usize)) by {
            if prev.contains(p as usize) {
                let w = choose|w: int| 0 <= w < prev.len() && prev[w] == p as usize;
                assert(nearest(key, m)[w] == p as usize);
            }
        }
        if q < 0 {
        } else {
            assert(nearest(key, m)[m - 1] == q as usize);
            assert(q != p);
        }
    }
}

/// A finite set holding every number in `0 .. n` has at least `n` elements.
proof fn lemma_range_in_set(s: Set<usize>, n: int)
    requires
        s.finite(),
        0 <= n <= usize::MAX + 1,
        forall|j: usize| j < n ==> #[trigger] s.contains(j),
    ensures
        s.len() >= n,
    decreases n,
{
    if n > 0 {
        let t = s.remove((n - 1) as usize);
        assert forall|j: usize| j < n - 1 implies #[trigger] t.contains(j) by {
            assert(s.contains(j));
        }
        lemma_range_in_set(t, n - 1);
    }
}

proof fn lemma_first_least_in_pool(pool: Seq<usize>, key: Seq<u32>, k: int)
    requires
        1 <= k <= pool.len(),
    ensures
        pool.subrange(0, k).contains(first_least(pool, key, k)),
    decreases k,
{
    if k > 1 {
        lemma_first_least_in_pool(pool, key, k - 1);
        let p = first_least(pool, key, k - 1);
        let w = choose|w: int| 0 <= w < k - 1 && #[trigger] pool.subrange(0, k - 1)[w] == p;
        assert(pool.subrange(0, k)[w] == p);
        assert(pool.subrange(0, k)[k - 1] == pool[k - 1]);
    } else {
        assert(pool.subrange(0, 1)[0] == pool[0]);
    }
}

proof fn lemma_farthest_props(pool: Seq<usize>, sep: Seq<Vec<u32>>, picked: Seq<usize>, k: int)
    requires
        0 <= k <= pool.len(),
    ensures
        farthest(pool, sep, picked, k) matches Some(c) ==> !picked.contains(c) && pool.subrange(0, k).contains(c),
        farthest(pool, sep, picked, k) is None ==> forall|j: int| 0 <= j < k ==> picked.contains(#[trigger] pool[j]),
    decreases k,
{
    if k > 0 {
        lemma_farthest_props(pool, sep, picked, k - 1);
        let prev = farthest(pool, sep, picked, k - 1);
        assert(pool.subrange(0, k)[k - 1] == pool[k - 1]);
        if let Some(b) = prev {
            let w = choose|w: int| 0 <= w < k - 1 && #[trigger] pool.subrange(0, k - 1)[w] == b;
            assert(pool.subrange(0, k)[w] == b);
        }
    }
}

/// When fewer than all pool members are picked, picked members are distinct
/// pool members, and the pool has no duplicates, an unpicked member exists.
proof fn lemma_unpicked_exists(pool: Seq<usize>, picked: Seq<usize>)
    requires
        pool.no_duplicates(),
        picked.no_duplicates(),
        picked.len() < pool.len(),
    ensures
        exists|j: int| 0 <= j < pool.len() && !picked.contains(#[trigger] pool[j]),
{
    if forall|j: int| 0 <= j < pool.len() ==> picked.contains(#[trigger] pool[j]) {
        assert(pool.to_set().subset_of(picked.to_set())) by {
            assert forall|x: usize| pool.to_set().contains(x) implies picked.to_set().contains(x) by {
                let w = choose|w: int| 0 <= w < pool.len() && pool[w] == x;
                assert(picked.contains(pool[w]));
            }
        }
        vstd::set_lib::lemma_len_subset(pool.to_set(), picked.to_set());
        pool.unique_seq_to_set();
        picked.unique_seq_to_set();
    }
}

proof fn lemma_spread_props(pool: Seq<usize>, sep: Seq<Vec<u32>>, picked: Seq<usize>, steps: nat)
    requires
        pool.no_duplicates(),
        picked.no_duplicates(),
        picked.len() + steps <= pool.len(),
        forall|i: int| 0 <= i < picked.len() ==> pool.contains(#[trigger] picked[i]),
    ensures
        spread(pool, sep, picked, steps).len() == picked.len() + steps,
        spread(pool, sep, picked, steps).no_duplicates(),
        spread(pool, sep, picked, steps).subrange(0, picked.len() as int) == picked,
        forall|i: int|
            0 <= i < spread(pool, sep, picked, steps).len() ==> pool.contains(
                #[trigger] spread(pool, sep, picked, steps)[i],
            ),
    decreases steps,
{
    if steps > 0 {
        lemma_unpicked_exists(pool, picked);
        lemma_farthest_props(pool, sep, picked, pool.len() as int);
        let f = farthest(pool, sep, picked, pool.len() as int);
        if f is None {
            let j = choose|j: int| 0 <= j < pool.len() && !picked.contains(#[trigger] pool[j]);
            assert(false);
        }
        let c = f.unwrap();
        assert(pool.subrange(0, pool.len() as int) == pool);
        let next = picked.push(c);
        assert forall|i: int| 0 <= i < next.len() implies pool.contains(#[trigger] next[i]) by {
            if i < picked.len() {
                assert(next[i] == picked[i]);
            }
        }
        lemma_spread_props(pool, sep, next, (steps - 1) as nat);
        let r = spread(pool, sep, next, (steps - 1) as nat);
        assert(r.subrange(0, picked.len() as int) == r.subrange(0, next.len() as int).subrange(
            0,
            picked.len() as int,
        ));
        assert(next.subrange(0, picked.len() as int) == picked);
    }
}

proof fn lemma_pool_props(hub_key: Seq<u32>, radius_key: u32, count: int)
    requires
        0 <= count,
        hub_key.len() <= usize::MAX,
    ensures
        mount_pool(hub_key, radius_key, count).no_duplicates(),
        forall|i: int|
            0 <= i < mount_pool(hub_key, radius_key, count).len() ==> #[trigger] mount_pool(
                hub_key,
                radius_key,
                count,
            )[i] < hub_key.len(),
        hub_key.len() > 0 && count > 0 ==> mount_pool(hub_key, radius_key, count).len() > 0,
{
    let n = hub_key.len() as int;
    lemma_within_radius_props(hub_key, radius_key, n);
    let near = within_radius(hub_key, radius_key, n);
    if near.len() < count {
        let m = if 3 * count < n { 3 * count } else { n };
        lemma_nearest_props(hub_key, m);
    }
}

/// The mounts are distinct members of the pool, the first is the member
/// nearest the seed target, and there are `min(count, pool size)` of them,
/// at least one.
pub proof fn lemma_mounts_props(
    hub_key: Seq<u32>,
    radius_key: u32,
    seed_key: Seq<u32>,
    sep: Seq<Vec<u32>>,
    count: int,
)
    requires
        0 <= count,
        hub_key.len() <= usize::MAX,
        mount_pool(hub_key, radius_key, count).len() > 0,
    ensures
        ({
            let pool = mount_pool(hub_key, radius_key, count);
            let m = mounts_spec(hub_key, radius_key, seed_key, sep, count);
            &&& m.len() == 1 + extra_mounts(count, pool.len() as int)
            &&& m.len() == if 1 <= count <= pool.len() { count } else if count > pool.len() {
                pool.len() as int
            } else {
                1
            }
            &&& m.no_duplicates()
            &&& m[0] == first_least(pool, seed_key, pool.len() as int)
            &&& forall|i: int| 0 <= i < m.len() ==> pool.contains(#[trigger] m[i])
            &&& forall|i: int| 0 <= i < m.len() ==> #[trigger] m[i] < hub_key.len()
        }),
{
    let pool = mount_pool(hub_key, radius_key, count);
    lemma_pool_props(hub_key, radius_key, count);
    let seed = first_least(pool, seed_key, pool.len() as int);
    lemma_first_least_in_pool(pool, seed_key, pool.len() as int);
    assert(pool.subrange(0, pool.len() as int) == pool);
    let start = seq![seed];
    assert(start.no_duplicates());
    assert(forall|i: int| 0 <= i < start.len() ==> pool.contains(#[trigger] start[i]));
    let steps = extra_mounts(count, pool.len() as int);
    lemma_spread_props(pool, sep, start, steps);
    let m = spread(pool, sep, start, steps);
    assert(m[0] == m.subrange(0, 1)[0]);
    assert forall|i: int| 0 <= i < m.len() implies #[trigger] m[i] < hub_key.len() by {
        assert(pool.contains(m[i]));
        let w = choose|w: int| 0 <= w < pool.len() && pool[w] == m[i];
    }
}

/// The in-radius candidates are exactly the candidates whose key is below
/// the radius key, in increasing index order.
pub proof fn lemma_within_radius_exact(key: Seq<u32>, radius_key: u32, k: int)
    requires
        0 <= k <= key.len() <= usize::MAX,
    ensures
        forall|i: usize| #[trigger] within_radius(key, radius_key, k).contains(i) <==> (i < k && key[i as int] < radius_key),
        forall|a: int, b: int|
            0 <= a < b < within_radius(key, radius_key, k).len() ==> within_radius(key, radius_key, k)[a]
                < within_radius(key, radius_key, k)[b],
    decreases k,
{
    if k > 0 {
        lemma_within_radius_exact(key, radius_key, k - 1);
        lemma_within_radius_props(key, radius_key, k - 1);
        let prev = within_radius(key, radius_key, k - 1);
        let cur = within_radius(key, radius_key, k);
        let last = (k - 1) as usize;
        if key[k - 1] < radius_key {
            assert(cur == prev.push(last));
            assert forall|i: usize| #[trigger] cur.contains(i) <==> (i < k && key[i as int] < radius_key) by {
                assert(last as int == k - 1);
                assert(cur[prev.len() as int] == last);
                if i == last {
                    assert(cur.contains(i));
                } else {
                    if cur.contains(i) {
                        let w = choose|w: int| 0 <= w < cur.len() && cur[w] == i;
                        assert(w != prev.len());
                        assert(prev[w] == i);
                        assert(prev.contains(i));
                    }
                    if prev.contains(i) {
                        let w = choose|w: int| 0 <= w < prev.len() && prev[w] == i;
                        assert(cur[w] == i);
                        assert(cur.contains(i));
                    }
                    assert(i as int != k - 1);
                }
            }
        } else {
            assert(cur == prev);
        }
    }
}

/// The seed is the first pool member with the least key: every member's key
/// is at least the seed's, and every member before the seed's first place has
/// a larger one.
pub proof fn lemma_first_least_exact(pool: Seq<usize>, key: Seq<u32>, k: int)
    requires
        1 <= k <= pool.len(),
        forall|i: int| 0 <= i < pool.len() ==> #[trigger] pool[i] < key.len(),
    ensures
        exists|w: int|
            0 <= w < k && pool[w] == first_least(pool, key, k) && (forall|j: int|
                0 <= j < w ==> key[#[trigger] pool[j] as int] > key[first_least(pool, key, k) as int]),
        forall|j: int| 0 <= j < k ==> key[first_least(pool, key, k) as int] <= key[#[trigger] pool[j] as int],
    decreases k,
{
    if k > 1 {
        lemma_first_least_exact(pool, key, k - 1);
        let p = first_least(pool, key, k - 1);
        let w = choose|w: int|
            0 <= w < k - 1 && pool[w] == p && (forall|j: int| 0 <= j < w ==> key[#[trigger] pool[j] as int] > key[p as int]);
        if key[pool[k - 1] as int] < key[p as int] {
            assert(forall|j: int| 0 <= j < k - 1 ==> key[#[trigger] pool[j] as int] > key[pool[k - 1] as int]);
        } else {
            assert(pool[w] == first_least(pool, key, k));
        }
    } else {
        assert(pool[0] == first_least(pool, key, 1));
    }
}

/// Each further mount is the first unpicked pool member of greatest
/// separation from the mounts so far: no unpicked member is farther, and
/// every unpicked member before its first place is strictly nearer.
pub proof fn lemma_farthest_exact(pool: Seq<usize>, sep: Seq<Vec<u32>>, picked: Seq<usize>, k: int)
    requires
        0 <= k <= pool.len(),
    ensures
        farthest(pool, sep, picked, k) matches Some(c) ==> {
            &&& !picked.contains(c)
            &&& exists|w: int|
                0 <= w < k && pool[w] == c && (forall|j: int|
                    0 <= j < w && !picked.contains(#[trigger] pool[j]) ==> separation(sep, pool[j], picked)
                        < separation(sep, c, picked))
            &&& forall|j: int|
                0 <= j < k && !picked.contains(#[trigger] pool[j]) ==> separation(sep, pool[j], picked)
                    <= separation(sep, c, picked)
        },
        farthest(pool, sep, picked, k) is None ==> forall|j: int| 0 <= j < k ==> picked.contains(#[trigger] pool[j]),
    decreases k,
{
    if k > 0 {
        lemma_farthest_exact(pool, sep, picked, k - 1);
        let prev = farthest(pool, sep, picked, k - 1);
        let c = pool[k - 1];
        if !picked.contains(c) {
            match prev {
                None => {
                    assert(pool[k - 1] == c);
                    assert(forall|j: int| 0 <= j < k - 1 ==> picked.contains(#[trigger] pool[j]));
                },
                Some(b) => {
                    let w = choose|w: int|
                        0 <= w < k - 1 && pool[w] == b && (forall|j: int|
                            0 <= j < w && !picked.contains(#[trigger] pool[j]) ==> separation(sep, pool[j], picked)
                                < separation(sep, b, picked));
                    if separation(sep, c, picked) > separation(sep, b, picked) {
                        assert(pool[k - 1] == c);
                    } else {
                        assert(pool[w] == b);
                    }
                },
            }
        }
    }
}

/// The pool is the in-radius candidates when there are at least `count` of
/// them; otherwise it is the `min(3 count, n)` nearest candidates. Either way
/// it holds at least `min(count, n)` candidates.
pub proof fn lemma_pool_size(hub_key: Seq<u32>, radius_key: u32, count: int)
    requires
        0 <= count,
        hub_key.len() <= usize::MAX,
    ensures
        ({
            let n = hub_key.len() as int;
            let near = within_radius(hub_key, radius_key, n);
            let pool = mount_pool(hub_key, radius_key, count);
            &&& near.len() >= count ==> pool == near
            &&& near.len() < count ==> pool.len() == if 3 * count < n { 3 * count } else { n }
            &&& pool.len() >= if count < n { count } else { n }
        }),
{
    let n = hub_key.len() as int;
    lemma_within_radius_props(hub_key, radius_key, n);
    let near = within_radius(hub_key, radius_key, n);
    if near.len() < count {
        let m = if 3 * count < n { 3 * count } else { n };
        lemma_nearest_props(hub_key, m);
    }
}

// ---------------------------------------------------------------------------
// Executable functions.

fn contains_index(v: &Vec<usize>, x: usize) -> (b: bool)
    ensures
        b == v@.contains(x),
{
    let mut i: usize = 0;
    while i < v.len()
        invariant
            i <= v.len(),
            forall|j: int| 0 <= j < i ==> v@[j] != x,
        decreases v.len() - i,
    {
        if v[i] == x {
            return true;
        }
        i = i + 1;
    }
    false
}

/// The candidates whose hub key is below `radius_key`, in index order.
pub fn within_radius_of(hub_key: &Vec<u32>, radius_key: u32) -> (r: Vec<usize>)
    ensures
        r@ == within_radius(hub_key@, radius_key, hub_key.len() as int),
{
    let mut r: Vec<usize> = Vec::new();
    let mut k: usize = 0;
    while k < hub_key.len()
        invariant
            k <= hub_key.len(),
            r@ == within_radius(hub_key@, radius_key, k as int),
        decreases hub_key.len() - k,
    {
        if hub_key[k] < radius_key {
            r.push(k);
        }
        proof {
            assert(within_radius(hub_key@, radius_key, k + 1) == within_radius(hub_key@, radius_key, k as int)
                + if hub_key@[k as int] < radius_key { seq![k] } else { seq![] });
        }
        k = k + 1;
    }
    r
}

fn nearest_not_in(key: &Vec<u32>, excl: &Vec<usize>) -> (p: Option<usize>)
    ensures
        match p {
            Some(i) => i as int == nearest_excluding(key@, excl@, key.len() as int),
            None => nearest_excluding(key@, excl@, key.len() as int) == -1,
        },
{
    let mut best: Option<usize> = None;
    let mut k: usize = 0;
    while k < key.len()
        invariant
            k <= key.len(),
            match best {
                Some(i) => i < k && i as int == nearest_excluding(key@, excl@, k as int),
                None => nearest_excluding(key@, excl@, k as int) == -1,
            },
        decreases key.len() - k,
    {
        let taken = contains_index(excl, k);
        if !taken {
            match best {
                None => {
                    best = Some(k);
                },
                Some(b) => {
                    if key[k] < key[b] {
                        best = Some(k);
                    }
                },
            }
        }
        k = k + 1;
    }
    best
}

/// The `m` nearest candidates by `key`, nearest first, ties to the lower
/// index (the first `m` of a stable sort by key).
pub fn nearest_candidates(key: &Vec<u32>, m: usize) -> (r: Vec<usize>)
    requires
        m <= key.len(),
    ensures
        r@ == nearest(key@, m as int),
{
    let mut r: Vec<usize> = Vec::new();
    let mut t: usize = 0;
    while t < m
        invariant
            t <= m <= key.len(),
            r@ == nearest(key@, t as int),
        decreases m - t,
    {
        proof {
            lemma_nearest_props(key@, t as int);
            lemma_nearest_excluding_props(key@, r@, key.len() as int);
            if nearest_excluding(key@, r@, key.len() as int) < 0 {
                assert forall|j: usize| j < key.len() implies #[trigger] r@.to_set().contains(j) by {
                    assert(r@.contains(j));
                }
                lemma_range_in_set(r@.to_set(), key.len() as int);
                r@.unique_seq_to_set();
            }
        }
        let p = nearest_not_in(key, &r);
        match p {
            Some(i) => {
                r.push(i);
            },
            None => {
                assert(false);
            },
        }
        t = t + 1;
    }
    r
}

fn least_member(pool: &Vec<usize>, key: &Vec<u32>) -> (s: usize)
    requires
        pool.len() > 0,
        forall|i: int| 0 <= i < pool.len() ==> #[trigger] pool@[i] < key.len(),
    ensures
        s == first_least(pool@, key@, pool.len() as int),
{
    let mut s = pool[0];
    let mut k: usize = 1;
    while k < pool.len()
        invariant
            1 <= k <= pool.len(),
            forall|i: int| 0 <= i < pool.len() ==> #[trigger] pool@[i] < key.len(),
            s < key.len(),
            s == first_least(pool@, key@, k as int),
        decreases pool.len() - k,
    {
        if key[pool[k]] < key[s] {
            s = pool[k];
        }
        k = k + 1;
    }
    s
}

fn least_separation(sep: &Vec<Vec<u32>>, c: usize, picked: &Vec<usize>) -> (m: u32)
    requires
        picked.len() > 0,
        c < sep.len(),
        forall|i: int| 0 <= i < picked.len() ==> #[trigger] picked@[i] < sep@[c as int].len(),
    ensures
        m == separation(sep@, c, picked@),
{
    let row = &sep[c];
    let mut m = row[picked[0]];
    let mut k: usize = 1;
    while k < picked.len()
        invariant
            1 <= k <= picked.len(),
            row@ == sep@[c as int]@,
            forall|i: int| 0 <= i < picked.len() ==> #[trigger] picked@[i] < row.len(),
            m == min_sep(sep@, c, picked@, k as int),
        decreases picked.len() - k,
    {
        let s = row[picked[k]];
        if s < m {
            m = s;
        }
        k = k + 1;
    }
    m
}

fn farthest_member(pool: &Vec<usize>, sep: &Vec<Vec<u32>>, picked: &Vec<usize>) -> (f: Option<usize>)
    requires
        picked.len() > 0,
        forall|i: int| 0 <= i < pool.len() ==> #[trigger] pool@[i] < sep.len(),
        forall|i: int| 0 <= i < sep.len() ==> #[trigger] sep@[i].len() == sep.len(),
        forall|i: int| 0 <= i < picked.len() ==> #[trigger] picked@[i] < sep.len(),
    ensures
        f == farthest(pool@, sep@, picked@, pool.len() as int),
{
    let mut best: Option<usize> = None;
    let mut best_sep: u32 = 0;
    let mut k: usize = 0;
    while k < pool.len()
        invariant
            k <= pool.len(),
            picked.len() > 0,
            forall|i: int| 0 <= i < pool.len() ==> #[trigger] pool@[i] < sep.len(),
            forall|i: int| 0 <= i < sep.len() ==> #[trigger] sep@[i].len() == sep.len(),
            forall|i: int| 0 <= i < picked.len() ==> #[trigger] picked@[i] < sep.len(),
            best == farthest(pool@, sep@, picked@, k as int),
            best matches Some(b) ==> b < sep.len() && best_sep == separation(sep@, b, picked@),
        decreases pool.len() - k,
    {
        let c = pool[k];
        let taken = contains_index(picked, c);
        if !taken {
            let s = least_separation(sep, c, picked);
            match best {
                None => {
                    best = Some(c);
                    best_sep = s;
                },
                Some(_) => {
                    if s > best_sep {
                        best = Some(c);
                        best_sep = s;
                    }
                },
            }
        }
        k = k + 1;
    }
    best
}

/// The chassis mounts of one wheel hub (see the module documentation): the
/// pool member nearest the seed target, then farthest-point choices from the
/// pool, `min(count, pool size)` mounts in all (at least one).
pub fn suspension_mounts(
    hub_key: &Vec<u32>,
    radius_key: u32,
    seed_key: &Vec<u32>,
    sep_key: &Vec<Vec<u32>>,
    count: usize,
) -> (m: Vec<usize>)
    requires
        keys_ok(hub_key@, seed_key@, sep_key@),
        hub_key.len() > 0,
        count > 0 || within_radius(hub_key@, radius_key, hub_key.len() as int).len() > 0,
        3 * count <= usize::MAX,
    ensures
        m@ == mounts_spec(hub_key@, radius_key, seed_key@, sep_key@, count as int),
        m.len() == if count == 0 {
            1
        } else if count <= mount_pool(hub_key@, radius_key, count as int).len() {
            count as int
        } else {
            mount_pool(hub_key@, radius_key, count as int).len() as int
        },
        m@.no_duplicates(),
        forall|i: int| 0 <= i < m.len() ==> #[trigger] m@[i] < hub_key.len(),
{
    let n = hub_key.len();
    let ghost pool_spec = mount_pool(hub_key@, radius_key, count as int);
    let near = within_radius_of(hub_key, radius_key);
    let pool = if near.len() < count {
        let m = if 3 * count < n { 3 * count } else { n };
        nearest_candidates(hub_key, m)
    } else {
        near
    };
    proof {
        assert(pool@ == pool_spec);
        lemma_pool_props(hub_key@, radius_key, count as int);
        lemma_mounts_props(hub_key@, radius_key, seed_key@, sep_key@, count as int);
    }
    let seed = least_member(&pool, seed_key);
    let mut picked: Vec<usize> = Vec::new();
    picked.push(seed);
    let target = if count < pool.len() { count } else { pool.len() };
    let ghost steps0 = extra_mounts(count as int, pool.len() as int);
    proof {
        lemma_first_least_in_pool(pool@, seed_key@, pool.len() as int);
        assert(pool@.subrange(0, pool.len() as int) == pool@);
        lemma_spread_props(pool@, sep_key@, seq![seed], steps0);
    }
    while picked.len() < target
        invariant
            target == if count < pool.len() { count } else { pool.len() },
            keys_ok(hub_key@, seed_key@, sep_key@),
            n == hub_key.len(),
            pool@.no_duplicates(),
            forall|i: int| 0 <= i < pool.len() ==> #[trigger] pool@[i] < n,
            1 <= picked.len(),
            picked.len() <= if target == 0 { 1 } else { target },
            picked@.no_duplicates(),
            forall|i: int| 0 <= i < picked.len() ==> pool@.contains(#[trigger] picked@[i]),
            forall|i: int| 0 <= i < picked.len() ==> #[trigger] picked@[i] < n,
            spread(pool@, sep_key@, picked@, (steps0 - (picked.len() - 1)) as nat) == spread(
                pool@,
                sep_key@,
                seq![seed],
                steps0,
            ),
            steps0 == extra_mounts(count as int, pool.len() as int),
        decreases target - picked.len(),
    {
        let f = farthest_member(&pool, sep_key, &picked);
        proof {
            lemma_unpicked_exists(pool@, picked@);
            lemma_farthest_props(pool@, sep_key@, picked@, pool.len() as int);
            assert(pool@.subrange(0, pool.len() as int) == pool@);
        }
        match f {
            Some(c) => {
                proof {
                    let w = choose|w: int| 0 <= w < pool.len() && pool@[w] == c;
                }
                let ghost before = picked@;
                picked.push(c);
                proof {
                    assert forall|i: int| 0 <= i < picked.len() implies pool@.contains(#[trigger] picked@[i]) by {
                        if i < before.len() {
                            assert(picked@[i] == before[i]);
                        }
                    }
                }
            },
            None => {
                proof {
                    let j = choose|j: int| 0 <= j < pool.len() && !picked@.contains(#[trigger] pool@[j]);
                }
                assert(false);
            },
        }
    }
    proof {
        assert(steps0 - (picked.len() - 1) == 0);
        assert(spread(pool@, sep_key@, picked@, 0) == picked@);
        assert(seed == first_least(pool_spec, seed_key@, pool_spec.len() as int));
    }
    picked
}

} // verus!
