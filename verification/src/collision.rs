//! Discrete side of node-node collision.
//!
//! Self-collision skips node pairs joined by an unbroken beam; `ConnectedPairs`
//! is the set of those pairs, built once per substep. The parallel
//! self-collision pass hands the outer node index out to `nt` tasks, task `t`
//! taking the strided rows `t, t + nt, t + 2 nt, ...`; `strided_rows` lists them.

use vstd::prelude::*;
use std::collections::HashSet;
use crate::structure::Beams;

verus! {

broadcast use vstd::std_specs::hash::group_hash_axioms;

/// The key of the unordered pair `{lo, hi}`, `lo <= hi`.
pub open spec fn pair_key(lo: int, hi: int) -> int {
    lo * 0x1_0000_0000 + hi
}

/// `(i, j)` in increasing order.
pub open spec fn ordered(i: int, j: int) -> (int, int) {
    if i <= j { (i, j) } else { (j, i) }
}

/// The unordered node pairs joined by an unbroken beam of `a`, `b`, `broken`,
/// each as `(lower, higher)`.
pub open spec fn joined_pairs(a: Seq<u32>, b: Seq<u32>, broken: Seq<bool>) -> Set<(int, int)> {
    Set::new(
        |p: (int, int)|
            exists|k: int|
                0 <= k < a.len() && !broken[k] && p == ordered(a[k] as int, b[k] as int),
    )
}

proof fn lemma_key_injective(l1: int, h1: int, l2: int, h2: int)
    requires
        0 <= l1 <= u32::MAX,
        0 <= h1 <= u32::MAX,
        0 <= l2 <= u32::MAX,
        0 <= h2 <= u32::MAX,
        pair_key(l1, h1) == pair_key(l2, h2),
    ensures
        l1 == l2 && h1 == h2,
{
    if l1 < l2 {
        assert(l1 * 0x1_0000_0000 + 0x1_0000_0000 <= l2 * 0x1_0000_0000);
    } else if l2 < l1 {
        assert(l2 * 0x1_0000_0000 + 0x1_0000_0000 <= l1 * 0x1_0000_0000);
    }
}

fn key_of(i: u32, j: u32) -> (k: u64)
    ensures
        k == pair_key(ordered(i as int, j as int).0, ordered(i as int, j as int).1),
{
    let (lo, hi) = if i <= j { (i, j) } else { (j, i) };
    assert(lo as u64 * 0x1_0000_0000 + hi as u64 <= u64::MAX);
    (lo as u64) * 0x1_0000_0000 + (hi as u64)
}

/// The set of node pairs joined by an unbroken beam.
pub struct ConnectedPairs {
    keys: HashSet<u64>,
}

impl ConnectedPairs {
    /// The pairs, each as `(lower, higher)`.
    pub closed spec fn view(&self) -> Set<(int, int)> {
        Set::new(
            |p: (int, int)|
                0 <= p.0 <= p.1 <= u32::MAX && self.keys@.contains(pair_key(p.0, p.1) as u64),
        )
    }

    /// Collect the pairs joined by the unbroken beams of `beams`.
    pub fn from_beams<S: Copy>(beams: &Beams<S>) -> (r: ConnectedPairs)
        requires
            beams.wf(),
        ensures
            r@ == joined_pairs(beams.a@, beams.b@, beams.broken@),
    {
        let n = beams.a.len();
        let mut keys: HashSet<u64> = HashSet::new();
        let mut i: usize = 0;
        while i < n
            invariant
                beams.wf(),
                n == beams.a.len(),
                i <= n,
                forall|key: u64|
                    keys@.contains(key) <==> exists|k: int|
                        0 <= k < i && !beams.broken@[k] && key == pair_key(
                            ordered(beams.a@[k] as int, beams.b@[k] as int).0,
                            ordered(beams.a@[k] as int, beams.b@[k] as int).1,
                        ),
            decreases n - i,
        {
            if !beams.broken[i] {
                let key = key_of(beams.a[i], beams.b[i]);
                keys.insert(key);
            }
            i = i + 1;
        }
        let r = ConnectedPairs { keys };
        proof {
            let jp = joined_pairs(beams.a@, beams.b@, beams.broken@);
            assert forall|p: (int, int)| r@.contains(p) implies jp.contains(p) by {
                let key = pair_key(p.0, p.1) as u64;
                let k = choose|k: int|
                    0 <= k < n && !beams.broken@[k] && key == pair_key(
                        ordered(beams.a@[k] as int, beams.b@[k] as int).0,
                        ordered(beams.a@[k] as int, beams.b@[k] as int).1,
                    );
                let o = ordered(beams.a@[k] as int, beams.b@[k] as int);
                lemma_key_injective(p.0, p.1, o.0, o.1);
            }
            assert forall|p: (int, int)| jp.contains(p) implies r@.contains(p) by {
                let k = choose|k: int|
                    0 <= k < n && !beams.broken@[k] && p == ordered(beams.a@[k] as int, beams.b@[k] as int);
                assert(keys@.contains(pair_key(p.0, p.1) as u64));
            }
            assert(r@ =~= jp);
        }
        r
    }

    /// Whether nodes `i` and `j` are joined (in either direction).
    pub fn connected(&self, i: usize, j: usize) -> (c: bool)
        requires
            i <= u32::MAX,
            j <= u32::MAX,
        ensures
            c == self@.contains(ordered(i as int, j as int)),
    {
        let key = key_of(i as u32, j as u32);
        self.keys.contains(&key)
    }
}

/// Being joined does not depend on the order of the two nodes.
pub proof fn lemma_connected_symmetric(s: Set<(int, int)>, i: int, j: int)
    ensures
        s.contains(ordered(i, j)) == s.contains(ordered(j, i)),
{
}

/// The outer indices `t, t + nt, t + 2 nt, ...` below `count` that task `t`
/// of `nt` handles.
pub fn strided_rows(t: usize, nt: usize, count: usize) -> (rows: Vec<usize>)
    requires
        t < nt,
        count + nt <= usize::MAX,
    ensures
        forall|k: int| 0 <= k < rows.len() ==> #[trigger] rows@[k] == t + k * nt && rows@[k] < count,
        forall|i: int| 0 <= i < count && i % (nt as int) == t ==> #[trigger] rows@.contains(i as usize),
{
    let mut rows: Vec<usize> = Vec::new();
    let mut i: usize = t;
    assert(t + rows.len() * nt == t) by (nonlinear_arith)
        requires
            rows.len() == 0,
    ;
    while i < count
        invariant
            t < nt,
            count + nt <= usize::MAX,
            i == t + rows.len() * nt,
            forall|k: int| 0 <= k < rows.len() ==> #[trigger] rows@[k] == t + k * nt && rows@[k] < count,
        decreases count + nt - i,
    {
        rows.push(i);
        proof {
            assert((rows.len() - 1) * nt + nt == rows.len() * nt) by (nonlinear_arith);
        }
        i = i + nt;
    }
    proof {
        assert forall|x: int| 0 <= x < count && x % (nt as int) == t implies #[trigger] rows@.contains(
            x as usize,
        ) by {
            let q = x / (nt as int);
            vstd::arithmetic::div_mod::lemma_fundamental_div_mod(x, nt as int);
            assert(x == t + q * nt) by (nonlinear_arith)
                requires
                    x == nt * q + t,
            ;
            assert(0 <= q) by (nonlinear_arith)
                requires
                    x == t + q * nt,
                    0 <= x,
                    t < nt,
                    nt > 0,
            ;
            assert(q < rows.len()) by (nonlinear_arith)
                requires
                    x == t + q * nt,
                    x < count,
                    count <= t + rows.len() * nt,
                    nt > 0,
            ;
            assert(rows@[q] == x);
        }
    }
    rows
}

/// The tasks' rows partition the outer indices: index `i` below `count` is
/// handled by task `i % nt` and by no other task.
pub proof fn lemma_rows_partition(nt: int, t: int, i: int, k: int)
    requires
        0 <= t < nt,
        0 <= k,
        0 <= i,
        i == t + k * nt,
    ensures
        i % nt == t,
{
    vstd::arithmetic::div_mod::lemma_fundamental_div_mod_converse(i, nt, k, t);
}

} // verus!
