//! The beam store of a soft body.
//!
//! A beam is a spring-damper between two nodes. `Beams` keeps one entry per
//! beam in parallel arrays (struct-of-arrays); the per-beam physical
//! parameters are of the simulator's scalar type `S`, the endpoints are node
//! indices and each beam carries a broken flag and a kind.

use vstd::prelude::*;

verus! {

/// What role a beam plays.
#[derive(Clone, Copy, Debug, PartialEq, Eq, Structural)]
pub enum BeamKind {
    /// Ordinary structural spring.
    Normal,
    /// Stiffer bracing (kept distinct so classes can be tuned separately).
    Support,
    /// Input-driven rest length (steering rack, etc.).
    Hydro,
}

/// Spring-dampers between node pairs, one entry per beam in each array.
pub struct Beams<S> {
    pub a: Vec<u32>,
    pub b: Vec<u32>,
    pub rest: Vec<S>,
    pub k: Vec<S>,
    pub d: Vec<S>,
    pub deform: Vec<S>,
    pub break_strain: Vec<S>,
    pub broken: Vec<bool>,
    pub kind: Vec<BeamKind>,
}

/// Number of `true` entries in `s`.
pub open spec fn count_true(s: Seq<bool>) -> nat
    decreases s.len(),
{
    if s.len() == 0 {
        0
    } else {
        count_true(s.drop_last()) + if s.last() { 1nat } else { 0nat }
    }
}

/// The flat endpoint list `[a0, b0, a1, b1, ...]` of the beams `a`, `b`.
pub open spec fn index_pairs_spec(a: Seq<u32>, b: Seq<u32>) -> Seq<u32>
    decreases a.len(),
{
    if a.len() == 0 || b.len() == 0 {
        seq![]
    } else {
        index_pairs_spec(a.drop_last(), b.drop_last()).push(a.last()).push(b.last())
    }
}

/// Counting one more flag adds one exactly when that flag is set.
pub proof fn lemma_count_true_push(s: Seq<bool>, x: bool)
    ensures
        count_true(s.push(x)) == count_true(s) + if x { 1nat } else { 0nat },
{
    assert(s.push(x).drop_last() == s);
}

/// `count_true` is the number of set flags: the length of the flags kept by
/// filtering for `true`.
pub proof fn lemma_count_true_is_filter_len(s: Seq<bool>)
    ensures
        count_true(s) == s.filter(|b: bool| b).len(),
    decreases s.len(),
{
    if s.len() > 0 {
        let p = s.drop_last();
        lemma_count_true_is_filter_len(p);
        assert(p.push(s.last()) == s);
        p.lemma_filter_len_push(|b: bool| b, s.last());
    }
}

/// A sequence of flags holds at most as many set flags as entries, and
/// exactly as many when every flag is set.
pub proof fn lemma_count_true_bounds(s: Seq<bool>)
    ensures
        count_true(s) <= s.len(),
        (forall|i: int| 0 <= i < s.len() ==> s[i]) ==> count_true(s) == s.len(),
    decreases s.len(),
{
    if s.len() > 0 {
        lemma_count_true_bounds(s.drop_last());
    }
}

proof fn lemma_count_true_all_false(s: Seq<bool>)
    requires
        forall|i: int| 0 <= i < s.len() ==> !s[i],
    ensures
        count_true(s) == 0,
    decreases s.len(),
{
    if s.len() > 0 {
        lemma_count_true_all_false(s.drop_last());
    }
}

/// The entries of the flat endpoint list: `2i` holds `a[i]`, `2i + 1` holds `b[i]`.
pub proof fn lemma_index_pairs_entries(a: Seq<u32>, b: Seq<u32>)
    requires
        a.len() == b.len(),
    ensures
        index_pairs_spec(a, b).len() == 2 * a.len(),
        forall|i: int|
            0 <= i < a.len() ==> index_pairs_spec(a, b)[2 * i] == a[i] && index_pairs_spec(a, b)[2
                * i + 1] == b[i],
    decreases a.len(),
{
    if a.len() > 0 {
        let (a0, b0) = (a.drop_last(), b.drop_last());
        lemma_index_pairs_entries(a0, b0);
        let p = index_pairs_spec(a, b);
        let p0 = index_pairs_spec(a0, b0);
        assert(p == p0.push(a.last()).push(b.last()));
        assert forall|i: int| 0 <= i < a.len() implies p[2 * i] == a[i] && p[2 * i + 1] == b[i] by {
            assert(p0.len() == 2 * (a.len() - 1));
            if i < a.len() - 1 {
                assert(a0[i] == a[i] && b0[i] == b[i]);
                assert(p[2 * i] == p0[2 * i]);
                assert(p[2 * i + 1] == p0[2 * i + 1]);
            } else {
                assert(i == a.len() - 1);
                assert(p[2 * i] == a.last());
                assert(p[2 * i + 1] == b.last());
            }
        }
    }
}

impl<S: Copy> Beams<S> {
    /// All arrays have one entry per beam.
    pub open spec fn wf(&self) -> bool {
        let n = self.a.len();
        &&& self.b.len() == n
        &&& self.rest.len() == n
        &&& self.k.len() == n
        &&& self.d.len() == n
        &&& self.deform.len() == n
        &&& self.break_strain.len() == n
        &&& self.broken.len() == n
        &&& self.kind.len() == n
    }

    /// The number of beams.
    pub open spec fn spec_len(&self) -> nat {
        self.a.len() as nat
    }

    /// An empty store.
    pub fn new() -> (s: Beams<S>)
        ensures
            s.wf(),
            s.spec_len() == 0,
    {
        Beams {
            a: Vec::new(),
            b: Vec::new(),
            rest: Vec::new(),
            k: Vec::new(),
            d: Vec::new(),
            deform: Vec::new(),
            break_strain: Vec::new(),
            broken: Vec::new(),
            kind: Vec::new(),
        }
    }

    /// The number of beams.
    pub fn len(&self) -> (n: usize)
        ensures
            n == self.spec_len(),
    {
        self.a.len()
    }

    /// Append a beam from node `a` to node `b`; it starts unbroken. Every
    /// earlier beam is left as it was.
    #[allow(clippy::too_many_arguments)]
    pub fn push(
        &mut self,
        a: u32,
        b: u32,
        rest: S,
        k: S,
        d: S,
        deform: S,
        break_strain: S,
        kind: BeamKind,
    )
        requires
            old(self).wf(),
        ensures
            final(self).wf(),
            final(self).a@ == old(self).a@.push(a),
            final(self).b@ == old(self).b@.push(b),
            final(self).rest@ == old(self).rest@.push(rest),
            final(self).k@ == old(self).k@.push(k),
            final(self).d@ == old(self).d@.push(d),
            final(self).deform@ == old(self).deform@.push(deform),
            final(self).break_strain@ == old(self).break_strain@.push(break_strain),
            final(self).broken@ == old(self).broken@.push(false),
            final(self).kind@ == old(self).kind@.push(kind),
    {
        self.a.push(a);
        self.b.push(b);
        self.rest.push(rest);
        self.k.push(k);
        self.d.push(d);
        self.deform.push(deform);
        self.break_strain.push(break_strain);
        self.broken.push(false);
        self.kind.push(kind);
    }

    /// Flat `[a0, b0, a1, b1, ...]` beam endpoint list (broken beams included),
    /// for the line renderer.
    pub fn index_pairs(&self) -> (v: Vec<u32>)
        requires
            self.wf(),
        ensures
            v@ == index_pairs_spec(self.a@, self.b@),
            v.len() == 2 * self.spec_len(),
            forall|i: int|
                0 <= i < self.spec_len() ==> v@[2 * i] == self.a@[i] && v@[2 * i + 1]
                    == self.b@[i],
    {
        let n = self.a.len();
        let mut v: Vec<u32> = Vec::new();
        let mut i: usize = 0;
        while i < n
            invariant
                self.wf(),
                n == self.a.len(),
                i <= n,
                v@ == index_pairs_spec(self.a@.take(i as int), self.b@.take(i as int)),
            decreases n - i,
        {
            proof {
                assert(self.a@.take(i + 1).drop_last() == self.a@.take(i as int));
                assert(self.b@.take(i + 1).drop_last() == self.b@.take(i as int));
            }
            v.push(self.a[i]);
            v.push(self.b[i]);
            i = i + 1;
        }
        proof {
            assert(self.a@.take(n as int) == self.a@);
            assert(self.b@.take(n as int) == self.b@);
            lemma_index_pairs_entries(self.a@, self.b@);
        }
        v
    }

    /// Number of beams currently broken.
    pub fn broken_count(&self) -> (c: usize)
        ensures
            c == count_true(self.broken@),
            c == self.broken@.filter(|b: bool| b).len(),
            c <= self.broken.len(),
    {
        let n = self.broken.len();
        let mut c: usize = 0;
        let mut i: usize = 0;
        while i < n
            invariant
                n == self.broken.len(),
                i <= n,
                c == count_true(self.broken@.take(i as int)),
                c <= i,
            decreases n - i,
        {
            proof {
                assert(self.broken@.take(i + 1).drop_last() == self.broken@.take(i as int));
            }
            if self.broken[i] {
                c = c + 1;
            }
            i = i + 1;
        }
        proof {
            assert(self.broken@.take(n as int) == self.broken@);
            lemma_count_true_is_filter_len(self.broken@);
        }
        c
    }

    /// Restore the pristine beams: rest lengths back to `spawn_rest`, every
    /// beam unbroken. Endpoints, stiffness and the rest are unchanged.
    pub fn restore(&mut self, spawn_rest: &Vec<S>)
        requires
            old(self).wf(),
            spawn_rest.len() == old(self).spec_len(),
        ensures
            final(self).wf(),
            final(self).rest@ == spawn_rest@,
            forall|i: int| 0 <= i < final(self).broken.len() ==> !final(self).broken@[i],
            count_true(final(self).broken@) == 0,
            final(self).a@ == old(self).a@,
            final(self).b@ == old(self).b@,
            final(self).k@ == old(self).k@,
            final(self).d@ == old(self).d@,
            final(self).deform@ == old(self).deform@,
            final(self).break_strain@ == old(self).break_strain@,
            final(self).kind@ == old(self).kind@,
    {
        let n = self.a.len();
        let mut i: usize = 0;
        while i < n
            invariant
                self.wf(),
                n == self.a.len(),
                spawn_rest.len() == n,
                i <= n,
                forall|j: int| 0 <= j < i ==> self.rest@[j] == spawn_rest@[j],
                forall|j: int| 0 <= j < i ==> !self.broken@[j],
                self.a@ == old(self).a@,
                self.b@ == old(self).b@,
                self.k@ == old(self).k@,
                self.d@ == old(self).d@,
                self.deform@ == old(self).deform@,
                self.break_strain@ == old(self).break_strain@,
                self.kind@ == old(self).kind@,
            decreases n - i,
        {
            let r = spawn_rest[i];
            self.rest.set(i, r);
            self.broken.set(i, false);
            i = i + 1;
        }
        proof {
            assert(self.rest@ == spawn_rest@);
            lemma_count_true_all_false(self.broken@);
        }
    }
}

} // verus!
