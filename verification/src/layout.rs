//! Layout of the buffers the world shares with the renderer, and the
//! bookkeeping that goes with several cars.
//!
//! Cars are numbered in spawn order. Their nodes are laid out one car after
//! the other in a global node numbering (car `c` starts at `node_offsets[c]`),
//! the model matrices hold the static objects first and then every car's
//! wheels in car order, and the line buffer holds the endpoints (global node
//! numbers) of the unbroken beams, grouped by stress band.

use vstd::prelude::*;

verus! {

/// Entries per model matrix (a column-major 4x4).
pub const MAT4_LEN: usize = 16;

/// At most this many cars share the world.
pub const MAX_CARS: usize = 8;

/// Number of stress bands the line buffer is grouped into.
pub const STRESS_BANDS: usize = 4;

/// The sizes one car contributes to the shared buffers.
#[derive(Clone, Copy, Debug)]
pub struct CarCounts {
    pub nodes: usize,
    pub beams: usize,
    pub wheels: usize,
}

/// Total nodes of `cars`.
pub open spec fn sum_nodes(cars: Seq<CarCounts>) -> nat
    decreases cars.len(),
{
    if cars.len() == 0 {
        0
    } else {
        sum_nodes(cars.drop_last()) + cars.last().nodes as nat
    }
}

/// Total beams of `cars`.
pub open spec fn sum_beams(cars: Seq<CarCounts>) -> nat
    decreases cars.len(),
{
    if cars.len() == 0 {
        0
    } else {
        sum_beams(cars.drop_last()) + cars.last().beams as nat
    }
}

/// Total wheels of `cars`.
pub open spec fn sum_wheels(cars: Seq<CarCounts>) -> nat
    decreases cars.len(),
{
    if cars.len() == 0 {
        0
    } else {
        sum_wheels(cars.drop_last()) + cars.last().wheels as nat
    }
}

proof fn lemma_sums_monotone(cars: Seq<CarCounts>, i: int, j: int)
    requires
        0 <= i <= j <= cars.len(),
    ensures
        sum_nodes(cars.take(i)) <= sum_nodes(cars.take(j)),
        sum_beams(cars.take(i)) <= sum_beams(cars.take(j)),
        sum_wheels(cars.take(i)) <= sum_wheels(cars.take(j)),
    decreases j - i,
{
    if i < j {
        lemma_sums_monotone(cars, i, j - 1);
        assert(cars.take(j).drop_last() == cars.take(j - 1));
    }
}

/// The buffer layout of a world with `num_static` static objects and some cars.
pub struct Layout {
    /// Static objects (terrain and obstacles), the first model matrices.
    pub num_static: usize,
    /// All model matrices: static objects, then every car's wheels.
    pub num_objects: usize,
    /// Global number of each car's first node.
    pub node_offsets: Vec<usize>,
    /// Index (among the wheel matrices) of each car's first wheel.
    pub wheel_offsets: Vec<usize>,
    pub total_nodes: usize,
    pub total_beams: usize,
    pub total_wheels: usize,
}

impl Layout {
    /// The layout describes `cars` after `num_static` static objects, and every
    /// buffer size fits in memory.
    pub open spec fn describes(&self, num_static: nat, cars: Seq<CarCounts>) -> bool {
        &&& self.num_static == num_static
        &&& self.total_nodes == sum_nodes(cars)
        &&& self.total_beams == sum_beams(cars)
        &&& self.total_wheels == sum_wheels(cars)
        &&& self.num_objects == num_static + sum_wheels(cars)
        &&& self.node_offsets.len() == cars.len()
        &&& self.wheel_offsets.len() == cars.len()
        &&& forall|c: int| 0 <= c < cars.len() ==> #[trigger] self.node_offsets@[c] == sum_nodes(cars.take(c))
        &&& forall|c: int| 0 <= c < cars.len() ==> #[trigger] self.wheel_offsets@[c] == sum_wheels(cars.take(c))
        &&& self.fits()
    }

    /// Every buffer size is representable.
    pub open spec fn fits(&self) -> bool {
        &&& MAT4_LEN * (self.num_objects + 1) <= usize::MAX
        &&& 3 * self.total_nodes <= usize::MAX
        &&& 2 * self.total_beams <= usize::MAX
    }

    /// Compute the layout: prefix sums of the node and wheel counts, totals,
    /// and the object count (static objects plus all wheels).
    pub fn new(num_static: usize, cars: &Vec<CarCounts>) -> (l: Layout)
        requires
            MAT4_LEN * (num_static + sum_wheels(cars@) + 1) <= usize::MAX,
            3 * sum_nodes(cars@) <= usize::MAX,
            2 * sum_beams(cars@) <= usize::MAX,
        ensures
            l.describes(num_static as nat, cars@),
    {
        let n = cars.len();
        let mut node_offsets: Vec<usize> = Vec::new();
        let mut wheel_offsets: Vec<usize> = Vec::new();
        let mut total_nodes: usize = 0;
        let mut total_beams: usize = 0;
        let mut total_wheels: usize = 0;
        let mut c: usize = 0;
        while c < n
            invariant
                n == cars.len(),
                c <= n,
                MAT4_LEN * (num_static + sum_wheels(cars@) + 1) <= usize::MAX,
                3 * sum_nodes(cars@) <= usize::MAX,
                2 * sum_beams(cars@) <= usize::MAX,
                total_nodes == sum_nodes(cars@.take(c as int)),
                total_beams == sum_beams(cars@.take(c as int)),
                total_wheels == sum_wheels(cars@.take(c as int)),
                node_offsets.len() == c,
                wheel_offsets.len() == c,
                forall|k: int| 0 <= k < c ==> #[trigger] node_offsets@[k] == sum_nodes(cars@.take(k)),
                forall|k: int| 0 <= k < c ==> #[trigger] wheel_offsets@[k] == sum_wheels(cars@.take(k)),
            decreases n - c,
        {
            proof {
                lemma_sums_monotone(cars@, c + 1, n as int);
                assert(cars@.take(c + 1).drop_last() == cars@.take(c as int));
                assert(cars@.take(n as int) == cars@);
            }
            node_offsets.push(total_nodes);
            wheel_offsets.push(total_wheels);
            total_nodes = total_nodes + cars[c].nodes;
            total_beams = total_beams + cars[c].beams;
            total_wheels = total_wheels + cars[c].wheels;
            c = c + 1;
        }
        proof {
            assert(cars@.take(n as int) == cars@);
        }
        Layout {
            num_static,
            num_objects: num_static + total_wheels,
            node_offsets,
            wheel_offsets,
            total_nodes,
            total_beams,
            total_wheels,
        }
    }

    /// Global number of car `c`'s first node; 0 for a car that does not exist.
    pub fn car_node_offset(&self, c: usize) -> (off: usize)
        ensures
            off == if c < self.node_offsets.len() { self.node_offsets@[c as int] } else { 0 },
    {
        if c < self.node_offsets.len() {
            self.node_offsets[c]
        } else {
            0
        }
    }

    /// Length of the node-position buffer: three floats per node.
    pub fn node_buffer_len(&self) -> (n: usize)
        requires
            self.fits(),
        ensures
            n == 3 * self.total_nodes,
    {
        3 * self.total_nodes
    }

    /// Length of the line-index buffer: room for both endpoints of every beam.
    pub fn line_buffer_len(&self) -> (n: usize)
        requires
            self.fits(),
        ensures
            n == 2 * self.total_beams,
    {
        2 * self.total_beams
    }

    /// Length of the render buffer: the view matrix then one model matrix per
    /// object.
    pub fn render_buffer_len(&self) -> (n: usize)
        requires
            self.fits(),
        ensures
            n == MAT4_LEN * (self.num_objects + 1),
    {
        MAT4_LEN * (self.num_objects + 1)
    }

    /// Object index of wheel `i` of car `c`: after the static objects and the
    /// wheels of the cars before `c`.
    pub fn wheel_slot(&self, c: usize, i: usize, cars: &Vec<CarCounts>) -> (slot: usize)
        requires
            self.describes(self.num_static as nat, cars@),
            c < cars.len(),
            i < cars@[c as int].wheels,
        ensures
            slot == self.num_static + sum_wheels(cars@.take(c as int)) + i,
            slot < self.num_objects,
    {
        proof {
            lemma_sums_monotone(cars@, c + 1, cars.len() as int);
            assert(cars@.take(c + 1).drop_last() == cars@.take(c as int));
            assert(cars@.take(cars.len() as int) == cars@);
        }
        self.num_static + self.wheel_offsets[c] + i
    }
}

/// The cars' node ranges tile the global numbering: each car starts where the
/// previous one ends, the first at 0, and the last ends at the total.
pub proof fn lemma_node_ranges_tile(l: Layout, num_static: nat, cars: Seq<CarCounts>)
    requires
        l.describes(num_static, cars),
    ensures
        cars.len() > 0 ==> l.node_offsets@[0] == 0,
        forall|c: int|
            0 <= c < cars.len() - 1 ==> #[trigger] l.node_offsets@[c + 1] == l.node_offsets@[c]
                + cars[c].nodes,
        cars.len() > 0 ==> l.node_offsets@[cars.len() - 1] + cars.last().nodes == l.total_nodes,
{
    assert forall|c: int| 0 <= c < cars.len() - 1 implies #[trigger] l.node_offsets@[c + 1]
        == l.node_offsets@[c] + cars[c].nodes by {
        assert(cars.take(c + 1).drop_last() == cars.take(c));
    }
    if cars.len() > 0 {
        assert(cars.take(0).len() == 0);
        assert(cars.drop_last() == cars.take(cars.len() - 1));
    }
}

/// Adding a car adds its counts to the totals.
pub proof fn lemma_sums_push(cars: Seq<CarCounts>, x: CarCounts)
    ensures
        sum_nodes(cars.push(x)) == sum_nodes(cars) + x.nodes,
        sum_beams(cars.push(x)) == sum_beams(cars) + x.beams,
        sum_wheels(cars.push(x)) == sum_wheels(cars) + x.wheels,
{
    assert(cars.push(x).drop_last() == cars);
}

proof fn lemma_wheels_take_succ(cars: Seq<CarCounts>, c: int)
    requires
        0 <= c < cars.len(),
    ensures
        sum_wheels(cars.take(c + 1)) == sum_wheels(cars.take(c)) + cars[c].wheels,
{
    assert(cars.take(c + 1).drop_last() == cars.take(c));
}

/// Wheel slots never collide: two different wheels, of one car or of two,
/// get different object indices, and every slot lies after the static
/// objects and below the object count.
pub proof fn lemma_wheel_slots_distinct(
    l: Layout,
    num_static: nat,
    cars: Seq<CarCounts>,
    c1: int,
    i1: int,
    c2: int,
    i2: int,
)
    requires
        l.describes(num_static, cars),
        0 <= c1 < cars.len(),
        0 <= i1 < cars[c1].wheels,
        0 <= c2 < cars.len(),
        0 <= i2 < cars[c2].wheels,
        c1 != c2 || i1 != i2,
    ensures
        num_static + sum_wheels(cars.take(c1)) + i1 != num_static + sum_wheels(cars.take(c2)) + i2,
        num_static <= num_static + sum_wheels(cars.take(c1)) + i1 < l.num_objects,
{
    lemma_wheels_take_succ(cars, c1);
    lemma_wheels_take_succ(cars, c2);
    lemma_sums_monotone(cars, c1 + 1, cars.len() as int);
    assert(cars.take(cars.len() as int) == cars);
    if c1 < c2 {
        lemma_sums_monotone(cars, c1 + 1, c2);
    } else if c2 < c1 {
        lemma_sums_monotone(cars, c2 + 1, c1);
    }
}

/// The flat render buffer shared with the renderer: the view matrix, then one
/// model matrix per object, `MAT4_LEN` scalars each.
pub struct RenderBuffer<T> {
    pub data: Vec<T>,
}

impl<T: Copy> RenderBuffer<T> {
    /// A buffer for `num_objects` model matrices, every entry `zero`.
    pub fn new(num_objects: usize, zero: T) -> (r: RenderBuffer<T>)
        requires
            MAT4_LEN * (num_objects + 1) <= usize::MAX,
        ensures
            r.data.len() == MAT4_LEN * (num_objects + 1),
            forall|i: int| 0 <= i < r.data.len() ==> #[trigger] r.data@[i] == zero,
    {
        let n = MAT4_LEN * (num_objects + 1);
        let mut data: Vec<T> = Vec::new();
        let mut i: usize = 0;
        while i < n
            invariant
                i <= n,
                data.len() == i,
                forall|j: int| 0 <= j < i ==> #[trigger] data@[j] == zero,
            decreases n - i,
        {
            data.push(zero);
            i = i + 1;
        }
        RenderBuffer { data }
    }

    /// Number of scalars in the buffer.
    pub fn len(&self) -> (n: usize)
        ensures
            n == self.data.len(),
    {
        self.data.len()
    }

    /// Write matrix `m` at scalar offset `o`, leaving everything else.
    fn write_mat(&mut self, o: usize, m: &[T; 16])
        requires
            o + MAT4_LEN <= old(self).data.len(),
        ensures
            final(self).data.len() == old(self).data.len(),
            forall|i: int| 0 <= i < 16 ==> #[trigger] final(self).data@[o + i] == m@[i],
            forall|i: int|
                0 <= i < old(self).data.len() && !(o <= i < o + 16) ==> #[trigger] final(self).data@[i]
                    == old(self).data@[i],
    {
        let mut k: usize = 0;
        while k < 16
            invariant
                o + MAT4_LEN <= self.data.len(),
                self.data.len() == old(self).data.len(),
                k <= 16,
                forall|i: int| 0 <= i < k ==> #[trigger] self.data@[o + i] == m@[i],
                forall|i: int|
                    0 <= i < old(self).data.len() && !(o <= i < o + k) ==> #[trigger] self.data@[i]
                        == old(self).data@[i],
            decreases 16 - k,
        {
            self.data.set(o + k, m[k]);
            k = k + 1;
        }
    }

    /// Store the view matrix (the first matrix of the buffer).
    pub fn set_view(&mut self, m: &[T; 16])
        requires
            MAT4_LEN <= old(self).data.len(),
        ensures
            final(self).data.len() == old(self).data.len(),
            forall|i: int| 0 <= i < 16 ==> #[trigger] final(self).data@[i] == m@[i],
            forall|i: int| 16 <= i < old(self).data.len() ==> #[trigger] final(self).data@[i] == old(self).data@[i],
    {
        self.write_mat(0, m);
        assert forall|i: int| 0 <= i < 16 implies #[trigger] self.data@[i] == m@[i] by {
            assert(self.data@[0 + i] == m@[i]);
        }
    }

    /// Store the model matrix of object `idx` (0-based; object 0 lives right
    /// after the view matrix).
    pub fn set_model(&mut self, idx: usize, m: &[T; 16])
        requires
            MAT4_LEN * (idx + 2) <= old(self).data.len(),
        ensures
            final(self).data.len() == old(self).data.len(),
            forall|i: int| 0 <= i < 16 ==> #[trigger] final(self).data@[MAT4_LEN * (idx + 1) + i] == m@[i],
            forall|i: int|
                0 <= i < old(self).data.len() && !(MAT4_LEN * (idx + 1) <= i < MAT4_LEN * (idx + 2))
                    ==> #[trigger] final(self).data@[i] == old(self).data@[i],
    {
        let o = MAT4_LEN * (idx + 1);
        self.write_mat(o, m);
    }
}

/// Copy node positions `px, py, pz` into the flat `[x, y, z, ...]` buffer
/// `buf`, node `i` at global node `off + i`. Everything else is left.
pub fn scatter_xyz<T: Copy>(buf: &mut Vec<T>, off: usize, px: &Vec<T>, py: &Vec<T>, pz: &Vec<T>)
    requires
        py.len() == px.len(),
        pz.len() == px.len(),
        3 * (off + px.len()) <= old(buf).len(),
    ensures
        final(buf).len() == old(buf).len(),
        forall|i: int|
            0 <= i < px.len() ==> #[trigger] final(buf)@[3 * (off + i)] == px@[i] && final(buf)@[3 * (off
                + i) + 1] == py@[i] && final(buf)@[3 * (off + i) + 2] == pz@[i],
        forall|j: int|
            0 <= j < old(buf).len() && !(3 * off <= j < 3 * (off + px.len())) ==> #[trigger] final(buf)@[j]
                == old(buf)@[j],
{
    let n = px.len();
    let mut i: usize = 0;
    while i < n
        invariant
            n == px.len(),
            py.len() == n,
            pz.len() == n,
            3 * (off + n) <= buf.len(),
            buf.len() == old(buf).len(),
            i <= n,
            forall|k: int|
                0 <= k < i ==> #[trigger] buf@[3 * (off + k)] == px@[k] && buf@[3 * (off + k) + 1] == py@[k]
                    && buf@[3 * (off + k) + 2] == pz@[k],
            forall|j: int|
                0 <= j < old(buf).len() && !(3 * off <= j < 3 * (off + i)) ==> #[trigger] buf@[j]
                    == old(buf)@[j],
        decreases n - i,
    {
        let k = (off + i) * 3;
        let ghost prev = buf@;
        buf.set(k, px[i]);
        buf.set(k + 1, py[i]);
        buf.set(k + 2, pz[i]);
        proof {
            assert forall|kk: int|
                0 <= kk < i + 1 implies #[trigger] buf@[3 * (off + kk)] == px@[kk] && buf@[3 * (off + kk)
                + 1] == py@[kk] && buf@[3 * (off + kk) + 2] == pz@[kk] by {
                if kk < i {
                    assert(prev[3 * (off + kk)] == px@[kk]);
                }
            }
        }
        i = i + 1;
    }
}

/// The first `n` positions as a flat `[x, y, z, ...]` list.
pub fn interleave_xyz<T: Copy>(n: usize, px: &Vec<T>, py: &Vec<T>, pz: &Vec<T>) -> (out: Vec<T>)
    requires
        n <= px.len(),
        n <= py.len(),
        n <= pz.len(),
        3 * n <= usize::MAX,
    ensures
        out.len() == 3 * n,
        forall|i: int|
            0 <= i < n ==> #[trigger] out@[3 * i] == px@[i] && out@[3 * i + 1] == py@[i] && out@[3 * i
                + 2] == pz@[i],
{
    let mut out: Vec<T> = Vec::new();
    let mut i: usize = 0;
    while i < n
        invariant
            n <= px.len() && n <= py.len() && n <= pz.len(),
            3 * n <= usize::MAX,
            i <= n,
            out.len() == 3 * i,
            forall|k: int|
                0 <= k < i ==> #[trigger] out@[3 * k] == px@[k] && out@[3 * k + 1] == py@[k] && out@[3 * k
                    + 2] == pz@[k],
        decreases n - i,
    {
        let ghost prev = out@;
        out.push(px[i]);
        out.push(py[i]);
        out.push(pz[i]);
        proof {
            assert forall|kk: int|
                0 <= kk < i + 1 implies #[trigger] out@[3 * kk] == px@[kk] && out@[3 * kk + 1] == py@[kk]
                && out@[3 * kk + 2] == pz@[kk] by {
                if kk < i {
                    assert(prev[3 * kk] == px@[kk]);
                }
            }
        }
        i = i + 1;
    }
    out
}

} // verus!
