//! Node layout of the car chassis.
//!
//! The chassis is a `CHASSIS_NX * CHASSIS_NY * CHASSIS_NZ` lattice of nodes
//! (forward = +x, up = +y, right = +z), pushed first into an empty node store
//! so that node `(x, y, z)` gets the lattice number `(x * NY + y) * NZ + z`.
//! Its beams are the lattice beams (see `lattice`), plus a skeleton of braces
//! joining every pair of the eight cage corners. The extreme faces give the
//! node groups from which the deformable car frame is derived.

use vstd::prelude::*;
use crate::lattice::{grid_x, grid_y, grid_z};

verus! {

/// Chassis nodes along the car (x).
pub const CHASSIS_NX: usize = 6;

/// Chassis nodes along the height (y).
pub const CHASSIS_NY: usize = 4;

/// Chassis nodes across the car (z).
pub const CHASSIS_NZ: usize = 4;

/// Total chassis nodes.
pub const CHASSIS_NODES: usize = 96;

/// The node groups on the four extreme faces of the chassis, each in node
/// order.
pub struct FrameGroups {
    /// Front face (x = NX - 1).
    pub front: Vec<u32>,
    /// Rear face (x = 0).
    pub rear: Vec<u32>,
    /// Left face (z = 0).
    pub left: Vec<u32>,
    /// Right face (z = NZ - 1).
    pub right: Vec<u32>,
}

/// The front face: the last 16 nodes.
pub open spec fn front_spec() -> Seq<u32> {
    Seq::new(16, |k: int| (80 + k) as u32)
}

/// The rear face: the first 16 nodes.
pub open spec fn rear_spec() -> Seq<u32> {
    Seq::new(16, |k: int| k as u32)
}

/// The left face: every fourth node from 0.
pub open spec fn left_spec() -> Seq<u32> {
    Seq::new(24, |k: int| (4 * k) as u32)
}

/// The right face: every fourth node from 3.
pub open spec fn right_spec() -> Seq<u32> {
    Seq::new(24, |k: int| (4 * k + 3) as u32)
}

/// The eight cage corners, x outermost, z innermost.
pub open spec fn corners_spec() -> Seq<u32> {
    seq![0u32, 3, 12, 15, 80, 83, 92, 95]
}

/// Collect the frame groups by walking the chassis lattice in node order:
/// a node on the front face (last x) goes to `front`, otherwise one on the
/// rear face to `rear`; independently, a node on the right face (last z) goes
/// to `right`, otherwise one on the left face to `left`.
pub fn frame_groups() -> (g: FrameGroups)
    ensures
        g.front@ == front_spec(),
        g.rear@ == rear_spec(),
        g.left@ == left_spec(),
        g.right@ == right_spec(),
{
    let mut front: Vec<u32> = Vec::new();
    let mut rear: Vec<u32> = Vec::new();
    let mut left: Vec<u32> = Vec::new();
    let mut right: Vec<u32> = Vec::new();
    let mut xi: usize = 0;
    while xi < CHASSIS_NX
        invariant
            xi <= CHASSIS_NX,
            front@ == Seq::new((if xi == CHASSIS_NX { 16int } else { 0int }) as nat, |k: int| (80 + k) as u32),
            rear@ == Seq::new((if xi == 0 { 0int } else { 16int }) as nat, |k: int| k as u32),
            left@ == Seq::new((4 * xi) as nat, |k: int| (4 * k) as u32),
            right@ == Seq::new((4 * xi) as nat, |k: int| (4 * k + 3) as u32),
        decreases CHASSIS_NX - xi,
    {
        let mut yi: usize = 0;
        while yi < CHASSIS_NY
            invariant
                xi < CHASSIS_NX,
                yi <= CHASSIS_NY,
                front@ == Seq::new((if xi == CHASSIS_NX - 1 { 4 * yi } else { 0 }) as nat, |k: int| (80 + k) as u32),
                rear@ == Seq::new((if xi == 0 { 4 * yi } else { 16 }) as nat, |k: int| k as u32),
                left@ == Seq::new((4 * xi + yi) as nat, |k: int| (4 * k) as u32),
                right@ == Seq::new((4 * xi + yi) as nat, |k: int| (4 * k + 3) as u32),
            decreases CHASSIS_NY - yi,
        {
            let mut zi: usize = 0;
            while zi < CHASSIS_NZ
                invariant
                    xi < CHASSIS_NX,
                    yi < CHASSIS_NY,
                    zi <= CHASSIS_NZ,
                    front@ == Seq::new((if xi == CHASSIS_NX - 1 { 4 * yi + zi } else { 0 }) as nat, |k: int| (80 + k) as u32),
                    rear@ == Seq::new((if xi == 0 { 4 * yi + zi } else { 16 }) as nat, |k: int| k as u32),
                    left@ == Seq::new((4 * xi + yi + (if zi > 0 { 1int } else { 0 })) as nat, |k: int| (4 * k) as u32),
                    right@ == Seq::new((4 * xi + yi + (if zi == CHASSIS_NZ { 1int } else { 0 })) as nat, |k: int| (4 * k + 3) as u32),
                decreases CHASSIS_NZ - zi,
            {
                let id: u32 = ((xi * CHASSIS_NY + yi) * CHASSIS_NZ + zi) as u32;
                if xi == CHASSIS_NX - 1 {
                    front.push(id);
                } else if xi == 0 {
                    rear.push(id);
                }
                if zi == CHASSIS_NZ - 1 {
                    right.push(id);
                } else if zi == 0 {
                    left.push(id);
                }
                proof {
                    assert(front@ =~= Seq::new((if xi == CHASSIS_NX - 1 { 4 * yi + zi + 1 } else { 0 }) as nat, |k: int| (80 + k) as u32));
                    assert(rear@ =~= Seq::new((if xi == 0 { 4 * yi + zi + 1 } else { 16 }) as nat, |k: int| k as u32));
                    assert(left@ =~= Seq::new((4 * xi + yi + 1) as nat, |k: int| (4 * k) as u32));
                    assert(right@ =~= Seq::new((4 * xi + yi + (if zi + 1 == CHASSIS_NZ { 1int } else { 0 })) as nat, |k: int| (4 * k + 3) as u32));
                }
                zi = zi + 1;
            }
            yi = yi + 1;
        }
        xi = xi + 1;
    }
    FrameGroups { front, rear, left, right }
}

/// The eight corner nodes of the chassis cage: x in {0, NX-1}, then y in
/// {0, NY-1}, then z in {0, NZ-1}.
pub fn cage_corners() -> (c: Vec<u32>)
    ensures
        c@ == corners_spec(),
{
    let mut c: Vec<u32> = Vec::new();
    let xs: [usize; 2] = [0, CHASSIS_NX - 1];
    let ys: [usize; 2] = [0, CHASSIS_NY - 1];
    let zs: [usize; 2] = [0, CHASSIS_NZ - 1];
    let mut i: usize = 0;
    while i < 2
        invariant
            i <= 2,
            xs@ == seq![0usize, 5],
            ys@ == seq![0usize, 3],
            zs@ == seq![0usize, 3],
            c@ == corners_spec().take(4 * i as int),
        decreases 2 - i,
    {
        let mut j: usize = 0;
        while j < 2
            invariant
                i < 2,
                j <= 2,
                xs@ == seq![0usize, 5],
                ys@ == seq![0usize, 3],
                zs@ == seq![0usize, 3],
                c@ == corners_spec().take(4 * i + 2 * j),
            decreases 2 - j,
        {
            let mut k: usize = 0;
            while k < 2
                invariant
                    i < 2,
                    j < 2,
                    k <= 2,
                    xs@ == seq![0usize, 5],
                    ys@ == seq![0usize, 3],
                    zs@ == seq![0usize, 3],
                    c@ == corners_spec().take(4 * i + 2 * j + k),
                decreases 2 - k,
            {
                let id = ((xs[i] * CHASSIS_NY + ys[j]) * CHASSIS_NZ + zs[k]) as u32;
                c.push(id);
                proof {
                    assert(c@ =~= corners_spec().take(4 * i + 2 * j + k + 1));
                }
                k = k + 1;
            }
            j = j + 1;
        }
        i = i + 1;
    }
    proof {
        assert(corners_spec().take(8) =~= corners_spec());
    }
    c
}

/// The pairs `(ids[i], ids[j])` for `j` from `i + 1` to the end.
pub open spec fn pairs_from(ids: Seq<u32>, i: int) -> Seq<(u32, u32)> {
    Seq::new((ids.len() - i - 1) as nat, |j: int| (ids[i], ids[i + 1 + j]))
}

/// Every pair `(ids[i], ids[j])` with `i < j`, for `i` below `n`, `i` outer.
pub open spec fn all_pairs_upto(ids: Seq<u32>, n: int) -> Seq<(u32, u32)>
    decreases n,
{
    if n <= 0 {
        seq![]
    } else {
        all_pairs_upto(ids, n - 1) + pairs_from(ids, n - 1)
    }
}

/// Every pair of entries of `ids` (the long-range braces between the cage
/// corners): `(ids[i], ids[j])` for each `i < j`, `i` outer, `j` inner.
pub fn all_pairs(ids: &Vec<u32>) -> (v: Vec<(u32, u32)>)
    ensures
        v@ == all_pairs_upto(ids@, ids@.len() as int),
{
    let n = ids.len();
    let mut v: Vec<(u32, u32)> = Vec::new();
    let mut i: usize = 0;
    while i < n
        invariant
            n == ids.len(),
            i <= n,
            v@ == all_pairs_upto(ids@, i as int),
        decreases n - i,
    {
        let ghost start = v@;
        let mut j: usize = i + 1;
        while j < n
            invariant
                n == ids.len(),
                i < n,
                i + 1 <= j <= n,
                v@ == start + pairs_from(ids@, i as int).take(j - i - 1),
            decreases n - j,
        {
            v.push((ids[i], ids[j]));
            proof {
                assert(v@ =~= start + pairs_from(ids@, i as int).take(j - i));
            }
            j = j + 1;
        }
        proof {
            assert(pairs_from(ids@, i as int).take(n - i - 1) =~= pairs_from(ids@, i as int));
        }
        i = i + 1;
    }
    v
}

/// `all_pairs` holds exactly the pairs of entries `i < j`: every one of them,
/// and nothing else.
pub proof fn lemma_all_pairs_exact(ids: Seq<u32>, n: int)
    requires
        0 <= n <= ids.len(),
    ensures
        forall|i: int, j: int|
            0 <= i < n && i < j < ids.len() ==> #[trigger] all_pairs_upto(ids, n).contains(
                (ids[i], ids[j]),
            ),
        forall|k: int|
            0 <= k < all_pairs_upto(ids, n).len() ==> exists|i: int, j: int|
                0 <= i < n && i < j < ids.len() && #[trigger] all_pairs_upto(ids, n)[k] == (
                    ids[i],
                    ids[j],
                ),
    decreases n,
{
    if n > 0 {
        lemma_all_pairs_exact(ids, n - 1);
        let s0 = all_pairs_upto(ids, n - 1);
        let t = pairs_from(ids, n - 1);
        let s = all_pairs_upto(ids, n);
        assert(s == s0 + t);
        assert forall|i: int, j: int| 0 <= i < n && i < j < ids.len() implies #[trigger] s.contains(
            (ids[i], ids[j]),
        ) by {
            if i < n - 1 {
                assert(s0.contains((ids[i], ids[j])));
                let k = choose|k: int| 0 <= k < s0.len() && s0[k] == (ids[i], ids[j]);
                assert(s[k] == s0[k]);
            } else {
                assert(t[j - i - 1] == (ids[i], ids[j]));
                assert(s[s0.len() + j - i - 1] == t[j - i - 1]);
            }
        }
        assert forall|k: int| 0 <= k < s.len() implies exists|i: int, j: int|
            0 <= i < n && i < j < ids.len() && #[trigger] s[k] == (ids[i], ids[j]) by {
            if k < s0.len() {
                assert(s[k] == s0[k]);
                let (i, j) = choose|i: int, j: int|
                    0 <= i < n - 1 && i < j < ids.len() && s0[k] == (ids[i], ids[j]);
                assert(s[k] == (ids[i], ids[j]));
            } else {
                let jj = k - s0.len();
                assert(s[k] == t[jj]);
                assert(s[k] == (ids[n - 1], ids[n + jj]));
            }
        }
    }
}

/// The frame groups are exactly the faces of the chassis lattice: a chassis
/// node is in `front` iff it lies on the last x layer, in `rear` iff on the
/// first, in `right` iff on the last z layer, in `left` iff on the first; the
/// corners are exactly the nodes on extreme layers of all three axes.
pub proof fn lemma_frame_groups_are_faces(p: int)
    requires
        0 <= p < CHASSIS_NODES,
    ensures
        front_spec().contains(p as u32) <==> grid_x(4, 4, p) == CHASSIS_NX - 1,
        rear_spec().contains(p as u32) <==> grid_x(4, 4, p) == 0,
        right_spec().contains(p as u32) <==> grid_z(4, p) == CHASSIS_NZ - 1,
        left_spec().contains(p as u32) <==> grid_z(4, p) == 0,
        corners_spec().contains(p as u32) <==> ((grid_x(4, 4, p) == 0 || grid_x(4, 4, p) == 5) && (
        grid_y(4, 4, p) == 0 || grid_y(4, 4, p) == 3) && (grid_z(4, p) == 0 || grid_z(4, p) == 3)),
{
    let q = p / 4;
    assert(grid_x(4, 4, p) == q / 4);
    if front_spec().contains(p as u32) {
        let k = choose|k: int| 0 <= k < 16 && front_spec()[k] == p as u32;
        assert(p == 80 + k);
    }
    if grid_x(4, 4, p) == 5 {
        assert(front_spec()[p - 80] == p as u32);
    }
    if rear_spec().contains(p as u32) {
        let k = choose|k: int| 0 <= k < 16 && rear_spec()[k] == p as u32;
        assert(p == k);
    }
    if grid_x(4, 4, p) == 0 {
        assert(rear_spec()[p] == p as u32);
    }
    if right_spec().contains(p as u32) {
        let k = choose|k: int| 0 <= k < 24 && right_spec()[k] == p as u32;
        assert(p == 4 * k + 3);
    }
    if grid_z(4, p) == 3 {
        assert(right_spec()[q] == p as u32);
    }
    if left_spec().contains(p as u32) {
        let k = choose|k: int| 0 <= k < 24 && left_spec()[k] == p as u32;
        assert(p == 4 * k);
    }
    if grid_z(4, p) == 0 {
        assert(left_spec()[q] == p as u32);
    }
    let c = corners_spec();
    if c.contains(p as u32) {
        let k = choose|k: int| 0 <= k < 8 && c[k] == p as u32;
        assert(k == 0 || k == 1 || k == 2 || k == 3 || k == 4 || k == 5 || k == 6 || k == 7);
    }
    if (grid_x(4, 4, p) == 0 || grid_x(4, 4, p) == 5) && (grid_y(4, 4, p) == 0 || grid_y(4, 4, p)
        == 3) && (grid_z(4, p) == 0 || grid_z(4, p) == 3) {
        assert(p == 0 || p == 3 || p == 12 || p == 15 || p == 80 || p == 83 || p == 92 || p == 95);
        if p == 0 { assert(c[0] == p as u32); }
        if p == 3 { assert(c[1] == p as u32); }
        if p == 12 { assert(c[2] == p as u32); }
        if p == 15 { assert(c[3] == p as u32); }
        if p == 80 { assert(c[4] == p as u32); }
        if p == 83 { assert(c[5] == p as u32); }
        if p == 92 { assert(c[6] == p as u32); }
        if p == 95 { assert(c[7] == p as u32); }
    }
}

} // verus!
