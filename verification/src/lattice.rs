//! Topology of node lattices: which node pairs a lattice body joins with beams.
//!
//! Nodes of an `nx * ny * nz` lattice are numbered in x-major order,
//! `index(x, y, z) = (x * ny + y) * nz + z`. Every node is joined to each of its
//! "forward" neighbours, the nodes at offset `(ox, oy, oz)` with each offset 0
//! or 1 and not all 0: axis edges (order 1), face diagonals (order 2) and body
//! diagonals (order 3). Looking only forward joins every neighbouring pair by
//! exactly one beam.

use vstd::prelude::*;

verus! {

/// A beam of a lattice: from node `a` to its forward neighbour `b`; `order` is
/// the number of axes the offset spans (1 axis, 2 face diagonal, 3 body
/// diagonal).
#[derive(Clone, Copy, Debug, PartialEq, Eq, Structural)]
pub struct GridBeam {
    pub a: u32,
    pub b: u32,
    pub order: u32,
}

/// Node number of lattice point `(x, y, z)`.
pub open spec fn grid_index(ny: int, nz: int, x: int, y: int, z: int) -> int {
    (x * ny + y) * nz + z
}

/// Lattice coordinates of node number `p`.
pub open spec fn grid_x(ny: int, nz: int, p: int) -> int {
    p / nz / ny
}

pub open spec fn grid_y(ny: int, nz: int, p: int) -> int {
    (p / nz) % ny
}

pub open spec fn grid_z(nz: int, p: int) -> int {
    p % nz
}

/// The seven forward offsets, numbered `c = 4 ox + 2 oy + oz` for `c` in 1..8
/// (x outermost, z innermost).
pub open spec fn off_x(c: int) -> int {
    if c >= 4 { 1 } else { 0 }
}

pub open spec fn off_y(c: int) -> int {
    if c == 2 || c == 3 || c == 6 || c == 7 { 1 } else { 0 }
}

pub open spec fn off_z(c: int) -> int {
    if c == 1 || c == 3 || c == 5 || c == 7 { 1 } else { 0 }
}

/// `(x, y, z)` is a point of the lattice.
pub open spec fn in_grid(nx: int, ny: int, nz: int, x: int, y: int, z: int) -> bool {
    0 <= x < nx && 0 <= y < ny && 0 <= z < nz
}

/// The beam from `(x, y, z)` along offset `c`, if that neighbour exists.
pub open spec fn offset_beams(nx: int, ny: int, nz: int, x: int, y: int, z: int, c: int) -> Seq<
    GridBeam,
> {
    let (ox, oy, oz) = (off_x(c), off_y(c), off_z(c));
    if in_grid(nx, ny, nz, x + ox, y + oy, z + oz) {
        seq![
            GridBeam {
                a: grid_index(ny, nz, x, y, z) as u32,
                b: grid_index(ny, nz, x + ox, y + oy, z + oz) as u32,
                order: (ox + oy + oz) as u32,
            },
        ]
    } else {
        seq![]
    }
}

/// The beams of point `(x, y, z)` along offsets `1 .. c`, in offset order.
pub open spec fn cell_beams(nx: int, ny: int, nz: int, x: int, y: int, z: int, c: int) -> Seq<
    GridBeam,
>
    decreases c,
{
    if c <= 1 {
        seq![]
    } else {
        cell_beams(nx, ny, nz, x, y, z, c - 1) + offset_beams(nx, ny, nz, x, y, z, c - 1)
    }
}

/// The beams of nodes `0 .. p`, node by node.
pub open spec fn lattice_beams_upto(nx: int, ny: int, nz: int, p: int) -> Seq<GridBeam>
    decreases p,
{
    if p <= 0 {
        seq![]
    } else {
        lattice_beams_upto(nx, ny, nz, p - 1) + cell_beams(
            nx,
            ny,
            nz,
            grid_x(ny, nz, p - 1),
            grid_y(ny, nz, p - 1),
            grid_z(nz, p - 1),
            8,
        )
    }
}

/// All beams of the `nx * ny * nz` lattice, in construction order.
pub open spec fn lattice_beams_spec(nx: int, ny: int, nz: int) -> Seq<GridBeam> {
    lattice_beams_upto(nx, ny, nz, nx * ny * nz)
}

proof fn lemma_index_bounds(nx: int, ny: int, nz: int, x: int, y: int, z: int)
    requires
        in_grid(nx, ny, nz, x, y, z),
    ensures
        0 <= x * ny <= x * ny + y < nx * ny,
        0 <= grid_index(ny, nz, x, y, z) < nx * ny * nz,
        (x * ny + y) * nz <= grid_index(ny, nz, x, y, z),
{
    assert(0 <= x * ny) by (nonlinear_arith)
        requires
            0 <= x,
            0 <= ny,
    ;
    assert(x * ny + y < nx * ny) by (nonlinear_arith)
        requires
            0 <= x < nx,
            0 <= y < ny,
    ;
    assert(0 <= (x * ny + y) * nz) by (nonlinear_arith)
        requires
            0 <= x * ny + y,
            0 <= nz,
    ;
    assert((x * ny + y) * nz + z < nx * ny * nz) by (nonlinear_arith)
        requires
            0 <= x * ny + y < nx * ny,
            0 <= z < nz,
    ;
}

proof fn lemma_decode(ny: int, nz: int, x: int, y: int, z: int)
    requires
        0 <= x,
        0 <= y < ny,
        0 <= z < nz,
    ensures
        grid_x(ny, nz, grid_index(ny, nz, x, y, z)) == x,
        grid_y(ny, nz, grid_index(ny, nz, x, y, z)) == y,
        grid_z(nz, grid_index(ny, nz, x, y, z)) == z,
{
    let p = grid_index(ny, nz, x, y, z);
    vstd::arithmetic::div_mod::lemma_fundamental_div_mod_converse(p, nz, x * ny + y, z);
    vstd::arithmetic::div_mod::lemma_fundamental_div_mod_converse(x * ny + y, ny, x, y);
}

proof fn lemma_decode_in_grid(nx: int, ny: int, nz: int, p: int)
    requires
        0 <= p < nx * ny * nz,
        ny > 0,
        nz > 0,
    ensures
        in_grid(nx, ny, nz, grid_x(ny, nz, p), grid_y(ny, nz, p), grid_z(nz, p)),
        grid_index(ny, nz, grid_x(ny, nz, p), grid_y(ny, nz, p), grid_z(nz, p)) == p,
{
    let q = p / nz;
    vstd::arithmetic::div_mod::lemma_fundamental_div_mod(p, nz);
    vstd::arithmetic::div_mod::lemma_fundamental_div_mod(q, ny);
    vstd::arithmetic::div_mod::lemma_mod_pos_bound(p, nz);
    vstd::arithmetic::div_mod::lemma_mod_pos_bound(q, ny);
    vstd::arithmetic::div_mod::lemma_div_pos_is_pos(p, nz);
    vstd::arithmetic::div_mod::lemma_div_pos_is_pos(q, ny);
    let x = q / ny;
    let y = q % ny;
    let z = p % nz;
    assert(p == (x * ny + y) * nz + z) by (nonlinear_arith)
        requires
            p == nz * q + z,
            q == ny * x + y,
    ;
    assert(x < nx) by (nonlinear_arith)
        requires
            p == (x * ny + y) * nz + z,
            p < nx * ny * nz,
            0 <= y,
            0 <= z,
            ny > 0,
            nz > 0,
            x >= 0,
    ;
}

/// Node number of `(x, y, z)`, computed.
fn grid_index_exec(nx: usize, ny: usize, nz: usize, x: usize, y: usize, z: usize) -> (p: usize)
    requires
        in_grid(nx as int, ny as int, nz as int, x as int, y as int, z as int),
        nx * ny * nz <= u32::MAX,
    ensures
        p == grid_index(ny as int, nz as int, x as int, y as int, z as int),
        p < nx * ny * nz,
{
    proof {
        lemma_index_bounds(nx as int, ny as int, nz as int, x as int, y as int, z as int);
        assert(nx * ny <= nx * ny * nz) by (nonlinear_arith)
            requires
                nz >= 1,
        ;
    }
    (x * ny + y) * nz + z
}

/// All beams of an `nx * ny * nz` lattice, node by node in index order and,
/// for each node, along its forward offsets in order.
pub fn lattice_beams(nx: usize, ny: usize, nz: usize) -> (v: Vec<GridBeam>)
    requires
        nx * ny * nz <= u32::MAX,
    ensures
        v@ == lattice_beams_spec(nx as int, ny as int, nz as int),
{
    let ghost (gx, gy, gz) = (nx as int, ny as int, nz as int);
    let mut v: Vec<GridBeam> = Vec::new();
    let mut x: usize = 0;
    assert((x * ny) as int * nz == 0) by (nonlinear_arith)
        requires
            x == 0,
    ;
    while x < nx
        invariant
            nx * ny * nz <= u32::MAX,
            gx == nx && gy == ny && gz == nz,
            x <= nx,
            v@ == lattice_beams_upto(gx, gy, gz, (x * ny) as int * nz),
        decreases nx - x,
    {
        let mut y: usize = 0;
        while y < ny
            invariant
                nx * ny * nz <= u32::MAX,
                gx == nx && gy == ny && gz == nz,
                x < nx,
                y <= ny,
                v@ == lattice_beams_upto(gx, gy, gz, (x * ny + y) as int * nz),
            decreases ny - y,
        {
            let mut z: usize = 0;
            while z < nz
                invariant
                    nx * ny * nz <= u32::MAX,
                    gx == nx && gy == ny && gz == nz,
                    x < nx,
                    y < ny,
                    z <= nz,
                    v@ == lattice_beams_upto(gx, gy, gz, (x * ny + y) as int * nz + z),
                decreases nz - z,
            {
                let a = grid_index_exec(nx, ny, nz, x, y, z);
                let ghost start = v@;
                let mut c: usize = 1;
                while c < 8
                    invariant
                        nx * ny * nz <= u32::MAX,
                        gx == nx && gy == ny && gz == nz,
                        x < nx,
                        y < ny,
                        z < nz,
                        1 <= c <= 8,
                        a == grid_index(gy, gz, x as int, y as int, z as int),
                        a < nx * ny * nz,
                        v@ == start + cell_beams(gx, gy, gz, x as int, y as int, z as int, c as int),
                    decreases 8 - c,
                {
                    let ox: usize = if c >= 4 { 1 } else { 0 };
                    let oy: usize = if c == 2 || c == 3 || c == 6 || c == 7 { 1 } else { 0 };
                    let oz: usize = if c == 1 || c == 3 || c == 5 || c == 7 { 1 } else { 0 };
                    if x + ox < nx && y + oy < ny && z + oz < nz {
                        let b = grid_index_exec(nx, ny, nz, x + ox, y + oy, z + oz);
                        v.push(GridBeam { a: a as u32, b: b as u32, order: (ox + oy + oz) as u32 });
                    }
                    proof {
                        assert(v@ == start + cell_beams(gx, gy, gz, x as int, y as int, z as int, c + 1));
                    }
                    c = c + 1;
                }
                proof {
                    let p = (x * ny + y) as int * nz + z;
                    assert(p == grid_index(gy, gz, x as int, y as int, z as int));
                    lemma_decode(gy, gz, x as int, y as int, z as int);
                    assert(v@ == lattice_beams_upto(gx, gy, gz, p + 1));
                }
                z = z + 1;
            }
            proof {
                let q = (x * ny + y) as int;
                assert(q * nz + nz == (q + 1) * nz) by (nonlinear_arith);
            }
            y = y + 1;
        }
        proof {
            assert((x * ny + ny) as int == ((x + 1) * ny) as int) by (nonlinear_arith)
                requires
                    x < nx,
            ;
            assert(x * ny + ny <= nx * ny) by (nonlinear_arith)
                requires
                    x < nx,
            ;
        }
        x = x + 1;
    }
    proof {
        assert((nx * ny) as int * nz == gx * gy * gz) by (nonlinear_arith)
            requires
                gx == nx && gy == ny && gz == nz,
        ;
    }
    v
}

/// Beams are ordered by source node and, for one source, by target node.
pub open spec fn beam_before(e1: GridBeam, e2: GridBeam) -> bool {
    e1.a < e2.a || (e1.a == e2.a && e1.b < e2.b)
}

/// Strictly increasing in `beam_before`.
pub open spec fn beams_sorted(s: Seq<GridBeam>) -> bool {
    forall|i: int, j: int| 0 <= i < j < s.len() ==> beam_before(#[trigger] s[i], #[trigger] s[j])
}

/// `e` joins two nodes of the lattice, from a node to a forward neighbour: each
/// coordinate grows by 0 or 1, not all by 0, and the order counts the axes
/// that grow.
pub open spec fn joins_forward_neighbours(nx: int, ny: int, nz: int, e: GridBeam) -> bool {
    let (ax, ay, az) = (grid_x(ny, nz, e.a as int), grid_y(ny, nz, e.a as int), grid_z(nz, e.a as int));
    let (bx, by, bz) = (grid_x(ny, nz, e.b as int), grid_y(ny, nz, e.b as int), grid_z(nz, e.b as int));
    &&& e.a < e.b < nx * ny * nz
    &&& in_grid(nx, ny, nz, ax, ay, az)
    &&& in_grid(nx, ny, nz, bx, by, bz)
    &&& 0 <= bx - ax <= 1
    &&& 0 <= by - ay <= 1
    &&& 0 <= bz - az <= 1
    &&& e.order == (bx - ax) + (by - ay) + (bz - az)
    &&& 1 <= e.order <= 3
}

proof fn lemma_offset_step(nx: int, ny: int, nz: int, x: int, y: int, z: int, c: int)
    requires
        1 <= c < 8,
        in_grid(nx, ny, nz, x, y, z),
        in_grid(nx, ny, nz, x + off_x(c), y + off_y(c), z + off_z(c)),
    ensures
        grid_index(ny, nz, x + off_x(c), y + off_y(c), z + off_z(c)) == grid_index(ny, nz, x, y, z)
            + off_x(c) * (ny * nz) + off_y(c) * nz + off_z(c),
{
    let (ox, oy, oz) = (off_x(c), off_y(c), off_z(c));
    assert(((x + ox) * ny + (y + oy)) * nz + (z + oz) == (x * ny + y) * nz + z + ox * (ny * nz) + oy
        * nz + oz) by (nonlinear_arith);
}

/// The offsets, taken in order, reach strictly farther nodes.
proof fn lemma_offsets_increase(
    nx: int,
    ny: int,
    nz: int,
    x: int,
    y: int,
    z: int,
    c1: int,
    c2: int,
)
    requires
        1 <= c1 < c2 < 8,
        in_grid(nx, ny, nz, x, y, z),
        in_grid(nx, ny, nz, x + off_x(c1), y + off_y(c1), z + off_z(c1)),
        in_grid(nx, ny, nz, x + off_x(c2), y + off_y(c2), z + off_z(c2)),
    ensures
        off_x(c1) * (ny * nz) + off_y(c1) * nz + off_z(c1) < off_x(c2) * (ny * nz) + off_y(c2) * nz
            + off_z(c2),
{
    let m = ny * nz;
    assert(m >= nz) by (nonlinear_arith)
        requires
            ny >= 1,
            nz >= 1,
            m == ny * nz,
    ;
    assert(ny >= 2 ==> m >= 2 * nz) by (nonlinear_arith)
        requires
            nz >= 1,
            m == ny * nz,
    ;
}

/// The beam from `(x, y, z)` along offset `c`.
pub open spec fn offset_beam(ny: int, nz: int, x: int, y: int, z: int, c: int) -> GridBeam {
    GridBeam {
        a: grid_index(ny, nz, x, y, z) as u32,
        b: grid_index(ny, nz, x + off_x(c), y + off_y(c), z + off_z(c)) as u32,
        order: (off_x(c) + off_y(c) + off_z(c)) as u32,
    }
}

/// The neighbour of `(x, y, z)` along offset `c` is a lattice point.
pub open spec fn offset_present(nx: int, ny: int, nz: int, x: int, y: int, z: int, c: int) -> bool {
    in_grid(nx, ny, nz, x + off_x(c), y + off_y(c), z + off_z(c))
}

/// The beam along a present offset joins forward neighbours, starts at the
/// cell's node, and reaches farther than the beams along earlier offsets.
proof fn lemma_offset_beam(nx: int, ny: int, nz: int, x: int, y: int, z: int, cc: int)
    requires
        1 <= cc < 8,
        in_grid(nx, ny, nz, x, y, z),
        offset_present(nx, ny, nz, x, y, z, cc),
        nx * ny * nz <= u32::MAX,
    ensures
        offset_beam(ny, nz, x, y, z, cc).a == grid_index(ny, nz, x, y, z),
        joins_forward_neighbours(nx, ny, nz, offset_beam(ny, nz, x, y, z, cc)),
        forall|cp: int|
            1 <= cp < cc && offset_present(nx, ny, nz, x, y, z, cp) ==> (#[trigger] offset_beam(
                ny,
                nz,
                x,
                y,
                z,
                cp,
            )).b < offset_beam(ny, nz, x, y, z, cc).b,
{
    let (ox, oy, oz) = (off_x(cc), off_y(cc), off_z(cc));
    lemma_index_bounds(nx, ny, nz, x, y, z);
    lemma_decode(ny, nz, x, y, z);
    lemma_offset_step(nx, ny, nz, x, y, z, cc);
    lemma_index_bounds(nx, ny, nz, x + ox, y + oy, z + oz);
    lemma_decode(ny, nz, x + ox, y + oy, z + oz);
    assert(ny * nz >= 0) by (nonlinear_arith)
        requires
            ny >= 0,
            nz >= 0,
    ;
    assert forall|cp: int| 1 <= cp < cc && offset_present(nx, ny, nz, x, y, z, cp) implies (
    #[trigger] offset_beam(ny, nz, x, y, z, cp)).b < offset_beam(ny, nz, x, y, z, cc).b by {
        lemma_offset_step(nx, ny, nz, x, y, z, cp);
        lemma_offsets_increase(nx, ny, nz, x, y, z, cp, cc);
        lemma_index_bounds(nx, ny, nz, x + off_x(cp), y + off_y(cp), z + off_z(cp));
    }
}

/// What holds of the beams of one lattice point along offsets `1 .. c`.
pub open spec fn cell_facts(nx: int, ny: int, nz: int, x: int, y: int, z: int, c: int, s: Seq<GridBeam>) -> bool {
    &&& forall|k: int|
        0 <= k < s.len() ==> (#[trigger] s[k]).a == grid_index(ny, nz, x, y, z)
            && joins_forward_neighbours(nx, ny, nz, s[k])
    &&& forall|k: int|
        0 <= k < s.len() ==> exists|cp: int|
            1 <= cp < c && offset_present(nx, ny, nz, x, y, z, cp) && (#[trigger] s[k])
                == offset_beam(ny, nz, x, y, z, cp)
    &&& beams_sorted(s)
}

proof fn lemma_cell_beams(nx: int, ny: int, nz: int, x: int, y: int, z: int, c: int)
    requires
        1 <= c <= 8,
        in_grid(nx, ny, nz, x, y, z),
        nx * ny * nz <= u32::MAX,
    ensures
        cell_facts(nx, ny, nz, x, y, z, c, cell_beams(nx, ny, nz, x, y, z, c)),
    decreases c,
{
    let s = cell_beams(nx, ny, nz, x, y, z, c);
    if c <= 1 {
        assert(s.len() == 0);
    } else {
        lemma_cell_beams(nx, ny, nz, x, y, z, c - 1);
        let s0 = cell_beams(nx, ny, nz, x, y, z, c - 1);
        let t = offset_beams(nx, ny, nz, x, y, z, c - 1);
        let cc = c - 1;
        assert(s == s0 + t);
        if t.len() > 0 {
            lemma_offset_beam(nx, ny, nz, x, y, z, cc);
            assert(t[0] == offset_beam(ny, nz, x, y, z, cc));
            assert forall|k: int| 0 <= k < s0.len() implies (#[trigger] s0[k]).b < t[0].b by {
                let cp = choose|cp: int|
                    1 <= cp < c - 1 && offset_present(nx, ny, nz, x, y, z, cp) && s0[k]
                        == offset_beam(ny, nz, x, y, z, cp);
                assert(offset_beam(ny, nz, x, y, z, cp).b < offset_beam(ny, nz, x, y, z, cc).b);
            }
        }
        assert forall|k: int| 0 <= k < s.len() implies (#[trigger] s[k]).a == grid_index(
            ny,
            nz,
            x,
            y,
            z,
        ) && joins_forward_neighbours(nx, ny, nz, s[k]) by {
            if k < s0.len() {
                assert(s[k] == s0[k]);
            } else {
                assert(s[k] == t[0]);
            }
        }
        assert forall|k: int| 0 <= k < s.len() implies exists|cp: int|
            1 <= cp < c && offset_present(nx, ny, nz, x, y, z, cp) && (#[trigger] s[k])
                == offset_beam(ny, nz, x, y, z, cp) by {
            if k < s0.len() {
                assert(s[k] == s0[k]);
            } else {
                assert(s[k] == t[0]);
                assert(offset_present(nx, ny, nz, x, y, z, cc));
            }
        }
        assert forall|i: int, j: int| 0 <= i < j < s.len() implies beam_before(
            #[trigger] s[i],
            #[trigger] s[j],
        ) by {
            if j < s0.len() {
                assert(s[i] == s0[i] && s[j] == s0[j]);
            } else {
                assert(s[j] == t[0]);
                assert(s[i] == s0[i]);
            }
        }
    }
}

proof fn lemma_upto(nx: int, ny: int, nz: int, p: int)
    requires
        0 <= p <= nx * ny * nz,
        0 <= nx && 0 <= ny && 0 <= nz,
        nx * ny * nz <= u32::MAX,
    ensures
        forall|k: int|
            0 <= k < lattice_beams_upto(nx, ny, nz, p).len() ==> joins_forward_neighbours(
                nx,
                ny,
                nz,
                #[trigger] lattice_beams_upto(nx, ny, nz, p)[k],
            ) && lattice_beams_upto(nx, ny, nz, p)[k].a < p,
        beams_sorted(lattice_beams_upto(nx, ny, nz, p)),
    decreases p,
{
    if p > 0 {
        lemma_upto(nx, ny, nz, p - 1);
        assert(ny > 0 && nz > 0) by (nonlinear_arith)
            requires
                0 < p <= nx * ny * nz,
                0 <= nx && 0 <= ny && 0 <= nz,
        ;
        lemma_decode_in_grid(nx, ny, nz, p - 1);
        let (x, y, z) = (grid_x(ny, nz, p - 1), grid_y(ny, nz, p - 1), grid_z(nz, p - 1));
        lemma_cell_beams(nx, ny, nz, x, y, z, 8);
        let s0 = lattice_beams_upto(nx, ny, nz, p - 1);
        let t = cell_beams(nx, ny, nz, x, y, z, 8);
        let s = lattice_beams_upto(nx, ny, nz, p);
        assert(s == s0 + t);
        assert forall|k: int| 0 <= k < s.len() implies joins_forward_neighbours(
            nx,
            ny,
            nz,
            #[trigger] s[k],
        ) && s[k].a < p by {
            if k < s0.len() {
                assert(s[k] == s0[k]);
            } else {
                assert(s[k] == t[k - s0.len()]);
            }
        }
        assert forall|i: int, j: int| 0 <= i < j < s.len() implies beam_before(
            #[trigger] s[i],
            #[trigger] s[j],
        ) by {
            if j < s0.len() {
                assert(s[i] == s0[i] && s[j] == s0[j]);
            } else if i < s0.len() {
                assert(s[i] == s0[i]);
                assert(s[j] == t[j - s0.len()]);
            } else {
                assert(s[i] == t[i - s0.len()]);
                assert(s[j] == t[j - s0.len()]);
            }
        }
    }
}

proof fn lemma_cell_contains(nx: int, ny: int, nz: int, x: int, y: int, z: int, c: int, cc: int)
    requires
        1 <= cc < c <= 8,
        offset_present(nx, ny, nz, x, y, z, cc),
    ensures
        cell_beams(nx, ny, nz, x, y, z, c).contains(offset_beam(ny, nz, x, y, z, cc)),
    decreases c,
{
    let s0 = cell_beams(nx, ny, nz, x, y, z, c - 1);
    let t = offset_beams(nx, ny, nz, x, y, z, c - 1);
    let s = cell_beams(nx, ny, nz, x, y, z, c);
    assert(s == s0 + t);
    if cc == c - 1 {
        assert(s[s0.len() as int] == t[0]);
    } else {
        lemma_cell_contains(nx, ny, nz, x, y, z, c - 1, cc);
        let k = choose|k: int| 0 <= k < s0.len() && s0[k] == offset_beam(ny, nz, x, y, z, cc);
        assert(s[k] == s0[k]);
    }
}

proof fn lemma_upto_contains(nx: int, ny: int, nz: int, p: int, q: int, e: GridBeam)
    requires
        0 <= p < q,
        ny > 0,
        nz > 0,
        cell_beams(nx, ny, nz, grid_x(ny, nz, p), grid_y(ny, nz, p), grid_z(nz, p), 8).contains(e),
    ensures
        lattice_beams_upto(nx, ny, nz, q).contains(e),
    decreases q,
{
    let s0 = lattice_beams_upto(nx, ny, nz, q - 1);
    let s = lattice_beams_upto(nx, ny, nz, q);
    let t = cell_beams(nx, ny, nz, grid_x(ny, nz, q - 1), grid_y(ny, nz, q - 1), grid_z(nz, q - 1), 8);
    assert(s == s0 + t);
    if p == q - 1 {
        let k = choose|k: int| 0 <= k < t.len() && t[k] == e;
        assert(s[s0.len() + k] == t[k]);
    } else {
        lemma_upto_contains(nx, ny, nz, p, q - 1, e);
        let k = choose|k: int| 0 <= k < s0.len() && s0[k] == e;
        assert(s[k] == s0[k]);
    }
}

/// The lattice beams are exactly the forward-neighbour pairs, each once:
/// every beam joins a node to a forward neighbour (its order counting the
/// axes the step spans), no node pair is joined twice, and every node is
/// joined to each of its forward neighbours.
pub proof fn lemma_lattice_beams_exact(nx: int, ny: int, nz: int)
    requires
        0 <= nx && 0 <= ny && 0 <= nz,
        nx * ny * nz <= u32::MAX,
    ensures
        ({
            let s = lattice_beams_spec(nx, ny, nz);
            &&& forall|k: int| 0 <= k < s.len() ==> joins_forward_neighbours(nx, ny, nz, #[trigger] s[k])
            &&& forall|i: int, j: int|
                0 <= i < j < s.len() ==> !((#[trigger] s[i]).a == (#[trigger] s[j]).a && s[i].b == s[j].b)
            &&& forall|x: int, y: int, z: int, c: int|
                in_grid(nx, ny, nz, x, y, z) && 1 <= c < 8 && offset_present(nx, ny, nz, x, y, z, c)
                    ==> #[trigger] s.contains(offset_beam(ny, nz, x, y, z, c))
        }),
{
    let n = nx * ny * nz;
    lemma_upto(nx, ny, nz, n);
    let s = lattice_beams_spec(nx, ny, nz);
    assert forall|i: int, j: int| 0 <= i < j < s.len() implies !((#[trigger] s[i]).a == (
    #[trigger] s[j]).a && s[i].b == s[j].b) by {
        assert(beam_before(s[i], s[j]));
    }
    assert forall|x: int, y: int, z: int, c: int|
        in_grid(nx, ny, nz, x, y, z) && 1 <= c < 8 && offset_present(
            nx,
            ny,
            nz,
            x,
            y,
            z,
            c,
        ) implies #[trigger] s.contains(offset_beam(ny, nz, x, y, z, c)) by {
        lemma_cell_contains(nx, ny, nz, x, y, z, 8, c);
        lemma_index_bounds(nx, ny, nz, x, y, z);
        lemma_decode(ny, nz, x, y, z);
        let p = grid_index(ny, nz, x, y, z);
        lemma_upto_contains(nx, ny, nz, p, n, offset_beam(ny, nz, x, y, z, c));
    }
}

} // verus!
