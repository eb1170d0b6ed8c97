//! Connectivity of the terrain mesh.
//!
//! The terrain is a square grid of `(cells + 1)^2` vertices numbered row by
//! row, `vertex(i, j) = i * (cells + 1) + j` for row `i` and column `j`. Each
//! cell is split into two triangles along the diagonal from `(i, j + 1)` to
//! `(i + 1, j)`, both wound the same way so that the geometric normal points up.
//! The vertex heights are floating point and computed by the caller; this
//! module fixes which vertices form each triangle.

use vstd::prelude::*;

verus! {

/// Grid resolution of the terrain (cells per side).
pub const TERRAIN_CELLS: usize = 64;

/// Vertex number of row `i`, column `j` of a grid with `cells` cells per side.
pub open spec fn vertex(cells: int, i: int, j: int) -> int {
    i * (cells + 1) + j
}

/// Triangle `t` (0 or 1) of cell `(i, j)`: `[a, c, b]` then `[b, c, d]` with
/// `a = (i, j)`, `b = (i, j + 1)`, `c = (i + 1, j)`, `d = (i + 1, j + 1)`.
pub open spec fn cell_triangle(cells: int, i: int, j: int, t: int) -> Seq<u32> {
    let a = vertex(cells, i, j) as u32;
    let b = vertex(cells, i, j + 1) as u32;
    let c = vertex(cells, i + 1, j) as u32;
    let d = vertex(cells, i + 1, j + 1) as u32;
    if t == 0 {
        seq![a, c, b]
    } else {
        seq![b, c, d]
    }
}

/// Triangle number `k` of the mesh: cells row by row, two triangles each.
pub open spec fn triangle_spec(cells: int, k: int) -> Seq<u32> {
    let q = k / 2;
    cell_triangle(cells, q / cells, q % cells, k % 2)
}

proof fn lemma_vertex_bounds(cells: int, i: int, j: int)
    requires
        0 <= i <= cells,
        0 <= j <= cells,
    ensures
        0 <= vertex(cells, i, j) < (cells + 1) * (cells + 1),
{
    assert(0 <= i * (cells + 1) + j < (cells + 1) * (cells + 1)) by (nonlinear_arith)
        requires
            0 <= i <= cells,
            0 <= j <= cells,
    ;
}

proof fn lemma_cell_decode(cells: int, i: int, j: int)
    requires
        0 <= i,
        0 <= j < cells,
    ensures
        (2 * (i * cells + j)) / 2 == i * cells + j,
        (2 * (i * cells + j) + 1) / 2 == i * cells + j,
        (2 * (i * cells + j)) % 2 == 0,
        (2 * (i * cells + j) + 1) % 2 == 1,
        (i * cells + j) / cells == i,
        (i * cells + j) % cells == j,
{
    vstd::arithmetic::div_mod::lemma_fundamental_div_mod_converse(i * cells + j, cells, i, j);
}

/// The triangles of the terrain grid with `cells` cells per side: two per
/// cell, cells row by row.
pub fn terrain_triangles(cells: usize) -> (tris: Vec<[u32; 3]>)
    requires
        (cells + 1) * (cells + 1) <= u32::MAX,
    ensures
        tris.len() == 2 * cells * cells,
        forall|k: int| 0 <= k < tris.len() ==> (#[trigger] tris@[k])@ == triangle_spec(cells as int, k),
{
    assert(cells + 1 <= u32::MAX) by (nonlinear_arith)
        requires
            (cells + 1) * (cells + 1) <= u32::MAX,
    ;
    let n = cells + 1;
    let ghost gc = cells as int;
    let mut tris: Vec<[u32; 3]> = Vec::new();
    let mut i: usize = 0;
    assert(cells * cells <= (cells + 1) * (cells + 1)) by (nonlinear_arith);
    while i < cells
        invariant
            n == cells + 1,
            gc == cells,
            (cells + 1) * (cells + 1) <= u32::MAX,
            i <= cells,
            tris.len() == 2 * (i * cells),
            forall|k: int| 0 <= k < tris.len() ==> (#[trigger] tris@[k])@ == triangle_spec(gc, k),
        decreases cells - i,
    {
        let mut j: usize = 0;
        while j < cells
            invariant
                n == cells + 1,
                gc == cells,
                (cells + 1) * (cells + 1) <= u32::MAX,
                i < cells,
                j <= cells,
                tris.len() == 2 * (i * cells + j),
                forall|k: int| 0 <= k < tris.len() ==> (#[trigger] tris@[k])@ == triangle_spec(gc, k),
            decreases cells - j,
        {
            proof {
                lemma_vertex_bounds(gc, i as int, j as int);
                lemma_vertex_bounds(gc, i as int, j + 1);
                lemma_vertex_bounds(gc, i + 1, j as int);
                lemma_vertex_bounds(gc, i + 1, j + 1);
                assert((i + 1) * n == i * n + n) by (nonlinear_arith);
                lemma_cell_decode(gc, i as int, j as int);
            }
            let a = (i * n + j) as u32;
            let b = (i * n + j + 1) as u32;
            let c = ((i + 1) * n + j) as u32;
            let d = ((i + 1) * n + j + 1) as u32;
            let ghost k0 = tris.len() as int;
            tris.push([a, c, b]);
            tris.push([b, c, d]);
            proof {
                assert(k0 == 2 * (i * cells + j));
                assert(tris@[k0]@ == triangle_spec(gc, k0));
                assert(tris@[k0 + 1]@ == triangle_spec(gc, k0 + 1));
                assert forall|k: int| 0 <= k < tris.len() implies (#[trigger] tris@[k])@ == triangle_spec(
                    gc,
                    k,
                ) by {
                    if k < k0 {
                    } else if k == k0 {
                    } else {
                        assert(k == k0 + 1);
                    }
                }
            }
            j = j + 1;
        }
        proof {
            assert(i * cells + cells == (i + 1) * cells) by (nonlinear_arith);
        }
        i = i + 1;
    }
    proof {
        assert(2 * (cells * cells) == 2 * cells * cells) by (nonlinear_arith);
    }
    tris
}

/// The triangles as one flat index list `[i0, i1, i2, ...]`.
pub fn flatten_triangles(tris: &Vec<[u32; 3]>) -> (flat: Vec<u32>)
    requires
        3 * tris.len() <= usize::MAX,
    ensures
        flat.len() == 3 * tris.len(),
        forall|k: int, c: int| 0 <= k < tris.len() && 0 <= c < 3 ==> #[trigger] flat@[3 * k + c] == (
        #[trigger] tris@[k])@[c],
{
    let mut flat: Vec<u32> = Vec::new();
    let mut k: usize = 0;
    while k < tris.len()
        invariant
            3 * tris.len() <= usize::MAX,
            k <= tris.len(),
            flat.len() == 3 * k,
            forall|kk: int, c: int| 0 <= kk < k && 0 <= c < 3 ==> #[trigger] flat@[3 * kk + c] == (
            #[trigger] tris@[kk])@[c],
        decreases tris.len() - k,
    {
        let t = tris[k];
        flat.push(t[0]);
        flat.push(t[1]);
        flat.push(t[2]);
        proof {
            assert forall|kk: int, c: int| 0 <= kk < k + 1 && 0 <= c < 3 implies #[trigger] flat@[3
                * kk + c] == (#[trigger] tris@[kk])@[c] by {
                if kk == k {
                    assert(c == 0 || c == 1 || c == 2);
                }
            }
        }
        k = k + 1;
    }
    flat
}

/// Row of vertex `v`.
pub open spec fn vertex_row(cells: int, v: int) -> int {
    v / (cells + 1)
}

/// Column of vertex `v`.
pub open spec fn vertex_col(cells: int, v: int) -> int {
    v % (cells + 1)
}

/// Signed area (doubled) of triangle `t` in the (column, row) plane.
pub open spec fn orientation(cells: int, t: Seq<u32>) -> int {
    let (p, q, r) = (t[0] as int, t[1] as int, t[2] as int);
    (vertex_col(cells, q) - vertex_col(cells, p)) * (vertex_row(cells, r) - vertex_row(cells, p))
        - (vertex_row(cells, q) - vertex_row(cells, p)) * (vertex_col(cells, r) - vertex_col(cells, p))
}

/// Every triangle of the terrain mesh has three distinct vertices of the grid,
/// and all triangles are wound the same way (the same orientation, which makes
/// the normal point up).
pub proof fn lemma_triangles_valid_and_wound(cells: int, k: int)
    requires
        cells > 0,
        0 <= k < 2 * cells * cells,
        (cells + 1) * (cells + 1) <= u32::MAX,
    ensures
        ({
            let t = triangle_spec(cells, k);
            &&& t.len() == 3
            &&& forall|c: int| 0 <= c < 3 ==> #[trigger] t[c] < (cells + 1) * (cells + 1)
            &&& t[0] != t[1] && t[1] != t[2] && t[0] != t[2]
            &&& orientation(cells, t) == -1
        }),
{
    let q = k / 2;
    let i = q / cells;
    let j = q % cells;
    let n = cells + 1;
    assert(0 <= q < cells * cells) by (nonlinear_arith)
        requires
            0 <= k < 2 * cells * cells,
            q == k / 2,
    ;
    vstd::arithmetic::div_mod::lemma_fundamental_div_mod(q, cells);
    vstd::arithmetic::div_mod::lemma_mod_pos_bound(q, cells);
    assert(0 <= i < cells) by (nonlinear_arith)
        requires
            q == cells * i + j,
            0 <= j < cells,
            0 <= q < cells * cells,
            cells > 0,
    ;
    lemma_vertex_bounds(cells, i, j);
    lemma_vertex_bounds(cells, i, j + 1);
    lemma_vertex_bounds(cells, i + 1, j);
    lemma_vertex_bounds(cells, i + 1, j + 1);
    assert((i + 1) * n == i * n + n) by (nonlinear_arith);
    vstd::arithmetic::div_mod::lemma_fundamental_div_mod_converse(i * n + j, n, i, j);
    vstd::arithmetic::div_mod::lemma_fundamental_div_mod_converse(i * n + j + 1, n, i, j + 1);
    vstd::arithmetic::div_mod::lemma_fundamental_div_mod_converse((i + 1) * n + j, n, i + 1, j);
    vstd::arithmetic::div_mod::lemma_fundamental_div_mod_converse((i + 1) * n + j + 1, n, i + 1, j + 1);
    let a = vertex(cells, i, j);
    let b = vertex(cells, i, j + 1);
    let c = vertex(cells, i + 1, j);
    let d = vertex(cells, i + 1, j + 1);
    assert(vertex_row(cells, a) == i && vertex_col(cells, a) == j);
    assert(vertex_row(cells, b) == i && vertex_col(cells, b) == j + 1);
    assert(vertex_row(cells, c) == i + 1 && vertex_col(cells, c) == j);
    assert(vertex_row(cells, d) == i + 1 && vertex_col(cells, d) == j + 1);
    let t = triangle_spec(cells, k);
    assert(t == cell_triangle(cells, i, j, k % 2));
    if k % 2 == 0 {
        assert(t == seq![a as u32, c as u32, b as u32]);
        assert(orientation(cells, t) == (j - j) * (i - i) - (i + 1 - i) * (j + 1 - j));
    } else {
        assert(t == seq![b as u32, c as u32, d as u32]);
        assert(orientation(cells, t) == (j - (j + 1)) * (i + 1 - i) - (i + 1 - i) * (j + 1 - (j + 1)));
    }
}

/// Deterministic integer hash of a lattice point `(i, j)` (the value-noise
/// seed): multiply-add of the coordinates modulo 2^32, then two xor-shift
/// mixing rounds.
pub open spec fn hash2_spec(i: i32, j: i32) -> u32 {
    let h0 = ((i * 374761393 + j * 668265263) % 0x1_0000_0000) as u32;
    let m = h0 ^ (h0 >> 13u32);
    let h1 = ((m as int * 1274126177) % 0x1_0000_0000) as u32;
    h1 ^ (h1 >> 16u32)
}

proof fn lemma_i32_to_u32(i: i32)
    ensures
        (i as u32) as int == (i as int) % 0x1_0000_0000,
{
    if i >= 0 {
        assert((i as u32) as int == i as int);
    } else {
        assert(i < 0 ==> (i as u32) as int == i as int + 0x1_0000_0000) by (bit_vector);
    }
}

/// The integer part of the value-noise hash: the bits of the hash of `(i, j)`.
pub fn hash2_bits(i: i32, j: i32) -> (h: u32)
    ensures
        h == hash2_spec(i, j),
{
    proof {
        lemma_i32_to_u32(i);
        lemma_i32_to_u32(j);
        vstd::arithmetic::div_mod::lemma_mul_mod_noop_left(i as int, 374761393, 0x1_0000_0000);
        vstd::arithmetic::div_mod::lemma_mul_mod_noop_left(j as int, 668265263, 0x1_0000_0000);
        vstd::arithmetic::div_mod::lemma_add_mod_noop(i as int * 374761393, j as int * 668265263, 0x1_0000_0000);
    }
    let h = (i as u32).wrapping_mul(374_761_393).wrapping_add((j as u32).wrapping_mul(668_265_263));
    let h = (h ^ (h >> 13)).wrapping_mul(1_274_126_177);
    h ^ (h >> 16)
}

} // verus!
