use web_3d_car::car::{all_pairs, cage_corners, frame_groups, CHASSIS_NODES, CHASSIS_NX, CHASSIS_NY, CHASSIS_NZ};
use web_3d_car::collision::{strided_rows, ConnectedPairs};
use web_3d_car::lattice::{lattice_beams, GridBeam};
use web_3d_car::scene::{flatten_triangles, hash2_bits, terrain_triangles, TERRAIN_CELLS};
use web_3d_car::structure::{BeamKind, Beams};

#[test]
fn unit_cube_lattice_has_nineteen_beams() {
    let v = lattice_beams(2, 2, 2);
    assert_eq!(v.len(), 19);
    assert_eq!(v[0], GridBeam { a: 0, b: 1, order: 1 });
    assert_eq!(v[2], GridBeam { a: 0, b: 3, order: 2 });
    assert_eq!(v[6], GridBeam { a: 0, b: 7, order: 3 });
    assert_eq!(v[7], GridBeam { a: 1, b: 3, order: 1 });
}

#[test]
fn test_lattice_and_chassis_beam_counts() {
    assert_eq!(lattice_beams(4, 3, 4).len(), 197);
    assert_eq!(lattice_beams(CHASSIS_NX, CHASSIS_NY, CHASSIS_NZ).len(), 443);
    assert_eq!(lattice_beams(0, 3, 4).len(), 0);
    assert_eq!(lattice_beams(1, 1, 1).len(), 0);
}

#[test]
fn lattice_beams_are_distinct_forward_pairs() {
    let v = lattice_beams(3, 2, 4);
    for (k, e) in v.iter().enumerate() {
        assert!(e.a < e.b && (e.b as usize) < 24);
        assert!(e.order >= 1 && e.order <= 3);
        for f in &v[k + 1..] {
            assert!(!(e.a == f.a && e.b == f.b));
        }
    }
}

#[test]
fn frame_groups_are_the_faces() {
    let g = frame_groups();
    assert_eq!(g.front, (80..96).collect::<Vec<u32>>());
    assert_eq!(g.rear, (0..16).collect::<Vec<u32>>());
    assert_eq!(g.left, (0..24).map(|k| 4 * k).collect::<Vec<u32>>());
    assert_eq!(g.right, (0..24).map(|k| 4 * k + 3).collect::<Vec<u32>>());
    assert_eq!(CHASSIS_NODES, CHASSIS_NX * CHASSIS_NY * CHASSIS_NZ);
}

#[test]
fn corner_skeleton_joins_every_corner_pair_once() {
    let c = cage_corners();
    assert_eq!(c, vec![0, 3, 12, 15, 80, 83, 92, 95]);
    let p = all_pairs(&c);
    assert_eq!(p.len(), 28);
    assert_eq!(p[0], (0, 3));
    assert_eq!(p[6], (0, 95));
    assert_eq!(p[7], (3, 12));
    assert_eq!(p[27], (92, 95));
    assert!(all_pairs(&vec![5]).is_empty());
}

#[test]
fn terrain_mesh_triangles() {
    let t = terrain_triangles(TERRAIN_CELLS);
    assert_eq!(t.len(), 2 * 64 * 64);
    assert_eq!(t[0], [0, 65, 1]);
    assert_eq!(t[1], [1, 65, 66]);
    assert_eq!(t[2], [1, 66, 2]);
    assert_eq!(t[128], [65, 130, 66]);
    assert_eq!(*t.last().unwrap(), [4159, 4223, 4224]);
    let flat = flatten_triangles(&t);
    assert_eq!(flat.len(), 3 * t.len());
    assert_eq!(&flat[0..6], &[0, 65, 1, 1, 65, 66]);
    let small = terrain_triangles(1);
    assert_eq!(small, vec![[0, 2, 1], [1, 2, 3]]);
}

#[test]
fn noise_hash_values() {
    assert_eq!(hash2_bits(0, 0), 0);
    assert_eq!(hash2_bits(1, 0), 2182377942);
    assert_eq!(hash2_bits(0, 1), 3299714085);
    assert_eq!(hash2_bits(-1, 5), 204171232);
    assert_eq!(hash2_bits(123, -456), 300449340);
}

fn two_beams() -> Beams<f32> {
    let mut b: Beams<f32> = Beams::new();
    b.push(0, 1, 1.0, 1000.0, 1.0, 0.1, 0.5, BeamKind::Normal);
    b.push(2, 1, 2.0, 500.0, 2.0, 0.2, 0.6, BeamKind::Support);
    b
}

#[test]
fn beam_store_push_pairs_and_restore() {
    let mut b = two_beams();
    assert_eq!(b.len(), 2);
    assert_eq!(b.index_pairs(), vec![0, 1, 2, 1]);
    assert_eq!(b.broken, vec![false, false]);
    assert_eq!(b.broken_count(), 0);
    b.broken[1] = true;
    b.rest[0] = 1.3;
    assert_eq!(b.broken_count(), 1);
    b.restore(&vec![1.0, 2.0]);
    assert_eq!(b.broken_count(), 0);
    assert_eq!(b.rest, vec![1.0, 2.0]);
    assert_eq!(b.kind, vec![BeamKind::Normal, BeamKind::Support]);
}

#[test]
fn connected_pairs_ignore_order_and_broken_beams() {
    let mut b = two_beams();
    b.push(3, 4, 1.0, 1.0, 1.0, 1.0, 1.0, BeamKind::Hydro);
    b.broken[2] = true;
    let c = ConnectedPairs::from_beams(&b);
    assert!(c.connected(0, 1));
    assert!(c.connected(1, 0));
    assert!(c.connected(1, 2));
    assert!(!c.connected(0, 2));
    assert!(!c.connected(3, 4));
}

#[test]
fn strided_rows_partition_the_indices() {
    assert_eq!(strided_rows(1, 3, 10), vec![1, 4, 7]);
    assert_eq!(strided_rows(0, 3, 10), vec![0, 3, 6, 9]);
    assert_eq!(strided_rows(2, 3, 2), Vec::<usize>::new());
    let mut seen = vec![0; 11];
    for t in 0..4 {
        for i in strided_rows(t, 4, 11) {
            seen[i] += 1;
        }
    }
    assert!(seen.iter().all(|&s| s == 1));
}

#[test]
fn terrain_triangles_are_wound_alike() {
    let cells = 3usize;
    let n = (cells + 1) as i64;
    let t = terrain_triangles(cells);
    for tri in &t {
        let (p, q, r) = (tri[0] as i64, tri[1] as i64, tri[2] as i64);
        assert!(p != q && q != r && p != r);
        assert!(tri.iter().all(|&v| (v as i64) < n * n));
        let area = (q % n - p % n) * (r / n - p / n) - (q / n - p / n) * (r % n - p % n);
        assert_eq!(area, -1);
    }
}
