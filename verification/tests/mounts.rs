use web_3d_car::mounts::{nearest_candidates, suspension_mounts, within_radius_of};

fn line_sep(n: usize) -> Vec<Vec<u32>> {
    (0..n)
        .map(|i| (0..n).map(|j| (i as i64 - j as i64).unsigned_abs() as u32 * 10).collect())
        .collect()
}

#[test]
fn pool_within_radius_then_spread() {
    let hub = vec![5, 1, 9, 1, 7];
    let seed = vec![4, 2, 8, 2, 0];
    let sep = line_sep(5);
    assert_eq!(within_radius_of(&hub, 6), vec![0, 1, 3]);
    assert_eq!(suspension_mounts(&hub, 6, &seed, &sep, 2), vec![1, 3]);
    assert_eq!(suspension_mounts(&hub, 6, &seed, &sep, 3), vec![1, 3, 0]);
    assert_eq!(suspension_mounts(&hub, 6, &seed, &sep, 0), vec![1]);
}

#[test]
fn fallback_pool_is_the_nearest_candidates() {
    let hub = vec![5, 1, 9, 1, 7];
    let seed = vec![4, 2, 8, 2, 0];
    let sep = line_sep(5);
    assert_eq!(nearest_candidates(&hub, 5), vec![1, 3, 0, 4, 2]);
    assert_eq!(nearest_candidates(&hub, 2), vec![1, 3]);
    assert_eq!(suspension_mounts(&hub, 6, &seed, &sep, 4), vec![4, 0, 2, 1]);
    assert_eq!(suspension_mounts(&hub, 6, &seed, &sep, 9), vec![4, 0, 2, 1, 3]);
    assert_eq!(suspension_mounts(&hub, 0, &seed, &sep, 1), vec![1]);
}

// The chassis grid of the car and the float algorithm the keys stand for.

fn chassis() -> Vec<[f32; 3]> {
    let (nx, ny, nz) = (6usize, 4usize, 4usize);
    let lo = [-1.4f32, 0.2, -0.7];
    let hi = [1.4f32, 0.8, 0.7];
    let lerp = |a: f32, b: f32, t: usize, n: usize| a + (b - a) * (t as f32 / (n - 1) as f32);
    let mut out = Vec::new();
    for xi in 0..nx {
        for yi in 0..ny {
            for zi in 0..nz {
                out.push([lerp(lo[0], hi[0], xi, nx), lerp(lo[1], hi[1], yi, ny), lerp(lo[2], hi[2], zi, nz)]);
            }
        }
    }
    out
}

fn d2(p: [f32; 3], q: [f32; 3]) -> f32 {
    let dx = p[0] - q[0];
    let dy = p[1] - q[1];
    let dz = p[2] - q[2];
    dx * dx + dy * dy + dz * dz
}

fn float_mounts(pts: &[[f32; 3]], hub: [f32; 3], radius: f32, count: usize) -> Vec<usize> {
    let biased = [hub[0] * (1.0 - 0.55), hub[1], hub[2] * (1.0 - 0.20)];
    let r2 = radius * radius;
    let mut pool: Vec<usize> = (0..pts.len()).filter(|&c| d2(pts[c], hub) < r2).collect();
    if pool.len() < count {
        let mut scored: Vec<(f32, usize)> = (0..pts.len()).map(|c| (d2(pts[c], hub), c)).collect();
        scored.sort_by(|a, b| a.0.partial_cmp(&b.0).unwrap());
        pool = scored.iter().take((count * 3).min(scored.len())).map(|&(_, c)| c).collect();
    }
    let seed = *pool
        .iter()
        .min_by(|&&a, &&b| d2(pts[a], biased).partial_cmp(&d2(pts[b], biased)).unwrap())
        .unwrap();
    let mut picked = vec![seed];
    while picked.len() < count && picked.len() < pool.len() {
        let mut best = pool[0];
        let mut best_sep = -1.0f32;
        for &c in &pool {
            if picked.contains(&c) {
                continue;
            }
            let mut min_sep = f32::INFINITY;
            for &p in &picked {
                min_sep = min_sep.min(d2(pts[c], pts[p]));
            }
            if min_sep > best_sep {
                best_sep = min_sep;
                best = c;
            }
        }
        picked.push(best);
    }
    picked
}

fn keyed_mounts(pts: &[[f32; 3]], hub: [f32; 3], radius: f32, count: usize) -> Vec<usize> {
    let biased = [hub[0] * (1.0 - 0.55), hub[1], hub[2] * (1.0 - 0.20)];
    let hub_key: Vec<u32> = pts.iter().map(|&p| d2(p, hub).to_bits()).collect();
    let seed_key: Vec<u32> = pts.iter().map(|&p| d2(p, biased).to_bits()).collect();
    let sep: Vec<Vec<u32>> = pts.iter().map(|&p| pts.iter().map(|&q| d2(p, q).to_bits()).collect()).collect();
    suspension_mounts(&hub_key, (radius * radius).to_bits(), &seed_key, &sep, count)
}

#[test]
fn keyed_mounts_match_the_float_choice_on_the_chassis() {
    let pts = chassis();
    let hubs = [[1.1f32, 0.0, 0.75], [1.1, 0.0, -0.75], [-1.1, 0.0, 0.75], [-1.1, 0.0, -0.75]];
    for hub in hubs {
        let m = keyed_mounts(&pts, hub, 1.05, 5);
        assert_eq!(m.len(), 5);
        for (k, x) in m.iter().enumerate() {
            assert!(*x < pts.len());
            assert!(!m[k + 1..].contains(x));
        }
        assert_eq!(m, float_mounts(&pts, hub, 1.05, 5));
        // the fallback pool (radius too small for the count)
        assert_eq!(keyed_mounts(&pts, hub, 0.3, 5), float_mounts(&pts, hub, 0.3, 5));
        assert_eq!(keyed_mounts(&pts, hub, 0.3, 40), float_mounts(&pts, hub, 0.3, 40));
    }
}
