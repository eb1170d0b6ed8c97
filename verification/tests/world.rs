use web_3d_car::descriptor::{push_decimal, soft_descriptor_json};
use web_3d_car::fleet::Fleet;
use web_3d_car::layout::{interleave_xyz, scatter_xyz, CarCounts, Layout, RenderBuffer, MAX_CARS};
use web_3d_car::lines::fill_lines;
use web_3d_car::structure::{BeamKind, Beams};

fn car(nodes: usize, beams: usize, wheels: usize) -> CarCounts {
    CarCounts { nodes, beams, wheels }
}

#[test]
fn layout_of_two_cars() {
    let cars = vec![car(100, 491, 4), car(60, 200, 4)];
    let l = Layout::new(11, &cars);
    assert_eq!(l.num_static, 11);
    assert_eq!(l.num_objects, 19);
    assert_eq!(l.node_offsets, vec![0, 100]);
    assert_eq!(l.wheel_offsets, vec![0, 4]);
    assert_eq!(l.total_nodes, 160);
    assert_eq!(l.total_beams, 691);
    assert_eq!(l.total_wheels, 8);
    assert_eq!(l.node_buffer_len(), 480);
    assert_eq!(l.line_buffer_len(), 1382);
    assert_eq!(l.render_buffer_len(), 16 * 20);
    assert_eq!(l.car_node_offset(1), 100);
    assert_eq!(l.car_node_offset(5), 0);
    assert_eq!(l.wheel_slot(0, 0, &cars), 11);
    assert_eq!(l.wheel_slot(1, 3, &cars), 18);
    let mut slots: Vec<usize> = Vec::new();
    for c in 0..2 {
        for i in 0..4 {
            slots.push(l.wheel_slot(c, i, &cars));
        }
    }
    assert_eq!(slots, (11..19).collect::<Vec<usize>>());
}

#[test]
fn layout_of_one_car_and_no_cars() {
    let one = vec![car(100, 491, 4)];
    let l = Layout::new(11, &one);
    assert_eq!(l.num_objects, 15);
    assert_eq!(l.render_buffer_len(), 256);
    assert_eq!(l.node_buffer_len(), 300);
    let none: Vec<CarCounts> = Vec::new();
    let e = Layout::new(3, &none);
    assert_eq!(e.num_objects, 3);
    assert_eq!(e.total_nodes, 0);
    assert!(e.node_offsets.is_empty());
}

#[test]
fn render_buffer_writes_only_its_matrix() {
    let mut r = RenderBuffer::new(2, 0.0f32);
    assert_eq!(r.len(), 48);
    let mut m = [0.0f32; 16];
    for (k, x) in m.iter_mut().enumerate() {
        *x = k as f32 + 1.0;
    }
    r.set_model(1, &m);
    assert_eq!(&r.data[32..48], &m[..]);
    assert!(r.data[0..32].iter().all(|&v| v == 0.0));
    let v = [7.0f32; 16];
    r.set_view(&v);
    assert_eq!(&r.data[0..16], &v[..]);
    assert!(r.data[16..32].iter().all(|&v| v == 0.0));
    assert_eq!(&r.data[32..48], &m[..]);
}

#[test]
fn scatter_and_interleave_positions() {
    let px = vec![1.0f32, 2.0];
    let py = vec![3.0f32, 4.0];
    let pz = vec![5.0f32, 6.0];
    let mut buf = vec![-1.0f32; 12];
    scatter_xyz(&mut buf, 1, &px, &py, &pz);
    assert_eq!(buf, vec![-1.0, -1.0, -1.0, 1.0, 3.0, 5.0, 2.0, 4.0, 6.0, -1.0, -1.0, -1.0]);
    assert_eq!(interleave_xyz(2, &px, &py, &pz), vec![1.0, 3.0, 5.0, 2.0, 4.0, 6.0]);
    assert_eq!(interleave_xyz(1, &px, &py, &pz), vec![1.0, 3.0, 5.0]);
}

fn beams(pairs: &[(u32, u32)]) -> Beams<f32> {
    let mut b: Beams<f32> = Beams::new();
    for &(a, c) in pairs {
        b.push(a, c, 1.0, 1.0, 1.0, 0.1, 0.5, BeamKind::Normal);
    }
    b
}

#[test]
fn lines_are_sorted_by_band_and_skip_broken_beams() {
    let mut c0 = beams(&[(0, 1), (1, 2), (2, 3)]);
    c0.broken[1] = true;
    let c1 = beams(&[(0, 1), (1, 2)]);
    let cars = vec![&c0, &c1];
    let offsets = vec![0usize, 10];
    let bands = vec![vec![2usize, 0, 0], vec![0usize, 3]];
    let mut buf = vec![u32::MAX; 10];
    let r = fill_lines(&mut buf, &cars, &offsets, &bands);
    assert_eq!(r.line_count, 8);
    assert_eq!(r.bands, [4, 0, 2, 2]);
    assert_eq!(&buf[0..8], &[2, 3, 10, 11, 0, 1, 11, 12]);
    assert_eq!(&buf[8..10], &[u32::MAX, u32::MAX]);
}

#[test]
fn lines_of_an_all_broken_car_are_empty() {
    let mut c0 = beams(&[(0, 1)]);
    c0.broken[0] = true;
    let cars = vec![&c0];
    let mut buf = vec![9u32; 2];
    let r = fill_lines(&mut buf, &cars, &vec![0], &vec![vec![1]]);
    assert_eq!(r.line_count, 0);
    assert_eq!(r.bands, [0, 0, 0, 0]);
    assert_eq!(buf, vec![9, 9]);
}

#[test]
fn decimal_text() {
    let mut s = String::from("n=");
    push_decimal(&mut s, 0);
    s.push(' ');
    push_decimal(&mut s, 90210);
    s.push(' ');
    push_decimal(&mut s, u64::MAX);
    assert_eq!(s, "n=0 90210 18446744073709551615");
}

#[test]
fn descriptor_lists_global_beam_endpoints() {
    let c0 = beams(&[(0, 1), (1, 2)]);
    let c1 = beams(&[(0, 1)]);
    let s = soft_descriptor_json(5, &vec![&c0, &c1], &vec![0, 3]);
    assert_eq!(s, "{\"nodeCount\":5,\"color\":[0.85,0.75,0.25],\"beams\":[0,1,1,2,3,4]}");
    let list = &s[s.find("\"beams\":[").unwrap() + 9..s.len() - 2];
    assert_eq!(list.split(',').count(), 2 * (c0.len() + c1.len()));
    let empty: Vec<&Beams<f32>> = Vec::new();
    assert_eq!(
        soft_descriptor_json(0, &empty, &vec![]),
        "{\"nodeCount\":0,\"color\":[0.85,0.75,0.25],\"beams\":[]}"
    );
}

#[test]
fn fleet_selection_and_impacts() {
    let mut f = Fleet::new();
    assert_eq!((f.car_count, f.active, f.prev_broken), (1, 0, 0));
    assert!(f.can_spawn_near());
    f.add_car();
    assert_eq!(f.car_count, 2);
    assert!(!f.set_active(2, 7));
    assert_eq!((f.active, f.prev_broken), (0, 0));
    assert!(f.set_active(1, 3));
    assert_eq!((f.active, f.prev_broken), (1, 3));
    assert_eq!(f.record_broken(3), 0);
    assert_eq!(f.record_broken(5), 2);
    assert_eq!(f.record_broken(5), 0);
    assert_eq!(f.record_broken(0), 0);
    assert_eq!(f.prev_broken, 0);
    while f.car_count < MAX_CARS {
        f.add_car();
    }
    assert!(!f.can_spawn_near());
}
