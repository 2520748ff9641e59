use rustrast::raster::{depth_in_range, depth_key, depth_order, draw_points, gray, paint, Sample};

#[test]
fn depth_key_follows_total_order() {
    let zs = [
        f32::NEG_INFINITY, -2.5, -1.0, -0.0, 0.0, 1e-30, 0.25, 0.5, 0.99999994, 1.0, 3.0, f32::INFINITY, f32::NAN,
    ];
    for a in zs {
        for b in zs {
            let by_key = depth_key(a.to_bits()).cmp(&depth_key(b.to_bits()));
            assert_eq!(by_key, a.total_cmp(&b), "{} {}", a, b);
        }
    }
}

#[test]
fn depth_range_is_zero_to_one() {
    for z in [0.0f32, -0.0, 1e-40, 0.5, 0.99999994] {
        assert!(depth_in_range(z.to_bits()), "{}", z);
    }
    for z in [1.0f32, -1e-40, -0.5, 2.0, f32::NAN, -f32::NAN, f32::INFINITY, f32::NEG_INFINITY] {
        assert!(!depth_in_range(z.to_bits()), "{}", z);
    }
}

#[test]
fn gray_fills_blue_green_red() {
    assert_eq!(gray(0), 0);
    assert_eq!(gray(255), 0x00FF_FFFF);
    assert_eq!(gray(0x12), 0x0012_1212);
}

#[test]
fn depth_order_is_monotonic_on_a_permutation() {
    let zs: Vec<f32> = vec![0.3, 0.9, 0.1, 0.7, 0.5, 0.2, 0.8, 0.0, 0.6, 0.4];
    let keys: Vec<u32> = zs.iter().map(|z| depth_key(z.to_bits())).collect();
    let order = depth_order(&keys);
    assert_eq!(order, vec![1, 6, 3, 8, 4, 9, 0, 5, 2, 7]);
    for w in order.windows(2) {
        assert!(zs[w[0]] > zs[w[1]]);
    }
}

#[test]
fn depth_order_of_nothing() {
    assert!(depth_order(&Vec::new()).is_empty());
}

#[test]
fn depth_order_with_equal_keys_keeps_every_index() {
    let keys = vec![5u32, 5, 1, 5, 9];
    let mut order = depth_order(&keys);
    assert_eq!(order[0], 4);
    assert_eq!(order[4], 2);
    order.sort();
    assert_eq!(order, vec![0, 1, 2, 3, 4]);
}

fn sample(x: i64, y: i64, z: f32, intensity: u8) -> Sample {
    Sample { x, y, depth: z.to_bits(), intensity }
}

#[test]
fn single_point_writes_single_pixel() {
    let sentinel = 0xDEAD_BEEFu32;
    let mut buffer = vec![sentinel; 100 * 100];
    draw_points(&mut buffer, 100, 100, &vec![sample(50, 50, 0.0, 255)]);
    for (i, &c) in buffer.iter().enumerate() {
        if i == 50 * 100 + 50 {
            assert_eq!(c, 0x00FF_FFFF);
        } else {
            assert_eq!(c, sentinel);
        }
    }
}

#[test]
fn points_outside_are_skipped() {
    let mut buffer = vec![7u32; 4 * 3];
    let samples = vec![
        sample(-1, 0, 0.5, 1),
        sample(4, 0, 0.5, 1),
        sample(0, -1, 0.5, 1),
        sample(0, 3, 0.5, 1),
        sample(1, 1, 1.0, 1),
        sample(1, 1, -0.1, 1),
        sample(1, 1, f32::NAN, 1),
        sample(3, 2, 0.5, 9),
    ];
    draw_points(&mut buffer, 4, 3, &samples);
    let mut expected = vec![7u32; 12];
    expected[2 * 4 + 3] = gray(9);
    assert_eq!(buffer, expected);
}

#[test]
fn nearest_point_wins_a_pixel() {
    let mut buffer = vec![0u32; 2 * 2];
    let samples = vec![sample(1, 0, 0.2, 200), sample(1, 0, 0.9, 30), sample(1, 0, 0.5, 100), sample(0, 1, 0.4, 10)];
    draw_points(&mut buffer, 2, 2, &samples);
    assert_eq!(buffer, vec![0, gray(200), gray(10), 0]);
}

#[test]
fn paint_follows_the_given_order() {
    let mut buffer = vec![0u32; 3];
    let samples = vec![sample(1, 0, 0.2, 1), sample(1, 0, 0.9, 2)];
    paint(&mut buffer, 3, 1, &samples, &vec![1, 0]);
    assert_eq!(buffer, vec![0, gray(1), 0]);
    paint(&mut buffer, 3, 1, &samples, &vec![0, 1]);
    assert_eq!(buffer, vec![0, gray(2), 0]);
}
