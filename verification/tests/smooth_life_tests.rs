use mandelbrot_rs::smooth_life::{centre_disc, noise_disc, paint_disc, GRID_W, N};

#[test]
fn paint_radius_zero_is_one_cell() {
    assert_eq!(paint_disc(3, 4, 0), vec![4 * GRID_W + 3]);
}

#[test]
fn paint_radius_one_is_a_plus() {
    let mut v = paint_disc(10, 20, 1);
    v.sort();
    assert_eq!(v, vec![19 * 256 + 10, 20 * 256 + 9, 20 * 256 + 10, 20 * 256 + 11, 21 * 256 + 10]);
}

#[test]
fn paint_wraps_at_the_edges() {
    let mut v = paint_disc(0, 255, 1);
    v.sort();
    assert_eq!(v, vec![0, 254 * 256, 255 * 256, 255 * 256 + 1, 255 * 256 + 255]);
}

#[test]
fn negative_radius_paints_nothing() {
    assert!(paint_disc(5, 5, -3).is_empty());
}

#[test]
fn paint_radius_twelve_counts_lattice_points() {
    let v = paint_disc(128, 128, 12);
    let expected = (-12i32..=12)
        .flat_map(|dy| (-12i32..=12).map(move |dx| (dx, dy)))
        .filter(|(dx, dy)| dx * dx + dy * dy <= 144)
        .count();
    assert_eq!(v.len(), expected);
    assert!(v.iter().all(|&k| k < N));
}

#[test]
fn noise_follows_the_generator() {
    let v = noise_disc();
    let mut seed = 42u64;
    let mut expected = Vec::new();
    for y in 98..158usize {
        for x in 98..158usize {
            let dx = x as i64 - 128;
            let dy = y as i64 - 128;
            if dx * dx + dy * dy < 900 {
                seed = seed.wrapping_mul(6364136223846793005).wrapping_add(1);
                expected.push((y * 256 + x, (seed >> 33) as u32));
            }
        }
    }
    assert_eq!(v, expected);
    assert_eq!(v[0].0, 99 * 256 + 128 - 7);
}

#[test]
fn centre_disc_scans_rows_strictly_inside() {
    let r = 20usize;
    let mut expected = Vec::new();
    for y in (128 - r)..(128 + r) {
        for x in (128 - r)..(128 + r) {
            let dx = x as f32 - 128.0;
            let dy = y as f32 - 128.0;
            if dx * dx + dy * dy < (r * r) as f32 {
                expected.push(y * GRID_W + x);
            }
        }
    }
    assert_eq!(mandelbrot_rs::smooth_life::centre_disc(r), expected);
    assert_eq!(mandelbrot_rs::smooth_life::centre_disc(1), vec![128 * 256 + 128]);
}

#[test]
fn paint_visits_rows_in_order() {
    assert_eq!(
        paint_disc(10, 20, 1),
        vec![19 * 256 + 10, 20 * 256 + 9, 20 * 256 + 10, 20 * 256 + 11, 21 * 256 + 10]
    );
}

#[test]
fn centre_disc_holds_exactly_the_cells_inside() {
    for r in [1usize, 2, 7, 30] {
        let cells = centre_disc(r);
        for y in 0..256usize {
            for x in 0..256usize {
                let dx = x as i64 - 128;
                let dy = y as i64 - 128;
                let inside = dx * dx + dy * dy < (r * r) as i64;
                assert_eq!(cells.contains(&(y * 256 + x)), inside);
            }
        }
    }
}

#[test]
fn noise_values_scale_into_the_unit_interval() {
    let v = noise_disc();
    assert!(!v.is_empty());
    for &(k, value) in &v {
        assert!(value < 0x8000_0000);
        let f = value as f32 / (1u64 << 31) as f32;
        assert!((0.0..=1.0).contains(&f));
        let (x, y) = ((k % 256) as i64, (k / 256) as i64);
        assert!((x - 128) * (x - 128) + (y - 128) * (y - 128) < 900);
    }
    // calling it again gives the same noise
    assert_eq!(noise_disc(), v);
}
