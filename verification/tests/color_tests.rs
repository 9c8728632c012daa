use mandelbrot_rs::color::{iter_to_color, BLACK};

/// The palette as a floating-point computation, channel by channel.
fn float_color(iter: u32, max_iter: u32) -> u32 {
    if iter == max_iter {
        return 0xff_000000;
    }
    let t = iter as f64 / max_iter as f64;
    let r = (9.0 * (1.0 - t) * t * t * t * 255.0) as u32;
    let g = (15.0 * (1.0 - t) * (1.0 - t) * t * t * 255.0) as u32;
    let b = (8.5 * (1.0 - t) * (1.0 - t) * (1.0 - t) * t * 255.0) as u32;
    0xff_000000 | (r.min(255) << 16) | (g.min(255) << 8) | b.min(255)
}

#[test]
fn points_in_the_set_are_black() {
    assert_eq!(iter_to_color(256, 256), BLACK);
    assert_eq!(iter_to_color(0, 0), BLACK);
    assert_eq!(iter_to_color(17, 17), 0xff00_0000);
}

#[test]
fn zero_iterations_is_opaque_black() {
    assert_eq!(iter_to_color(0, 256), 0xff00_0000);
}

#[test]
fn midpoint_color() {
    // t = 1/2: red 143.4, green 239.1, blue 135.5
    assert_eq!(iter_to_color(128, 256), 0xff00_0000 | (143 << 16) | (239 << 8) | 135);
}

#[test]
fn matches_palette_for_every_count_below_256() {
    for i in 0..=300u32 {
        assert_eq!(iter_to_color(i, 256), float_color(i, 256), "iter {}", i);
    }
}

#[test]
fn matches_palette_for_other_power_of_two_limits() {
    for &m in &[1u32, 2, 8, 64, 512, 1024] {
        for i in 0..(m + 40) {
            assert_eq!(iter_to_color(i, m), float_color(i, m), "iter {} of {}", i, m);
        }
    }
}

#[test]
fn past_the_limit_only_green_remains() {
    // t > 1: red and blue are negative, green grows without bound
    assert_eq!(iter_to_color(300, 256), float_color(300, 256));
    assert_eq!(iter_to_color(1000, 256), 0xff00_ff00);
    assert_eq!(iter_to_color(u32::MAX, 256), 0xff00_ff00);
}

#[test]
fn zero_limit_gives_green() {
    assert_eq!(iter_to_color(5, 0), 0xff00_ff00);
    assert_eq!(iter_to_color(5, 0), float_color(5, 0));
}

#[test]
fn large_limits_do_not_overflow() {
    let c = iter_to_color(u32::MAX - 1, u32::MAX);
    assert_eq!(c >> 24, 0xff);
    assert_eq!(iter_to_color(u32::MAX / 2, u32::MAX) >> 24, 0xff);
    assert_eq!(iter_to_color(1, u32::MAX), 0xff00_0000);
}

#[test]
fn matches_palette_for_small_limits() {
    for m in 1..200u32 {
        for i in 0..(m + 20) {
            assert_eq!(iter_to_color(i, m), float_color(i, m), "iter {} of {}", i, m);
        }
    }
}
