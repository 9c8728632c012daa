use mandelbrot_rs::progressive::{
    row_samples, PixelBuffer, ProgressiveRenderer, RefinementSchedule, Work, INITIAL_BLOCK_SIZE,
};

#[test]
fn new_renderer_is_dirty_and_empty() {
    let r = ProgressiveRenderer::new();
    assert_eq!(r.width, 0);
    assert_eq!(r.height, 0);
    assert!(r.dirty);
    assert!(!r.is_computing());
    assert!(!r.needs_compute());
}

#[test]
fn set_size_reports_changes() {
    let mut r = ProgressiveRenderer::new();
    r.begin_compute();
    assert!(!r.dirty);
    assert!(!r.set_size(0, 0));
    assert!(!r.dirty);
    assert!(r.set_size(640, 480));
    assert_eq!((r.width, r.height), (640, 480));
    assert!(r.dirty);
    r.begin_compute();
    assert!(!r.set_size(640, 480));
    assert!(!r.dirty);
    assert!(r.set_size(640, 481));
    assert!(r.dirty);
}

#[test]
fn mark_dirty_sets_only_dirty() {
    let mut r = ProgressiveRenderer::new();
    r.set_size(10, 20);
    r.begin_compute();
    r.mark_dirty();
    assert!(r.dirty);
    assert!(r.is_computing());
    assert_eq!((r.width, r.height), (10, 20));
}

#[test]
fn compute_lifecycle() {
    let mut r = ProgressiveRenderer::new();
    assert!(!r.needs_compute());
    r.set_size(4, 0);
    assert!(!r.needs_compute());
    r.set_size(4, 3);
    assert!(r.needs_compute());
    r.begin_compute();
    assert!(r.is_computing());
    assert!(!r.needs_compute());
    r.observe_done(false);
    assert!(r.is_computing());
    r.observe_done(true);
    assert!(!r.is_computing());
}

#[test]
fn buffer_begin_resizes_and_keeps_prefix() {
    let mut b = PixelBuffer::new();
    assert!(b.is_done());
    assert!(!b.has_image());
    assert_eq!(b.current_block_size(), INITIAL_BLOCK_SIZE);
    b.begin(3, 2);
    assert_eq!((b.width(), b.height()), (3, 2));
    assert!(!b.is_done());
    assert!(b.has_image());
    assert_eq!(b.row_bytes(), 12);
    for k in 0..6 {
        assert_eq!(b.pixel(k), 0);
    }
    b.fill_block(3, 2, 0, 0, 4, 7);
    b.begin(2, 2);
    for k in 0..4 {
        assert_eq!(b.pixel(k), 7);
    }
    b.set_block_size(8);
    assert_eq!(b.current_block_size(), 8);
    b.finish();
    assert!(b.is_done());
}

#[test]
fn fill_block_is_clipped_to_the_image() {
    let mut b = PixelBuffer::new();
    b.begin(5, 4);
    b.fill_block(5, 4, 3, 2, 4, 9);
    for y in 0..4usize {
        for x in 0..5usize {
            let expected = if x >= 3 && y >= 2 { 9 } else { 0 };
            assert_eq!(b.pixel(y * 5 + x), expected, "({}, {})", x, y);
        }
    }
}

#[test]
fn block_fits_checks_the_last_row() {
    let mut b = PixelBuffer::new();
    b.begin(4, 4);
    assert!(b.block_fits(4, 4, 0, 0, 64));
    // rows of a wider image run past the end of a smaller buffer
    assert!(!b.block_fits(8, 4, 0, 2, 2));
    assert!(b.block_fits(8, 4, 0, 0, 2));
}

#[test]
fn row_samples_skip_coarse_points() {
    assert_eq!(row_samples(200, 64, 0), vec![0, 64, 128, 192]);
    assert_eq!(row_samples(100, 32, 0), vec![32, 96]);
    assert_eq!(row_samples(100, 32, 32), vec![0, 32, 64, 96]);
    assert_eq!(row_samples(5, 1, 2), vec![1, 3]);
    assert_eq!(row_samples(5, 1, 1), vec![0, 1, 2, 3, 4]);
    assert!(row_samples(0, 8, 0).is_empty());
}

fn color_at(x: usize, y: usize) -> u32 {
    (x * 1000 + y) as u32
}

#[test]
fn passes_refine_to_full_resolution() {
    let (w, h) = (100usize, 70usize);
    let mut b = PixelBuffer::new();
    b.begin(w as u32, h as u32);
    let mut bs = INITIAL_BLOCK_SIZE as usize;
    while bs >= 1 {
        let mut py = 0;
        while py < h {
            for px in row_samples(w as u32, bs as u32, py as u32) {
                let px = px as usize;
                assert!(b.block_fits(w, h, px, py, bs));
                b.fill_block(w, h, px, py, bs, color_at(px, py));
            }
            py += bs;
        }
        b.set_block_size(bs as u32);
        // every pixel holds the colour computed at the corner of its block
        for y in 0..h {
            for x in 0..w {
                assert_eq!(b.pixel(y * w + x), color_at(x - x % bs, y - y % bs));
            }
        }
        bs /= 2;
    }
    b.finish();
    for y in 0..h {
        for x in 0..w {
            assert_eq!(b.pixel(y * w + x), color_at(x, y));
        }
    }
}

#[test]
fn pixel_bytes_are_native_order() {
    let mut b = PixelBuffer::new();
    b.begin(2, 1);
    b.fill_block(2, 1, 0, 0, 1, 0xff10_2030);
    b.fill_block(2, 1, 1, 0, 1, 0x0102_0304);
    let bytes = b.pixel_bytes();
    assert_eq!(bytes.len(), 8);
    assert_eq!(&bytes[0..4], &0xff10_2030u32.to_ne_bytes());
    assert_eq!(&bytes[4..8], &0x0102_0304u32.to_ne_bytes());
}

#[test]
fn words_as_bytes_keeps_every_byte() {
    let words = [0x1122_3344u32, 0xaabb_ccdd];
    let bytes = mandelbrot_rs::progressive::words_as_bytes(&words);
    assert_eq!(bytes.len(), 8);
    let mut expected = Vec::new();
    expected.extend_from_slice(&words[0].to_ne_bytes());
    expected.extend_from_slice(&words[1].to_ne_bytes());
    assert_eq!(bytes, &expected[..]);
}

#[test]
fn schedule_runs_every_pass_in_order() {
    let (w, h) = (70usize, 45usize);
    let mut b = PixelBuffer::new();
    b.begin(w as u32, h as u32);
    let mut s = RefinementSchedule::new(w as u32, h as u32);
    let mut passes = Vec::new();
    let mut rows_in_pass = 0;
    loop {
        match s.next() {
            Work::Row { py, block_size, columns } => {
                assert_eq!(py as usize % block_size as usize, 0);
                assert_eq!(columns, row_samples(w as u32, block_size, py));
                for px in columns {
                    let (px, py) = (px as usize, py as usize);
                    b.fill_block(w, h, px, py, block_size as usize, color_at(px, py));
                }
                rows_in_pass += 1;
            }
            Work::PassDone { block_size } => {
                assert_eq!(rows_in_pass, (h + block_size as usize - 1) / block_size as usize);
                rows_in_pass = 0;
                passes.push(block_size);
            }
            Work::Finished => break,
        }
    }
    assert_eq!(passes, vec![64, 32, 16, 8, 4, 2, 1]);
    assert!(matches!(s.next(), Work::Finished));
    for y in 0..h {
        for x in 0..w {
            assert_eq!(b.pixel(y * w + x), color_at(x, y));
        }
    }
}

#[test]
fn begin_frame_starts_once_per_change() {
    let mut r = ProgressiveRenderer::new();
    // an empty area never starts a computation
    assert!(!r.begin_frame(0, 10));
    assert!(r.dirty);
    // the first frame with an area starts one
    assert!(r.begin_frame(40, 30));
    assert!(r.is_computing());
    assert!(!r.dirty);
    // the same size again does not
    assert!(!r.begin_frame(40, 30));
    // a resize does
    assert!(r.begin_frame(41, 30));
    assert_eq!((r.width, r.height), (41, 30));
    // so does marking the content dirty
    r.observe_done(true);
    assert!(!r.is_computing());
    r.mark_dirty();
    assert!(r.begin_frame(41, 30));
    assert!(r.is_computing());
}

#[test]
fn schedule_hands_out_each_pixel_once() {
    let (w, h) = (131usize, 67usize);
    let mut s = RefinementSchedule::new(w as u32, h as u32);
    let mut times = vec![0u32; w * h];
    let mut pass_of = vec![0u32; w * h];
    let mut in_pass = Vec::new();
    loop {
        match s.next() {
            Work::Row { py, block_size, columns } => {
                for px in columns {
                    let k = py as usize * w + px as usize;
                    times[k] += 1;
                    pass_of[k] = block_size;
                    in_pass.push((px as usize, py as usize));
                }
            }
            Work::PassDone { block_size } => {
                // the rows of the pass held exactly its samples
                let bs = block_size as usize;
                let mut expected = Vec::new();
                for y in (0..h).step_by(bs) {
                    for x in (0..w).step_by(bs) {
                        let coarse = bs < 64 && x % (2 * bs) == 0 && y % (2 * bs) == 0;
                        if !coarse {
                            expected.push((x, y));
                        }
                    }
                }
                in_pass.sort();
                expected.sort();
                assert_eq!(in_pass, expected);
                in_pass.clear();
            }
            Work::Finished => break,
        }
    }
    assert!(times.iter().all(|&t| t == 1));
    // a pixel is computed in the pass of the largest block size whose grid it lies on
    assert_eq!(pass_of[0], 64);
    assert_eq!(pass_of[32], 32);
    assert_eq!(pass_of[w + 1], 1);
    assert_eq!(pass_of[2 * w + 6], 2);
}
