use forkjoin_bench::stencil::{apply_filter_parallel, apply_filter_sequential, blur_pixel, Image, FILL};

fn patterned(width: usize, height: usize) -> Image {
    let mut img = Image::new(width, height);
    for y in 0..height {
        for x in 0..width {
            let v = ((x * 37 + y * 91) % 256) as u8;
            img.set_pixel(x, y, [v, v.wrapping_mul(3), 255 - v]);
        }
    }
    img
}

fn expected_channel(img: &Image, x: usize, y: usize, c: usize) -> u8 {
    let mut sum: u32 = 0;
    for py in y - 1..=y + 1 {
        for px in x - 1..=x + 1 {
            sum += img.get_pixel(px, py)[c] as u32;
        }
    }
    (sum / 9) as u8
}

#[test]
fn uniform_image_is_a_fixed_point() {
    let img = Image::new(4, 4);
    for out in [apply_filter_sequential(&img), apply_filter_parallel(&img)] {
        assert_eq!(out.width, 4);
        assert_eq!(out.height, 4);
        assert_eq!(out.data.len(), 4 * 4 * 3);
        assert!(out.data.iter().all(|&v| v == 128));
    }
}

#[test]
fn interior_is_truncated_average_and_border_is_fill() {
    let img = patterned(9, 6);
    let out = apply_filter_sequential(&img);
    for y in 0..6 {
        for x in 0..9 {
            let px = out.get_pixel(x, y);
            for c in 0..3 {
                if x >= 1 && x + 1 < 9 && y >= 1 && y + 1 < 6 {
                    assert_eq!(px[c], expected_channel(&img, x, y, c));
                } else {
                    assert_eq!(px[c], FILL);
                }
            }
        }
    }
}

#[test]
fn sequential_and_parallel_blur_agree() {
    for (w, h) in [(3, 3), (5, 7), (16, 9), (64, 33)] {
        let img = patterned(w, h);
        let a = apply_filter_sequential(&img);
        let b = apply_filter_parallel(&img);
        assert_eq!(a.data, b.data);
    }
}

#[test]
fn exact_average_of_known_neighbourhood() {
    let mut img = Image::new(3, 3);
    let mut v = 10u8;
    for y in 0..3 {
        for x in 0..3 {
            img.set_pixel(x, y, [v, 0, 255]);
            v += 10;
        }
    }
    // 10 + 20 + ... + 90 = 450, 450 / 9 = 50; 9 * 255 / 9 = 255
    assert_eq!(blur_pixel(&img, 1, 1), [50, 0, 255]);
    let out = apply_filter_parallel(&img);
    assert_eq!(out.get_pixel(1, 1), [50, 0, 255]);
    assert_eq!(out.get_pixel(0, 0), [FILL, FILL, FILL]);
    assert_eq!(out.get_pixel(2, 1), [FILL, FILL, FILL]);
}

#[test]
fn truncating_division() {
    let mut img = Image::new(3, 3);
    for y in 0..3 {
        for x in 0..3 {
            img.set_pixel(x, y, [0, 0, 0]);
        }
    }
    img.set_pixel(2, 2, [8, 9, 17]);
    assert_eq!(blur_pixel(&img, 1, 1), [0, 1, 1]);
}

#[test]
fn images_without_interior_stay_filled() {
    for (w, h) in [(0, 0), (1, 1), (2, 2), (2, 5), (5, 2), (0, 4)] {
        let img = patterned(w, h);
        let a = apply_filter_sequential(&img);
        let b = apply_filter_parallel(&img);
        assert_eq!(a.data.len(), w * h * 3);
        assert!(a.data.iter().all(|&v| v == FILL));
        assert_eq!(a.data, b.data);
    }
}

#[test]
fn set_pixel_changes_one_pixel() {
    let mut img = Image::new(3, 2);
    img.set_pixel(1, 1, [1, 2, 3]);
    assert_eq!(img.get_pixel(1, 1), [1, 2, 3]);
    assert_eq!(img.channel(1, 1, 2), 3);
    assert_eq!(img.data[(1 * 3 + 1) * 3], 1);
    assert_eq!(img.get_pixel(0, 1), [128, 128, 128]);
    assert_eq!(img.get_pixel(2, 0), [128, 128, 128]);
}
