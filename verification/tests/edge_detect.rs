use edge_detect::bitmap::{Bitmap, BitmapFileHeader, BitmapInfoHeader};
use edge_detect::canny::EdgeKernel;
use edge_detect::canny::sector_of;
use edge_detect::gaussian_blur::get_gaussian_kernel;
use edge_detect::image::{Image, ImageFormat};

// exp(-1/(4*pi)) at scale 65536, the per-step attenuation of the blur's
// bell curve for sigma = 1.0 under the generator's exponent.
const DECAY_SIGMA_1: u64 = 60523;

fn bmp_tag() -> ImageFormat {
    ImageFormat::BMP(Bitmap {
        file_header: BitmapFileHeader {
            header_field_a: b'B',
            header_field_b: b'M',
            file_size: 0,
            reserved_a: 0,
            reserved_b: 0,
            image_offset: 54,
        },
        info_header: BitmapInfoHeader {
            header_size: 40,
            bitmap_width: 0,
            bitmap_height: 0,
            color_planes: 1,
            bit_count: 24,
            compression_method: 0,
            image_size: 0,
            horizontal_resolution: 0,
            vertical_resolution: 0,
            color_palette: 0,
            important_colors: 0,
        },
    })
}

fn gray_image(width: u32, height: u32, values: &[u8]) -> Image {
    assert_eq!(values.len(), (width * height) as usize);
    let mut pixels = Vec::new();
    for v in values {
        pixels.push(*v);
        pixels.push(*v);
        pixels.push(*v);
    }
    Image { width, height, pixels, format: bmp_tag() }
}

#[test]
fn sobel_kernel_contents() {
    let k = EdgeKernel::Sobel.kernel();
    assert_eq!(k.size, 3);
    assert_eq!(k.kx, vec![-1, 0, 1, -2, 0, 2, -1, 0, 1]);
    assert_eq!(k.ky, vec![-1, -2, -1, 0, 0, 0, 1, 2, 1]);
    let r = EdgeKernel::Roberts.kernel();
    assert_eq!(r.size, 2);
    assert_eq!(r.kx, vec![1, 0, 0, -1]);
    assert_eq!(r.ky, vec![0, 1, -1, 0]);
    let p = EdgeKernel::Prewitt.kernel();
    assert_eq!(p.size, 3);
    assert_eq!(p.kx, vec![1, 1, 1, 0, 0, 0, -1, -1, -1]);
    assert_eq!(p.ky, vec![1, 0, -1, 1, 0, -1, 1, 0, -1]);
}

#[test]
fn sector_matches_float_angle() {
    // The integer sector tests must agree with bucketing the atan2 angle in
    // degrees, normalised into [0, 180], at 22.5 / 67.5 / 112.5 / 157.5.
    for gx in -40i64..41 {
        for gy in -40i64..41 {
            let angle = (gy as f64).atan2(gx as f64) * (180.0 / std::f64::consts::PI);
            let angle = if angle < 0.0 { angle + 180.0 } else { angle };
            let expect: u8 = if angle <= 22.5 || angle > 157.5 {
                0
            } else if angle <= 67.5 {
                1
            } else if angle <= 112.5 {
                2
            } else {
                3
            };
            assert_eq!(sector_of(gx, gy), expect, "gx={} gy={}", gx, gy);
        }
    }
}

#[test]
fn grayscale_luma_exact() {
    let img = Image {
        width: 2,
        height: 1,
        pixels: vec![10, 20, 30, 200, 100, 50],
        format: bmp_tag(),
    };
    let g = img.to_grayscale();
    assert_eq!(g.width, 2);
    assert_eq!(g.height, 1);
    // (114*10 + 587*20 + 299*30 + 500) / 1000 = 22
    assert_eq!(&g.pixels[0..3], &[22, 22, 22]);
    // (114*200 + 587*100 + 299*50 + 500) / 1000 = 96
    assert_eq!(&g.pixels[3..6], &[96, 96, 96]);
}

#[test]
fn grayscale_leaves_gray_fixed() {
    let img = gray_image(3, 3, &[7; 9]);
    let g = img.to_grayscale();
    assert_eq!(g.pixels, vec![7u8; 27]);
}

#[test]
fn nms_step_edge_single_column() {
    // A vertical step with a one-pixel ramp, constant down each column: the
    // suppressor must keep a single one-pixel-wide column at the step.
    let mut values = Vec::new();
    for _y in 0..10 {
        for x in 0..10 {
            values.push(match x {
                0..=3 => 0u8,
                4 => 82,
                5 => 172,
                _ => 255,
            });
        }
    }
    let img = gray_image(10, 10, &values);
    let out = img.non_maximum_suppression(EdgeKernel::Sobel);
    assert_eq!(out.width, 10);
    assert_eq!(out.height, 10);
    for y in 0..10usize {
        for x in 0..10usize {
            let v = out.pixels[3 * (y * 10 + x)];
            let expect = if x == 5 && (1..=8).contains(&y) { 255 } else { 0 };
            assert_eq!(v, expect, "x={} y={}", x, y);
            assert_eq!(out.pixels[3 * (y * 10 + x) + 1], expect);
            assert_eq!(out.pixels[3 * (y * 10 + x) + 2], expect);
        }
    }
}

#[test]
fn hysteresis_strong_weak_and_isolated() {
    // Strong seed at (1,1); weak chain (2,2), (3,3) connected to it; an
    // isolated weak pixel at (4,0); a below-lower pixel at (0,0) touching
    // the seed.
    let mut values = vec![0u8; 25];
    values[1 * 5 + 1] = 200;
    values[2 * 5 + 2] = 60;
    values[3 * 5 + 3] = 60;
    values[0 * 5 + 4] = 60;
    values[0 * 5 + 0] = 40;
    let img = gray_image(5, 5, &values);
    let out = img.hysteresis_thresholding(50, 100);
    for y in 0..5usize {
        for x in 0..5usize {
            let v = out.pixels[3 * (y * 5 + x)];
            let expect = if (x, y) == (1, 1) || (x, y) == (2, 2) || (x, y) == (3, 3) {
                255
            } else {
                0
            };
            assert_eq!(v, expect, "x={} y={}", x, y);
        }
    }
}

#[test]
fn hysteresis_all_strong() {
    let img = gray_image(2, 2, &[255, 255, 255, 255]);
    let out = img.hysteresis_thresholding(50, 100);
    assert_eq!(out.pixels, vec![255u8; 12]);
}

#[test]
fn hysteresis_idempotent_on_binarized() {
    let mut values = vec![0u8; 25];
    values[6] = 200;
    values[12] = 60;
    values[18] = 60;
    values[4] = 60;
    let img = gray_image(5, 5, &values);
    let once = img.hysteresis_thresholding(50, 100);
    let again = Image {
        width: once.width,
        height: once.height,
        pixels: once.pixels.clone(),
        format: once.format,
    };
    let twice = again.hysteresis_thresholding(50, 100);
    assert_eq!(twice.pixels, once.pixels);
    assert_eq!(twice.width, once.width);
    assert_eq!(twice.height, once.height);
}

#[test]
fn kernel_weights_sum_to_one() {
    let k = get_gaussian_kernel(5, DECAY_SIGMA_1);
    assert_eq!(k.weights.len(), 5);
    let sum: u64 = k.weights.iter().sum();
    assert_eq!(sum, k.sum);
    let normalised: f64 = k.weights.iter().map(|w| *w as f64 / k.sum as f64).sum();
    assert!((normalised - 1.0).abs() < 1e-9);
}

#[test]
fn kernel_weights_symmetric() {
    let k = get_gaussian_kernel(7, DECAY_SIGMA_1);
    for i in 0..7 {
        assert_eq!(k.weights[i], k.weights[6 - i]);
    }
    assert_eq!(k.weights[3], 65536);
}

#[test]
fn convolution_preserves_dimensions() {
    let k = get_gaussian_kernel(3, DECAY_SIGMA_1);
    let img = gray_image(7, 4, &[9; 28]);
    let out = img.horizontal_convolution(&k);
    assert_eq!(out.width, 7);
    assert_eq!(out.height, 4);
    assert_eq!(out.pixels.len(), 7 * 4 * 3);
    let out2 = out.vertical_convolution(&k);
    assert_eq!(out2.width, 7);
    assert_eq!(out2.height, 4);
    assert_eq!(out2.pixels.len(), 7 * 4 * 3);
}

#[test]
fn blur_leaves_flat_image_unchanged() {
    let img = gray_image(5, 5, &[128; 25]);
    let k = get_gaussian_kernel(3, DECAY_SIGMA_1);
    let out = img.horizontal_convolution(&k).vertical_convolution(&k);
    assert_eq!(out.width, 5);
    assert_eq!(out.height, 5);
    assert_eq!(out.pixels, vec![128u8; 75]);
}

#[test]
fn horizontal_convolution_of_step_exact_values() {
    // One row of a black/white step: the kernel [60523, 65536, 60523] with
    // sum 186582 gives floor(255*60523/186582) = 82 just left of the step
    // and floor(255*126059/186582) = 172 just right of it.
    let mut values = Vec::new();
    for x in 0..10 {
        values.push(if x < 5 { 0u8 } else { 255u8 });
    }
    let img = gray_image(10, 1, &values);
    let k = get_gaussian_kernel(3, DECAY_SIGMA_1);
    assert_eq!(k.sum, 186582);
    let out = img.horizontal_convolution(&k);
    let row: Vec<u8> = (0..10).map(|x| out.pixels[3 * x]).collect();
    assert_eq!(row, vec![0, 0, 0, 0, 82, 172, 255, 255, 255, 255]);
}

#[test]
fn half_black_half_white_end_to_end() {
    // Black columns 0..=4, white columns 5..=9, blurred with size 3 and the
    // sigma-1 attenuation, Sobel gradients, thresholds 50/100: a single
    // white column at the step, black top and bottom border rows.
    let mut values = Vec::new();
    for _y in 0..10 {
        for x in 0..10 {
            values.push(if x < 5 { 0u8 } else { 255u8 });
        }
    }
    let img = gray_image(10, 10, &values);
    let k = get_gaussian_kernel(3, DECAY_SIGMA_1);
    let out = img
        .horizontal_convolution(&k)
        .vertical_convolution(&k)
        .non_maximum_suppression(EdgeKernel::Sobel)
        .hysteresis_thresholding(50, 100);
    for y in 0..10usize {
        for x in 0..10usize {
            let v = out.pixels[3 * (y * 10 + x)];
            let expect = if x == 5 && (1..=8).contains(&y) { 255 } else { 0 };
            assert_eq!(v, expect, "x={} y={}", x, y);
        }
    }
}
