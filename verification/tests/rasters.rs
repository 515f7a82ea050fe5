//! Colour spaces, noise reduction, enlargement and histograms on small rasters.

use x3f_sys::area::{Area16, Window};
use x3f_sys::black_level::sum_channel;
use x3f_sys::denoise::{bmt_to_yuv, sat_u16_i32, yuv_to_bmt, DType};
use x3f_sys::histogram::{count_samples, histogram_text, ilog, ilog_inv};
use x3f_sys::image::{x3f_crop_area, x3f_crop_area8};
use x3f_sys::image_plan::{
    first_step, next_step, quarter_size, quattro_cover, recovery_passes, ColorEncoding,
    ImageRequest, ImageSources, ImageStep, RecoveryRequest,
};
use x3f_sys::img3::{
    area_to_img3, fast_nlm_denoise, img3_to_area, median_blur_channel_3x3, subtract_to_i16,
    subtract_u16_inplace, Img3, Img3i16, NlmSource,
};
use x3f_sys::nlm::{bin_size, nearest_pow2};
use x3f_sys::preprocess::{
    apply_levels, count_layers, downsample_top, preprocess_image, LevelTables, LEVELS, SUM_LEVELS,
};
use x3f_sys::preview::{block_sum, preview_shape};
use x3f_sys::quattro::{quattro_upsample, resize_bicubic_2x, x3f_expand_quattro};
use x3f_sys::reflect::reflect_101;

fn window(rows: u32, columns: u32) -> Window {
    Window { offset: 0, rows, columns, channels: 3, row_stride: 3 * columns }
}

fn area(rows: u32, columns: u32, channels: u32, data: Vec<u16>) -> Area16 {
    Area16 { data, rows, columns, channels, row_stride: columns * channels }
}

/// The weights for patch distances: `exp(-d^2 / (3 h^2))` in fixed point.
fn weights(h: [f64; 3], template: i32, search: i64) -> Vec<[i32; 3]> {
    let side = 2 * (template / 2) + 1;
    let reach = 2 * (search / 2) + 1;
    let unit = std::cmp::min(i64::MAX / (reach * reach * 65535), i32::MAX as i64);
    let step = (1i64 << nearest_pow2(side * side)) as f64 / (side * side) as f64;
    let count = ((65535.0 * 3.0) / step + 1.0) as usize;
    let mut lut = vec![[0i32; 3]; count];
    for (d, slot) in lut.iter_mut().enumerate() {
        let dist = d as f64 * step;
        for c in 0..3 {
            let mut w = (-(dist * dist) / (h[c] * h[c] * 3.0)).exp();
            if w.is_nan() {
                w = 1.0;
            }
            let weight = (unit as f64 * w).round_ties_even() as i64;
            slot[c] = if (weight as f64) < 0.001 * unit as f64 { 0 } else { weight as i32 };
        }
    }
    lut
}

/// A small deterministic source of noise.
struct Lcg(u64);

impl Lcg {
    fn next_u16(&mut self) -> u16 {
        self.0 = self.0.wrapping_mul(6364136223846793005).wrapping_add(1442695040888963407);
        (self.0 >> 33) as u16
    }

    fn noise(&mut self, amp: i32) -> i32 {
        (self.next_u16() as i32 % (2 * amp + 1)) - amp
    }
}

#[test]
fn reflect_101_matches_opencv() {
    assert_eq!(reflect_101(-1, 5), 1);
    assert_eq!(reflect_101(-2, 5), 2);
    assert_eq!(reflect_101(0, 5), 0);
    assert_eq!(reflect_101(4, 5), 4);
    assert_eq!(reflect_101(5, 5), 3);
    assert_eq!(reflect_101(6, 5), 2);
    assert!((0..5).contains(&reflect_101(-20, 5)));
    assert!((0..5).contains(&reflect_101(99, 5)));
    assert_eq!(reflect_101(7, 1), 0);
}

#[test]
fn reflect_101_edges() {
    assert_eq!(reflect_101(-1, 8), 1);
    assert_eq!(reflect_101(-2, 8), 2);
    assert_eq!(reflect_101(0, 8), 0);
    assert_eq!(reflect_101(7, 8), 7);
    assert_eq!(reflect_101(8, 8), 6);
    assert_eq!(reflect_101(9, 8), 5);
}

#[test]
fn reflect_101_single_pixel_image() {
    assert_eq!(reflect_101(0, 1), 0);
    assert_eq!(reflect_101(-1, 1), 0);
    assert_eq!(reflect_101(7, 1), 0);
}

#[test]
fn mirroring_repeats_and_is_symmetric() {
    for n in 2..9 {
        for i in -40..40 {
            let r = reflect_101(i, n);
            assert!(0 <= r && r < n);
            assert_eq!(r, reflect_101(-i, n));
            assert_eq!(r, reflect_101(i + 2 * (n - 1), n));
            assert_eq!(r, reflect_101(2 * (n - 1) - i, n));
        }
    }
}

#[test]
fn nearest_pow2_known() {
    assert_eq!(nearest_pow2(9), 4);
    assert_eq!(nearest_pow2(1), 0);
    assert_eq!(nearest_pow2(16), 4);
    assert_eq!(nearest_pow2(17), 5);
}

#[test]
fn bins_are_powers_of_two() {
    assert_eq!(bin_size(9), 16);
    assert_eq!(bin_size(1), 1);
    assert_eq!(bin_size(0), 1);
    assert_eq!(bin_size(17), 32);
    assert_eq!(nearest_pow2(i32::MAX), 31);
}

#[test]
fn nlm_preserves_constant_image() {
    let mut img = Img3::new(20, 20);
    for px in img.data.chunks_mut(3) {
        px[0] = 12345;
        px[1] = 23456;
        px[2] = 34567;
    }
    let out = fast_nlm_denoise(&img, &weights([0.0, 80.0, 80.0], 3, 11), 3, 11);
    assert_eq!(out.data, img.data);
}

#[test]
fn nlm_reduces_chroma_noise() {
    let (rows, cols) = (40usize, 40usize);
    let mut noisy = Img3::new(rows, cols);
    let base = [20000i32, 30000, 40000];
    let mut rng = Lcg(0xC0FFEE);
    for px in noisy.data.chunks_mut(3) {
        px[0] = base[0] as u16;
        px[1] = (base[1] + rng.noise(150)).clamp(0, 65535) as u16;
        px[2] = (base[2] + rng.noise(150)).clamp(0, 65535) as u16;
    }

    let out = fast_nlm_denoise(&noisy, &weights([0.0, 300.0, 300.0], 3, 11), 3, 11);

    let var = |im: &Img3, ch: usize, mean: f64| {
        let n = (rows * cols) as f64;
        im.data
            .chunks(3)
            .map(|p| {
                let d = p[ch] as f64 - mean;
                d * d
            })
            .sum::<f64>()
            / n
    };
    let mean = |im: &Img3, ch: usize| {
        im.data.chunks(3).map(|p| p[ch] as f64).sum::<f64>() / (rows * cols) as f64
    };

    let m_in = mean(&noisy, 1);
    let m_out = mean(&out, 1);
    assert!((m_in - m_out).abs() < 200.0, "mean drift {m_in} -> {m_out}");
    let v_in = var(&noisy, 1, m_in);
    let v_out = var(&out, 1, m_out);
    assert!(v_out < v_in * 0.6, "variance not reduced: {v_in} -> {v_out}");
}

#[test]
fn bands_make_the_denoised_image() {
    let mut img = Img3::new(9, 7);
    let mut rng = Lcg(7);
    for v in img.data.iter_mut() {
        *v = (10000 + rng.noise(100)) as u16;
    }
    let lut = weights([50.0, 80.0, 80.0], 3, 5);
    let whole = fast_nlm_denoise(&img, &lut, 3, 5);
    let source = NlmSource::new(&img, &lut, 3, 5);
    let mut pieces = source.process_rows(&lut, 0, 4);
    pieces.extend(source.process_rows(&lut, 4, 4));
    pieces.extend(source.process_rows(&lut, 4, 9));
    assert_eq!(pieces, whole.data);
    assert_ne!(whole.data, img.data);
}

#[test]
fn denoised_samples_lie_between_their_neighbours() {
    let mut img = Img3::new(6, 6);
    let mut rng = Lcg(11);
    for v in img.data.iter_mut() {
        *v = (30000 + rng.noise(500)) as u16;
    }
    let out = fast_nlm_denoise(&img, &weights([200.0, 300.0, 400.0], 3, 11), 3, 11);
    for ch in 0..3 {
        let samples: Vec<u16> = img.data.iter().skip(ch).step_by(3).copied().collect();
        let (low, high) = (*samples.iter().min().unwrap(), *samples.iter().max().unwrap());
        for v in out.data.iter().skip(ch).step_by(3) {
            assert!(low <= *v && *v <= high);
        }
    }
}

#[test]
fn windows_can_be_larger_than_the_image() {
    let mut img = Img3::new(2, 2);
    img.data.fill(1234);
    let lut = vec![[7i32, 8, 9]];
    assert_eq!(fast_nlm_denoise(&img, &lut, 1, 301).data, img.data);
    assert_eq!(fast_nlm_denoise(&img, &lut, 103, 1).data, img.data);
    img.data[0] = 0;
    let out = fast_nlm_denoise(&img, &vec![[i32::MAX; 3]], 103, 3);
    assert!(out.data[0] < 1234 && out.data[1] == 1234);
}

#[test]
fn denoising_weighs_the_search_window() {
    let mut img = Img3::new(1, 3);
    for (i, v) in [10u16, 20, 40].iter().enumerate() {
        img.data[3 * i] = *v;
        img.data[3 * i + 1] = *v;
        img.data[3 * i + 2] = *v;
    }
    let lut = vec![[1i32, 2, 0]; 10];
    let out = fast_nlm_denoise(&img, &lut, 1, 3);
    assert_eq!(out.data, vec![17, 17, 0, 23, 23, 0, 27, 27, 0]);
}

#[test]
fn empty_images_stay_empty() {
    let img = Img3::new(0, 4);
    let out = fast_nlm_denoise(&img, &vec![[1i32; 3]], 3, 11);
    assert_eq!((out.rows, out.cols, out.data.len()), (0, 4, 0));
    let mut none = Img3::new(3, 0);
    median_blur_channel_3x3(&mut none, 1);
    assert_eq!(none.data.len(), 0);
}

#[test]
fn median_removes_isolated_outlier() {
    let mut img = Img3::new(5, 5);
    for px in img.data.chunks_mut(3) {
        px[2] = 1000;
    }
    img.data[(2 * 5 + 2) * 3 + 2] = 60000;
    median_blur_channel_3x3(&mut img, 2);
    assert_eq!(img.data[(2 * 5 + 2) * 3 + 2], 1000);
}

#[test]
fn median_repeats_the_edges() {
    let mut img = Img3::new(1, 3);
    for (c, v) in [5u16, 1, 9].iter().enumerate() {
        img.data[3 * c] = *v;
        img.data[3 * c + 1] = 7;
    }
    median_blur_channel_3x3(&mut img, 0);
    assert_eq!(img.data, vec![5, 7, 0, 5, 7, 0, 9, 7, 0]);
}

#[test]
fn differences_saturate() {
    let a = Img3 { rows: 1, cols: 1, data: vec![40000, 5, 0] };
    let b = Img3 { rows: 1, cols: 1, data: vec![0, 7, 65535] };
    let d = subtract_to_i16(&a, &b);
    assert_eq!(d.data, vec![32767, -2, -32768]);
    let mut out = Img3 { rows: 1, cols: 1, data: vec![10, 65530, 9] };
    subtract_u16_inplace(&mut out, &Img3i16 { rows: 1, cols: 1, data: vec![11, -9, 4] });
    assert_eq!(out.data, vec![0, 65535, 5]);
}

#[test]
fn windows_are_copied_out_and_back() {
    let mut data: Vec<u16> = (0..24).collect();
    let w = Window { offset: 3, rows: 2, columns: 2, channels: 3, row_stride: 12 };
    let img = area_to_img3(&data, &w);
    assert_eq!(img.data, vec![3, 4, 5, 6, 7, 8, 15, 16, 17, 18, 19, 20]);
    let mut other = Img3::new(2, 2);
    for v in other.data.iter_mut() {
        *v = 100;
    }
    img3_to_area(&other, &mut data, &w);
    assert_eq!(data[..9], [0, 1, 2, 100, 100, 100, 100, 100, 100]);
    assert_eq!(data[9..15], [9, 10, 11, 12, 13, 14]);
    assert_eq!(data[15..], [100, 100, 100, 100, 100, 100, 21, 22, 23]);
    img3_to_area(&img, &mut data, &w);
    assert_eq!(data, (0..24).collect::<Vec<u16>>());
}

#[test]
fn bmt_yuv_roundtrip_approx() {
    for dt in [DType::Std, DType::YisT, DType::Yis4T] {
        let mut data: Vec<u16> = vec![5000, 12000, 8000, 9000, 11000, 13000];
        let orig = data.clone();
        let w = window(1, 2);
        bmt_to_yuv(&mut data, &w, dt);
        yuv_to_bmt(&mut data, &w, dt);
        for (o, r) in orig.iter().zip(data.iter()) {
            let diff = (*o as i32 - *r as i32).abs();
            assert!(diff <= 4, "{dt:?} roundtrip diff {diff} ({o} -> {r})");
        }
    }
}

#[test]
fn yis4t_round_trip_preserves_bmt() {
    let mut data: Vec<u16> = vec![100, 200, 300, 1000, 2000, 3000, 5000, 10000, 12000];
    let original = data.clone();
    let w = window(1, 3);
    bmt_to_yuv(&mut data, &w, DType::Yis4T);
    yuv_to_bmt(&mut data, &w, DType::Yis4T);
    for (i, (got, want)) in data.iter().zip(original.iter()).enumerate() {
        let diff = (*got as i32 - *want as i32).abs();
        assert!(diff <= 1, "channel {i}: got {got} want {want}");
    }
}

#[test]
fn colour_spaces_have_exact_values() {
    let w = window(1, 1);
    for (dt, luma) in [(DType::Std, 166), (DType::YisT, 300), (DType::Yis4T, 1200)] {
        let mut data: Vec<u16> = vec![100, 100, 300];
        bmt_to_yuv(&mut data, &w, dt);
        assert_eq!(data, vec![luma, 32768 - 400, 32768 + 200]);
    }
    let mut grey: Vec<u16> = vec![40000, 40000, 40000];
    bmt_to_yuv(&mut grey, &w, DType::Yis4T);
    assert_eq!(grey, vec![65535, 32768, 32768]);
    assert_eq!(sat_u16_i32(-1), 0);
    assert_eq!(sat_u16_i32(70000), 65535);
    assert_eq!(sat_u16_i32(70), 70);
}

#[test]
fn exact_colour_spaces_are_reversible() {
    let w = window(1, 1);
    let mut rng = Lcg(99);
    for _ in 0..200 {
        let p: Vec<u16> = (0..3).map(|_| 2000 + rng.next_u16() % 8000).collect();
        for dt in [DType::YisT, DType::Yis4T] {
            let mut data = p.clone();
            bmt_to_yuv(&mut data, &w, dt);
            yuv_to_bmt(&mut data, &w, dt);
            assert_eq!(data, p);
        }
        let mut data = p.clone();
        bmt_to_yuv(&mut data, &w, DType::Std);
        yuv_to_bmt(&mut data, &w, DType::Std);
        for c in 0..3 {
            assert!((data[c] as i32 - p[c] as i32).abs() <= 1);
        }
    }
}

#[test]
fn sensor_kinds_have_numbers() {
    assert_eq!(DType::from_u32(0), DType::Std);
    assert_eq!(DType::from_u32(1), DType::YisT);
    assert_eq!(DType::from_u32(2), DType::Yis4T);
    assert_eq!(DType::from_u32(77), DType::Std);
}

#[test]
fn resize_constant_input_is_constant() {
    let src = vec![1234u16; 4 * 4];
    let mut dst = vec![0u16; 8 * 8];
    resize_bicubic_2x(&src, 4, 4, &mut dst);
    for &v in &dst {
        assert_eq!(v, 1234);
    }
}

#[test]
fn enlarging_interpolates_and_saturates() {
    let src = vec![0u16, 256];
    let mut dst = vec![0u16; 8];
    resize_bicubic_2x(&src, 2, 1, &mut dst);
    assert_eq!(dst[..4], [40, 40, 216, 216]);
    assert_eq!(dst[..4], dst[4..]);
    let step = vec![0u16, 0, 65535, 65535];
    let mut wide = vec![0u16; 16];
    resize_bicubic_2x(&step, 4, 1, &mut wide);
    assert_eq!(wide[..3], [0, 0, 0]);
    assert_eq!(wide[6], 65535);
}

#[test]
fn quattro_layers_become_one_image() {
    let top: Vec<u16> = vec![100; 16];
    let t = Window { offset: 0, rows: 4, columns: 4, channels: 1, row_stride: 4 };
    let mut image = area(2, 2, 3, [300u16, 200, 100].repeat(4));
    let full = x3f_expand_quattro(&mut image, &top, &t);
    assert_eq!((full.rows, full.columns, full.channels), (4, 4, 3));
    assert_eq!(image.data[..3], [400, 32768 + 400, 32768]);
    assert_eq!(full.data, [300u16, 200, 100].repeat(16));
}

#[test]
fn enlarged_images_take_the_top_layer_as_luma() {
    let top: Vec<u16> = (0..16).collect();
    let t = Window { offset: 0, rows: 4, columns: 4, channels: 1, row_stride: 4 };
    let image = area(2, 2, 3, [9u16, 1000, 2000].repeat(4));
    let up = quattro_upsample(&image, &top, &t);
    for i in 0..16 {
        assert_eq!(up.data[3 * i..3 * i + 3], [4 * i as u16, 1000, 2000]);
    }
}

#[test]
fn ilog_zero_and_negative_clamp_to_zero() {
    assert_eq!(ilog(0), 0);
    assert_eq!(ilog(-5), 0);
}

#[test]
fn ilog_matches_c_impl_at_powers_of_two() {
    assert_eq!(ilog(1), 0);
    assert_eq!(ilog(2), 10);
    assert_eq!(ilog(4), 20);
    assert_eq!(ilog(1024), 100);
}

#[test]
fn doublings_are_exact() {
    for k in 0..30 {
        assert_eq!(ilog(1 << k), 10 * k);
        assert_eq!(ilog_inv(10 * k), 1 << k);
    }
    for i in 0..5000 {
        assert!(ilog(i) <= ilog(i + 1));
    }
}

#[test]
fn ilog_inv_round_trips_to_value() {
    assert_eq!(ilog_inv(0), 1);
    assert_eq!(ilog_inv(10), 2);
    assert_eq!(ilog_inv(20), 4);
    assert_eq!(ilog_inv(100), 1024);
}

#[test]
fn logarithms_agree_with_real_numbers() {
    for i in 1..70000 {
        assert_eq!(ilog(i), (10.0 * (i as f64).log2()).floor() as i32);
    }
    for i in -40..340 {
        assert_eq!(ilog_inv(i), 2.0f64.powf(i as f64 / 10.0).round() as i32);
    }
    assert_eq!(ilog(i32::MAX), 309);
}

#[test]
fn histograms_count_every_pixel_once() {
    let data: Vec<u16> = vec![1, 2, 3, 1, 4, 3, 1, 2, 0, 9, 9, 9];
    let w = Window { offset: 0, rows: 1, columns: 3, channels: 3, row_stride: 12 };
    let plain = count_samples(&data, &w, 1, false);
    assert_eq!((plain[2], plain[4]), (2, 1));
    assert_eq!(plain.iter().sum::<u32>(), 3);
    let log = count_samples(&data, &w, 2, true);
    assert_eq!((log[0], log[15]), (1, 2));
    assert_eq!(log.iter().sum::<u32>(), 3);
}

#[test]
fn histogram_lines_end_at_the_last_hit() {
    let data: Vec<u16> = vec![1, 2, 0, 1, 0, 0];
    let w = window(1, 2);
    let text = String::from_utf8(histogram_text(&data, &w, false)).unwrap();
    let lines: Vec<&str> = text.lines().collect();
    assert!(lines[0].contains('0'));
    assert_eq!(lines.last().unwrap().trim_start().chars().next(), Some('2'));
}

#[test]
fn crops_are_views() {
    let w = Window { offset: 5, rows: 4, columns: 6, channels: 2, row_stride: 15 };
    let crop = x3f_crop_area(&[1, 2, 4, 3], &w, 70).unwrap();
    assert_eq!(crop, Window { offset: 37, rows: 2, columns: 4, channels: 2, row_stride: 15 });
    assert_eq!(crop.at(0, 0, 0, 70), w.at(2, 1, 0, 70));
    assert_eq!(crop.at(1, 3, 1, 70), w.at(3, 4, 1, 70));
    assert!(x3f_crop_area(&[1, 2, 6, 3], &w, 70).is_none());
    assert!(x3f_crop_area(&[4, 2, 1, 3], &w, 70).is_none());
    assert_eq!(x3f_crop_area8(&[0, 0, 0, 0], &w, 70).unwrap().offset, 5);
}

#[test]
fn sums_run_over_one_channel() {
    let data: Vec<u16> = (0..12).collect();
    let w = window(2, 2);
    assert_eq!(sum_channel(&data, &w, 1), 1 + 4 + 7 + 10);
}

fn tables() -> LevelTables {
    let plus = |n: u32| (0..LEVELS).map(|v| (v as u32 + n).min(65535) as u16).collect::<Vec<u16>>();
    LevelTables {
        layers: [plus(1), plus(2), plus(3)],
        sums: (0..SUM_LEVELS).map(|s| (s / 4) as u16).collect(),
    }
}

#[test]
fn levels_apply_per_channel() {
    let mut image = area(1, 2, 3, vec![1, 2, 3, 65535, 5, 6]);
    apply_levels(&mut image, 0, &tables().layers[0]);
    assert_eq!(image.data, vec![2, 2, 3, 65535, 5, 6]);
    preprocess_image(&mut image, &tables());
    assert_eq!(image.data, vec![3, 4, 6, 65535, 7, 9]);
}

#[test]
fn the_top_layer_is_averaged_over_four_samples() {
    let mut image = area(1, 2, 3, vec![1, 2, 3, 4, 5, 6]);
    let top = area(2, 4, 1, vec![10, 20, 1, 1, 30, 40, 1, 2]);
    downsample_top(&mut image, &top, &tables().sums);
    assert_eq!(image.data, vec![1, 2, 25, 4, 5, 1]);
}

#[test]
fn a_small_top_layer_is_refused() {
    let image = window(2, 2);
    let top = |rows: u32, columns: u32| Window { offset: 0, rows, columns, channels: 1, row_stride: columns };
    assert_eq!(count_layers(&image, None), Some(3));
    assert_eq!(count_layers(&image, Some(&top(4, 4))), Some(2));
    assert_eq!(count_layers(&image, Some(&top(3, 4))), None);
    assert_eq!(count_layers(&Window { channels: 2, ..image }, None), None);
    assert!(quattro_cover(&image, &top(3, 4), 12).is_none());
    assert_eq!(quattro_cover(&image, &top(5, 6), 30).unwrap().rows, 4);
}

#[test]
fn previews_are_sums_of_blocks() {
    let data: Vec<u16> = (0..36).collect();
    let w = window(3, 4);
    let shape = preview_shape(&w, 2);
    assert_eq!((shape.reduction, shape.rows, shape.columns), (2, 1, 2));
    assert_eq!(block_sum(&data, &w, 2, 0, 1, 0), Some(6 + 9 + 18 + 21));
    assert_eq!(preview_shape(&w, 3).columns, 2);
    assert_eq!(preview_shape(&w, 100).columns, 4);
}

#[test]
fn blocks_of_a_preview_can_be_large() {
    let w = Window { offset: 0, rows: 300, columns: 300, channels: 1, row_stride: 300 };
    assert_eq!(preview_shape(&w, 1).reduction, 300);
    let dim = vec![40000u16; 90000];
    assert_eq!(block_sum(&dim, &w, 300, 0, 0, 0), Some(3_600_000_000));
    let bright = vec![65535u16; 90000];
    assert_eq!(block_sum(&bright, &w, 300, 0, 0, 0), None);
}

#[test]
fn quarters_round_to_even() {
    assert_eq!([0, 1, 2, 3, 4, 6, 10, 11].map(quarter_size), [0, 0, 0, 1, 1, 2, 2, 3]);
}

fn request(encoding: ColorEncoding, denoise: bool, cineon: bool) -> ImageRequest {
    ImageRequest { encoding, denoise, cineon, levels: true }
}

#[test]
fn images_are_made_in_steps() {
    let sources = ImageSources { raw: true, top: false };
    let srgb = request(ColorEncoding::Srgb, true, false);
    assert_eq!(first_step(&srgb, &sources), ImageStep::Preprocess);
    assert_eq!(next_step(&srgb, false, ImageStep::Preprocess, true), ImageStep::Expand);
    assert_eq!(next_step(&srgb, false, ImageStep::Preprocess, false), ImageStep::Fail);
    assert_eq!(next_step(&srgb, false, ImageStep::Expand, false), ImageStep::Denoise);
    assert_eq!(next_step(&srgb, true, ImageStep::Expand, true), ImageStep::Convert);
    assert_eq!(next_step(&srgb, false, ImageStep::Denoise, false), ImageStep::Fail);
    assert_eq!(next_step(&srgb, false, ImageStep::Denoise, true), ImageStep::Convert);
    assert_eq!(next_step(&srgb, false, ImageStep::Convert, true), ImageStep::Finish);
    let native = request(ColorEncoding::Native, false, false);
    assert_eq!(next_step(&native, false, ImageStep::Expand, false), ImageStep::ClipHighlights);
    assert_eq!(next_step(&native, true, ImageStep::Expand, true), ImageStep::Finish);
    let film = request(ColorEncoding::Native, false, true);
    assert_eq!(next_step(&film, false, ImageStep::Expand, false), ImageStep::Finish);
    let raw = request(ColorEncoding::Unprocessed, false, false);
    assert_eq!(first_step(&raw, &sources), ImageStep::HandOutRaw);
    assert_eq!(next_step(&raw, false, ImageStep::HandOutRaw, true), ImageStep::Fail);
    let qtop = ImageRequest { levels: false, ..request(ColorEncoding::Qtop, false, false) };
    assert_eq!(first_step(&qtop, &sources), ImageStep::Fail);
    assert_eq!(next_step(&qtop, false, ImageStep::HandOutTop, true), ImageStep::Finish);
}

#[test]
fn every_plan_comes_to_an_end() {
    for encoding in [ColorEncoding::Native, ColorEncoding::Argb, ColorEncoding::Pprgb] {
        for bits in 0..16u32 {
            let request = request(encoding, bits & 1 != 0, bits & 2 != 0);
            let mut step = first_step(&request, &ImageSources { raw: true, top: true });
            let mut count = 0;
            while step != ImageStep::Finish && step != ImageStep::Fail {
                step = next_step(&request, bits & 4 != 0, step, bits & 8 != 0);
                count += 1;
            }
            assert!(count <= 4);
        }
    }
}

#[test]
fn film_scans_are_not_recovered() {
    for bits in 0..8u32 {
        let request = RecoveryRequest {
            cineon: bits & 1 != 0,
            no_chroma_lut: bits & 2 != 0,
            repair_pix: bits & 4 != 0,
        };
        let passes = recovery_passes(&request);
        assert_eq!(passes.chroma_lut, bits & 1 == 0 && bits & 2 == 0);
        assert_eq!(passes.repair_pix, bits & 1 == 0 && bits & 4 != 0);
    }
}
