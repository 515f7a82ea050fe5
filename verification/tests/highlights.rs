//! Statistics, maps and masks of overexposed samples.

use std::mem::{align_of, size_of};
use x3f_sys::area::Window;
use x3f_sys::highlight::{
    build_sat_map, chroma_lut_apply_pixel, chroma_lut_apply_stats_t, fill_source, sat_sum5, LutOutcome,
};
use x3f_sys::highlight_recovery::{anchors, feather_mask, SensorReliability};

#[test]
fn chroma_lut_apply_stats_t_layout() {
    assert_eq!(size_of::<chroma_lut_apply_stats_t>(), (6 + 512) * 8);
    assert_eq!(align_of::<chroma_lut_apply_stats_t>(), 8);
}

#[test]
fn every_pixel_is_counted_under_one_outcome() {
    let mut stats = chroma_lut_apply_stats_t::new();
    stats.record(LutOutcome::Unsaturated);
    stats.record(LutOutcome::Asymmetric);
    stats.record(LutOutcome::Clipped);
    stats.record(LutOutcome::NoEvidence(3));
    stats.record(LutOutcome::Applied(255));
    stats.record(LutOutcome::Applied(255));
    assert_eq!(stats.total_eval, 6);
    let kinds = [
        stats.t_strength_kill,
        stats.asym_kill,
        stats.bm_clip_kill,
        stats.bin_evidence_kill,
        stats.applied,
    ];
    assert_eq!(kinds, [1, 1, 1, 1, 2]);
    assert_eq!((stats.bin_kill_hist[3], stats.bin_applied_hist[255]), (1, 2));
    assert_eq!(stats.bin_applied_hist.iter().sum::<u64>(), 2);
}

#[test]
fn only_a_repair_changes_a_pixel() {
    let before = [0.5f64.to_bits(), 0.25f64.to_bits(), 0.99f64.to_bits()];
    let top = 0.75f64.to_bits();
    let mut stats = chroma_lut_apply_stats_t::new();
    let mut s = before;
    assert!(!chroma_lut_apply_pixel(&mut s, LutOutcome::NoEvidence(7), top, Some(&mut stats)));
    assert_eq!(s, before);
    assert!(!chroma_lut_apply_pixel(&mut s, LutOutcome::Clipped, top, None));
    assert_eq!(s, before);
    assert!(chroma_lut_apply_pixel(&mut s, LutOutcome::Applied(9), top, Some(&mut stats)));
    assert_eq!(s, [before[0], before[1], top]);
    assert_eq!((stats.total_eval, stats.bin_evidence_kill, stats.applied), (2, 1, 1));
    assert_eq!((stats.bin_kill_hist[7], stats.bin_applied_hist[9]), (1, 1));
}

#[test]
fn bins_are_filled_from_the_nearest() {
    let counts: Vec<u32> = vec![0, 5, 0, 0, 0, 2, 0];
    assert_eq!(fill_source(&counts, 1, 2), Some(1));
    assert_eq!(fill_source(&counts, 3, 2), Some(1));
    assert_eq!(fill_source(&counts, 3, 1), None);
    assert_eq!(fill_source(&counts, 4, 1), Some(5));
    assert_eq!(fill_source(&counts, 0, 9), Some(1));
    assert_eq!(fill_source(&vec![0; 4], 2, 9), None);
}

#[test]
fn saturation_maps_mark_pixels() {
    let mut high = vec![false; 65536];
    for v in high.iter_mut().skip(100) {
        *v = true;
    }
    let tables = [high.clone(), high.clone(), high];
    let data: Vec<u16> = vec![1, 2, 3, 100, 0, 0, 0, 0, 200, 99, 99, 99];
    let w = Window { offset: 0, rows: 2, columns: 2, channels: 3, row_stride: 6 };
    let map = build_sat_map(&data, &w, &tables).unwrap();
    assert_eq!(map, vec![0, 1, 1, 0]);
    let narrow = Window { channels: 2, columns: 1, ..w };
    assert!(build_sat_map(&data, &narrow, &tables).is_none());
}

#[test]
fn neighbourhoods_are_summed_inside_only() {
    let mut map = vec![1u8; 25];
    assert_eq!(sat_sum5(&map, 5, 5, 2, 2), 25);
    map[7] = 0;
    assert_eq!(sat_sum5(&map, 5, 5, 2, 2), 24);
    assert_eq!(sat_sum5(&map, 5, 5, 1, 2), 0);
    assert_eq!(sat_sum5(&map, 5, 5, 2, 3), 0);
}

#[test]
fn camera_map_accepts_odd_terminal_clear_span() {
    let mut mask = SensorReliability::new(1, 7).unwrap();
    assert_eq!(mask.merge_camera_runs(&[2, 2, 3], 2), Some(2));
    assert_eq!(mask.camera_map_channels, 0b100);
    for (index, reliability) in mask.data.iter().enumerate() {
        assert_eq!(
            *reliability,
            if (2..4).contains(&index) { [255, 255, 0] } else { [255; 3] }
        );
    }
}

#[test]
fn camera_map_clear_span_never_upgrades_existing_clipping() {
    let mut mask = SensorReliability::new(1, 7).unwrap();
    mask.data[1] = [0, 127, 255];
    let original = mask.data.clone();
    assert_eq!(mask.merge_camera_runs(&[7], 0), Some(0));
    assert_eq!(mask.data, original);
    assert_eq!(mask.camera_map_channels, 0);
}

#[test]
fn camera_map_retains_even_length_run_support() {
    let mut mask = SensorReliability::new(1, 8).unwrap();
    assert_eq!(mask.merge_camera_runs(&[1, 2, 1, 1], 0), Some(3));
    assert_eq!(mask.camera_map_channels, 0b001);
    for (index, reliability) in mask.data.iter().enumerate() {
        assert_eq!(
            *reliability,
            if [1, 2, 4].contains(&index) { [0, 255, 255] } else { [255; 3] }
        );
    }
}

#[test]
fn camera_map_rejects_invalid_runs_and_trailer_atomically() {
    let mut mask = SensorReliability::new(1, 6).unwrap();
    let original = mask.data.clone();
    assert_eq!(mask.merge_camera_runs(&[1, 2, 7], 1), None);
    assert_eq!(mask.data, original);
    assert_eq!(mask.camera_map_channels, 0);
    assert_eq!(mask.merge_camera_runs(&[1, 2, 7, 1, 0], 1), None);
    assert_eq!(mask.data, original);
    assert_eq!(mask.camera_map_channels, 0);
}

#[test]
fn masks_are_found_by_row_and_column() {
    assert!(SensorReliability::new(0, 6).is_none());
    assert!(SensorReliability::new(usize::MAX, 2).is_none());
    let mut s = SensorReliability::new(2, 3).unwrap();
    s.data[5] = [1, 2, 3];
    assert_eq!(s.mask(1, 2), [1, 2, 3]);
    assert_eq!(s.mask(0, 0), [255; 3]);
    assert_eq!(s.mask(2, 0), [0; 3]);
    assert_eq!(s.mask(0, 3), [0; 3]);
    assert!(!s.has_camera_maps());
    s.merge_camera_runs(&[0, 1], 0);
    assert!(s.has_camera_maps());
    assert!(s.merge_camera_runs(&[0, 1], 3).is_none());
}

#[test]
fn support_grows_with_the_distance_from_clipping() {
    let mut s = SensorReliability::new(1, 8).unwrap();
    s.data[0] = [0, 255, 255];
    let support = s.build_camera_color_support().unwrap();
    let first: Vec<u8> = support.iter().map(|p| p[0]).collect();
    assert_eq!(first, vec![0, 1, 2, 3, 4, 4, 4, 4]);
    assert!(support.iter().all(|p| p[1] == 4 && p[2] == 4));
}

#[test]
fn masks_fade_near_clipped_samples() {
    assert_eq!(feather_mask([255, 200, 100], [0, 0, 0]), [255, 200, 100]);
    let faded = feather_mask([255, 0, 255], [4, 0, 1]);
    assert_eq!((faded[0], faded[1]), (255, 0));
    assert!(faded[2] < 255);
}

#[test]
fn anchors_are_the_most_reliable_layers() {
    assert_eq!(anchors([255, 255, 0], [true; 3]), [true, true, false]);
    assert_eq!(anchors([255, 100, 50], [false, true, true]), [false, true, false]);
    assert_eq!(anchors([0, 0, 0], [true; 3]), [false; 3]);
}
