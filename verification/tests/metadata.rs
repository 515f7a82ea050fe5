//! What the metadata of a container say, and what is made of it.

use x3f_sys::area::{Area16, Window};
use x3f_sys::bad_pixel_sources::{check_highlight_grid, collect_bad_pixels, get_af_grid};
use x3f_sys::bad_pixels::{inb, interpolate_bad_pixels, BadPixels};
use x3f_sys::black_level::{check_shields, get_black_level, is_merrill_model};
use x3f_sys::camf::{Camf, CamfDim, CamfEntry, CamfMatrix, CamfValue, MatrixData};
use x3f_sys::denoise::{get_denoise_type, DENOISE_F20, DENOISE_STD};
use x3f_sys::highlight_recovery::SensorReliability;
use x3f_sys::image::{
    check_camf_rect, check_column_rect, check_transform, get_camf_four, x3f_crop_area_camf,
    x3f_crop_area_column, x3f_get_camf_rect, x3f_image_area, ColSide,
};
use x3f_sys::image_plan::output_window;
use x3f_sys::io::{DirectoryEntry, Extent, Header, Subsection, X3f, X3F_SECC, X3F_SECP};
use x3f_sys::meta::{
    is_true_engine, x3f_get_camf_float, x3f_get_camf_float_vector, x3f_get_camf_matrix,
    x3f_get_camf_matrix_for_wb, x3f_get_camf_property, x3f_get_camf_signed,
    x3f_get_camf_signed_vector, x3f_get_camf_text, x3f_get_camf_unsigned, x3f_get_max_raw,
    x3f_get_prop_entry, x3f_get_wb, MatrixType,
};
use x3f_sys::preprocess::{preprocess_quattro, LevelTables, LEVELS, SUM_LEVELS};
use x3f_sys::print_meta::{dump_meta_data_text, print_camf_meta_data2, print_matrix, Item};
use x3f_sys::print_sections::x3f_print_meta;
use x3f_sys::properties::{Property, PropertyList};
use x3f_sys::spatial_gain::{
    corr_layout, gain_corners, get_gain_candidates, get_gain_tables, get_merrill_type_gains_table,
    get_mod, parse_focus_props, parse_hp_props_index, split_aperture_props,
    x3f_get_classic_spatial_gain, GainPlace,
};
use x3f_sys::types::HuffTree;
use x3f_sys::white_balance::{
    get_color_source, get_digital_iso_gain, get_gain_factors, get_gain_source,
    get_wb_color_shading, WbSource, ONE_BITS,
};

fn entry(name: &str, value: CamfValue) -> CamfEntry {
    CamfEntry {
        id: 0x4d62_4d43,
        version: 0x10000,
        entry_size: 64,
        name_offset: 20,
        value_offset: 24,
        name: name.as_bytes().to_vec(),
        name_size: 4,
        value_size: 40,
        value,
    }
}

fn matrix(name: &str, dims: &[u32], decoded: MatrixData) -> CamfEntry {
    let elements = dims.iter().product();
    entry(
        name,
        CamfValue::Matrix(CamfMatrix {
            matrix_type: 1,
            matrix_data_off: 0,
            dims: dims
                .iter()
                .enumerate()
                .map(|(i, &size)| CamfDim {
                    size,
                    name_offset: 0,
                    n: i as u32,
                    name: vec![b'p' + i as u8],
                })
                .collect(),
            element_size: 4,
            elements,
            used_space: 4 * elements,
            decoded,
        }),
    )
}

fn uints(name: &str, dims: &[u32], v: &[u32]) -> CamfEntry {
    matrix(name, dims, MatrixData::Uint(v.to_vec()))
}

fn ints(name: &str, dims: &[u32], v: &[i32]) -> CamfEntry {
    matrix(name, dims, MatrixData::Int(v.to_vec()))
}

fn floats(name: &str, dims: &[u32], v: &[f32]) -> CamfEntry {
    matrix(name, dims, MatrixData::Float(v.iter().map(|x| x.to_bits()).collect()))
}

fn list(name: &str, pairs: &[(&str, &str)]) -> CamfEntry {
    entry(
        name,
        CamfValue::Property {
            names: pairs.iter().map(|p| p.0.as_bytes().to_vec()).collect(),
            values: pairs.iter().map(|p| p.1.as_bytes().to_vec()).collect(),
        },
    )
}

fn section(identifier: u32, data: Subsection) -> DirectoryEntry {
    DirectoryEntry {
        input: Extent { offset: 40, size: 80 },
        output: Extent { offset: 0, size: 0 },
        type_: 0x464d_4143,
        identifier,
        version: 0x40000,
        data,
    }
}

fn x3f(entries: Vec<CamfEntry>, properties: &[(&str, &str)]) -> X3f<'static> {
    let camf = Camf {
        type_: 2,
        val0: 0,
        val1: 0x4f46_4e49,
        val2: 3,
        val3: 4,
        data: vec![1],
        table: Vec::new(),
        tree: HuffTree::empty(),
        decoding_size: 0,
        decoded_data: vec![1],
        entries,
    };
    let pl = PropertyList {
        num_properties: properties.len() as u32,
        character_format: 0,
        reserved: 0,
        total_length: 0,
        properties: properties
            .iter()
            .map(|p| Property {
                name_offset: 0,
                value_offset: 0,
                name_utf8: p.0.as_bytes().to_vec(),
                value_utf8: p.1.as_bytes().to_vec(),
            })
            .collect(),
        data: vec![0],
    };
    X3f {
        input: &[],
        header: Header {
            identifier: 0x6256_4f46,
            version: 0x20003,
            unique_identifier: vec![0xab; 16],
            mark_bits: 1,
            columns: 20,
            rows: 10,
            rotation: 90,
            white_balance: b"Overcast\0x".to_vec(),
            color_mode: b"Vivid".to_vec(),
            extended_types: (0..32).collect(),
            extended_data: vec![ONE_BITS; 32],
        },
        directory_identifier: 0x6443_4553,
        directory_version: 0x20000,
        directory: vec![
            section(X3F_SECC, Subsection::Camf(camf)),
            section(X3F_SECP, Subsection::PropertyList(pl)),
        ],
    }
}

fn area(rows: u32, columns: u32, channels: u32, data: Vec<u16>) -> Area16 {
    Area16 { data, rows, columns, channels, row_stride: columns * channels }
}

#[test]
fn numbers_are_found_by_name_and_kind() {
    let x = x3f(
        vec![
            uints("U", &[1], &[7]),
            ints("S", &[1], &[-7]),
            floats("F", &[1], &[1.5]),
            ints("V", &[3], &[1, -2, 3]),
            floats("W", &[3], &[1.0, 2.0, 3.0]),
            entry("T", CamfValue::Text { text_size: 3, text: b"abc".to_vec() }),
            list("L", &[("k", "v"), ("k", "w")]),
        ],
        &[("ISO", "100")],
    );
    let (mut u, mut s, mut f) = (0u32, 0i32, 0u32);
    assert!(x3f_get_camf_unsigned(&x, b"U", &mut u) && u == 7);
    assert!(x3f_get_camf_signed(&x, b"S", &mut s) && s == -7);
    assert!(x3f_get_camf_float(&x, b"F", &mut f) && f == 1.5f32.to_bits());
    assert!(!x3f_get_camf_unsigned(&x, b"S", &mut u) && u == 7);
    assert!(!x3f_get_camf_signed(&x, b"none", &mut s) && s == -7);
    let mut v = [0i32; 3];
    assert!(x3f_get_camf_signed_vector(&x, b"V", &mut v) && v == [1, -2, 3]);
    let mut w = [0u32; 3];
    assert!(x3f_get_camf_float_vector(&x, b"W", &mut w) && w[2] == 3.0f32.to_bits());
    assert!(!x3f_get_camf_float_vector(&x, b"F", &mut w));
    assert_eq!(x3f_get_camf_text(&x, b"T").unwrap(), &b"abc".to_vec());
    assert!(x3f_get_camf_text(&x, b"U").is_none());
    assert_eq!(x3f_get_camf_property(&x, b"L", b"k").unwrap(), &b"v".to_vec());
    assert!(x3f_get_camf_property(&x, b"L", b"z").is_none());
    assert_eq!(x3f_get_prop_entry(&x, b"ISO").unwrap(), &b"100".to_vec());
    assert!(x3f_get_prop_entry(&x, b"EV").is_none());
    assert!(x3f_get_camf_matrix(&x, b"V", 3, 0, 0, MatrixType::Int).is_some());
    assert!(x3f_get_camf_matrix(&x, b"V", 2, 0, 0, MatrixType::Int).is_none());
    assert!(x3f_get_camf_matrix(&x, b"V", 3, 0, 0, MatrixType::Uint).is_none());
}

#[test]
fn white_balances_have_names() {
    let mut names = Vec::new();
    for code in 1..13 {
        names.push(String::from_utf8(x3f_get_wb(&x3f(
            vec![uints("WhiteBalance", &[1], &[code])],
            &[],
        )))
        .unwrap());
    }
    assert_eq!(
        names,
        vec![
            "Auto", "Sunlight", "Shadow", "Overcast", "Incandescent", "Florescent", "Flash",
            "Custom", "Auto", "Auto", "ColorTemp", "AutoLSP"
        ]
    );
    assert_eq!(x3f_get_wb(&x3f(Vec::new(), &[])), b"Overcast".to_vec());
}

#[test]
fn daylight_falls_back_to_sunlight() {
    let x = x3f(
        vec![list("G", &[("Sunlight", "M")]), floats("M", &[3], &[1.0, 2.0, 3.0])],
        &[],
    );
    assert_eq!(x3f_get_camf_matrix_for_wb(&x, b"G", b"Daylight", 3, 0).unwrap().len(), 3);
    assert!(x3f_get_camf_matrix_for_wb(&x, b"G", b"Flash", 3, 0).is_none());
    assert!(x3f_get_camf_matrix_for_wb(&x, b"G", b"Sunlight", 3, 3).is_none());
}

#[test]
fn the_largest_raw_sample_has_three_sources() {
    let mut levels = [1u32, 2, 3];
    assert!(!x3f_get_max_raw(&x3f(Vec::new(), &[]), &mut levels));
    assert_eq!(levels, [1, 2, 3]);
    let x = x3f(vec![uints("ImageDepth", &[1], &[14])], &[]);
    assert!(x3f_get_max_raw(&x, &mut levels));
    assert_eq!(levels, [16383; 3]);
    let x = x3f(vec![ints("SaturationLevel", &[3], &[5, 6, 7])], &[]);
    assert_eq!(is_true_engine(&x), false);
    assert!(x3f_get_max_raw(&x, &mut levels));
    assert_eq!(levels, [5, 6, 7]);
}

#[test]
fn gains_are_direct_or_computed() {
    let x = x3f(
        vec![
            list("WhiteBalanceGains", &[("Auto", "M")]),
            floats("M", &[3], &[1.0, 2.0, 3.0]),
            floats("TempGainFact", &[3], &[4.0, 5.0, 6.0]),
            floats("FNumberGainFact", &[3], &[7.0, 8.0, 9.0]),
        ],
        &[],
    );
    match get_gain_source(&x, b"Auto") {
        Some(WbSource::Direct(v)) => assert_eq!(v[1], 2.0f32.to_bits()),
        _ => unreachable!(),
    }
    assert!(get_gain_source(&x, b"Flash").is_none());
    assert!(get_color_source(&x, b"Auto").is_none());
    let factors = get_gain_factors(&x);
    assert_eq!(factors.len(), 2);
    assert_eq!((factors[0][0], factors[1][2]), (4.0f32.to_bits(), 9.0f32.to_bits()));
    let m = [1.0f32; 9];
    let x = x3f(
        vec![
            list("WhiteBalanceIlluminants", &[("Auto", "I")]),
            list("WhiteBalanceCorrections", &[("Auto", "C")]),
            floats("I", &[3, 3], &m),
            floats("C", &[3, 3], &m),
        ],
        &[],
    );
    assert!(matches!(get_gain_source(&x, b"Auto"), Some(WbSource::Computed { .. })));
    assert!(matches!(get_color_source(&x, b"Auto"), Some(WbSource::Computed { .. })));
}

#[test]
fn merrill_cameras_are_treated_apart() {
    let gain = || floats("DigitalISOGain", &[3], &[2.0, 2.0, 2.0]);
    let shading = || {
        vec![
            list("WhiteBalanceColorShadingFactor", &[("Auto", "S")]),
            floats("S", &[2, 2], &[1.0, 2.0, 3.0, 4.0]),
            uints("ActiveImageArea", &[4], &[1, 2, 11, 12]),
        ]
    };
    let mut entries = shading();
    entries.push(gain());
    let merrill = x3f(entries, &[("CAMMODEL", "SIGMA DP2 Merrill")]);
    assert!(is_merrill_model(&merrill));
    assert_eq!(get_digital_iso_gain(&merrill), [ONE_BITS; 3]);
    let s = get_wb_color_shading(&merrill, b"Auto").unwrap();
    assert_eq!(s.coefficients[3], 4.0f32.to_bits());
    assert_eq!(s.active, Some([1, 2, 11, 12]));
    assert!(get_wb_color_shading(&merrill, b"Flash").is_none());
    let mut entries = shading();
    entries.push(gain());
    let other = x3f(entries, &[("CAMMODEL", "SIGMA DP2 Quattro")]);
    assert!(!is_merrill_model(&other));
    assert_eq!(get_digital_iso_gain(&other), [2.0f32.to_bits(); 3]);
    assert!(get_wb_color_shading(&other, b"Auto").is_none());
    assert_eq!(get_digital_iso_gain(&x3f(Vec::new(), &[])), [ONE_BITS; 3]);
}

#[test]
fn sensors_have_kinds() {
    assert_eq!(get_denoise_type(&x3f(Vec::new(), &[("SENSORID", "F20")])), DENOISE_F20);
    assert_eq!(get_denoise_type(&x3f(Vec::new(), &[("SENSORID", "F23")])), DENOISE_STD);
    assert_eq!(get_denoise_type(&x3f(Vec::new(), &[])), DENOISE_STD);
}

#[test]
fn rectangles_are_brought_into_the_image() {
    let x = x3f(
        vec![
            uints("KeepImageArea", &[4], &[10, 20, 49, 59]),
            uints("ActiveImageArea", &[4], &[15, 25, 100, 30]),
            uints("Elsewhere", &[4], &[0, 0, 5, 5]),
        ],
        &[],
    );
    assert!(check_camf_rect(&x, b"ActiveImageArea", 40, 40, false));
    assert!(!check_camf_rect(&x, b"ActiveImageArea", 0, 40, true));
    let huge = 0x4000_0000;
    assert!(check_transform(&x, huge, huge, true, &[10, 20, 12, 22]));
    assert!(!check_transform(&x, huge, huge, true, &[10, 20, 49, 22]));
    assert!(check_transform(&x, huge, huge, true, &[0, 0, 5, 5]));
    assert!(check_transform(&x, huge, huge, false, &[10, 20, 49, 22]));
    assert_eq!(get_camf_four(&x, b"KeepImageArea", 4, 0), Some([10, 20, 49, 59]));
    assert_eq!(
        x3f_get_camf_rect(&x, b"ActiveImageArea", 40, 40, false),
        Some([5, 5, 39, 10])
    );
    assert_eq!(
        x3f_get_camf_rect(&x, b"ActiveImageArea", 20, 20, true),
        Some([2, 2, 19, 5])
    );
    assert_eq!(x3f_get_camf_rect(&x, b"ActiveImageArea", 30, 40, false), None);
    assert_eq!(x3f_get_camf_rect(&x, b"Elsewhere", 40, 40, false), None);
    let w = Window { offset: 0, rows: 40, columns: 40, channels: 3, row_stride: 120 };
    let crop = x3f_crop_area_camf(&x, b"ActiveImageArea", &w, 4800, false).unwrap();
    assert_eq!((crop.offset, crop.rows, crop.columns), (5 * 120 + 15, 6, 35));
    assert_eq!(output_window(&x, &w, 4800, false, true), crop);
    assert_eq!(output_window(&x, &w, 4800, false, false), w);
    assert!(x3f_image_area(&x).is_none());
}

fn shield_entries() -> Vec<CamfEntry> {
    vec![
        uints("KeepImageArea", &[4], &[0, 0, 3, 3]),
        uints("DarkShieldTop", &[4], &[0, 0, 3, 0]),
        uints("DarkShieldBottom", &[4], &[0, 3, 3, 3]),
        uints("DarkShieldColRange", &[2, 2], &[0, 0, 3, 3]),
    ]
}

#[test]
fn black_levels_are_measured_under_the_shields() {
    let data: Vec<u16> = (0..48).collect();
    let image = area(4, 4, 3, data);
    let x = x3f(shield_entries(), &[]);
    assert!(check_shields(&x, 4, 4, false));
    assert!(check_column_rect(&x, ColSide::Left, 4, 4, false));
    let s = get_black_level(&x, &image, false, 3).unwrap();
    assert_eq!(s.pixels, 16);
    assert!(s.areas.iter().all(|a| a.is_some()));
    let at = |row: u64, col: u64| row * 12 + col * 3;
    let top: u64 = (0..4).map(|c| at(0, c)).sum();
    let bottom: u64 = (0..4).map(|c| at(3, c)).sum();
    let left: u64 = (0..4).map(|r| at(r, 0)).sum();
    let right: u64 = (0..4).map(|r| at(r, 3)).sum();
    assert_eq!(s.sums, vec![top + bottom + left + right; 3].iter().enumerate()
        .map(|(c, v)| v + 16 * c as u64).collect::<Vec<u64>>());
    let dp2 = x3f(shield_entries(), &[("CAMMODEL", "SIGMA DP2")]);
    assert!(get_black_level(&dp2, &image, false, 3).unwrap().areas[1].is_none());
    let merrill = x3f(shield_entries(), &[("CAMMODEL", "SIGMA SD1 Merrill")]);
    assert!(get_black_level(&merrill, &image, false, 3).unwrap().areas[3].is_none());
    assert!(get_black_level(&x, &image, false, 4).is_none());
    assert!(get_black_level(&x3f(Vec::new(), &[]), &image, false, 3).is_none());
    let w = image.window();
    let side = x3f_crop_area_column(&x, ColSide::Right, &w, 48, false).unwrap();
    assert_eq!((side.offset, side.columns, side.rows), (9, 1, 4));
    assert!(x3f_crop_area_column(&x, ColSide::Wrong, &w, 48, false).is_none());
}

#[test]
fn bad_pixels_are_marked_once() {
    let mut bp = BadPixels::new(3, 2);
    assert!(!bp.test_pix(1, 1) && bp.test_pix(3, 0) && bp.test_pix(-1, 0));
    bp.mark_pix(1, 1);
    bp.mark_pix(1, 1);
    bp.mark_pix(9, 9);
    assert!(bp.test_pix(1, 1));
    assert!(inb(2, 1, 3, 2) && !inb(3, 1, 3, 2) && !inb(0, -1, 3, 2));
}

#[test]
fn clearing_frees_one_pixel() {
    let mut bp = BadPixels::new(5, 9);
    for (c, r) in [(1, 2), (4, 8), (2, 2)] {
        bp.mark_pix(c, r);
    }
    bp.clear_pix(1, 2);
    bp.clear_pix(0, 0);
    for r in -1..10 {
        for c in -1..6 {
            let outside = c < 0 || c > 4 || r < 0 || r > 8;
            assert_eq!(bp.test_pix(c, r), outside || (c, r) == (4, 8) || (c, r) == (2, 2));
        }
    }
    bp.mark_pix(1, 2);
    assert!(bp.test_pix(1, 2));
}

#[test]
fn bad_pixels_come_from_many_lists() {
    let x = x3f(
        vec![
            uints("KeepImageArea", &[4], &[1, 1, 9, 9]),
            uints("BadPixels", &[1], &[(3 << 20) | (2 << 8)]),
            uints("BadPixelsF20", &[3, 1], &[5, 6, 0]),
            uints("Jpeg_BadClusters", &[3, 1], &[0, 4, 0]),
            uints("HighlightPixelsInfo", &[2, 2], &[7, 7, 100, 100]),
            uints("BadPixelsChromaF23", &[5], &[3, 5, 99, 6, 0]),
        ],
        &[],
    );
    assert!(check_highlight_grid(&x, 10, 10));
    let bp = collect_bad_pixels(&x, 10, 10, 3);
    let mut found = Vec::new();
    for r in 0..10 {
        for c in 0..10 {
            if bp.test_pix(c, r) {
                found.push((c, r));
            }
        }
    }
    assert_eq!(found, vec![(4, 0), (1, 2), (5, 3), (6, 3), (6, 5), (7, 7)]);
    let stuck = x3f(vec![uints("HighlightPixelsInfo", &[2, 2], &[0, 0, 0, 1])], &[]);
    assert!(!check_highlight_grid(&stuck, 10, 10));
}

#[test]
fn autofocus_pixels_lie_on_a_grid() {
    assert!(get_af_grid(40, true).is_some() && get_af_grid(41, false).is_some());
    assert!(get_af_grid(39, true).is_none());
    let x = x3f(vec![uints("CAMERAID", &[1], &[40])], &[]);
    let bp = collect_bad_pixels(&x, 300, 500, 1);
    assert!(bp.test_pix(217, 464) && bp.test_pix(217, 465) && bp.test_pix(233, 496));
    assert!(!bp.test_pix(218, 464) && !bp.test_pix(217, 466) && !bp.test_pix(217, 463));
}

#[test]
fn bad_pixels_are_interpolated_and_good_ones_stay() {
    let bad = |v: &[u32]| {
        let n = v.len() as u32 / 3;
        x3f(vec![uints("BadPixelsF20", &[3, n], v)], &[])
    };
    let data: Vec<u16> = (0..27).map(|v| 10 * v).collect();
    let mut image = area(3, 3, 3, data.clone());
    image.data[12] = 999;
    interpolate_bad_pixels(&bad(&[1, 1, 0]), &mut image, 3);
    assert_eq!(image.data, data);
    let mut image = area(1, 3, 3, vec![10, 0, 0, 500, 1, 1, 21, 0, 1]);
    interpolate_bad_pixels(&bad(&[0, 1, 0]), &mut image, 3);
    assert_eq!(image.data, vec![10, 0, 0, 16, 0, 1, 21, 0, 1]);
    let mut image = area(2, 2, 3, vec![9, 9, 9, 2, 2, 2, 4, 4, 4, 8, 8, 8]);
    interpolate_bad_pixels(&bad(&[0, 0, 0]), &mut image, 3);
    assert_eq!(image.data[..3], [3, 3, 3]);
    let mut image = area(1, 2, 3, vec![9, 9, 9, 2, 2, 2]);
    interpolate_bad_pixels(&bad(&[0, 0, 0]), &mut image, 3);
    assert_eq!(image.data, vec![9, 9, 9, 2, 2, 2]);
}

#[test]
fn interpolated_pixels_are_good_in_the_next_pass() {
    let bad = x3f(vec![uints("BadPixelsF20", &[3, 3], &[0, 1, 0, 1, 0, 0, 1, 1, 0])], &[]);
    let values = [10u16, 999, 20, 999, 999, 40, 30, 50, 60];
    let mut image = area(3, 3, 3, values.iter().flat_map(|v| [*v; 3]).collect());
    interpolate_bad_pixels(&bad, &mut image, 3);
    let expected = [10u16, 15, 20, 20, 31, 40, 30, 50, 60];
    let got: Vec<u16> = image.data.iter().step_by(3).copied().collect();
    assert_eq!(got, expected);
}

#[test]
fn quattro_images_are_preprocessed_with_their_top_layer() {
    let plus = |n: u32| (0..LEVELS).map(|v| (v as u32 + n).min(65535) as u16).collect::<Vec<u16>>();
    let tables = LevelTables {
        layers: [plus(1), plus(2), plus(3)],
        sums: (0..SUM_LEVELS).map(|s| (s / 4) as u16).collect(),
    };
    let x = x3f(vec![uints("BadPixelsLumaF23", &[3], &[0, 1, 0])], &[]);
    let mut image = area(1, 1, 3, vec![10, 20, 30]);
    let mut top = area(2, 3, 1, vec![4, 100, 8, 4, 4, 4]);
    preprocess_quattro(&x, &mut image, &mut top, &tables, true);
    assert_eq!(image.data, vec![11, 22, 28]);
    assert_eq!(top.data, vec![7, 9, 11, 7, 7, 7]);
}

#[test]
fn parse_hp_props_index_works() {
    assert_eq!(parse_hp_props_index(b"SpatialGainHPProps_3"), Some(3));
    assert_eq!(parse_hp_props_index(b"SpatialGainHPProps_12"), Some(12));
    assert_eq!(parse_hp_props_index(b"SpatialGainHPProps_3x"), None);
    assert_eq!(parse_hp_props_index(b"SomethingElse_3"), None);
}

#[test]
fn parse_focus_props_works() {
    assert_eq!(parse_focus_props(b"SpatialGainsProps_4_INF"), Some((4, *b"INF")));
    assert_eq!(parse_focus_props(b"SpatialGainsProps_2_MOD"), Some((2, *b"MOD")));
    assert_eq!(parse_focus_props(b"SpatialGainsProps_4_INFX"), None);
    assert_eq!(parse_focus_props(b"SpatialGainsProps_INF"), None);
}

#[test]
fn names_of_tables_have_two_texts() {
    assert_eq!(
        split_aperture_props(b"SpatialGainsProps_4.0_30.5"),
        Some((&b"4.0"[..], &b"30.5"[..]))
    );
    assert_eq!(split_aperture_props(b"SpatialGain_4.0_30.5"), None);
    assert_eq!(split_aperture_props(b"SpatialGainsProps_4.0"), None);
    assert_eq!(parse_hp_props_index(b"SpatialGainHPProps_4294967296"), None);
    assert_eq!(parse_hp_props_index(b"SpatialGainHPProps_"), None);
    assert_eq!(parse_hp_props_index(b"SpatialGainHPProps_+3"), Some(3));
}

fn gain_entries() -> Vec<CamfEntry> {
    let keys = [
        ("GainsTableR", "T"), ("MinGainsR", "1.0"), ("DeltaR", "0.5"),
        ("GainsTableG", "T"), ("MinGainsG", "1.0"), ("DeltaG", "0.5"),
        ("GainsTableB", "T"), ("MinGainsB", "1.0"), ("DeltaB", "0.25"),
    ];
    vec![
        floats("CaptureAperture", &[1], &[4.0]),
        list("IncludeBlocks", &[("SpatialGainsProps_4.0_30.5", ""), ("Other", "")]),
        list("SpatialGainsProps_4.0_30.5", &keys),
        list("Other", &[]),
        uints("T", &[2, 3], &[1, 2, 3, 4, 5, 6]),
        floats("SpatialGain", &[2, 2, 3], &[1.0; 12]),
    ]
}

#[test]
fn gain_tables_are_chosen_by_name() {
    let x = x3f(gain_entries(), &[]);
    let (aperture, found) = get_gain_candidates(&x, false).unwrap();
    assert_eq!(aperture, 4.0f32.to_bits());
    assert_eq!(found.len(), 1);
    match &found[0].place {
        GainPlace::Texts { aperture, lens } => {
            assert_eq!((aperture.as_slice(), lens.as_slice()), (&b"4.0"[..], &b"30.5"[..]));
        }
        _ => unreachable!(),
    }
    assert!(get_gain_candidates(&x, true).is_none());
    let t = get_merrill_type_gains_table(&x, b"SpatialGainsProps_4.0_30.5", b"B").unwrap();
    assert_eq!((t.rows, t.cols, t.gain.len()), (2, 3, 6));
    assert_eq!((t.mingain.as_slice(), t.delta.as_slice()), (&b"1.0"[..], &b"0.25"[..]));
    assert!(get_merrill_type_gains_table(&x, b"Other", b"B").is_none());
    let blocks = vec![b"SpatialGainsProps_4.0_30.5".to_vec()];
    let tables = get_gain_tables(&x, false, &blocks).unwrap();
    assert_eq!((tables.len(), tables[0].len()), (3, 1));
    assert!(get_gain_tables(&x, false, &vec![b"Other".to_vec()]).is_none());
    assert!(get_gain_tables(&x, false, &Vec::new()).is_none());
    assert_eq!(x3f_get_classic_spatial_gain(&x, b"Auto").unwrap().dims.len(), 3);
    assert!(x3f_get_classic_spatial_gain(&x3f(Vec::new(), &[]), b"Auto").is_none());
}

#[test]
fn lenses_have_a_shortest_distance() {
    for (lens, distance) in [(1003, 200), (1004, 280), (1005, 226), (7, 280)] {
        assert_eq!(get_mod(&x3f(vec![ints("LensInformation", &[1], &[lens])], &[])), distance);
    }
    assert_eq!(get_mod(&x3f(Vec::new(), &[])), 280);
}

#[test]
fn every_sample_has_one_correction() {
    for hp in [false, true] {
        let count = if hp { 6 } else { 3 };
        for row in 0..4 {
            for col in 0..4 {
                for chan in 0..3 {
                    let hits = (0..count)
                        .filter(|&i| corr_layout(hp, i).applies_to(1, row, col, chan))
                        .count();
                    assert_eq!(hits, 1);
                }
            }
        }
    }
}

#[test]
fn gains_are_interpolated_between_four_entries() {
    assert_eq!(gain_corners(3, 4, 2, 1, 2, 1, 24), [13, 15, 21, 23]);
    assert_eq!(gain_corners(3, 4, 2, 2, 3, 0, 24), [22, 22, 22, 22]);
    assert_eq!(gain_corners(3, 4, 2, -1, 0, 0, 24)[2..], [0, 2]);
}

#[test]
fn camera_maps_mark_clipped_samples() {
    let entries = || {
        vec![uints("SatMapR", &[2], &[1, 2]), uints("SatMapB", &[3], &[4, 9, 1])]
    };
    let mut s = SensorReliability::new(2, 2).unwrap();
    s.merge_merrill_camera_clipping(&x3f(entries(), &[("SENSORID", "F20")]));
    assert_eq!(s.data, vec![[255, 255, 255], [0, 255, 255], [0, 255, 255], [255, 255, 255]]);
    assert_eq!(s.camera_map_channels, 1);
    let mut s = SensorReliability::new(2, 2).unwrap();
    s.merge_merrill_camera_clipping(&x3f(entries(), &[("SENSORID", "F13")]));
    assert_eq!(s.data, vec![[255u8; 3]; 4]);
}

fn show(items: &[Item]) -> String {
    items
        .iter()
        .map(|item| match item {
            Item::Byte(b) => (*b as char).to_string(),
            Item::Real { bits, general } => {
                format!("<{}{}>", f32::from_bits(*bits), if *general { "g" } else { "f" })
            }
            Item::Quotient { dividend, divisor } => format!("<{dividend}/{divisor}>"),
            Item::Address(true) => "<@>".to_string(),
            Item::Address(false) => "<nil>".to_string(),
        })
        .collect()
}

#[test]
fn matrices_are_printed_in_lines_and_groups() {
    let text = |e: &CamfEntry, max: u32| match &e.value {
        CamfValue::Matrix(m) => show(&print_matrix(m, max)),
        _ => unreachable!(),
    };
    assert_eq!(
        text(&ints("I", &[2, 2], &[1, -2, 3, 4]), 100),
        "integer [2][2]\nx: q\ny: p\n           1           -2 \n           3            4 \n"
    );
    assert_eq!(
        text(&uints("U", &[3], &[1, u32::MAX, 3]), 2),
        "unsigned integer [3]\nx: p\n           1           -1 \n... (1 skipped) ...\n"
    );
    assert_eq!(
        text(&floats("F", &[2, 1, 1], &[0.5, 2.0]), 100),
        "float [2][1][1]\nx: r\ny: q\nz: p (i.e. group)\n<0.5g> \n\n<2g> \n\n"
    );
    assert_eq!(
        text(&uints("U", &[2], &[5, 6]), 0),
        "unsigned integer [2]\nx: p\n\n... (2 skipped) ...\n"
    );
    assert_eq!(
        text(&uints("U", &[2], &[5, 6]), 1),
        "unsigned integer [2]\nx: p\n           5 \n... (1 skipped) ...\n"
    );
    assert_eq!(
        text(&uints("U", &[1], &[5]), 1),
        "unsigned integer [1]\nx: p\n           5 \n\n... (0 skipped) ...\n"
    );
    assert!(text(&uints("U", &[1, 1, 1, 1], &[5]), 9)
        .starts_with("unsigned integer \nNot support for higher than 3D in printout\n"));
}

#[test]
fn dumps_have_three_parts() {
    let x = x3f(
        vec![
            entry("T", CamfValue::Text { text_size: 4, text: b"abc".to_vec() }),
            entry("E", CamfValue::Text { text_size: 0, text: Vec::new() }),
            list("L", &[("k", "v")]),
        ],
        &[("ISO", "100")],
    );
    let text = show(&dump_meta_data_text(&x, 100));
    assert!(text.starts_with(
        "BEGIN: file header meta data\n\nheader.\n  identifier        = 62564f46 (FOVb)\n  \
         version           = 00020003\n  unique_identifier = ab...\n  \
         mark_bits         = 00000001\n  columns           = 00000014 (20)\n  \
         rows              = 0000000a (10)\n  rotation          = 0000005a (90)\n  \
         white_balance     = Overcast\n  color_mode        = Vivid\n  extended_types\n     \
         0:   0 = <1f>\n     1:   1 = <1f>\n"
    ));
    assert!(text.ends_with(
        "    31:  31 = <1f>\nEND: file header meta data\n\nBEGIN: CAMF meta data\n\n\
         BEGIN: CAMF text meta data (T)\n\"abc\"\nEND: CAMF text meta data\n\n\
         BEGIN: CAMF property meta data (L)\n              \"k\" = \"v\"\n\
         END: CAMF property meta data\n\nEND: CAMF meta data\n\n\
         BEGIN: PROP meta data\n\n          [0] \"ISO\" = \"100\"\nEND: PROP meta data\n\n"
    ));
    let mut bare = x3f(Vec::new(), &[]);
    bare.directory.clear();
    assert!(show(&dump_meta_data_text(&bare, 1)).ends_with(
        "INFO: No CAMF meta data found\n\nINFO: No PROP meta data found\n\n"
    ));
}

#[test]
fn particulars_are_printed_on_request() {
    let entries = vec![uints("M", &[1], &[5])];
    let text = show(&print_camf_meta_data2(&entries, 100, true));
    assert!(text.contains("          element[0].name = \"M\"\n            id = 4d624d43 (CMbM)\n"));
    assert!(text.contains("              n = 0\n              name = \"p\"\n"));
    assert!(text.contains("            matrix_estimated_element_size = <4/1>\n"));
    assert!(!show(&print_camf_meta_data2(&entries, 100, false)).contains("element"));
}

#[test]
fn sections_are_printed_one_by_one() {
    assert_eq!(show(&x3f_print_meta(None, 100, false)), "Null x3f\n");
    let x = x3f(Vec::new(), &[]);
    let text = show(&x3f_print_meta(Some(&x), 100, false));
    assert!(text.starts_with(
        "info.\n  error = (null)\n  input.\n    file = <@>\n  output.\n    file = <nil>\nBEGIN: file"
    ));
    assert!(text.contains(
        "directory_section.\n  identifier            = 64434553 (SECd)\n  \
         version               = 00020000\n  num_directory_entries = 00000002\n  \
         directory_entry       = <@>\n  directory_entry.\n    input.\n      offset = 00000028\n"
    ));
    assert!(text.contains("          infotype         = 4f464e49 (INFO)\n"));
    assert!(text.contains("        decoding_start   = <nil>\n"));
    assert!(text.contains("    property_table       = 0 <nil>\n"));
}
