//! Which matrices of the metadata the gains and colours of a white balance come
//! from.

use crate::black_level::{is_merrill_model, spec_is_merrill_model};
use crate::image::{camf_four, get_camf_four};
use crate::io::X3f;
use crate::meta::{
    camf_float_vector, has_property_list, matrix_for_wb, x3f_get_camf_float_vector,
    x3f_get_camf_matrix_for_wb, x3f_get_camf_property_list,
};
use vstd::prelude::*;
use vstd::string::StringSliceAdditionalSpecFns;

verus! {

/// What the metadata state for a white balance, as bits of real numbers.
pub enum WbSource<'b> {
    /// The numbers themselves.
    Direct(&'b Vec<u32>),
    /// The matrices that they are computed from.
    Computed { illuminants: &'b Vec<u32>, corrections: &'b Vec<u32> },
}

/// The numbers that one of two lists names for a white balance.
pub open spec fn direct_source(
    x3f: X3f,
    list: Seq<u8>,
    dp1_list: Seq<u8>,
    wb: Seq<u8>,
    dim1: u32,
) -> Option<Seq<u32>> {
    match matrix_for_wb(x3f, list, wb, 3, dim1) {
        Some(v) => Some(v),
        None => matrix_for_wb(x3f, dp1_list, wb, 3, dim1),
    }
}

pub open spec fn illuminants(x3f: X3f, wb: Seq<u8>) -> Option<Seq<u32>> {
    matrix_for_wb(x3f, "WhiteBalanceIlluminants".spec_bytes(), wb, 3, 3)
}

pub open spec fn corrections(x3f: X3f, wb: Seq<u8>) -> Option<Seq<u32>> {
    matrix_for_wb(x3f, "WhiteBalanceCorrections".spec_bytes(), wb, 3, 3)
}

/// Whether a source is the one that the metadata state: the numbers themselves
/// where one of the two lists has them, or else both matrices.
pub open spec fn is_wb_source(
    x3f: X3f,
    list: Seq<u8>,
    dp1_list: Seq<u8>,
    wb: Seq<u8>,
    dim1: u32,
    source: Option<WbSource<'_>>,
) -> bool {
    match source {
        Some(WbSource::Direct(v)) => direct_source(x3f, list, dp1_list, wb, dim1) == Some(v@),
        Some(WbSource::Computed { illuminants: i, corrections: c }) => {
            &&& direct_source(x3f, list, dp1_list, wb, dim1) is None
            &&& illuminants(x3f, wb) == Some(i@)
            &&& corrections(x3f, wb) == Some(c@)
        },
        None => {
            &&& direct_source(x3f, list, dp1_list, wb, dim1) is None
            &&& illuminants(x3f, wb) is None || corrections(x3f, wb) is None
        },
    }
}

fn wb_source<'b>(x3f: &'b X3f<'_>, list: &[u8], dp1_list: &[u8], wb: &[u8], dim1: u32) -> (r: Option<
    WbSource<'b>,
>)
    requires
        x3f.inv(),
    ensures
        is_wb_source(*x3f, list@, dp1_list@, wb@, dim1, r),
{
    if let Some(v) = x3f_get_camf_matrix_for_wb(x3f, list, wb, 3, dim1) {
        return Some(WbSource::Direct(v));
    }
    if let Some(v) = x3f_get_camf_matrix_for_wb(x3f, dp1_list, wb, 3, dim1) {
        return Some(WbSource::Direct(v));
    }
    let found_i: Option<&'b Vec<u32>> = x3f_get_camf_matrix_for_wb(
        x3f,
        "WhiteBalanceIlluminants".as_bytes(),
        wb,
        3,
        3,
    );
    let found_c: Option<&'b Vec<u32>> = x3f_get_camf_matrix_for_wb(
        x3f,
        "WhiteBalanceCorrections".as_bytes(),
        wb,
        3,
        3,
    );
    match (found_i, found_c) {
        (Some(i), Some(c)) => Some(WbSource::Computed { illuminants: i, corrections: c }),
        _ => None,
    }
}

/// Where the gains for a white balance come from.
pub fn get_gain_source<'b>(x3f: &'b X3f<'_>, wb: &[u8]) -> (r: Option<WbSource<'b>>)
    requires
        x3f.inv(),
    ensures
        is_wb_source(
            *x3f,
            "WhiteBalanceGains".spec_bytes(),
            "DP1_WhiteBalanceGains".spec_bytes(),
            wb@,
            0,
            r,
        ),
{
    wb_source(x3f, "WhiteBalanceGains".as_bytes(), "DP1_WhiteBalanceGains".as_bytes(), wb, 0)
}

/// Where the colour correction for a white balance comes from.
pub fn get_color_source<'b>(x3f: &'b X3f<'_>, wb: &[u8]) -> (r: Option<WbSource<'b>>)
    requires
        x3f.inv(),
    ensures
        is_wb_source(
            *x3f,
            "WhiteBalanceColorCorrections".spec_bytes(),
            "DP1_WhiteBalanceColorCorrections".spec_bytes(),
            wb@,
            3,
            r,
        ),
{
    wb_source(
        x3f,
        "WhiteBalanceColorCorrections".as_bytes(),
        "DP1_WhiteBalanceColorCorrections".as_bytes(),
        wb,
        3,
    )
}

/// The names of the factors that the gains are multiplied by, in their order.
pub open spec fn gain_factor_name(i: int) -> Seq<u8> {
    (if i == 0 {
        "SensorAdjustmentGainFact"
    } else if i == 1 {
        "TempGainFact"
    } else {
        "FNumberGainFact"
    }).spec_bytes()
}

/// The last of the first `n` factors that the metadata state. A factor without
/// elements repeats the one before it.
pub open spec fn last_factor(x3f: X3f, n: nat) -> Seq<u32>
    decreases n,
{
    if n == 0 {
        seq![0u32, 0u32, 0u32]
    } else {
        let last = last_factor(x3f, (n - 1) as nat);
        match camf_float_vector(x3f, gain_factor_name(n - 1), last) {
            Some(v) => v,
            None => last,
        }
    }
}

/// Those of the first `n` factors that the metadata state, as bits of real
/// numbers.
pub open spec fn gain_factors(x3f: X3f, n: nat) -> Seq<Seq<u32>>
    decreases n,
{
    if n == 0 {
        Seq::empty()
    } else {
        let before = gain_factors(x3f, (n - 1) as nat);
        match camf_float_vector(
            x3f,
            gain_factor_name(n - 1),
            last_factor(x3f, (n - 1) as nat),
        ) {
            Some(v) => before.push(v),
            None => before,
        }
    }
}

/// The factors that the gains are multiplied by, in their order, as bits of real
/// numbers.
pub fn get_gain_factors(x3f: &X3f<'_>) -> (r: Vec<[u32; 3]>)
    requires
        x3f.inv(),
    ensures
        r@.map_values(|f: [u32; 3]| f@) == gain_factors(*x3f, 3),
{
    let mut r: Vec<[u32; 3]> = Vec::new();
    let mut last: [u32; 3] = [0, 0, 0];
    let mut i: usize = 0;
    assert(last@ =~= seq![0u32, 0u32, 0u32]);
    assert(r@.map_values(|f: [u32; 3]| f@) =~= gain_factors(*x3f, 0));
    while i < 3
        invariant
            x3f.inv(),
            i <= 3,
            last@ == last_factor(*x3f, i as nat),
            r@.map_values(|f: [u32; 3]| f@) == gain_factors(*x3f, i as nat),
        decreases 3 - i,
    {
        let name: &str = if i == 0 {
            "SensorAdjustmentGainFact"
        } else if i == 1 {
            "TempGainFact"
        } else {
            "FNumberGainFact"
        };
        let ghost before = r@;
        if x3f_get_camf_float_vector(x3f, name.as_bytes(), &mut last) {
            r.push(last);
            assert(r@.map_values(|f: [u32; 3]| f@) =~= before.map_values(
                |f: [u32; 3]| f@,
            ).push(last@));
        }
        i = i + 1;
    }
    r
}

/// One, by its bits.
pub const ONE_BITS: u32 = 0x3f80_0000;

/// The gains of the sensor's sensitivity setting: ones where the metadata state
/// none, and for the Merrill family, whose gains give a colour cast.
pub open spec fn digital_iso_gain(x3f: X3f) -> Seq<u32> {
    let ones = seq![ONE_BITS, ONE_BITS, ONE_BITS];
    if spec_is_merrill_model(x3f) {
        ones
    } else {
        match camf_float_vector(x3f, "DigitalISOGain".spec_bytes(), ones) {
            Some(v) => v,
            None => ones,
        }
    }
}

/// The gains of the sensor's sensitivity setting, as bits of real numbers.
pub fn get_digital_iso_gain(x3f: &X3f<'_>) -> (r: [u32; 3])
    requires
        x3f.inv(),
    ensures
        r@ == digital_iso_gain(*x3f),
{
    let mut gain: [u32; 3] = [ONE_BITS, ONE_BITS, ONE_BITS];
    assert(gain@ =~= seq![ONE_BITS, ONE_BITS, ONE_BITS]);
    if !is_merrill_model(x3f) {
        x3f_get_camf_float_vector(x3f, "DigitalISOGain".as_bytes(), &mut gain);
    }
    gain
}

/// What the colour shading for a white balance is computed from: four
/// coefficients, as bits of real numbers, and the area that it is centred on.
pub struct ColorShading<'b> {
    pub coefficients: &'b Vec<u32>,
    pub active: Option<[u32; 4]>,
}

/// The coefficients of the colour shading, which only the Merrill family has.
pub open spec fn shading_coefficients(x3f: X3f, wb: Seq<u8>) -> Option<Seq<u32>> {
    let list = "WhiteBalanceColorShadingFactor".spec_bytes();
    if spec_is_merrill_model(x3f) && has_property_list(x3f, list) {
        matrix_for_wb(x3f, list, wb, 2, 2)
    } else {
        None
    }
}

/// What the colour shading for a white balance is computed from, if there is
/// any.
pub fn get_wb_color_shading<'b>(x3f: &'b X3f<'_>, wb: &[u8]) -> (r: Option<ColorShading<'b>>)
    requires
        x3f.inv(),
    ensures
        match r {
            Some(s) => {
                &&& shading_coefficients(*x3f, wb@) == Some(s.coefficients@)
                &&& match s.active {
                    Some(area) => camf_four(*x3f, "ActiveImageArea".spec_bytes(), 4, 0) == Some(
                        area@,
                    ),
                    None => camf_four(*x3f, "ActiveImageArea".spec_bytes(), 4, 0) is None,
                }
            },
            None => shading_coefficients(*x3f, wb@) is None,
        },
{
    let list: &[u8] = "WhiteBalanceColorShadingFactor".as_bytes();
    if !is_merrill_model(x3f) {
        return None;
    }
    if x3f_get_camf_property_list(x3f, list).is_none() {
        return None;
    }
    match x3f_get_camf_matrix_for_wb(x3f, list, wb, 2, 2) {
        Some(coefficients) => {
            let active: Option<[u32; 4]> = get_camf_four(x3f, "ActiveImageArea".as_bytes(), 4, 0);
            Some(ColorShading { coefficients, active })
        },
        None => None,
    }
}

/// What the metadata state for a white balance is taken from the first list that names it;
/// where none does, from both matrices or not at all.
pub proof fn law_the_first_list_counts(
    x3f: X3f,
    list: Seq<u8>,
    dp1_list: Seq<u8>,
    wb: Seq<u8>,
    dim1: u32,
    source: Option<WbSource<'_>>,
    v: Seq<u32>,
)
    requires
        is_wb_source(x3f, list, dp1_list, wb, dim1, source),
    ensures
        matrix_for_wb(x3f, list, wb, 3, dim1) == Some(v) ==> (source matches Some(
            WbSource::Direct(s),
        ) && s@ == v),
        matrix_for_wb(x3f, list, wb, 3, dim1) is None && matrix_for_wb(x3f, dp1_list, wb, 3, dim1)
            == Some(v) ==> (source matches Some(WbSource::Direct(s)) && s@ == v),
        matrix_for_wb(x3f, list, wb, 3, dim1) is None && matrix_for_wb(x3f, dp1_list, wb, 3, dim1)
            is None ==> (source is Some <==> matrix_for_wb(
            x3f,
            "WhiteBalanceIlluminants".spec_bytes(),
            wb,
            3,
            3,
        ) is Some && matrix_for_wb(x3f, "WhiteBalanceCorrections".spec_bytes(), wb, 3, 3) is Some),
{
}

/// The factors are those that the metadata state, of the sensor, the temperature and the
/// aperture, in this order.
pub proof fn law_factors_come_in_their_order(x3f: X3f, a: Seq<u32>, b: Seq<u32>, c: Seq<u32>)
    requires
        forall|last: Seq<u32>| #[trigger]
            camf_float_vector(x3f, "SensorAdjustmentGainFact".spec_bytes(), last) == Some(a),
        forall|last: Seq<u32>| #[trigger]
            camf_float_vector(x3f, "FNumberGainFact".spec_bytes(), last) == Some(c),
    ensures
        (forall|last: Seq<u32>| #[trigger]
            camf_float_vector(x3f, "TempGainFact".spec_bytes(), last) == Some(b))
            ==> gain_factors(x3f, 3) == seq![a, b, c],
        (forall|last: Seq<u32>| #[trigger]
            camf_float_vector(x3f, "TempGainFact".spec_bytes(), last) is None)
            ==> gain_factors(x3f, 3) == seq![a, c],
{
    reveal_with_fuel(gain_factors, 4);
    let (l0, l1, l2) = (last_factor(x3f, 0), last_factor(x3f, 1), last_factor(x3f, 2));
    assert(camf_float_vector(x3f, "SensorAdjustmentGainFact".spec_bytes(), l0) == Some(a));
    assert(camf_float_vector(x3f, "FNumberGainFact".spec_bytes(), l2) == Some(c));
    let t = camf_float_vector(x3f, "TempGainFact".spec_bytes(), l1);
    if t is Some {
        assert(gain_factors(x3f, 3) =~= seq![a, t->0, c]);
    } else {
        assert(gain_factors(x3f, 3) =~= seq![a, c]);
    }
}

} // verus!
