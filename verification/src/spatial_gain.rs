//! Lens shading: which tables of the metadata correct it, and which parts of
//! them are used where.
//!
//! The tables are stored for a number of apertures and focus distances. What is
//! near the setting of a picture is for the caller to say, who knows about real
//! numbers; here the candidates are found and the chosen tables are fetched.

use crate::camf::{dims_product, CamfMatrix, MatrixData};
use crate::io::X3f;
use crate::meta::{
    bytes_eq, camf_entry, camf_float, camf_matrix_var, camf_property, camf_signed,
    has_property_list, x3f_get_camf_float, x3f_get_camf_matrix_var, x3f_get_camf_property,
    x3f_get_camf_property_list, x3f_get_camf_signed, MatrixType,
};
use crate::text::{digit, numeral};
use vstd::prelude::*;
use vstd::string::StringSliceAdditionalSpecFns;

verus! {

/// Whether a byte is a decimal digit.
pub open spec fn is_digit(b: u8) -> bool {
    0x30 <= b <= 0x39
}

/// The number that a string of decimal digits stands for.
pub open spec fn digits_value(s: Seq<u8>) -> nat
    decreases s.len(),
{
    if s.len() == 0 {
        0
    } else {
        digits_value(s.drop_last()) * 10 + (s.last() - 0x30) as nat
    }
}

/// A string without its sign.
pub open spec fn unsigned_part(s: Seq<u8>) -> Seq<u8> {
    if s.len() > 0 && s[0] == 0x2b {
        s.skip(1)
    } else {
        s
    }
}

/// The 32-bit number that a string stands for: digits, after a plus sign or
/// without one.
pub open spec fn number_of(s: Seq<u8>) -> Option<u32> {
    let d = unsigned_part(s);
    if d.len() > 0 && (forall|i: int| 0 <= i < d.len() ==> #[trigger] is_digit(d[i]))
        && digits_value(d) <= u32::MAX {
        Some(digits_value(d) as u32)
    } else {
        None
    }
}

/// Longer strings of digits stand for larger numbers.
proof fn lemma_digits_grow(s: Seq<u8>, k: int)
    requires
        0 <= k <= s.len(),
        forall|i: int| 0 <= i < s.len() ==> #[trigger] is_digit(s[i]),
    ensures
        digits_value(s.take(k)) <= digits_value(s),
    decreases s.len() - k,
{
    if k < s.len() {
        lemma_digits_grow(s, k + 1);
        assert(s.take(k + 1).drop_last() =~= s.take(k));
    } else {
        assert(s.take(k) =~= s);
    }
}

/// The 32-bit number that a string stands for.
fn parse_u32(s: &[u8]) -> (r: Option<u32>)
    ensures
        r == number_of(s@),
{
    let n: usize = s.len();
    let mut i: usize = 0;
    if n > 0 && s[0] == 0x2b {
        i = 1;
    }
    let start: usize = i;
    let ghost d = unsigned_part(s@);
    if i == n {
        return None;
    }
    let mut value: u64 = 0;
    assert(d.take(0) =~= Seq::empty());
    while i < n
        invariant
            start <= i <= n,
            n == s@.len(),
            d.len() == n - start,
            d.len() > 0,
            forall|k: int| 0 <= k < d.len() ==> #[trigger] d[k] == s@[k + start],
            d == unsigned_part(s@),
            forall|k: int| 0 <= k < i - start ==> #[trigger] is_digit(d[k]),
            value == digits_value(d.take(i - start)),
            value <= u32::MAX,
        decreases n - i,
    {
        let b: u8 = s[i];
        assert(d[i - start] == b);
        if b < 0x30 || b > 0x39 {
            assert(!is_digit(d[i - start]));
            return None;
        }
        value = value * 10 + (b - 0x30) as u64;
        proof {
            assert(d.take(i - start + 1).drop_last() =~= d.take(i - start));
        }
        if value > u32::MAX as u64 {
            proof {
                if forall|k: int| 0 <= k < d.len() ==> #[trigger] is_digit(d[k]) {
                    lemma_digits_grow(d, i - start + 1);
                }
            }
            return None;
        }
        i = i + 1;
    }
    assert(d.take(d.len() as int) =~= d);
    Some(value as u32)
}

/// What follows a prefix.
pub open spec fn after_prefix(s: Seq<u8>, prefix: Seq<u8>) -> Option<Seq<u8>> {
    if s.len() >= prefix.len() && s.take(prefix.len() as int) == prefix {
        Some(s.skip(prefix.len() as int))
    } else {
        None
    }
}

/// What follows a prefix.
fn strip_prefix<'b>(s: &'b [u8], prefix: &[u8]) -> (r: Option<&'b [u8]>)
    ensures
        match r {
            Some(rest) => after_prefix(s@, prefix@) == Some(rest@),
            None => after_prefix(s@, prefix@) is None,
        },
{
    if s.len() < prefix.len() {
        return None;
    }
    let head: &[u8] = vstd::slice::slice_subrange(s, 0, prefix.len());
    assert(head@ =~= s@.take(prefix@.len() as int));
    if !bytes_eq(head, prefix) {
        return None;
    }
    let rest: &'b [u8] = vstd::slice::slice_subrange(s, prefix.len(), s.len());
    assert(rest@ =~= s@.skip(prefix@.len() as int));
    Some(rest)
}

/// The place of the first underscore from `i` on.
pub open spec fn underscore_from(s: Seq<u8>, i: int) -> Option<int>
    decreases s.len() - i,
{
    if !(0 <= i < s.len()) {
        None
    } else if s[i] == 0x5f {
        Some(i)
    } else {
        underscore_from(s, i + 1)
    }
}

/// A string, parted at its first underscore.
pub open spec fn parted(s: Seq<u8>) -> Option<(Seq<u8>, Seq<u8>)> {
    match underscore_from(s, 0) {
        Some(i) => Some((s.take(i), s.skip(i + 1))),
        None => None,
    }
}

/// A string, parted at its first underscore.
fn part<'b>(s: &'b [u8]) -> (r: Option<(&'b [u8], &'b [u8])>)
    ensures
        match r {
            Some((a, b)) => parted(s@) == Some((a@, b@)),
            None => parted(s@) is None,
        },
{
    let n: usize = s.len();
    let mut i: usize = 0;
    while i < n
        invariant
            i <= n,
            n == s@.len(),
            underscore_from(s@, 0) == underscore_from(s@, i as int),
        decreases n - i,
    {
        if s[i] == 0x5f {
            let a: &'b [u8] = vstd::slice::slice_subrange(s, 0, i);
            let b: &'b [u8] = vstd::slice::slice_subrange(s, i + 1, n);
            assert(a@ =~= s@.take(i as int));
            assert(b@ =~= s@.skip(i + 1));
            return Some((a, b));
        }
        i = i + 1;
    }
    None
}

/// The number in the name of a list of tables that depend on the aperture only.
pub open spec fn hp_props_index(s: Seq<u8>) -> Option<u32> {
    match after_prefix(s, "SpatialGainHPProps_".spec_bytes()) {
        Some(rest) => number_of(rest),
        None => None,
    }
}

/// The number in the name of a list of tables that depend on the aperture only.
pub fn parse_hp_props_index(s: &[u8]) -> (r: Option<u32>)
    ensures
        r == hp_props_index(s@),
{
    match strip_prefix(s, "SpatialGainHPProps_".as_bytes()) {
        Some(rest) => parse_u32(rest),
        None => None,
    }
}

/// The number and the focus in the name of a list of tables.
pub open spec fn focus_props(s: Seq<u8>) -> Option<(u32, Seq<u8>)> {
    match after_prefix(s, "SpatialGainsProps_".spec_bytes()) {
        Some(rest) => match parted(rest) {
            Some((number, focus)) => match number_of(number) {
                Some(n) => if focus.len() == 3 {
                    Some((n, focus))
                } else {
                    None
                },
                None => None,
            },
            None => None,
        },
        None => None,
    }
}

/// The number and the focus in the name of a list of tables.
pub fn parse_focus_props(s: &[u8]) -> (r: Option<(u32, [u8; 3])>)
    ensures
        match r {
            Some((n, focus)) => focus_props(s@) == Some((n, focus@)),
            None => focus_props(s@) is None,
        },
{
    let rest: &[u8] = match strip_prefix(s, "SpatialGainsProps_".as_bytes()) {
        Some(rest) => rest,
        None => {
            return None;
        },
    };
    match part(rest) {
        Some((number, after)) => match parse_u32(number) {
            Some(n) => {
                if after.len() != 3 {
                    return None;
                }
                let focus: [u8; 3] = [after[0], after[1], after[2]];
                assert(focus@ =~= after@);
                Some((n, focus))
            },
            None => None,
        },
        None => None,
    }
}

/// The two texts in the name of a list of tables: aperture and lens position.
pub open spec fn aperture_props(s: Seq<u8>) -> Option<(Seq<u8>, Seq<u8>)> {
    match after_prefix(s, "SpatialGainsProps_".spec_bytes()) {
        Some(rest) => parted(rest),
        None => None,
    }
}

/// The two texts in the name of a list of tables: aperture and lens position.
pub fn split_aperture_props<'b>(s: &'b [u8]) -> (r: Option<(&'b [u8], &'b [u8])>)
    ensures
        match r {
            Some((a, b)) => aperture_props(s@) == Some((a@, b@)),
            None => aperture_props(s@) is None,
        },
{
    match strip_prefix(s, "SpatialGainsProps_".as_bytes()) {
        Some(rest) => part(rest),
        None => None,
    }
}

/// The shortest distance, in millimetres, that the camera's lens focuses at.
pub open spec fn spec_mod(x3f: X3f) -> u32 {
    match camf_signed(x3f, "LensInformation".spec_bytes(), 0) {
        Some(1003) => 200,
        Some(1005) => 226,
        _ => 280,
    }
}

/// The shortest distance, in millimetres, that the camera's lens focuses at.
pub fn get_mod(x3f: &X3f<'_>) -> (r: u32)
    requires
        x3f.inv(),
    ensures
        r == spec_mod(*x3f),
{
    let mut lens: i32 = 0;
    if !x3f_get_camf_signed(x3f, "LensInformation".as_bytes(), &mut lens) {
        lens = -1;
    }
    match lens {
        1003 => 200,
        1004 => 280,
        1005 => 226,
        _ => 280,
    }
}

/// For which setting of the lens a list of tables is.
pub enum GainPlace {
    /// An aperture, by the bits of a real number.
    Aperture { fstop: u32 },
    /// An aperture, and a focus at infinity or as near as the lens can.
    Focus { fstop: u32, infinity: bool },
    /// An aperture and a lens position, as texts.
    Texts { aperture: Vec<u8>, lens: Vec<u8> },
}

/// The model of [`GainPlace`].
pub ghost enum PlaceModel {
    Aperture { fstop: u32 },
    Focus { fstop: u32, infinity: bool },
    Texts { aperture: Seq<u8>, lens: Seq<u8> },
}

impl View for GainPlace {
    type V = PlaceModel;

    open spec fn view(&self) -> PlaceModel {
        match *self {
            GainPlace::Aperture { fstop } => PlaceModel::Aperture { fstop },
            GainPlace::Focus { fstop, infinity } => PlaceModel::Focus { fstop, infinity },
            GainPlace::Texts { aperture, lens } => PlaceModel::Texts {
                aperture: aperture@,
                lens: lens@,
            },
        }
    }
}

/// A list of tables that may be used, by its name.
pub struct GainCandidate {
    pub block: Vec<u8>,
    pub place: GainPlace,
}

impl View for GainCandidate {
    type V = (Seq<u8>, PlaceModel);

    open spec fn view(&self) -> (Seq<u8>, PlaceModel) {
        (self.block@, self.place@)
    }
}

/// The apertures that tables are stored for, as bits of real numbers.
pub open spec fn fstops(x3f: X3f, hp: bool) -> Option<Seq<u32>> {
    let name = if hp {
        "SpatialGainHP_Fstop"
    } else {
        "SpatialGain_Fstop"
    };
    match camf_matrix_var(x3f, name.spec_bytes(), 1, MatrixType::Float) {
        Some(m) => Some(m.decoded->Float_0@),
        None => None,
    }
}

/// For which setting of the lens a list with this name is, if it is a list of
/// tables.
pub open spec fn place_of(x3f: X3f, hp: bool, block: Seq<u8>) -> Option<PlaceModel> {
    if !has_property_list(x3f, block) {
        None
    } else if hp {
        match (hp_props_index(block), fstops(x3f, true)) {
            (Some(i), Some(f)) => if i < f.len() {
                Some(PlaceModel::Aperture { fstop: f[i as int] })
            } else {
                None
            },
            _ => None,
        }
    } else {
        match fstops(x3f, false) {
            Some(f) => match focus_props(block) {
                Some((i, focus)) => if i < f.len() && (focus == "INF".spec_bytes() || focus
                    == "MOD".spec_bytes()) {
                    Some(
                        PlaceModel::Focus {
                            fstop: f[i as int],
                            infinity: focus == "INF".spec_bytes(),
                        },
                    )
                } else {
                    None
                },
                None => None,
            },
            None => match aperture_props(block) {
                Some((aperture, lens)) => Some(PlaceModel::Texts { aperture, lens }),
                None => None,
            },
        }
    }
}

/// The lists of tables among the first `n` of these names.
pub open spec fn candidates(x3f: X3f, hp: bool, blocks: Seq<Vec<u8>>, n: nat) -> Seq<
    (Seq<u8>, PlaceModel),
>
    decreases n,
{
    if n == 0 {
        Seq::empty()
    } else {
        let before = candidates(x3f, hp, blocks, (n - 1) as nat);
        match place_of(x3f, hp, blocks[n - 1]@) {
            Some(place) => before.push((blocks[n - 1]@, place)),
            None => before,
        }
    }
}

/// The names of the lists that the metadata hold.
pub open spec fn listed_blocks(x3f: X3f) -> Seq<Vec<u8>> {
    camf_entry(x3f, "IncludeBlocks".spec_bytes())->0.value->Property_names@
}

/// Whether the metadata say for which settings of the lens tables are stored, and
/// which one the picture was taken with.
pub open spec fn has_candidates(x3f: X3f, hp: bool) -> bool {
    &&& camf_float(x3f, "CaptureAperture".spec_bytes(), 0) is Some
    &&& has_property_list(x3f, "IncludeBlocks".spec_bytes())
    &&& hp ==> fstops(x3f, true) is Some
}

/// The apertures that tables are stored for.
fn get_fstops<'b>(x3f: &'b X3f<'_>, hp: bool) -> (r: Option<&'b Vec<u32>>)
    requires
        x3f.inv(),
    ensures
        match r {
            Some(f) => fstops(*x3f, hp) == Some(f@),
            None => fstops(*x3f, hp) is None,
        },
{
    let name: &str = if hp {
        "SpatialGainHP_Fstop"
    } else {
        "SpatialGain_Fstop"
    };
    match x3f_get_camf_matrix_var(x3f, name.as_bytes(), 1, MatrixType::Float) {
        Some(m) => match &m.decoded {
            MatrixData::Float(v) => Some(v),
            _ => None,
        },
        None => None,
    }
}

/// For which setting of the lens a list with this name is.
fn get_place(x3f: &X3f<'_>, hp: bool, block: &[u8]) -> (r: Option<GainPlace>)
    requires
        x3f.inv(),
    ensures
        match r {
            Some(place) => place_of(*x3f, hp, block@) == Some(place@),
            None => place_of(*x3f, hp, block@) is None,
        },
{
    if x3f_get_camf_property_list(x3f, block).is_none() {
        return None;
    }
    if hp {
        return match (parse_hp_props_index(block), get_fstops(x3f, true)) {
            (Some(i), Some(f)) => if (i as usize) < f.len() {
                Some(GainPlace::Aperture { fstop: f[i as usize] })
            } else {
                None
            },
            _ => None,
        };
    }
    match get_fstops(x3f, false) {
        Some(f) => match parse_focus_props(block) {
            Some((i, focus)) => {
                let infinity: bool = bytes_eq(focus.as_slice(), "INF".as_bytes());
                if (i as usize) < f.len() && (infinity || bytes_eq(
                    focus.as_slice(),
                    "MOD".as_bytes(),
                )) {
                    Some(GainPlace::Focus { fstop: f[i as usize], infinity })
                } else {
                    None
                }
            },
            None => None,
        },
        None => match split_aperture_props(block) {
            Some((a, b)) => Some(
                GainPlace::Texts {
                    aperture: vstd::slice::slice_to_vec(a),
                    lens: vstd::slice::slice_to_vec(b),
                },
            ),
            None => None,
        },
    }
}

/// The aperture that the picture was taken with, as bits of a real number, and
/// the lists of tables that may be used.
pub fn get_gain_candidates(x3f: &X3f<'_>, hp: bool) -> (r: Option<(u32, Vec<GainCandidate>)>)
    requires
        x3f.inv(),
    ensures
        match r {
            Some((aperture, list)) => {
                &&& has_candidates(*x3f, hp)
                &&& camf_float(*x3f, "CaptureAperture".spec_bytes(), 0) == Some(aperture)
                &&& list@.map_values(|c: GainCandidate| c@) == candidates(
                    *x3f,
                    hp,
                    listed_blocks(*x3f),
                    listed_blocks(*x3f).len(),
                )
            },
            None => !has_candidates(*x3f, hp),
        },
{
    let mut aperture: u32 = 0;
    if !x3f_get_camf_float(x3f, "CaptureAperture".as_bytes(), &mut aperture) {
        return None;
    }
    let blocks: &Vec<Vec<u8>> = match x3f_get_camf_property_list(
        x3f,
        "IncludeBlocks".as_bytes(),
    ) {
        Some((names, _)) => names,
        None => {
            return None;
        },
    };
    if hp && get_fstops(x3f, true).is_none() {
        return None;
    }
    let mut list: Vec<GainCandidate> = Vec::new();
    let mut i: usize = 0;
    assert(list@.map_values(|c: GainCandidate| c@) =~= candidates(*x3f, hp, blocks@, 0));
    while i < blocks.len()
        invariant
            x3f.inv(),
            i <= blocks@.len(),
            list@.map_values(|c: GainCandidate| c@) == candidates(*x3f, hp, blocks@, i as nat),
        decreases blocks@.len() - i,
    {
        let block: &Vec<u8> = &blocks[i];
        let ghost before = list@;
        if let Some(place) = get_place(x3f, hp, block.as_slice()) {
            let c: GainCandidate = GainCandidate {
                block: vstd::slice::slice_to_vec(block.as_slice()),
                place,
            };
            list.push(c);
            assert(list@.map_values(|c: GainCandidate| c@) =~= before.map_values(
                |c: GainCandidate| c@,
            ).push(c@));
        }
        i = i + 1;
    }
    Some((aperture, list))
}

/// A name with the name of a channel behind it.
pub open spec fn channel_key(prefix: Seq<u8>, channel: Seq<u8>) -> Seq<u8> {
    prefix + channel
}

/// A name with the name of a channel behind it.
fn make_key(prefix: &[u8], channel: &[u8]) -> (r: Vec<u8>)
    ensures
        r@ == channel_key(prefix@, channel@),
{
    let mut r: Vec<u8> = vstd::slice::slice_to_vec(prefix);
    let n: usize = channel.len();
    let mut i: usize = 0;
    assert(r@ =~= prefix@ + channel@.take(0));
    while i < n
        invariant
            i <= n,
            n == channel@.len(),
            r@ == prefix@ + channel@.take(i as int),
        decreases n - i,
    {
        r.push(channel[i]);
        i = i + 1;
        assert(r@ =~= prefix@ + channel@.take(i as int));
    }
    assert(channel@.take(n as int) =~= channel@);
    r
}

/// A table of gains: whole numbers, and as texts the gain that zero stands for
/// and the step from one number to the next.
pub struct GainsTable<'b> {
    pub gain: &'b Vec<u32>,
    pub rows: u32,
    pub cols: u32,
    pub mingain: &'b Vec<u8>,
    pub delta: &'b Vec<u8>,
}

/// The matrix of gains of a channel in a list of tables.
pub open spec fn gains_matrix(x3f: X3f, block: Seq<u8>, channel: Seq<u8>) -> Option<CamfMatrix> {
    match camf_property(x3f, block, channel_key("GainsTable".spec_bytes(), channel)) {
        Some(name) => camf_matrix_var(x3f, name, 2, MatrixType::Uint),
        None => None,
    }
}

/// Whether a list of tables has everything that a channel needs.
pub open spec fn has_table(x3f: X3f, block: Seq<u8>, channel: Seq<u8>) -> bool {
    &&& gains_matrix(x3f, block, channel) is Some
    &&& camf_property(x3f, block, channel_key("MinGains".spec_bytes(), channel)) is Some
    &&& camf_property(x3f, block, channel_key("Delta".spec_bytes(), channel)) is Some
}

/// Whether a table is the one of a channel in a list of tables.
pub open spec fn is_table(x3f: X3f, block: Seq<u8>, channel: Seq<u8>, t: GainsTable<'_>) -> bool {
    &&& has_table(x3f, block, channel)
    &&& gains_matrix(x3f, block, channel)->0.decoded->Uint_0@ == t.gain@
    &&& gains_matrix(x3f, block, channel)->0.dims@[0].size == t.rows
    &&& gains_matrix(x3f, block, channel)->0.dims@[1].size == t.cols
    &&& camf_property(x3f, block, channel_key("MinGains".spec_bytes(), channel)) == Some(
        t.mingain@,
    )
    &&& camf_property(x3f, block, channel_key("Delta".spec_bytes(), channel)) == Some(t.delta@)
    &&& t.gain@.len() == t.rows * t.cols
}

/// The table of a channel in a list of tables.
pub fn get_merrill_type_gains_table<'b>(x3f: &'b X3f<'_>, block: &[u8], channel: &[u8]) -> (r:
    Option<GainsTable<'b>>)
    requires
        x3f.inv(),
    ensures
        match r {
            Some(t) => is_table(*x3f, block@, channel@, t),
            None => !has_table(*x3f, block@, channel@),
        },
{
    let key: Vec<u8> = make_key("GainsTable".as_bytes(), channel);
    let name: &'b Vec<u8> = match x3f_get_camf_property(x3f, block, key.as_slice()) {
        Some(name) => name,
        None => {
            return None;
        },
    };
    let m: &'b CamfMatrix = match x3f_get_camf_matrix_var(
        x3f,
        name.as_slice(),
        2,
        MatrixType::Uint,
    ) {
        Some(m) => m,
        None => {
            return None;
        },
    };
    let key: Vec<u8> = make_key("MinGains".as_bytes(), channel);
    let mingain: &'b Vec<u8> = match x3f_get_camf_property(x3f, block, key.as_slice()) {
        Some(text) => text,
        None => {
            return None;
        },
    };
    let key: Vec<u8> = make_key("Delta".as_bytes(), channel);
    let delta: &'b Vec<u8> = match x3f_get_camf_property(x3f, block, key.as_slice()) {
        Some(text) => text,
        None => {
            return None;
        },
    };
    match &m.decoded {
        MatrixData::Uint(gain) => {
            proof {
                reveal_with_fuel(dims_product, 3);
                assert(dims_product(m.dims@, 2) == m.dims@[0].size * m.dims@[1].size);
            }
            Some(
                GainsTable { gain, rows: m.dims[0].size, cols: m.dims[1].size, mingain, delta },
            )
        },
        _ => None,
    }
}

/// How a correction is laid out: which rows, columns and channel it is for.
#[derive(Clone, Copy, Debug, PartialEq, Eq, Structural)]
pub struct CorrLayout {
    pub rowoff: u32,
    pub coloff: u32,
    pub rowpitch: u32,
    pub colpitch: u32,
    pub chan: u32,
}

/// The layout of correction `i`: one for every channel. For a high-resolution
/// Quattro image the third channel has four, one for each pixel of two by two.
pub open spec fn layout_of(hp: bool, i: int) -> CorrLayout {
    if hp && i >= 2 {
        CorrLayout {
            rowoff: ((i - 2) / 2) as u32,
            coloff: ((i - 2) % 2) as u32,
            rowpitch: 2,
            colpitch: 2,
            chan: 2,
        }
    } else {
        CorrLayout { rowoff: 0, coloff: 0, rowpitch: 1, colpitch: 1, chan: i as u32 }
    }
}

/// The number of corrections.
pub open spec fn corrections_of(hp: bool) -> nat {
    if hp {
        6
    } else {
        3
    }
}

/// The layout of correction `i`.
pub fn corr_layout(hp: bool, i: usize) -> (r: CorrLayout)
    requires
        i < corrections_of(hp),
    ensures
        r == layout_of(hp, i as int),
{
    if hp && i >= 2 {
        let k: u32 = i as u32 - 2;
        CorrLayout { rowoff: k / 2, coloff: k % 2, rowpitch: 2, colpitch: 2, chan: 2 }
    } else {
        CorrLayout { rowoff: 0, coloff: 0, rowpitch: 1, colpitch: 1, chan: i as u32 }
    }
}

/// Whether a correction of this many channels is for a sample.
pub open spec fn applies(l: CorrLayout, channels: u32, row: u32, col: u32, chan: u32) -> bool {
    &&& l.chan <= chan < l.chan + channels
    &&& row % l.rowpitch == l.rowoff
    &&& col % l.colpitch == l.coloff
}

impl CorrLayout {
    /// Whether a correction of this many channels is for a sample.
    pub fn applies_to(&self, channels: u32, row: u32, col: u32, chan: u32) -> (r: bool)
        requires
            self.rowpitch > 0,
            self.colpitch > 0,
        ensures
            r == applies(*self, channels, row, col, chan),
    {
        chan >= self.chan && chan - self.chan < channels && row % self.rowpitch == self.rowoff
            && col % self.colpitch == self.coloff
    }
}

/// Every sample of three channels has exactly one correction.
pub proof fn law_one_correction_per_sample(hp: bool, row: u32, col: u32, chan: u32)
    requires
        chan < 3,
    ensures
        exists|i: int|
            0 <= i < corrections_of(hp) && #[trigger] applies(layout_of(hp, i), 1, row, col, chan),
        forall|i: int, j: int|
            0 <= i < corrections_of(hp) && 0 <= j < corrections_of(hp) && #[trigger] applies(
                layout_of(hp, i),
                1,
                row,
                col,
                chan,
            ) && #[trigger] applies(layout_of(hp, j), 1, row, col, chan) ==> i == j,
{
    let i = if hp && chan == 2 {
        2 + 2 * (row % 2) + col % 2
    } else {
        chan as int
    };
    assert(applies(layout_of(hp, i), 1, row, col, chan));
}

/// The names of the channels, in the order of the corrections.
pub open spec fn channel_name(hp: bool, i: int) -> Seq<u8> {
    (if i == 0 {
        "R"
    } else if i == 1 {
        "G"
    } else if !hp {
        "B"
    } else if i == 2 {
        "B0"
    } else if i == 3 {
        "B1"
    } else if i == 4 {
        "B2"
    } else {
        "B3"
    }).spec_bytes()
}

/// Whether the table of list `i` for correction `j` is there and has the size of
/// the first list's.
pub open spec fn table_ok(x3f: X3f, hp: bool, blocks: Seq<Vec<u8>>, i: int, j: int) -> bool {
    let a = gains_matrix(x3f, blocks[0]@, channel_name(hp, j))->0.dims@;
    let b = gains_matrix(x3f, blocks[i]@, channel_name(hp, j))->0.dims@;
    &&& has_table(x3f, blocks[i]@, channel_name(hp, j))
    &&& a[0].size == b[0].size
    &&& a[1].size == b[1].size
}

/// Whether all tables of these lists are there, and those of each channel have
/// the same size.
pub open spec fn tables_ok(x3f: X3f, hp: bool, blocks: Seq<Vec<u8>>) -> bool {
    forall|i: int, j: int|
        0 <= i < blocks.len() && 0 <= j < corrections_of(hp) ==> #[trigger] table_ok(
            x3f,
            hp,
            blocks,
            i,
            j,
        )
}

fn get_channel_name(hp: bool, i: usize) -> (r: &'static str)
    ensures
        r.spec_bytes() == channel_name(hp, i as int),
{
    if i == 0 {
        "R"
    } else if i == 1 {
        "G"
    } else if !hp {
        "B"
    } else if i == 2 {
        "B0"
    } else if i == 3 {
        "B1"
    } else if i == 4 {
        "B2"
    } else {
        "B3"
    }
}

/// Whether these are the tables of correction `j` in each of the lists.
pub open spec fn are_tables(
    x3f: X3f,
    hp: bool,
    blocks: Seq<Vec<u8>>,
    j: int,
    t: Seq<GainsTable<'_>>,
) -> bool {
    &&& t.len() == blocks.len()
    &&& forall|i: int|
        0 <= i < blocks.len() ==> is_table(x3f, blocks[i]@, channel_name(hp, j), #[trigger] t[i])
}

/// The tables of one correction in each of these lists.
fn correction_tables<'b>(x3f: &'b X3f<'_>, hp: bool, blocks: &Vec<Vec<u8>>, j: usize) -> (r: Option<
    Vec<GainsTable<'b>>,
>)
    requires
        x3f.inv(),
        j < corrections_of(hp),
    ensures
        match r {
            Some(t) => {
                &&& are_tables(*x3f, hp, blocks@, j as int, t@)
                &&& forall|i: int|
                    0 <= i < blocks@.len() ==> #[trigger] table_ok(*x3f, hp, blocks@, i, j as int)
            },
            None => !(forall|i: int|
                0 <= i < blocks@.len() ==> #[trigger] table_ok(*x3f, hp, blocks@, i, j as int)),
        },
{
    let name: &str = get_channel_name(hp, j);
    let ghost c = channel_name(hp, j as int);
    let mut t: Vec<GainsTable<'b>> = Vec::new();
    let n: usize = blocks.len();
    let mut i: usize = 0;
    while i < n
        invariant
            x3f.inv(),
            i <= n,
            n == blocks@.len(),
            name.spec_bytes() == c,
            c == channel_name(hp, j as int),
            t@.len() == i,
            forall|k: int| 0 <= k < i ==> is_table(*x3f, blocks@[k]@, c, #[trigger] t@[k]),
            forall|k: int| 0 <= k < i ==> #[trigger] table_ok(*x3f, hp, blocks@, k, j as int),
        decreases n - i,
    {
        let one: GainsTable<'b> = match get_merrill_type_gains_table(
            x3f,
            blocks[i].as_slice(),
            name.as_bytes(),
        ) {
            Some(one) => one,
            None => {
                assert(!table_ok(*x3f, hp, blocks@, i as int, j as int));
                return None;
            },
        };
        assert(is_table(*x3f, blocks@[i as int]@, c, one));
        if i > 0 {
            assert(is_table(*x3f, blocks@[0]@, c, t@[0]));
            if t[0].rows != one.rows || t[0].cols != one.cols {
                assert(!table_ok(*x3f, hp, blocks@, i as int, j as int));
                return None;
            }
        }
        assert(table_ok(*x3f, hp, blocks@, i as int, j as int));
        let ghost before = t@;
        t.push(one);
        proof {
            assert forall|k: int| 0 <= k < i + 1 implies is_table(
                *x3f,
                blocks@[k]@,
                c,
                #[trigger] t@[k],
            ) by {
                if k < i {
                    assert(t@[k] == before[k]);
                }
            }
        }
        i = i + 1;
    }
    Some(t)
}

/// The tables of all corrections in each of these lists, if there are any lists
/// and they have all tables, in matching sizes. The tables stand by correction,
/// then by list.
pub fn get_gain_tables<'b>(x3f: &'b X3f<'_>, hp: bool, blocks: &Vec<Vec<u8>>) -> (r: Option<
    Vec<Vec<GainsTable<'b>>>,
>)
    requires
        x3f.inv(),
    ensures
        match r {
            Some(t) => {
                &&& blocks@.len() > 0
                &&& tables_ok(*x3f, hp, blocks@)
                &&& t@.len() == corrections_of(hp)
                &&& forall|j: int|
                    0 <= j < t@.len() ==> are_tables(*x3f, hp, blocks@, j, (#[trigger] t@[j])@)
            },
            None => blocks@.len() == 0 || !tables_ok(*x3f, hp, blocks@),
        },
{
    if blocks.len() == 0 {
        return None;
    }
    let n: usize = if hp {
        6
    } else {
        3
    };
    let mut all: Vec<Vec<GainsTable<'b>>> = Vec::new();
    let mut j: usize = 0;
    while j < n
        invariant
            x3f.inv(),
            j <= n,
            n == corrections_of(hp),
            all@.len() == j,
            forall|k: int|
                0 <= k < j ==> are_tables(*x3f, hp, blocks@, k, (#[trigger] all@[k])@),
            forall|i: int, k: int|
                0 <= i < blocks@.len() && 0 <= k < j ==> #[trigger] table_ok(
                    *x3f,
                    hp,
                    blocks@,
                    i,
                    k,
                ),
        decreases n - j,
    {
        match correction_tables(x3f, hp, blocks, j) {
            Some(t) => {
                all.push(t);
            },
            None => {
                return None;
            },
        }
        j = j + 1;
    }
    Some(all)
}

/// The gains for a white balance, in rows, columns and channels, where there are
/// no tables by aperture.
pub open spec fn classic_gain(x3f: X3f, wb: Seq<u8>) -> Option<CamfMatrix> {
    let listed = match camf_property(x3f, "SpatialGainTables".spec_bytes(), wb) {
        Some(name) => camf_matrix_var(x3f, name, 3, MatrixType::Float),
        None => None,
    };
    match listed {
        Some(m) => Some(m),
        None => camf_matrix_var(x3f, "SpatialGain".spec_bytes(), 3, MatrixType::Float),
    }
}

/// The gains for a white balance, where there are no tables by aperture.
pub fn x3f_get_classic_spatial_gain<'b>(x3f: &'b X3f<'_>, wb: &[u8]) -> (r: Option<&'b CamfMatrix>)
    requires
        x3f.inv(),
    ensures
        match r {
            Some(m) => classic_gain(*x3f, wb@) == Some(*m) && m.inv(),
            None => classic_gain(*x3f, wb@) is None,
        },
{
    if let Some(name) = x3f_get_camf_property(x3f, "SpatialGainTables".as_bytes(), wb) {
        if let Some(m) = x3f_get_camf_matrix_var(x3f, name.as_slice(), 3, MatrixType::Float) {
            return Some(m);
        }
    }
    x3f_get_camf_matrix_var(x3f, "SpatialGain".as_bytes(), 3, MatrixType::Float)
}

/// The row or column of a table below or at a position, and the one above it;
/// beyond the last they are both the last.
pub open spec fn neighbours(at: int, size: int) -> (int, int) {
    if at < 0 {
        (0, 0)
    } else if at >= size - 1 {
        (size - 1, size - 1)
    } else {
        (at, at + 1)
    }
}

/// Where an entry of a table of gains stands.
pub open spec fn gain_index(cols: int, channels: int, row: int, col: int, ch: int) -> int {
    row * cols * channels + col * channels + ch
}

/// Where the four entries of a table of gains stand that a gain is interpolated
/// from: upper left, upper right, lower left and lower right.
pub fn gain_corners(rows: u32, cols: u32, channels: u32, row: i32, col: i32, ch: u32, len: usize) -> (r:
    [usize; 4])
    requires
        0 < rows <= i32::MAX,
        0 < cols <= i32::MAX,
        ch < channels,
        0 <= col,
        rows * cols * channels <= len,
    ensures
        ({
            let (r1, r2) = neighbours(row as int, rows as int);
            let (c1, c2) = neighbours(col as int, cols as int);
            let (w, n, k) = (cols as int, channels as int, ch as int);
            &&& r[0] == gain_index(w, n, r1, c1, k)
            &&& r[1] == gain_index(w, n, r1, c2, k)
            &&& r[2] == gain_index(w, n, r2, c1, k)
            &&& r[3] == gain_index(w, n, r2, c2, k)
            &&& forall|i: int| 0 <= i < 4 ==> #[trigger] r@[i] < len
        }),
{
    let (r1, r2): (usize, usize) = if row < 0 {
        (0, 0)
    } else if row >= rows as i32 - 1 {
        (rows as usize - 1, rows as usize - 1)
    } else {
        (row as usize, row as usize + 1)
    };
    let (c1, c2): (usize, usize) = if col >= cols as i32 - 1 {
        (cols as usize - 1, cols as usize - 1)
    } else {
        (col as usize, col as usize + 1)
    };
    proof {
        lemma_gain_index(rows as int, cols as int, channels as int, r1 as int, c1 as int, ch as int);
        lemma_gain_index(rows as int, cols as int, channels as int, r1 as int, c2 as int, ch as int);
        lemma_gain_index(rows as int, cols as int, channels as int, r2 as int, c1 as int, ch as int);
        lemma_gain_index(rows as int, cols as int, channels as int, r2 as int, c2 as int, ch as int);
    }
    let (w, n, k): (usize, usize, usize) = (cols as usize, channels as usize, ch as usize);
    [
        r1 * w * n + c1 * n + k,
        r1 * w * n + c2 * n + k,
        r2 * w * n + c1 * n + k,
        r2 * w * n + c2 * n + k,
    ]
}

/// An entry of a table stands inside it.
proof fn lemma_gain_index(rows: int, cols: int, channels: int, row: int, col: int, ch: int)
    requires
        0 <= row < rows,
        0 <= col < cols,
        0 <= ch < channels,
    ensures
        0 <= row * cols,
        0 <= row * cols * channels,
        row * cols <= row * cols * channels,
        0 <= col * channels,
        gain_index(cols, channels, row, col, ch) < rows * cols * channels,
{
    let n = channels;
    assert(0 <= row * cols) by (nonlinear_arith)
        requires
            0 <= row,
            0 <= cols,
    ;
    assert(0 <= col * n && col * n + n <= cols * n) by (nonlinear_arith)
        requires
            0 <= col,
            col + 1 <= cols,
            0 < n,
    ;
    assert(row * cols + cols <= rows * cols) by (nonlinear_arith)
        requires
            row + 1 <= rows,
            0 <= cols,
    ;
    assert((row * cols + cols) * n <= rows * cols * n) by (nonlinear_arith)
        requires
            row * cols + cols <= rows * cols,
            0 < n,
    ;
    assert((row * cols + cols) * n == row * cols * n + cols * n) by (nonlinear_arith);
    let a = row * cols;
    assert(a <= a * n && 0 <= a * n) by (nonlinear_arith)
        requires
            0 <= a,
            1 <= n,
    ;
}

/// The digits of a number stand for it.
proof fn lemma_numeral_digits(n: nat)
    ensures
        digits_value(numeral(n, 10)) == n,
        numeral(n, 10).len() > 0,
        forall|i: int| 0 <= i < numeral(n, 10).len() ==> is_digit(#[trigger] numeral(n, 10)[i]),
    decreases n,
{
    let s = numeral(n, 10);
    if n < 10 {
        assert(s.drop_last() =~= Seq::empty());
        assert(digits_value(s.drop_last()) == 0);
    } else {
        lemma_numeral_digits(n / 10);
        let t = numeral(n / 10, 10);
        assert(s == t.push(digit(n % 10)));
        assert(s.drop_last() =~= t);
        assert forall|i: int| 0 <= i < s.len() implies is_digit(#[trigger] s[i]) by {
            if i < t.len() {
                assert(s[i] == t[i]);
            }
        }
    }
}

/// A number that is written in decimal, with a plus sign or without one, is read back if
/// it has 32 bits, and refused if it has more.
pub proof fn law_written_numbers_are_parsed(n: nat)
    ensures
        number_of(numeral(n, 10)) == (if n <= u32::MAX {
            Some(n as u32)
        } else {
            None
        }),
        number_of(seq![0x2bu8] + numeral(n, 10)) == number_of(numeral(n, 10)),
{
    lemma_numeral_digits(n);
    let s = numeral(n, 10);
    assert(is_digit(s[0]));
    assert(unsigned_part(s) == s);
    let plus = seq![0x2bu8] + s;
    assert(unsigned_part(plus) =~= s);
    assert forall|i: int| 0 <= i < s.len() implies #[trigger] is_digit(s[i]) by {}
}

/// What follows a prefix is what was put behind it.
proof fn lemma_after_prefix(prefix: Seq<u8>, rest: Seq<u8>)
    ensures
        after_prefix(prefix + rest, prefix) == Some(rest),
{
    let s = prefix + rest;
    assert(s.take(prefix.len() as int) =~= prefix);
    assert(s.skip(prefix.len() as int) =~= rest);
}

/// A string is parted at its first underscore.
proof fn lemma_parted(a: Seq<u8>, b: Seq<u8>, i: int)
    requires
        0 <= i <= a.len(),
        forall|k: int| 0 <= k < a.len() ==> #[trigger] a[k] != 0x5f,
    ensures
        underscore_from(a + seq![0x5fu8] + b, i) == Some(a.len() as int),
    decreases a.len() - i,
{
    let s = a + seq![0x5fu8] + b;
    if i < a.len() {
        assert(s[i] == a[i]);
        lemma_parted(a, b, i + 1);
    } else {
        assert(s[i] == 0x5f);
    }
}

/// The names of lists of tables are taken apart as they are put together: from a prefix
/// and a number; from a prefix, a number, an underscore and a focus of three characters;
/// or from a prefix, an aperture, an underscore and a position of the lens.
pub proof fn law_names_of_lists_are_taken_apart(
    n: u32,
    focus: Seq<u8>,
    aperture: Seq<u8>,
    lens: Seq<u8>,
)
    requires
        focus.len() == 3,
        forall|k: int| 0 <= k < aperture.len() ==> #[trigger] aperture[k] != 0x5f,
    ensures
        ({
            let number = numeral(n as nat, 10);
            let prefix = "SpatialGainsProps_".spec_bytes();
            let sep = seq![0x5fu8];
            &&& hp_props_index("SpatialGainHPProps_".spec_bytes() + number) == Some(n)
            &&& focus_props(prefix + (number + sep + focus)) == Some((n, focus))
            &&& aperture_props(prefix + (aperture + sep + lens)) == Some((aperture, lens))
        }),
{
    let number = numeral(n as nat, 10);
    let prefix = "SpatialGainsProps_".spec_bytes();
    let sep = seq![0x5fu8];
    law_written_numbers_are_parsed(n as nat);
    lemma_numeral_digits(n as nat);
    lemma_after_prefix("SpatialGainHPProps_".spec_bytes(), number);
    lemma_after_prefix(prefix, number + sep + focus);
    lemma_after_prefix(prefix, aperture + sep + lens);
    assert forall|k: int| 0 <= k < number.len() implies #[trigger] number[k] != 0x5f by {
        assert(is_digit(number[k]));
    }
    lemma_parted(number, focus, 0);
    lemma_parted(aperture, lens, 0);
    let a = number + sep + focus;
    let b = aperture + sep + lens;
    assert(a.take(number.len() as int) =~= number && a.skip(number.len() as int + 1) =~= focus);
    assert(b.take(aperture.len() as int) =~= aperture && b.skip(aperture.len() as int + 1) =~= lens);
}

/// The entries of a table of gains stand in reading order: the channels of a column
/// together, the columns of a row together, and the rows one after the other. The first
/// one stands at the beginning.
pub proof fn law_gains_stand_in_reading_order(
    cols: int,
    channels: int,
    row: int,
    col: int,
    ch: int,
)
    ensures
        gain_index(cols, channels, 0, 0, 0) == 0,
        gain_index(cols, channels, row, col, ch + 1) == gain_index(cols, channels, row, col, ch)
            + 1,
        gain_index(cols, channels, row, col, channels) == gain_index(
            cols,
            channels,
            row,
            col + 1,
            0,
        ),
        gain_index(cols, channels, row, cols, 0) == gain_index(cols, channels, row + 1, 0, 0),
{
    assert(0 * cols * channels == 0 && 0 * channels == 0) by (nonlinear_arith);
    assert((col + 1) * channels == col * channels + channels) by (nonlinear_arith);
    assert((row + 1) * cols * channels == row * cols * channels + cols * channels)
        by (nonlinear_arith);
}

/// Of the two rows (or columns) that a position lies between, the second one follows the
/// first, and both are the nearest one where the position lies at or beyond the ends.
pub proof fn law_positions_lie_between_their_neighbours(at: int, size: int)
    requires
        size > 0,
    ensures
        ({
            let (a, b) = neighbours(at, size);
            &&& 0 <= a <= b < size
            &&& 0 <= at < size - 1 ==> a == at && b == a + 1
            &&& at < 0 ==> a == 0 && b == 0
            &&& at >= size - 1 ==> a == size - 1 && b == size - 1
        }),
{
}

/// The bottom and the middle layer, and without a top layer of its own the top one too, have
/// one correction each, for every sample. A top layer of its own has four, one for each place
/// in a square of two rows and columns, row by row.
pub proof fn law_corrections_have_their_places(hp: bool, row: u32, col: u32, chan: u32)
    requires
        chan < 3,
    ensures
        forall|i: int|
            0 <= i < 6 ==> (#[trigger] applies(layout_of(true, i), 1, row, col, chan) <==> (if i
                < 2 {
                chan == i
            } else {
                chan == 2 && i - 2 == 2 * (row % 2) + col % 2
            })),
        forall|i: int|
            0 <= i < 3 ==> (#[trigger] applies(layout_of(false, i), 1, row, col, chan) <==> chan
                == i),
{
}

} // verus!
