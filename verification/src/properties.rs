//! The property list: named strings, stored as UTF-16.

use crate::control::{first, Control, Error};
use crate::parse::{
    checked_size, law_numbers_are_read_back, law_short_numbers_are_read_back, le16, le32,
    lemma_parts_stand, stands_at, written16, written32, Input, MAX_ALLOCATION,
};
use vstd::prelude::*;
use vstd::utf8::{char_is_scalar, encode_scalar, encode_utf8};

verus! {

/// What one property counts against the allocation limit.
pub const PROPERTY_SIZE: usize = 40;

/// The character that stands for what cannot be decoded.
pub const REPLACEMENT: u32 = 0xfffd;

/// A named string, in UTF-8.
#[derive(Debug)]
pub struct Property {
    pub name_offset: u32,
    pub value_offset: u32,
    pub name_utf8: Vec<u8>,
    pub value_utf8: Vec<u8>,
}

/// A property section: its header, and its strings once it is loaded.
#[derive(Debug)]
pub struct PropertyList {
    pub num_properties: u32,
    pub character_format: u32,
    pub reserved: u32,
    pub total_length: u32,
    pub properties: Vec<Property>,
    pub data: Vec<u8>,
}

pub open spec fn is_high(u: int) -> bool {
    0xd800 <= u < 0xdc00
}

pub open spec fn is_low(u: int) -> bool {
    0xdc00 <= u < 0xe000
}

/// The characters of the first `n` UTF-16 units at `offset`: a surrogate pair is
/// one character, and a surrogate without its partner is replaced.
pub open spec fn utf16_chars(data: Seq<u8>, offset: int, n: nat) -> Seq<int>
    decreases n,
{
    if n == 0 {
        Seq::empty()
    } else {
        let u = le16(data, offset) as int;
        let v = le16(data, offset + 2) as int;
        if is_high(u) && n >= 2 && is_low(v) {
            seq![0x1_0000 + (u - 0xd800) * 0x400 + (v - 0xdc00)] + utf16_chars(
                data,
                offset + 4,
                (n - 2) as nat,
            )
        } else {
            seq![
                if is_high(u) || is_low(u) {
                    REPLACEMENT as int
                } else {
                    u
                },
            ] + utf16_chars(data, offset + 2, (n - 1) as nat)
        }
    }
}

/// The UTF-8 form of a character.
pub open spec fn utf8_char(c: int) -> Seq<u8> {
    if c < 0x80 {
        seq![c as u8]
    } else if c < 0x800 {
        seq![(0xc0 + c / 0x40) as u8, (0x80 + c % 0x40) as u8]
    } else if c < 0x1_0000 {
        seq![
            (0xe0 + c / 0x1000) as u8,
            (0x80 + c / 0x40 % 0x40) as u8,
            (0x80 + c % 0x40) as u8,
        ]
    } else {
        seq![
            (0xf0 + c / 0x4_0000) as u8,
            (0x80 + c / 0x1000 % 0x40) as u8,
            (0x80 + c / 0x40 % 0x40) as u8,
            (0x80 + c % 0x40) as u8,
        ]
    }
}

/// The UTF-8 form of a string.
pub open spec fn utf8(chars: Seq<int>) -> Seq<u8>
    decreases chars.len(),
{
    if chars.len() == 0 {
        Seq::empty()
    } else {
        utf8_char(chars[0]) + utf8(chars.drop_first())
    }
}

/// The number of UTF-16 units from `offset` to the first zero one, if there is
/// one within the data.
pub open spec fn units_to_zero(data: Seq<u8>, offset: int) -> Option<nat>
    decreases data.len() - offset,
{
    if offset + 2 > data.len() {
        None
    } else if data[offset] == 0 && data[offset + 1] == 0 {
        Some(0)
    } else {
        match units_to_zero(data, offset + 2) {
            None => None,
            Some(n) => Some((n + 1) as nat),
        }
    }
}

/// What is wrong with the string at UTF-16 unit `offset`.
pub open spec fn string_error(data: Seq<u8>, offset: u32) -> Option<Error> {
    if offset * 2 > MAX_ALLOCATION {
        Some(Error::Allocation)
    } else if offset * 2 > data.len() {
        Some(Error::InvalidData("property string outside section"))
    } else {
        match units_to_zero(data, offset * 2) {
            None => Some(Error::InvalidData("unterminated property string")),
            Some(count) => if count * 3 > MAX_ALLOCATION {
                Some(Error::Allocation)
            } else {
                None
            },
        }
    }
}

/// The UTF-8 form of the string at UTF-16 unit `offset`.
pub open spec fn string_at(data: Seq<u8>, offset: u32) -> Seq<u8> {
    utf8(utf16_chars(data, offset * 2, units_to_zero(data, offset * 2)->0))
}

/// Appends the UTF-8 form of a character.
fn push_char(out: &mut Vec<u8>, c: u32)
    requires
        c < 0x11_0000,
    ensures
        final(out)@ == old(out)@ + utf8_char(c as int),
{
    let ghost before = out@;
    if c < 0x80 {
        out.push(c as u8);
    } else if c < 0x800 {
        out.push((0xc0 + c / 0x40) as u8);
        out.push((0x80 + c % 0x40) as u8);
    } else if c < 0x1_0000 {
        out.push((0xe0 + c / 0x1000) as u8);
        out.push((0x80 + c / 0x40 % 0x40) as u8);
        out.push((0x80 + c % 0x40) as u8);
    } else {
        out.push((0xf0 + c / 0x4_0000) as u8);
        out.push((0x80 + c / 0x1000 % 0x40) as u8);
        out.push((0x80 + c / 0x40 % 0x40) as u8);
        out.push((0x80 + c % 0x40) as u8);
    }
    assert(out@ =~= before + utf8_char(c as int));
}

/// Decodes `count` UTF-16 units at `offset` into UTF-8.
fn decode_units(data: &[u8], offset: usize, count: usize) -> (r: Vec<u8>)
    requires
        offset + 2 * count <= data.len(),
    ensures
        r@ == utf8(utf16_chars(data@, offset as int, count as nat)),
{
    let ghost whole = utf8(utf16_chars(data@, offset as int, count as nat));
    let mut out: Vec<u8> = Vec::new();
    let mut i: usize = 0;
    assert(whole =~= out@ + whole);
    while i < count
        invariant
            i <= count,
            offset + 2 * count <= data.len(),
            whole == out@ + utf8(utf16_chars(data@, offset + 2 * i, (count - i) as nat)),
        decreases count - i,
    {
        let p: usize = offset + 2 * i;
        let ghost before = out@;
        let ghost rest = utf16_chars(data@, p as int, (count - i) as nat);
        let u: u32 = data[p] as u32 + data[p + 1] as u32 * 0x100;
        assert(u == le16(data@, p as int));
        if 0xd800 <= u && u < 0xdc00 && i + 2 <= count {
            let v: u32 = data[p + 2] as u32 + data[p + 3] as u32 * 0x100;
            assert(v == le16(data@, p + 2));
            if 0xdc00 <= v && v < 0xe000 {
                let c: u32 = 0x1_0000 + (u - 0xd800) * 0x400 + (v - 0xdc00);
                push_char(&mut out, c);
                i = i + 2;
                proof {
                    assert(rest[0] == c);
                    assert(rest.drop_first() =~= utf16_chars(
                        data@,
                        offset + 2 * i,
                        (count - i) as nat,
                    ));
                    assert(before + (utf8_char(c as int) + utf8(rest.drop_first())) =~= out@ + utf8(
                        rest.drop_first(),
                    ));
                }
                continue;
            }
        }
        let c: u32 = if 0xd800 <= u && u < 0xe000 {
            REPLACEMENT
        } else {
            u
        };
        push_char(&mut out, c);
        i = i + 1;
        proof {
            assert(rest[0] == c);
            assert(rest.drop_first() =~= utf16_chars(data@, offset + 2 * i, (count - i) as nat));
            assert(before + (utf8_char(c as int) + utf8(rest.drop_first())) =~= out@ + utf8(
                rest.drop_first(),
            ));
        }
    }
    assert(out@ + Seq::<u8>::empty() =~= out@);
    out
}

/// Reads the string at UTF-16 unit `offset`.
fn read_string(data: &[u8], offset: u32) -> (r: Result<Vec<u8>, Error>)
    ensures
        match r {
            Ok(v) => string_error(data@, offset) is None && v@ == string_at(data@, offset),
            Err(e) => string_error(data@, offset) == Some(e),
        },
{
    let start: usize = checked_size(offset as usize, 2)?;
    if start > data.len() {
        return Err(Error::InvalidData("property string outside section"));
    }
    let mut count: usize = 0;
    let mut p: usize = start;
    loop
        invariant
            start <= p <= data.len(),
            p == start + 2 * count,
            start == offset * 2,
            start <= MAX_ALLOCATION,
            start <= data@.len(),
            units_to_zero(data@, start as int) == (match units_to_zero(data@, p as int) {
                None => None::<nat>,
                Some(n) => Some((n + count) as nat),
            }),
        decreases data@.len() - p,
    {
        if data.len() - p < 2 {
            return Err(Error::InvalidData("unterminated property string"));
        }
        if data[p] == 0 && data[p + 1] == 0 {
            checked_size(count, 3)?;
            return Ok(decode_units(data, start, count));
        }
        p = p + 2;
        count = count + 1;
    }
}

impl PropertyList {
    /// What is wrong with the names and values of the first `k` properties,
    /// whose offsets start at `table` of the container and whose strings are
    /// `data`.
    pub open spec fn strings_error(bytes: Seq<u8>, table: int, data: Seq<u8>, k: nat) -> Option<
        Error,
    >
        decreases k,
    {
        if k == 0 {
            None
        } else {
            let at = table + 8 * (k - 1);
            first(
                Self::strings_error(bytes, table, data, (k - 1) as nat),
                first(string_error(data, le32(bytes, at)), string_error(data, le32(bytes, at + 4))),
            )
        }
    }

    /// What is wrong with the body of a property section, which is
    /// `bytes[start..end]`.
    pub open spec fn body_error(self, bytes: Seq<u8>, start: int, end: int) -> Option<Error> {
        let n = self.num_properties as int;
        let strings = start + 8 * n;
        if n > (end - start) / 8 {
            Some(Error::InvalidData("property count exceeds section"))
        } else if n * PROPERTY_SIZE > MAX_ALLOCATION || end - strings > MAX_ALLOCATION {
            Some(Error::Allocation)
        } else if n == 0 {
            None
        } else if end == strings {
            Some(Error::InvalidData("missing property strings"))
        } else {
            Self::strings_error(bytes, start, bytes.subrange(strings, end), n as nat)
        }
    }

    /// Whether the list holds the properties of the body `bytes[start..end]`.
    pub open spec fn body_is(self, bytes: Seq<u8>, start: int, end: int) -> bool {
        let strings = start + 8 * self.num_properties;
        &&& self.data@ == bytes.subrange(strings, end)
        &&& self.properties@.len() == self.num_properties
        &&& forall|i: int|
            0 <= i < self.properties@.len() ==> {
                let p = #[trigger] self.properties@[i];
                &&& p.name_offset == le32(bytes, start + 8 * i)
                &&& p.value_offset == le32(bytes, start + 8 * i + 4)
                &&& p.name_utf8@ == string_at(self.data@, p.name_offset)
                &&& p.value_utf8@ == string_at(self.data@, p.value_offset)
            }
    }

    /// The section's header, which loading leaves alone.
    pub open spec fn same_header(self, other: Self) -> bool {
        &&& self.num_properties == other.num_properties
        &&& self.character_format == other.character_format
        &&& self.reserved == other.reserved
        &&& self.total_length == other.total_length
    }

    proof fn lemma_strings_error_stays(bytes: Seq<u8>, table: int, data: Seq<u8>, j: nat, k: nat)
        requires
            j <= k,
            Self::strings_error(bytes, table, data, j) is Some,
        ensures
            Self::strings_error(bytes, table, data, k) == Self::strings_error(
                bytes,
                table,
                data,
                j,
            ),
        decreases k - j,
    {
        if j < k {
            Self::lemma_strings_error_stays(bytes, table, data, j, (k - 1) as nat);
        }
    }
}

/// Loads the strings of a property section. After an error the list may hold
/// part of them.
pub fn load_properties(pl: &mut PropertyList, input: &mut Input<'_>, control: Control<'_>) -> (r:
    Result<(), Error>)
    requires
        old(input).inv(),
    ensures
        final(pl).same_header(*old(pl)),
        ({
            let bytes = old(input).bytes();
            let start = old(input).pos();
            let end = old(input).bound();
            match r {
                Ok(_) => {
                    &&& old(pl).body_error(bytes, start, end) is None
                    &&& final(pl).body_is(bytes, start, end)
                    &&& start < end ==> old(input).guard().may_read(false)
                    &&& old(pl).num_properties > 0 ==> control.may_read(false)
                },
                Err(Error::Cancelled) => {
                    ||| control.may_read(true)
                    ||| old(input).guard().may_read(true)
                },
                Err(e) => old(pl).body_error(bytes, start, end) == Some(e),
            }
        }),
{
    let ghost bytes = input.bytes();
    let ghost start = input.pos();
    let ghost end = input.bound();
    proof {
        input.lemma_inv();
    }
    let n: usize = pl.num_properties as usize;
    if n > input.remaining() / 8 {
        return Err(Error::InvalidData("property count exceeds section"));
    }
    checked_size(n, PROPERTY_SIZE)?;
    let mut offsets: Vec<(u32, u32)> = Vec::new();
    let mut i: usize = 0;
    while i < n
        invariant
            i <= n,
            n == pl.num_properties,
            *pl == *old(pl),
            n <= (end - start) / 8,
            n * PROPERTY_SIZE <= MAX_ALLOCATION,
            input.moved_from(*old(input)),
            bytes == old(input).bytes(),
            start == old(input).pos(),
            end == old(input).bound(),
            0 <= start <= end <= bytes.len(),
            input.pos() == start + 8 * i,
            offsets@.len() == i,
            forall|k: int|
                0 <= k < i ==> #[trigger] offsets@[k] == (
                    le32(bytes, start + 8 * k),
                    le32(bytes, start + 8 * k + 4),
                ),
            i > 0 ==> old(input).guard().may_read(false),
        decreases n - i,
    {
        let name_offset: u32 = input.u32()?;
        let value_offset: u32 = input.u32()?;
        offsets.push((name_offset, value_offset));
        i = i + 1;
    }
    let rest: usize = input.remaining();
    let data: Vec<u8> = input.read_alloc(rest)?;
    pl.data = data;
    pl.properties = Vec::new();
    if n == 0 {
        return Ok(());
    }
    if pl.data.len() == 0 {
        return Err(Error::InvalidData("missing property strings"));
    }
    let ghost strings = bytes.subrange(start + 8 * n, end);
    let mut i: usize = 0;
    while i < n
        invariant
            i <= n,
            n == offsets@.len(),
            n == old(pl).num_properties,
            pl.same_header(*old(pl)),
            pl.data@ == strings,
            strings == bytes.subrange(start + 8 * n, end),
            bytes == old(input).bytes(),
            start == old(input).pos(),
            end == old(input).bound(),
            old(pl).body_error(bytes, start, end) == PropertyList::strings_error(
                bytes,
                start,
                strings,
                n as nat,
            ),
            PropertyList::strings_error(bytes, start, strings, i as nat) is None,
            forall|k: int|
                0 <= k < n ==> #[trigger] offsets@[k] == (
                    le32(bytes, start + 8 * k),
                    le32(bytes, start + 8 * k + 4),
                ),
            pl.properties@.len() == i,
            forall|k: int|
                0 <= k < i ==> {
                    let p = #[trigger] pl.properties@[k];
                    &&& p.name_offset == le32(bytes, start + 8 * k)
                    &&& p.value_offset == le32(bytes, start + 8 * k + 4)
                    &&& p.name_utf8@ == string_at(strings, p.name_offset)
                    &&& p.value_utf8@ == string_at(strings, p.value_offset)
                },
            n > 0,
            old(input).guard().may_read(false),
            i > 0 ==> control.may_read(false),
        decreases n - i,
    {
        control.check()?;
        proof {
            if PropertyList::strings_error(bytes, start, strings, (i + 1) as nat) is Some {
                PropertyList::lemma_strings_error_stays(
                    bytes,
                    start,
                    strings,
                    (i + 1) as nat,
                    n as nat,
                );
            }
        }
        let (name_offset, value_offset): (u32, u32) = offsets[i];
        let name_utf8: Vec<u8> = read_string(pl.data.as_slice(), name_offset)?;
        let value_utf8: Vec<u8> = read_string(pl.data.as_slice(), value_offset)?;
        pl.properties.push(Property { name_offset, value_offset, name_utf8, value_utf8 });
        i = i + 1;
    }
    Ok(())
}

/// A text of plain characters keeps its bytes.
pub proof fn law_plain_text_stays(data: Seq<u8>, offset: int, n: nat)
    requires
        forall|k: int| 0 <= k < n ==> #[trigger] le16(data, offset + 2 * k) < 0x80,
    ensures
        utf8(utf16_chars(data, offset, n)) == Seq::new(
            n,
            |k: int| le16(data, offset + 2 * k) as u8,
        ),
    decreases n,
{
    let chars = utf16_chars(data, offset, n);
    let plain = Seq::new(n, |k: int| le16(data, offset + 2 * k) as u8);
    if n == 0 {
        assert(utf8(chars) =~= plain);
    } else {
        assert(le16(data, offset + 2 * 0) < 0x80);
        assert forall|k: int| 0 <= k < n - 1 implies #[trigger] le16(
            data,
            offset + 2 + 2 * k,
        ) < 0x80 by {
            assert(le16(data, offset + 2 * (k + 1)) < 0x80);
        }
        law_plain_text_stays(data, offset + 2, (n - 1) as nat);
        let rest = utf16_chars(data, offset + 2, (n - 1) as nat);
        assert(chars.drop_first() =~= rest);
        assert(chars[0] == le16(data, offset));
        assert forall|k: int| 0 <= k < n - 1 implies #[trigger] utf8(rest)[k] == plain[k + 1] by {
            assert(offset + 2 + 2 * k == offset + 2 * (k + 1));
        }
        assert(utf8(chars) =~= plain);
    }
}

/// A character as it is written in UTF-16: as one unit, or as a surrogate pair.
pub open spec fn written_char(c: char) -> Seq<u8> {
    let u = c as u32;
    if u < 0x1_0000 {
        written16(u as u16)
    } else {
        written16((0xd800 + (u - 0x1_0000) / 0x400) as u16) + written16(
            (0xdc00 + (u - 0x1_0000) % 0x400) as u16,
        )
    }
}

/// A text as it is written in UTF-16, with a unit of zero at its end.
pub open spec fn written_utf16(text: Seq<char>) -> Seq<u8>
    decreases text.len(),
{
    if text.len() == 0 {
        written16(0)
    } else {
        written_char(text[0]) + written_utf16(text.drop_first())
    }
}

/// The UTF-8 form of a character is the usual one.
proof fn lemma_utf8_char(c: char)
    ensures
        utf8_char(c as u32 as int) == encode_scalar(c as u32),
{
    let u = c as u32;
    char_is_scalar(c);
    assert(u < 0x80 ==> (u & 0x7f) as u8 == u) by (bit_vector);
    assert((0x80 | (u & 0x3f) as u8) == 0x80 + u % 0x40) by (bit_vector);
    assert((0x80 | ((u >> 6) & 0x3f) as u8) == 0x80 + (u / 0x40) % 0x40) by (bit_vector);
    assert((0x80 | ((u >> 12) & 0x3f) as u8) == 0x80 + (u / 0x1000) % 0x40) by (bit_vector);
    assert(u < 0x800 ==> (0xc0 | ((u >> 6) & 0x1f) as u8) == 0xc0 + u / 0x40) by (bit_vector);
    assert(u < 0x1_0000 ==> (0xe0 | ((u >> 12) & 0x0f) as u8) == 0xe0 + u / 0x1000) by (bit_vector);
    assert(u < 0x11_0000 ==> (0xf0 | ((u >> 18) & 0x7) as u8) == 0xf0 + u / 0x4_0000)
        by (bit_vector);
    assert(utf8_char(u as int) =~= encode_scalar(u));
}

/// A text that is written in UTF-16 is read up to its end, and in UTF-8.
proof fn lemma_written_utf16(data: Seq<u8>, at: int, text: Seq<char>)
    requires
        stands_at(data, at, written_utf16(text)),
        forall|i: int| 0 <= i < text.len() ==> #[trigger] text[i] as u32 != 0,
    ensures
        units_to_zero(data, at) is Some,
        2 * units_to_zero(data, at)->0 + 2 == written_utf16(text).len(),
        utf8(utf16_chars(data, at, units_to_zero(data, at)->0)) == encode_utf8(text),
    decreases text.len(),
{
    if text.len() == 0 {
        law_short_numbers_are_read_back(data, at, 0);
        assert(units_to_zero(data, at) == Some(0nat));
        assert(utf8(utf16_chars(data, at, 0)) =~= encode_utf8(text));
    } else {
        let c = text[0];
        let u = c as u32;
        let rest = text.drop_first();
        char_is_scalar(c);
        lemma_utf8_char(c);
        lemma_parts_stand(data, at, written_char(c), written_utf16(rest));
        assert forall|i: int| 0 <= i < rest.len() implies #[trigger] rest[i] as u32 != 0 by {
            assert(rest[i] == text[i + 1]);
        }
        if u < 0x1_0000 {
            lemma_written_utf16(data, at + 2, rest);
            law_short_numbers_are_read_back(data, at, u as u16);
            let n = units_to_zero(data, at + 2)->0;
            assert(units_to_zero(data, at) == Some((n + 1) as nat));
            let chars = utf16_chars(data, at, (n + 1) as nat);
            assert(chars[0] == u);
            assert(chars.drop_first() =~= utf16_chars(data, at + 2, n));
        } else {
            let high = (0xd800 + (u - 0x1_0000) / 0x400) as u16;
            let low = (0xdc00 + (u - 0x1_0000) % 0x400) as u16;
            lemma_parts_stand(data, at, written16(high), written16(low));
            lemma_written_utf16(data, at + 4, rest);
            law_short_numbers_are_read_back(data, at, high);
            law_short_numbers_are_read_back(data, at + 2, low);
            let n = units_to_zero(data, at + 4)->0;
            assert(units_to_zero(data, at + 2) == Some((n + 1) as nat));
            assert(units_to_zero(data, at) == Some((n + 2) as nat));
            let chars = utf16_chars(data, at, (n + 2) as nat);
            assert(chars[0] == u);
            assert(chars.drop_first() =~= utf16_chars(data, at + 4, n));
        }
    }
}

/// A text of any characters that is written in UTF-16 is read in UTF-8.
pub proof fn law_texts_keep_their_characters(data: Seq<u8>, offset: u32, text: Seq<char>)
    requires
        stands_at(data, 2 * offset, written_utf16(text)),
        forall|i: int| 0 <= i < text.len() ==> #[trigger] text[i] as u32 != 0,
    ensures
        string_at(data, offset) == encode_utf8(text),
{
    lemma_written_utf16(data, 2 * offset, text);
}

/// A property is read as it is written: two numbers say at which units of the strings,
/// which follow the numbers of all properties, its name and its value start.
pub proof fn law_properties_are_read_back(
    list: PropertyList,
    bytes: Seq<u8>,
    start: int,
    end: int,
    i: int,
    name_at: u32,
    value_at: u32,
    name: Seq<char>,
    value: Seq<char>,
)
    requires
        list.body_is(bytes, start, end),
        0 <= start,
        end <= bytes.len(),
        0 <= i < list.num_properties,
        stands_at(bytes, start + 8 * i, written32(name_at)),
        stands_at(bytes, start + 8 * i + 4, written32(value_at)),
        ({
            let strings = bytes.subrange(start + 8 * list.num_properties, end);
            &&& start + 8 * list.num_properties <= end
            &&& stands_at(strings, 2 * name_at, written_utf16(name))
            &&& stands_at(strings, 2 * value_at, written_utf16(value))
        }),
        forall|k: int| 0 <= k < name.len() ==> #[trigger] name[k] as u32 != 0,
        forall|k: int| 0 <= k < value.len() ==> #[trigger] value[k] as u32 != 0,
    ensures
        list.properties@.len() == list.num_properties,
        list.properties@[i].name_utf8@ == encode_utf8(name),
        list.properties@[i].value_utf8@ == encode_utf8(value),
{
    let p = list.properties@[i];
    law_numbers_are_read_back(bytes, start + 8 * i, name_at);
    law_numbers_are_read_back(bytes, start + 8 * i + 4, value_at);
    law_texts_keep_their_characters(list.data@, name_at, name);
    law_texts_keep_their_characters(list.data@, value_at, value);
}

/// A surrogate without its partner is read as the replacement character, and what
/// follows it as if it stood alone.
pub proof fn law_lone_surrogates_are_replaced(data: Seq<u8>, at: int, n: nat)
    requires
        n > 0,
        0xd800 <= le16(data, at) < 0xe000,
        le16(data, at) >= 0xdc00 || n == 1 || !(0xdc00 <= le16(data, at + 2) < 0xe000),
    ensures
        utf8(utf16_chars(data, at, n)) == seq![0xefu8, 0xbfu8, 0xbdu8] + utf8(
            utf16_chars(data, at + 2, (n - 1) as nat),
        ),
{
    let chars = utf16_chars(data, at, n);
    assert(chars[0] == 0xfffd);
    assert(chars.drop_first() =~= utf16_chars(data, at + 2, (n - 1) as nat));
    assert(utf8_char(0xfffd) =~= seq![0xefu8, 0xbfu8, 0xbdu8]);
}

/// A property section is accepted if it has room for the numbers of all properties, and
/// strings that hold the name and the value of each of them where the numbers say, and none
/// of this is too large.
pub proof fn law_written_properties_are_accepted(
    list: PropertyList,
    bytes: Seq<u8>,
    start: int,
    end: int,
    name_at: Seq<u32>,
    value_at: Seq<u32>,
    names: Seq<Seq<char>>,
    values: Seq<Seq<char>>,
)
    requires
        0 <= start,
        end <= bytes.len(),
        start + 8 * list.num_properties < end,
        end - start <= MAX_ALLOCATION / 2,
        40 * list.num_properties <= MAX_ALLOCATION,
        name_at.len() == list.num_properties,
        value_at.len() == list.num_properties,
        names.len() == list.num_properties,
        values.len() == list.num_properties,
        ({
            let strings = bytes.subrange(start + 8 * list.num_properties, end);
            forall|i: int|
                0 <= i < list.num_properties ==> {
                    &&& stands_at(bytes, start + 8 * i, written32(#[trigger] name_at[i]))
                    &&& stands_at(bytes, start + 8 * i + 4, written32(value_at[i]))
                    &&& stands_at(strings, 2 * name_at[i], written_utf16(names[i]))
                    &&& stands_at(strings, 2 * value_at[i], written_utf16(values[i]))
                }
        }),
        forall|i: int, k: int|
            0 <= i < names.len() && 0 <= k < names[i].len() ==> #[trigger] names[i][k] as u32 != 0,
        forall|i: int, k: int|
            0 <= i < values.len() && 0 <= k < values[i].len() ==> #[trigger] values[i][k] as u32
                != 0,
    ensures
        list.body_error(bytes, start, end) is None,
{
    let strings = bytes.subrange(start + 8 * list.num_properties, end);
    assert forall|i: int| 0 <= i < list.num_properties implies string_error(
        strings,
        #[trigger] le32(bytes, start + 8 * i),
    ) is None && string_error(strings, le32(bytes, start + 8 * i + 4)) is None by {
        let (n, v) = (name_at[i], value_at[i]);
        law_numbers_are_read_back(bytes, start + 8 * i, n);
        law_numbers_are_read_back(bytes, start + 8 * i + 4, v);
        assert forall|k: int| 0 <= k < names[i].len() implies #[trigger] names[i][k] as u32 != 0 by {}
        lemma_written_utf16(strings, 2 * n, names[i]);
        lemma_written_utf16(strings, 2 * v, values[i]);
    }
    lemma_strings_in_order(bytes, start, strings, list.num_properties as nat);
}

proof fn lemma_strings_in_order(bytes: Seq<u8>, start: int, strings: Seq<u8>, k: nat)
    requires
        forall|i: int|
            0 <= i < k ==> string_error(strings, #[trigger] le32(bytes, start + 8 * i)) is None
                && string_error(strings, le32(bytes, start + 8 * i + 4)) is None,
    ensures
        PropertyList::strings_error(bytes, start, strings, k) is None,
    decreases k,
{
    if k > 0 {
        lemma_strings_in_order(bytes, start, strings, (k - 1) as nat);
        let n = le32(bytes, start + 8 * (k - 1));
    }
}

/// A surrogate pair is one character, with ten bits from each of the two, above the first
/// 65536; any other unit but a surrogate is the character of its number.
pub proof fn law_units_are_characters(data: Seq<u8>, at: int, c: char)
    ensures
        c as u32 >= 0x1_0000 && le16(data, at) == 0xd800 + (c as u32 - 0x1_0000) / 1024 && le16(
            data,
            at + 2,
        ) == 0xdc00 + (c as u32 - 0x1_0000) % 1024 ==> utf8(utf16_chars(data, at, 2))
            == encode_utf8(seq![c]),
        le16(data, at) == c as u32 ==> utf8(utf16_chars(data, at, 1)) == encode_utf8(seq![c]),
{
    char_is_scalar(c);
    lemma_utf8_char(c);
    let one = seq![c];
    assert(one.drop_first() =~= Seq::empty());
    assert(encode_utf8(one.drop_first()) =~= Seq::empty());
    assert(encode_utf8(one) =~= encode_scalar(c as u32));
    let none = Seq::<int>::empty();
    assert(utf8(none) =~= Seq::<u8>::empty());
    let pair = utf16_chars(data, at, 2);
    let single = utf16_chars(data, at, 1);
    assert(utf16_chars(data, at + 4, 0) =~= none);
    assert(utf16_chars(data, at + 2, 0) =~= none);
    if le16(data, at) == c as u32 {
        assert(single[0] == c as u32);
        assert(single.drop_first() =~= none);
        assert(utf8(single) =~= utf8_char(c as u32 as int));
    }
    if c as u32 >= 0x1_0000 && le16(data, at) == 0xd800 + (c as u32 - 0x1_0000) / 1024 && le16(
        data,
        at + 2,
    ) == 0xdc00 + (c as u32 - 0x1_0000) % 1024 {
        assert(pair[0] == c as u32);
        assert(pair.drop_first() =~= none);
        assert(utf8(pair) =~= utf8_char(c as u32 as int));
    }
}

} // verus!
