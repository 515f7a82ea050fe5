//! Bounded reads and allocations shared by the container and section parsers.

use crate::control::{Control, Error};
use vstd::prelude::*;
use vstd::slice::slice_subrange;

verus! {

/// The largest single allocation. The largest supported Quattro raster is
/// under 400 MiB, so anything above this comes from hostile dimensions.
pub const MAX_ALLOCATION: usize = 1073741824;

/// How many bytes are copied between two looks at the cancellation token.
const CHUNK: usize = 65536;

/// The little-endian 16-bit value at offset `i`.
pub open spec fn le16(s: Seq<u8>, i: int) -> u16 {
    (s[i] + s[i + 1] * 0x100) as u16
}

/// The little-endian 32-bit value at offset `i`.
pub open spec fn le32(s: Seq<u8>, i: int) -> u32 {
    (s[i] + s[i + 1] * 0x100 + s[i + 2] * 0x1_0000 + s[i + 3] * 0x100_0000) as u32
}

/// Whether a NUL-terminated string starts at offset `i`.
pub open spec fn has_cstr(s: Seq<u8>, i: int) -> bool {
    0 <= i <= s.len() && exists|j: int| i <= j < s.len() && s[j] == 0
}

/// The byte string that starts at offset `i`, up to its first NUL.
pub open spec fn cstr(s: Seq<u8>, i: int) -> Seq<u8>
    decreases s.len() - i,
{
    if 0 <= i < s.len() && s[i] != 0 {
        seq![s[i]] + cstr(s, i + 1)
    } else {
        Seq::empty()
    }
}

/// The size in bytes of `a` items of `b` bytes, where it stays within the limit.
pub fn checked_size(a: usize, b: usize) -> (r: Result<usize, Error>)
    ensures
        a * b <= MAX_ALLOCATION ==> r == Ok::<usize, Error>((a * b) as usize),
        a * b > MAX_ALLOCATION ==> r == Err::<usize, Error>(Error::Allocation),
{
    match a.checked_mul(b) {
        Some(n) => if n <= MAX_ALLOCATION {
            Ok(n)
        } else {
            Err(Error::Allocation)
        },
        None => Err(Error::Allocation),
    }
}

/// A cursor over the bytes of a container, bounded by the end of the section
/// that is being read.
pub struct Input<'a> {
    data: &'a [u8],
    position: u64,
    end: u64,
    control: Control<'a>,
}

impl<'a> Input<'a> {
    /// The whole container.
    pub closed spec fn bytes(self) -> Seq<u8> {
        self.data@
    }

    /// Where the next read starts.
    pub closed spec fn pos(self) -> int {
        self.position as int
    }

    /// The bound that no read crosses.
    pub closed spec fn bound(self) -> int {
        self.end as int
    }

    /// What the caller can cancel by.
    pub closed spec fn guard(self) -> Control<'a> {
        self.control
    }

    /// The cursor never leaves its section, nor the section the container.
    pub closed spec fn inv(self) -> bool {
        self.position <= self.end <= self.data@.len() <= usize::MAX
    }

    /// What the invariant says, for other modules.
    pub proof fn lemma_inv(self)
        requires
            self.inv(),
        ensures
            0 <= self.pos() <= self.bound() <= self.bytes().len() <= usize::MAX,
    {
    }

    /// The same container, section bound and token; only the position differs.
    pub open spec fn moved_from(self, before: Self) -> bool {
        &&& self.inv()
        &&& self.bytes() == before.bytes()
        &&& self.bound() == before.bound()
        &&& self.guard() == before.guard()
    }

    /// Starts at the beginning of the container.
    pub fn new(data: Option<&'a [u8]>, control: Control<'a>) -> (r: Result<Self, Error>)
        ensures
            control.allows(r),
            match r {
                Ok(input) => {
                    &&& input.inv()
                    &&& data is Some
                    &&& input.bytes() == data->0@
                    &&& input.pos() == 0
                    &&& input.bound() == data->0@.len()
                    &&& input.guard() == control
                },
                Err(Error::Cancelled) => control.may_read(true),
                Err(e) => data is None && e == Error::InvalidData("missing input stream"),
            },
    {
        control.check()?;
        match data {
            Some(data) => Ok(Input { data, position: 0, end: data.len() as u64, control }),
            None => Err(Error::InvalidData("missing input stream")),
        }
    }

    /// Where the next read starts.
    pub fn position(&self) -> (r: u64)
        requires
            self.inv(),
        ensures
            r == self.pos(),
    {
        self.position
    }

    /// The bound that no read crosses.
    pub fn end(&self) -> (r: u64)
        requires
            self.inv(),
        ensures
            r == self.bound(),
    {
        self.end
    }

    /// The bytes left in the section.
    pub fn remaining(&self) -> (r: usize)
        requires
            self.inv(),
        ensures
            r == self.bound() - self.pos(),
    {
        (self.end - self.position) as usize
    }

    /// Moves to an offset from the start of the container.
    pub fn seek(&mut self, position: u64) -> (r: Result<(), Error>)
        requires
            old(self).inv(),
        ensures
            final(self).moved_from(*old(self)),
            old(self).guard().allows(r),
            match r {
                Ok(_) => position <= old(self).bound() && final(self).pos() == position,
                Err(Error::Cancelled) => old(self).guard().may_read(true),
                Err(e) => {
                    &&& position > old(self).bound()
                    &&& e == Error::InvalidData("offset outside input")
                },
            },
            r is Err ==> final(self).pos() == old(self).pos(),
    {
        self.control.check()?;
        if position > self.end {
            return Err(Error::InvalidData("offset outside input"));
        }
        self.position = position;
        Ok(())
    }

    /// Narrows the section to end at `end`.
    pub fn limit(&mut self, end: u64) -> (r: Result<(), Error>)
        requires
            old(self).inv(),
        ensures
            final(self).inv(),
            final(self).bytes() == old(self).bytes(),
            final(self).pos() == old(self).pos(),
            final(self).guard() == old(self).guard(),
            if old(self).pos() <= end <= old(self).bound() {
                r == Ok::<(), Error>(()) && final(self).bound() == end
            } else {
                &&& r == Err::<(), Error>(Error::InvalidData("section outside input"))
                &&& final(self).bound() == old(self).bound()
            },
    {
        if end < self.position || end > self.end {
            return Err(Error::InvalidData("section outside input"));
        }
        self.end = end;
        Ok(())
    }

    /// Reads `size` bytes.
    pub fn read(&mut self, size: usize) -> (r: Result<Vec<u8>, Error>)
        requires
            old(self).inv(),
        ensures
            final(self).moved_from(*old(self)),
            match r {
                Ok(v) => {
                    &&& old(self).pos() + size <= old(self).bound()
                    &&& v@ == old(self).bytes().subrange(old(self).pos(), old(self).pos() + size)
                    &&& final(self).pos() == old(self).pos() + size
                    &&& old(self).guard().may_read(false)
                },
                Err(Error::Cancelled) => old(self).guard().may_read(true),
                Err(e) => {
                    &&& old(self).pos() + size > old(self).bound()
                    &&& e == Error::InvalidData("truncated input")
                },
            },
            r is Err ==> final(self).pos() == old(self).pos(),
    {
        if size as u64 > self.end - self.position {
            return Err(Error::InvalidData("truncated input"));
        }
        let start: usize = self.position as usize;
        let mut out: Vec<u8> = Vec::with_capacity(size);
        while out.len() < size
            invariant
                self.inv(),
                *self == *old(self),
                start == self.pos(),
                start + size <= self.bound(),
                out.len() <= size,
                out@ == self.bytes().subrange(start as int, start + out.len()),
            decreases size - out.len(),
        {
            self.control.check()?;
            let done: usize = out.len();
            let step: usize = if size - done < CHUNK {
                size - done
            } else {
                CHUNK
            };
            let piece: &[u8] = slice_subrange(self.data, start + done, start + done + step);
            out.extend_from_slice(piece);
            assert(out@ =~= self.bytes().subrange(start as int, start + out.len()));
        }
        self.control.check()?;
        self.position = self.position + size as u64;
        Ok(out)
    }

    /// Reads one byte.
    pub fn u8(&mut self) -> (r: Result<u8, Error>)
        requires
            old(self).inv(),
        ensures
            final(self).moved_from(*old(self)),
            match r {
                Ok(v) => {
                    &&& old(self).pos() + 1 <= old(self).bound()
                    &&& v == old(self).bytes()[old(self).pos()]
                    &&& final(self).pos() == old(self).pos() + 1
                    &&& old(self).guard().may_read(false)
                },
                Err(Error::Cancelled) => old(self).guard().may_read(true),
                Err(e) => {
                    &&& old(self).pos() + 1 > old(self).bound()
                    &&& e == Error::InvalidData("truncated input")
                },
            },
            r is Err ==> final(self).pos() == old(self).pos(),
    {
        let b: Vec<u8> = self.read(1)?;
        Ok(b[0])
    }

    /// Reads a little-endian 16-bit value.
    pub fn u16(&mut self) -> (r: Result<u16, Error>)
        requires
            old(self).inv(),
        ensures
            final(self).moved_from(*old(self)),
            match r {
                Ok(v) => {
                    &&& old(self).pos() + 2 <= old(self).bound()
                    &&& v == le16(old(self).bytes(), old(self).pos())
                    &&& final(self).pos() == old(self).pos() + 2
                    &&& old(self).guard().may_read(false)
                },
                Err(Error::Cancelled) => old(self).guard().may_read(true),
                Err(e) => {
                    &&& old(self).pos() + 2 > old(self).bound()
                    &&& e == Error::InvalidData("truncated input")
                },
            },
            r is Err ==> final(self).pos() == old(self).pos(),
    {
        let b: Vec<u8> = self.read(2)?;
        Ok(b[0] as u16 + b[1] as u16 * 0x100)
    }

    /// Reads a little-endian 32-bit value.
    pub fn u32(&mut self) -> (r: Result<u32, Error>)
        requires
            old(self).inv(),
        ensures
            final(self).moved_from(*old(self)),
            match r {
                Ok(v) => {
                    &&& old(self).pos() + 4 <= old(self).bound()
                    &&& v == le32(old(self).bytes(), old(self).pos())
                    &&& final(self).pos() == old(self).pos() + 4
                    &&& old(self).guard().may_read(false)
                },
                Err(Error::Cancelled) => old(self).guard().may_read(true),
                Err(e) => {
                    &&& old(self).pos() + 4 > old(self).bound()
                    &&& e == Error::InvalidData("truncated input")
                },
            },
            r is Err ==> final(self).pos() == old(self).pos(),
    {
        let b: Vec<u8> = self.read(4)?;
        Ok(b[0] as u32 + b[1] as u32 * 0x100 + b[2] as u32 * 0x1_0000 + b[3] as u32 * 0x100_0000)
    }

    /// Reads the `size` bytes of a section into memory.
    pub fn read_alloc(&mut self, size: usize) -> (r: Result<Vec<u8>, Error>)
        requires
            old(self).inv(),
        ensures
            final(self).moved_from(*old(self)),
            match r {
                Ok(v) => {
                    &&& old(self).pos() + size <= old(self).bound()
                    &&& size <= MAX_ALLOCATION
                    &&& v@ == old(self).bytes().subrange(old(self).pos(), old(self).pos() + size)
                    &&& final(self).pos() == old(self).pos() + size
                    &&& size > 0 ==> old(self).guard().may_read(false)
                },
                Err(Error::Cancelled) => old(self).guard().may_read(true),
                Err(e) => if old(self).pos() + size > old(self).bound() {
                    e == Error::InvalidData("truncated section")
                } else {
                    size > MAX_ALLOCATION && e == Error::Allocation
                },
            },
            r is Err ==> final(self).pos() == old(self).pos(),
    {
        if size > self.remaining() {
            return Err(Error::InvalidData("truncated section"));
        }
        if size > MAX_ALLOCATION {
            return Err(Error::Allocation);
        }
        if size == 0 {
            proof {
                assert(self.bytes().subrange(self.pos(), self.pos()) =~= Seq::<u8>::empty());
            }
            return Ok(Vec::new());
        }
        self.read(size)
    }
}

/// What is wrong with reading `size` bytes at `offset` of `len` bytes.
pub open spec fn range_error(len: int, offset: int, size: int) -> Option<Error> {
    if offset + size > usize::MAX {
        Some(Error::InvalidData("offset overflow"))
    } else if offset + size > len {
        Some(Error::InvalidData("value outside section"))
    } else {
        None
    }
}

/// What is wrong with reading a string at `offset`.
pub open spec fn cstr_error(s: Seq<u8>, offset: int) -> Option<Error> {
    if offset > s.len() {
        Some(Error::InvalidData("string outside section"))
    } else if !has_cstr(s, offset) {
        Some(Error::InvalidData("unterminated string"))
    } else {
        None
    }
}

/// The `size` bytes at `offset`.
pub fn bytes_at(data: &[u8], offset: usize, size: usize) -> (r: Result<&[u8], Error>)
    ensures
        match r {
            Ok(b) => {
                &&& range_error(data@.len() as int, offset as int, size as int) is None
                &&& b@ == data@.subrange(offset as int, offset + size)
            },
            Err(e) => range_error(data@.len() as int, offset as int, size as int) == Some(e),
        },
{
    match offset.checked_add(size) {
        Some(end) => if end <= data.len() {
            Ok(slice_subrange(data, offset, end))
        } else {
            Err(Error::InvalidData("value outside section"))
        },
        None => Err(Error::InvalidData("offset overflow")),
    }
}

/// The little-endian 32-bit value at `offset`.
pub fn u32_at(data: &[u8], offset: usize) -> (r: Result<u32, Error>)
    ensures
        match r {
            Ok(v) => {
                &&& range_error(data@.len() as int, offset as int, 4) is None
                &&& v == le32(data@, offset as int)
            },
            Err(e) => range_error(data@.len() as int, offset as int, 4) == Some(e),
        },
{
    let b: &[u8] = bytes_at(data, offset, 4)?;
    Ok(b[0] as u32 + b[1] as u32 * 0x100 + b[2] as u32 * 0x1_0000 + b[3] as u32 * 0x100_0000)
}

/// The NUL-terminated string at `offset`, without its NUL.
pub fn cstr_at(data: &[u8], offset: usize) -> (r: Result<Vec<u8>, Error>)
    ensures
        match r {
            Ok(v) => {
                &&& cstr_error(data@, offset as int) is None
                &&& v@ == cstr(data@, offset as int)
                &&& offset + v@.len() < data@.len()
                &&& data@[offset + v@.len()] == 0
            },
            Err(e) => cstr_error(data@, offset as int) == Some(e),
        },
{
    if offset > data.len() {
        return Err(Error::InvalidData("string outside section"));
    }
    let mut i: usize = offset;
    let mut out: Vec<u8> = Vec::new();
    while i < data.len()
        invariant
            offset <= i <= data@.len(),
            out@.len() == i - offset,
            forall|j: int| offset <= j < i ==> data@[j] != 0,
            cstr(data@, offset as int) == out@ + cstr(data@, i as int),
        decreases data@.len() - i,
    {
        if data[i] == 0 {
            assert(cstr(data@, offset as int) =~= out@);
            return Ok(out);
        }
        let ghost before = out@;
        out.push(data[i]);
        i = i + 1;
        assert(out@ + cstr(data@, i as int) =~= before + (seq![data@[i - 1]] + cstr(
            data@,
            i as int,
        )));
    }
    Err(Error::InvalidData("unterminated string"))
}

/// The text of a fixed-size field: its bytes up to the first NUL, or all of them.
pub fn cstr_of(field: &[u8]) -> (r: Vec<u8>)
    ensures
        r@ == cstr(field@, 0),
{
    let mut out: Vec<u8> = Vec::new();
    let mut i: usize = 0;
    assert(cstr(field@, 0) =~= out@ + cstr(field@, 0));
    while i < field.len() && field[i] != 0
        invariant
            i <= field@.len(),
            out@ + cstr(field@, i as int) == cstr(field@, 0),
        decreases field@.len() - i,
    {
        let ghost before = out@;
        out.push(field[i]);
        i = i + 1;
        assert(out@ + cstr(field@, i as int) =~= before + (seq![field@[i - 1]] + cstr(
            field@,
            i as int,
        )));
    }
    assert(out@ + Seq::<u8>::empty() =~= out@);
    out
}

/// A 16-bit number as it is written: the lower byte first.
pub open spec fn written16(v: u16) -> Seq<u8> {
    seq![(v % 0x100) as u8, (v / 0x100) as u8]
}

/// A 32-bit number as it is written: the lowest byte first.
pub open spec fn written32(v: u32) -> Seq<u8> {
    seq![
        (v % 0x100) as u8,
        (v / 0x100 % 0x100) as u8,
        (v / 0x1_0000 % 0x100) as u8,
        (v / 0x100_0000) as u8,
    ]
}

/// A string as it is written: with a NUL at its end.
pub open spec fn written_str(text: Seq<u8>) -> Seq<u8> {
    text.push(0)
}

/// Whether these bytes stand at offset `at`.
pub open spec fn stands_at(s: Seq<u8>, at: int, part: Seq<u8>) -> bool {
    0 <= at && at + part.len() <= s.len() && s.subrange(at, at + part.len()) == part
}

/// A 16-bit number that is written somewhere is read there.
pub proof fn law_short_numbers_are_read_back(s: Seq<u8>, at: int, v: u16)
    requires
        stands_at(s, at, written16(v)),
    ensures
        le16(s, at) == v,
{
    let part = written16(v);
    assert(s.subrange(at, at + 2)[0] == s[at]);
    assert(s.subrange(at, at + 2)[1] == s[at + 1]);
    assert(part[0] == v % 0x100 && part[1] == v / 0x100);
}

/// A 32-bit number that is written somewhere is read there.
pub proof fn law_numbers_are_read_back(s: Seq<u8>, at: int, v: u32)
    requires
        stands_at(s, at, written32(v)),
    ensures
        le32(s, at) == v,
{
    let part = written32(v);
    assert(s.subrange(at, at + 4)[0] == s[at]);
    assert(s.subrange(at, at + 4)[1] == s[at + 1]);
    assert(s.subrange(at, at + 4)[2] == s[at + 2]);
    assert(s.subrange(at, at + 4)[3] == s[at + 3]);
    assert(part[0] == v % 0x100 && part[1] == v / 0x100 % 0x100);
    assert(part[2] == v / 0x1_0000 % 0x100 && part[3] == v / 0x100_0000);
}

/// A string without a NUL that is written somewhere is read there.
pub proof fn law_strings_are_read_back(s: Seq<u8>, at: int, text: Seq<u8>)
    requires
        stands_at(s, at, written_str(text)),
        forall|i: int| 0 <= i < text.len() ==> #[trigger] text[i] != 0,
    ensures
        has_cstr(s, at),
        cstr(s, at) == text,
    decreases text.len(),
{
    let part = s.subrange(at, at + text.len() + 1);
    assert(part == written_str(text));
    assert(s[at + text.len()] == part[text.len() as int]);
    assert(part[0] == s[at]);
    if text.len() > 0 {
        let rest = text.skip(1);
        assert(s.subrange(at + 1, at + 1 + rest.len() + 1) =~= part.skip(1));
        assert(part.skip(1) =~= written_str(rest));
        assert forall|i: int| 0 <= i < rest.len() implies #[trigger] rest[i] != 0 by {
            assert(rest[i] == text[i + 1]);
        }
        law_strings_are_read_back(s, at + 1, rest);
        assert(s[at] == text[0]);
        assert(seq![s[at]] + rest =~= text);
    } else {
        assert(cstr(s, at) =~= text);
    }
}

/// What is made up of two parts stands somewhere as one after the other.
pub proof fn lemma_parts_stand(s: Seq<u8>, at: int, a: Seq<u8>, b: Seq<u8>)
    requires
        stands_at(s, at, a + b),
    ensures
        stands_at(s, at, a),
        stands_at(s, at + a.len(), b),
{
    let whole = s.subrange(at, at + a.len() + b.len());
    assert(whole == a + b);
    assert(s.subrange(at, at + a.len()) =~= whole.take(a.len() as int));
    assert((a + b).take(a.len() as int) =~= a);
    assert(s.subrange(at + a.len(), at + a.len() + b.len()) =~= whole.skip(a.len() as int));
    assert((a + b).skip(a.len() as int) =~= b);
}

/// A number is made up of bytes of rising weight, and no other bytes matter to it.
pub proof fn law_bytes_rise_in_weight(s: Seq<u8>, i: int)
    ensures
        le16(s, i) == s[i] + 256 * s[i + 1],
        le32(s, i) == s[i] + 256 * (s[i + 1] + 256 * (s[i + 2] + 256 * s[i + 3])),
{
}

} // verus!
