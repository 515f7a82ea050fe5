//! Numbers as text.

use vstd::prelude::*;

verus! {

/// A digit up to fifteen as a character.
pub open spec fn digit(d: nat) -> u8 {
    if d < 10 {
        (0x30 + d) as u8
    } else {
        (0x61 + d - 10) as u8
    }
}

/// A number in a base up to sixteen, without leading zeros.
pub open spec fn numeral(n: nat, base: nat) -> Seq<u8>
    decreases n,
{
    if n < base || base < 2 {
        seq![digit(n)]
    } else {
        proof {
            lemma_quotient_smaller(n, base);
        }
        numeral(n / base, base).push(digit(n % base))
    }
}

/// A quotient is smaller than what is divided.
pub proof fn lemma_quotient_smaller(n: nat, base: nat)
    requires
        2 <= base <= n,
    ensures
        n / base < n,
{
    assert(n / base < n) by (nonlinear_arith)
        requires
            2 <= base <= n,
    ;
}

/// A text, filled up on its left to a width.
pub open spec fn padded(s: Seq<u8>, width: nat, fill: u8) -> Seq<u8> {
    if s.len() >= width {
        s
    } else {
        Seq::new((width - s.len()) as nat, |i: int| fill) + s
    }
}

/// A signed number in decimal.
pub open spec fn decimal(v: int) -> Seq<u8> {
    if v < 0 {
        seq![0x2du8] + numeral((-v) as nat, 10)
    } else {
        numeral(v as nat, 10)
    }
}

/// Appends a text.
pub fn append(out: &mut Vec<u8>, s: &[u8])
    ensures
        final(out)@ == old(out)@ + s@,
{
    let n: usize = s.len();
    let mut i: usize = 0;
    let ghost before = out@;
    assert(out@ =~= before + s@.take(0));
    while i < n
        invariant
            i <= n,
            n == s@.len(),
            out@ == before + s@.take(i as int),
        decreases n - i,
    {
        out.push(s[i]);
        i = i + 1;
        assert(out@ =~= before + s@.take(i as int));
    }
    assert(s@.take(n as int) =~= s@);
}

/// Appends a number in a base up to sixteen.
fn append_numeral(out: &mut Vec<u8>, n: u64, base: u64)
    requires
        2 <= base <= 16,
    ensures
        final(out)@ == old(out)@ + numeral(n as nat, base as nat),
    decreases n,
{
    if n >= base {
        proof {
            lemma_quotient_smaller(n as nat, base as nat);
        }
        append_numeral(out, n / base, base);
    }
    let ghost before = out@;
    let d: u8 = (n % base) as u8;
    proof {
        if n < base {
            vstd::arithmetic::div_mod::lemma_small_mod(n as nat, base as nat);
        }
    }
    out.push(
        if d < 10 {
            0x30 + d
        } else {
            0x61 + (d - 10)
        },
    );
    proof {
        let all = old(out)@ + numeral(n as nat, base as nat);
        assert(out@ =~= all);
    }
}

/// Appends a text, filled up on its left to a width.
fn append_padded(out: &mut Vec<u8>, s: &[u8], width: usize, fill: u8)
    ensures
        final(out)@ == old(out)@ + padded(s@, width as nat, fill),
{
    let ghost before = out@;
    let len: usize = s.len();
    let mut k: usize = len;
    assert(out@ =~= before + Seq::new(0, |i: int| fill));
    while k < width
        invariant
            len == s@.len(),
            len <= k,
            k <= width || k == len,
            out@ == before + Seq::new((k - len) as nat, |i: int| fill),
        decreases width - k,
    {
        out.push(fill);
        k = k + 1;
        assert(out@ =~= before + Seq::new((k - len) as nat, |i: int| fill));
    }
    append(out, s);
    assert(out@ =~= before + padded(s@, width as nat, fill));
}

/// Appends a number in hexadecimal, filled up with zeros to a width.
pub fn append_hex(out: &mut Vec<u8>, n: u64, width: usize)
    ensures
        final(out)@ == old(out)@ + padded(numeral(n as nat, 16), width as nat, 0x30),
{
    let mut s: Vec<u8> = Vec::new();
    append_numeral(&mut s, n, 16);
    assert(s@ =~= numeral(n as nat, 16));
    append_padded(out, s.as_slice(), width, 0x30);
}

/// Appends a signed number in decimal, filled up with blanks to a width.
pub fn append_signed(out: &mut Vec<u8>, v: i64, width: usize)
    requires
        v > i64::MIN,
    ensures
        final(out)@ == old(out)@ + padded(decimal(v as int), width as nat, 0x20),
{
    let mut s: Vec<u8> = Vec::new();
    if v < 0 {
        s.push(0x2d);
        append_numeral(&mut s, (-v) as u64, 10);
    } else {
        append_numeral(&mut s, v as u64, 10);
    }
    assert(s@ =~= decimal(v as int));
    append_padded(out, s.as_slice(), width, 0x20);
}

/// What a character stands for as a digit.
pub open spec fn digit_value(c: u8) -> int {
    if 0x30 <= c <= 0x39 {
        c - 0x30
    } else if 0x61 <= c <= 0x66 {
        c - 0x61 + 10
    } else {
        -1
    }
}

/// What digits stand for in a base, the most significant one first.
pub open spec fn numeral_value(s: Seq<u8>, base: int) -> int
    decreases s.len(),
{
    if s.len() == 0 {
        0
    } else {
        numeral_value(s.drop_last(), base) * base + digit_value(s.last())
    }
}

/// A number that is written in a base stands for itself there: its digits are digits of
/// the base, and the first one is zero only if it is the only one.
pub proof fn law_numerals_are_read_back(n: nat, base: nat)
    requires
        2 <= base <= 16,
    ensures
        numeral(n, base).len() > 0,
        numeral_value(numeral(n, base), base as int) == n,
        forall|i: int|
            0 <= i < numeral(n, base).len() ==> 0 <= digit_value(#[trigger] numeral(n, base)[i])
                < base,
        n > 0 ==> numeral(n, base)[0] != 0x30,
        n == 0 ==> numeral(n, base) == seq![0x30u8],
    decreases n,
{
    let s = numeral(n, base);
    if n < base {
        assert(s.drop_last() =~= Seq::empty());
        assert(numeral_value(s.drop_last(), base as int) * base == 0) by (nonlinear_arith)
            requires
                numeral_value(s.drop_last(), base as int) == 0,
        ;
    } else {
        lemma_quotient_smaller(n, base);
        law_numerals_are_read_back(n / base, base);
        let t = numeral(n / base, base);
        vstd::arithmetic::div_mod::lemma_fundamental_div_mod(n as int, base as int);
        vstd::arithmetic::div_mod::lemma_mod_bound(n as int, base as int);
        assert(s == t.push(digit(n % base)));
        assert(s.drop_last() =~= t);
        assert(s[0] == t[0]);
        assert((n / base) * base == base * (n / base)) by (nonlinear_arith);
        assert(n / base > 0) by (nonlinear_arith)
            requires
                n >= base,
                base >= 2,
        ;
        assert forall|i: int| 0 <= i < s.len() implies 0 <= digit_value(#[trigger] s[i]) < base by {
            if i < t.len() {
                assert(s[i] == t[i]);
            }
        }
    }
}

/// A signed number is a minus, if it is negative, and the digits of its magnitude.
pub proof fn law_decimals_are_read_back(v: int)
    ensures
        v < 0 ==> decimal(v)[0] == 0x2d && numeral_value(decimal(v).skip(1), 10) == -v,
        v >= 0 ==> numeral_value(decimal(v), 10) == v && decimal(v)[0] != 0x2d,
{
    let m = (if v < 0 {
        -v
    } else {
        v
    }) as nat;
    law_numerals_are_read_back(m, 10);
    let d = numeral(m, 10)[0];
    if v < 0 {
        assert(decimal(v).skip(1) =~= numeral(m, 10));
    } else {
        assert(0 <= digit_value(numeral(m, 10)[0]));
    }
}

/// A text that is filled up ends with the text, has the width if it was not longer, and
/// starts with what fills it.
pub proof fn law_filling_keeps_the_text(s: Seq<u8>, width: nat, fill: u8, i: int)
    ensures
        padded(s, width, fill).len() >= s.len(),
        padded(s, width, fill).len() >= width,
        padded(s, width, fill).len() == s.len() || padded(s, width, fill).len() == width,
        ({
            let n = padded(s, width, fill).len() - s.len();
            &&& padded(s, width, fill).skip(n) == s
            &&& 0 <= i < n ==> padded(s, width, fill)[i] == fill
        }),
{
    let n = padded(s, width, fill).len() - s.len();
    assert(padded(s, width, fill).skip(n) =~= s);
}

} // verus!
