//! Plain text: decimal numbers and the separators of tab-separated tables, as bytes.

use vstd::prelude::*;

verus! {

/// The byte of the tab that separates the fields of a row.
pub const TAB: u8 = 9;

/// The byte of the line feed that ends a row.
pub const NEWLINE: u8 = 10;

/// The byte of the digit `d`.
pub open spec fn digit(d: nat) -> u8 {
    (48 + d) as u8
}

/// The decimal digits of `n`, most significant first, without leading zeros.
pub open spec fn decimal(n: nat) -> Seq<u8>
    decreases n,
{
    if n < 10 {
        seq![digit(n)]
    } else {
        decimal(n / 10).push(digit(n % 10))
    }
}

/// The digits of a number are digits, at least one, and the first is no zero unless
/// the number is zero.
pub proof fn decimal_is_well_formed(n: nat)
    ensures
        decimal(n).len() >= 1,
        forall|i: int| 0 <= i < decimal(n).len() ==> 48 <= #[trigger] decimal(n)[i] <= 57,
        n > 0 ==> decimal(n)[0] != 48,
        n == 0 ==> decimal(n) == seq![48u8],
    decreases n,
{
    if n >= 10 {
        decimal_is_well_formed(n / 10);
    }
}

/// Appends the decimal digits of `n` to `out`.
pub fn push_decimal(out: &mut Vec<u8>, n: u64)
    ensures
        final(out)@ == old(out)@ + decimal(n as nat),
{
    let ghost before = out@;
    let mut digits: Vec<u8> = Vec::new();
    let mut rest: u64 = n;
    // the digits of `n`, least significant first
    while rest >= 10
        invariant
            out@ == before,
            decimal(n as nat) == decimal(rest as nat) + digits@.reverse(),
        decreases rest,
    {
        let d: u8 = 48 + (rest % 10) as u8;
        let ghost old_digits = digits@;
        let ghost old_rest = rest;
        digits.push(d);
        rest = rest / 10;
        proof {
            assert(d == digit((old_rest % 10) as nat));
            assert(digits@.reverse() =~= seq![d] + old_digits.reverse());
            assert(decimal(old_rest as nat) == decimal(rest as nat).push(d));
            assert(decimal(rest as nat).push(d) + old_digits.reverse() =~= decimal(rest as nat) + (
            seq![d] + old_digits.reverse()));
        }
    }
    let ghost old_digits = digits@;
    digits.push(48 + (rest % 10) as u8);
    proof {
        assert(digits@.reverse() =~= seq![digit(rest as nat)] + old_digits.reverse());
        assert(decimal(rest as nat) =~= seq![digit(rest as nat)]);
        assert(decimal(n as nat) =~= digits@.reverse());
    }
    let m: usize = digits.len();
    let mut i: usize = m;
    while i > 0
        invariant
            i <= m,
            m == digits@.len(),
            out@ == before + digits@.reverse().take((m - i) as int),
        decreases i,
    {
        i = i - 1;
        out.push(digits[i]);
        assert(out@ =~= before + digits@.reverse().take((m - i) as int));
    }
    assert(digits@.reverse().take(m as int) =~= digits@.reverse());
    assert(out@ =~= before + decimal(n as nat));
}

/// The byte of the hexadecimal digit `d`, in lower case.
pub open spec fn hex_digit_byte(d: nat) -> u8 {
    if d < 10 {
        (48 + d) as u8
    } else {
        (87 + d) as u8
    }
}

/// The two hexadecimal digits of a byte.
pub open spec fn hex_pair(b: u8) -> Seq<u8> {
    seq![hex_digit_byte((b / 16) as nat), hex_digit_byte((b % 16) as nat)]
}

/// The first `n` bytes of `bytes` in hexadecimal, two digits each.
pub open spec fn hex_bytes(bytes: Seq<u8>, n: int) -> Seq<u8>
    decreases n,
{
    if n <= 0 {
        Seq::empty()
    } else {
        hex_bytes(bytes, n - 1) + hex_pair(bytes[n - 1])
    }
}

/// The byte of one hexadecimal digit.
fn hex_digit_of(d: u8) -> (c: u8)
    requires
        d < 16,
    ensures
        c == hex_digit_byte(d as nat),
{
    if d < 10 {
        48 + d
    } else {
        87 + d
    }
}

/// Appends `bytes` in hexadecimal, two digits each.
pub fn push_hex_bytes(out: &mut Vec<u8>, bytes: &Vec<u8>)
    ensures
        final(out)@ == old(out)@ + hex_bytes(bytes@, bytes@.len() as int),
{
    let ghost before = out@;
    let n: usize = bytes.len();
    let mut i: usize = 0;
    assert(out@ =~= before + hex_bytes(bytes@, 0));
    while i < n
        invariant
            i <= n,
            n == bytes@.len(),
            out@ == before + hex_bytes(bytes@, i as int),
        decreases n - i,
    {
        let b: u8 = bytes[i];
        out.push(hex_digit_of(b / 16));
        out.push(hex_digit_of(b % 16));
        assert(out@ =~= before + hex_bytes(bytes@, i as int + 1));
        i = i + 1;
    }
}

} // verus!
