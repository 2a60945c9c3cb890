//! Numbers as text: decimal and lower-case hexadecimal digits, appended to strings.

use vstd::prelude::*;
use vstd::string::StringExecFns;

verus! {

/// The character of the hexadecimal digit `d`, in lower case.
pub open spec fn hex_digit(d: nat) -> char {
    if d == 0 {
        '0'
    } else if d == 1 {
        '1'
    } else if d == 2 {
        '2'
    } else if d == 3 {
        '3'
    } else if d == 4 {
        '4'
    } else if d == 5 {
        '5'
    } else if d == 6 {
        '6'
    } else if d == 7 {
        '7'
    } else if d == 8 {
        '8'
    } else if d == 9 {
        '9'
    } else if d == 10 {
        'a'
    } else if d == 11 {
        'b'
    } else if d == 12 {
        'c'
    } else if d == 13 {
        'd'
    } else if d == 14 {
        'e'
    } else {
        'f'
    }
}

/// The digits of `n` to the base `base`, most significant first, without leading
/// zeros; the digits above nine are the letters from `a` on.
pub open spec fn digits_text(n: nat, base: nat) -> Seq<char>
    decreases n,
{
    if base < 2 || n < base {
        seq![hex_digit(n)]
    } else {
        proof {
            assert(n / base < n) by (nonlinear_arith)
                requires
                    base >= 2,
                    n >= base,
            ;
        }
        digits_text(n / base, base).push(hex_digit(n % base))
    }
}

/// The number in decimal.
pub open spec fn decimal_text(n: nat) -> Seq<char> {
    digits_text(n, 10)
}

/// The number in lower-case hexadecimal.
pub open spec fn hex_text(n: nat) -> Seq<char> {
    digits_text(n, 16)
}

/// The text of one digit below sixteen.
fn digit_str(d: u64) -> (s: &'static str)
    requires
        d < 16,
    ensures
        s@ == seq![hex_digit(d as nat)],
{
    proof {
        reveal_strlit("0");
        reveal_strlit("1");
        reveal_strlit("2");
        reveal_strlit("3");
        reveal_strlit("4");
        reveal_strlit("5");
        reveal_strlit("6");
        reveal_strlit("7");
        reveal_strlit("8");
        reveal_strlit("9");
        reveal_strlit("a");
        reveal_strlit("b");
        reveal_strlit("c");
        reveal_strlit("d");
        reveal_strlit("e");
        reveal_strlit("f");
    }
    let s: &'static str = if d == 0 {
        "0"
    } else if d == 1 {
        "1"
    } else if d == 2 {
        "2"
    } else if d == 3 {
        "3"
    } else if d == 4 {
        "4"
    } else if d == 5 {
        "5"
    } else if d == 6 {
        "6"
    } else if d == 7 {
        "7"
    } else if d == 8 {
        "8"
    } else if d == 9 {
        "9"
    } else if d == 10 {
        "a"
    } else if d == 11 {
        "b"
    } else if d == 12 {
        "c"
    } else if d == 13 {
        "d"
    } else if d == 14 {
        "e"
    } else {
        "f"
    };
    assert(s@ =~= seq![hex_digit(d as nat)]);
    s
}

/// Appends the digits of `n` to the base `base` to `out`.
pub fn push_digits(out: &mut String, n: u64, base: u64)
    requires
        2 <= base <= 16,
    ensures
        final(out)@ == old(out)@ + digits_text(n as nat, base as nat),
{
    let ghost before = out@;
    let mut digits: Vec<u64> = Vec::new();
    let mut rest: u64 = n;
    // the digits of `n`, least significant first
    while rest >= base
        invariant
            2 <= base <= 16,
            out@ == before,
            forall|i: int| 0 <= i < digits@.len() ==> #[trigger] digits@[i] < 16,
            digits_text(n as nat, base as nat) == digits_text(rest as nat, base as nat)
                + digits@.reverse().map_values(|d: u64| hex_digit(d as nat)),
        decreases rest,
    {
        let d: u64 = rest % base;
        let ghost old_digits = digits@;
        let ghost old_rest = rest;
        digits.push(d);
        rest = rest / base;
        proof {
            let f = |d: u64| hex_digit(d as nat);
            assert(digits@.reverse() =~= seq![d] + old_digits.reverse());
            assert(digits@.reverse().map_values(f) =~= seq![hex_digit(d as nat)]
                + old_digits.reverse().map_values(f));
            assert(digits_text(old_rest as nat, base as nat) == digits_text(
                rest as nat,
                base as nat,
            ).push(hex_digit(d as nat)));
            assert(digits_text(rest as nat, base as nat).push(hex_digit(d as nat))
                + old_digits.reverse().map_values(f) =~= digits_text(rest as nat, base as nat) + (
            seq![hex_digit(d as nat)] + old_digits.reverse().map_values(f)));
        }
    }
    let ghost old_digits = digits@;
    digits.push(rest);
    proof {
        let f = |d: u64| hex_digit(d as nat);
        assert(digits@.reverse() =~= seq![rest] + old_digits.reverse());
        assert(digits@.reverse().map_values(f) =~= seq![hex_digit(rest as nat)]
            + old_digits.reverse().map_values(f));
        assert(digits_text(rest as nat, base as nat) =~= seq![hex_digit(rest as nat)]);
        assert(digits_text(n as nat, base as nat) =~= digits@.reverse().map_values(f));
    }
    let m: usize = digits.len();
    let mut i: usize = m;
    while i > 0
        invariant
            i <= m,
            m == digits@.len(),
            forall|j: int| 0 <= j < digits@.len() ==> #[trigger] digits@[j] < 16,
            out@ == before + digits@.reverse().map_values(|d: u64| hex_digit(d as nat)).take(
                (m - i) as int,
            ),
        decreases i,
    {
        i = i - 1;
        out.append(digit_str(digits[i]));
        assert(out@ =~= before + digits@.reverse().map_values(|d: u64| hex_digit(d as nat)).take(
            (m - i) as int,
        ));
    }
    proof {
        let all = digits@.reverse().map_values(|d: u64| hex_digit(d as nat));
        assert(all.take(m as int) =~= all);
    }
}

/// Appends `n` in decimal to `out`.
pub fn push_decimal_text(out: &mut String, n: u64)
    ensures
        final(out)@ == old(out)@ + decimal_text(n as nat),
{
    push_digits(out, n, 10);
}

/// Appends `n` in lower-case hexadecimal to `out`.
pub fn push_hex_text(out: &mut String, n: u64)
    ensures
        final(out)@ == old(out)@ + hex_text(n as nat),
{
    push_digits(out, n, 16);
}

} // verus!
