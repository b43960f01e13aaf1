use vstd::prelude::*;
use vstd::arithmetic::div_mod::lemma_div_denominator;
use crate::text::{decimal, digit_char, push_decimal, push_str_chars, string_from_chars};

verus! {

/// The spacing of the doubles next to `b`: 1 below 2^53, doubled with each further
/// bit, so that `b / f64_ulp(b)` keeps the 53 significant bits of a double.
pub open spec fn f64_ulp(b: nat) -> nat
    decreases b,
{
    if b < 0x20_0000_0000_0000 {
        1
    } else {
        2 * f64_ulp(b / 2)
    }
}

/// `n / d` rounded to the nearest integer, halves to the even neighbour.
pub open spec fn div_round_half_even(n: nat, d: nat) -> nat {
    let q = n / d;
    let r = n % d;
    if 2 * r > d || (2 * r == d && q % 2 == 1) {
        q + 1
    } else {
        q
    }
}

/// The value of `b as f64`: `b` rounded to the nearest double, ties to even.
pub open spec fn f64_value(b: nat) -> nat {
    div_round_half_even(b, f64_ulp(b)) * f64_ulp(b)
}

/// `m / 2^k` (as `unit = 2^k`) printed with two decimals, as `{:.2}` prints the
/// double of that exact value: rounded to the nearest hundredth, halves to even.
pub open spec fn two_decimals(m: nat, unit: nat) -> Seq<char> {
    let c = div_round_half_even(m * 100, unit);
    decimal(c / 100) + seq!['.', digit_char((c % 100) / 10), digit_char(c % 10)]
}

/// A byte count as the reports show it: with two decimals in GB, MB or KB (units of
/// 1024) once the count, as a double, reaches the unit, else as whole bytes.
pub open spec fn size_text(bytes: nat) -> Seq<char> {
    let m = f64_value(bytes);
    if m >= 0x4000_0000 {
        two_decimals(m, 0x4000_0000) + " GB"@
    } else if m >= 0x10_0000 {
        two_decimals(m, 0x10_0000) + " MB"@
    } else if m >= 0x400 {
        two_decimals(m, 0x400) + " KB"@
    } else {
        decimal(bytes) + " B"@
    }
}

fn round_half_even(n: u128, d: u128) -> (res: u128)
    requires
        d > 0,
        d < 0x4000_0000_0000_0000_0000_0000_0000_0000,
        n < 0x4000_0000_0000_0000_0000_0000_0000_0000,
    ensures
        res == div_round_half_even(n as nat, d as nat),
{
    let q = n / d;
    let r = n % d;
    if 2 * r > d || (2 * r == d && q % 2 == 1) {
        q + 1
    } else {
        q
    }
}

/// `b as f64`, as an exact integer.
fn f64_of(b: u64) -> (res: u128)
    ensures
        res == f64_value(b as nat),
        res <= 0x4_0000_0000_0000_0000,
{
    let mut q: u128 = b as u128;
    let mut p: u128 = 1;
    while q >= 0x20_0000_0000_0000
        invariant
            1 <= p <= b as nat + 1,
            q == b as nat / p as nat,
            p * f64_ulp(q as nat) == f64_ulp(b as nat),
            p * q <= b,
            p == 1 || q >= 0x10_0000_0000_0000,
            p < 0x1000,
        decreases q,
    {
        proof {
            lemma_div_denominator(b as int, p as int, 2);
            assert(f64_ulp(q as nat) == 2 * f64_ulp((q / 2) as nat));
            assert(p * f64_ulp(q as nat) == (p * 2) * f64_ulp((q / 2) as nat)) by (nonlinear_arith)
                requires
                    f64_ulp(q as nat) == 2 * f64_ulp((q / 2) as nat),
            ;
            assert((p * 2) * (q / 2) <= p * q) by (nonlinear_arith);
            assert(p * q >= p * 0x20_0000_0000_0000) by (nonlinear_arith)
                requires
                    q >= 0x20_0000_0000_0000,
            ;
            assert(p * 2 < 0x1000) by (nonlinear_arith)
                requires
                    p * q >= p * 0x20_0000_0000_0000,
                    p * q <= b,
                    b < 0x1_0000_0000_0000_0000,
                    p >= 1,
            ;
        }
        q = q / 2;
        p = p * 2;
    }
    assert(f64_ulp(q as nat) == 1);
    assert(p == f64_ulp(b as nat)) by (nonlinear_arith)
        requires
            p * f64_ulp(q as nat) == f64_ulp(b as nat),
            f64_ulp(q as nat) == 1,
    ;
    let r = round_half_even(b as u128, p);
    proof {
        assert(r <= q + 1);
        assert(r <= 0x20_0000_0000_0000);
        assert(r * p <= 0x20_0000_0000_0000 * 0x1000) by (nonlinear_arith)
            requires
                r <= 0x20_0000_0000_0000,
                p < 0x1000,
        ;
    }
    r * p
}


fn push_two_decimals(out: &mut Vec<char>, m: u128, unit: u128)
    requires
        m <= 0x4_0000_0000_0000_0000,
        unit > 0,
        unit <= 0x4000_0000,
    ensures
        final(out)@ == old(out)@ + two_decimals(m as nat, unit as nat),
{
    let c = round_half_even(m * 100, unit);
    push_decimal(out, c / 100);
    out.push('.');
    let tens: u128 = (c % 100) / 10;
    let ones: u128 = c % 10;
    let mut digits: Vec<char> = Vec::new();
    push_decimal(&mut digits, tens);
    push_decimal(&mut digits, ones);
    assert(digits@ == seq![digit_char(tens as nat), digit_char(ones as nat)]);
    out.push(digits[0]);
    out.push(digits[1]);
}

/// A byte count in human-readable form: `1.50 MB`, `12.00 KB`, `512 B`.
pub fn format_size(bytes: u64) -> (res: String)
    ensures
        res@ == size_text(bytes as nat),
{
    let m = f64_of(bytes);
    let mut out: Vec<char> = Vec::new();
    if m >= 0x4000_0000 {
        push_two_decimals(&mut out, m, 0x4000_0000);
        push_str_chars(&mut out, " GB");
    } else if m >= 0x10_0000 {
        push_two_decimals(&mut out, m, 0x10_0000);
        push_str_chars(&mut out, " MB");
    } else if m >= 0x400 {
        push_two_decimals(&mut out, m, 0x400);
        push_str_chars(&mut out, " KB");
    } else {
        push_decimal(&mut out, bytes as u128);
        push_str_chars(&mut out, " B");
    }
    assert(out@ =~= size_text(bytes as nat));
    string_from_chars(&out)
}

} // verus!
