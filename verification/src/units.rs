//! Human-readable byte sizes, as the command-line tool prints them.
use vstd::prelude::*;
use crate::text::{push_decimal, spec_decimal};

verus! {

/// 2^53: below it every integer is exactly a 64-bit float.
pub const EXACT_LIMIT: u128 = 9007199254740992;

/// The power of two by which the 53-bit mantissa of the nearest 64-bit
/// float to `n` is scaled: the least `u` (doubling from `start`) with `n / u < 2^53`.
pub open spec fn float_unit(n: nat, start: nat) -> nat
    decreases n / start, when start > 0
{
    if n / start < EXACT_LIMIT {
        start
    } else {
        proof {
            assert(n / (2 * start) < n / start) by (nonlinear_arith)
                requires start > 0, n / start >= EXACT_LIMIT;
        }
        float_unit(n, 2 * start)
    }
}

/// `q`, rounded by its remainder `r` modulo `unit`: to the nearest, ties to even.
pub open spec fn round_half_even(q: nat, r: nat, unit: nat) -> nat {
    if 2 * r > unit || (2 * r == unit && q % 2 == 1) {
        q + 1
    } else {
        q
    }
}

/// The value of `n as f64`: `n` rounded to 53 significant bits, ties to even.
pub open spec fn spec_as_f64(n: nat) -> nat {
    let u = float_unit(n, 1);
    round_half_even(n / u, n % u, u) * u
}

/// `num / den` in tenths, rounded to the nearest, ties to even (as `{:.1}`
/// prints a float whose value is exactly `num / den`).
pub open spec fn tenths(num: nat, den: nat) -> nat {
    round_half_even(num * 10 / den, num * 10 % den, den)
}

/// A number of tenths written with one decimal.
pub open spec fn spec_one_decimal(t: nat) -> Seq<char> {
    spec_decimal(t / 10) + "."@ + spec_decimal(t % 10)
}

/// The text for a size in bytes: bytes below 1024, else KB below 1024 KB,
/// else MB, with one decimal.
pub open spec fn spec_format_bytes(bytes: u64) -> Seq<char> {
    if bytes < 1024 {
        spec_decimal(bytes as nat) + " B"@
    } else if bytes < 1048576 {
        spec_one_decimal(tenths(bytes as nat, 1024)) + " KB"@
    } else {
        spec_one_decimal(tenths(spec_as_f64(bytes as nat), 1048576)) + " MB"@
    }
}

fn round_half_even_exec(q: u128, r: u128, unit: u128) -> (x: u128)
    requires
        q < u128::MAX,
        2 * r <= u128::MAX,
    ensures
        x == round_half_even(q as nat, r as nat, unit as nat),
{
    if 2 * r > unit || (2 * r == unit && q % 2 == 1) {
        q + 1
    } else {
        q
    }
}

/// `n as f64`, as an integer.
fn as_f64_value(n: u64) -> (f: u128)
    ensures
        f == spec_as_f64(n as nat),
        f <= 36893488147419103232,
{
    let n = n as u128;
    let mut u: u128 = 1;
    while n / u >= EXACT_LIMIT
        invariant
            1 <= u <= 4096,
            n <= u64::MAX,
            float_unit(n as nat, u as nat) == float_unit(n as nat, 1),
            n / u >= EXACT_LIMIT ==> u <= 2048,
        decreases n / u,
    {
        let ghost ni = n as int;
        let ghost ui = u as int;
        assert(ni / (2 * ui) < ni / ui) by (nonlinear_arith)
            requires ui > 0, ni / ui >= EXACT_LIMIT;
        assert(ni / (2 * ui) >= EXACT_LIMIT ==> ni >= EXACT_LIMIT * (2 * ui)) by (nonlinear_arith)
            requires ui >= 1;
        assert(ni / (2 * ui) >= EXACT_LIMIT ==> 2 * ui <= 2048) by (nonlinear_arith)
            requires ui >= 1, ni <= u64::MAX, (ni / (2 * ui) >= EXACT_LIMIT) ==> ni >= EXACT_LIMIT * (2 * ui);
        u = 2 * u;
    }
    let q = n / u;
    let r = n % u;
    assert(r < u) by (nonlinear_arith)
        requires u >= 1, r == n % u;
    let q2 = round_half_even_exec(q, r, u);
    assert(q2 <= EXACT_LIMIT);
    assert(q2 * u <= 36893488147419103232) by (nonlinear_arith)
        requires q2 <= EXACT_LIMIT, u <= 4096;
    q2 * u
}

/// Appends `t` tenths written with one decimal.
fn push_one_decimal(s: &mut String, t: u128)
    ensures
        final(s)@ == old(s)@ + spec_one_decimal(t as nat),
{
    push_decimal(s, t / 10);
    s.append(".");
    push_decimal(s, t % 10);
    assert(final(s)@ =~= old(s)@ + spec_one_decimal(t as nat));
}

/// The size `bytes` in B, KB or MB, as the command-line tool prints it.
pub fn format_bytes(bytes: u64) -> (s: String)
    ensures
        s@ == spec_format_bytes(bytes),
{
    let mut s = String::new();
    if bytes < 1024 {
        push_decimal(&mut s, bytes as u128);
        s.append(" B");
    } else if bytes < 1048576 {
        let num = bytes as u128 * 10;
        let t = round_half_even_exec(num / 1024, num % 1024, 1024);
        push_one_decimal(&mut s, t);
        s.append(" KB");
    } else {
        let f = as_f64_value(bytes);
        let num = f * 10;
        let t = round_half_even_exec(num / 1048576, num % 1048576, 1048576);
        push_one_decimal(&mut s, t);
        s.append(" MB");
    }
    s
}

} // verus!
