use vstd::prelude::*;
use vstd::string::StringExecFns;

use crate::translation::{digit_char, digits_in_radix, radix_string};

verus! {

/// A unit of time of a trace or of the display.
#[derive(Clone, Copy, Debug, PartialEq, Eq, Structural)]
pub enum TimescaleUnit {
    FemtoSeconds,
    PicoSeconds,
    NanoSeconds,
    MicroSeconds,
    MilliSeconds,
    Seconds,
}

/// A timescale: one tick is `factor` of `unit`.
#[derive(Clone, Copy, Debug, PartialEq, Eq, Structural)]
pub struct Timescale {
    pub factor: u32,
    pub unit: TimescaleUnit,
}

/// The power of ten of a second that a unit stands for.
pub open spec fn exponent(u: TimescaleUnit) -> int {
    match u {
        TimescaleUnit::FemtoSeconds => -15,
        TimescaleUnit::PicoSeconds => -12,
        TimescaleUnit::NanoSeconds => -9,
        TimescaleUnit::MicroSeconds => -6,
        TimescaleUnit::MilliSeconds => -3,
        TimescaleUnit::Seconds => 0,
    }
}

/// The symbol of a unit.
pub open spec fn unit_symbol(u: TimescaleUnit) -> Seq<char> {
    match u {
        TimescaleUnit::FemtoSeconds => seq!['f', 's'],
        TimescaleUnit::PicoSeconds => seq!['p', 's'],
        TimescaleUnit::NanoSeconds => seq!['n', 's'],
        TimescaleUnit::MicroSeconds => seq!['\u{b5}', 's'],
        TimescaleUnit::MilliSeconds => seq!['m', 's'],
        TimescaleUnit::Seconds => seq!['s'],
    }
}

pub open spec fn pow10(e: nat) -> nat
    decreases e,
{
    if e == 0 {
        1
    } else {
        10 * pow10((e - 1) as nat)
    }
}

/// The last `w` decimal digits of `n`, with leading zeros.
pub open spec fn fixed_digits(n: nat, w: nat) -> Seq<char>
    decreases w,
{
    if w == 0 {
        Seq::empty()
    } else {
        fixed_digits(n / 10, (w - 1) as nat).push(digit_char(n % 10))
    }
}

/// `n` zeros.
pub open spec fn zeros(n: nat) -> Seq<char> {
    Seq::new(n, |i: int| '0')
}

/// A time of `time` ticks of the trace's timescale `data`, written in the unit
/// of `wanted`. Where that unit is coarser, the value is shown with as many
/// decimals as the units differ in powers of ten; where it is finer, as a
/// whole number.
pub open spec fn time_text(time: nat, data: Timescale, wanted: Timescale) -> Seq<char> {
    let v: nat = time * (data.factor as nat);
    let diff = exponent(wanted.unit) - exponent(data.unit);
    let number = if diff >= 0 {
        let whole = radix_string(v / pow10(diff as nat), 10);
        if diff == 0 {
            whole
        } else {
            whole + seq!['.'] + fixed_digits(v, diff as nat)
        }
    } else if v == 0 {
        seq!['0']
    } else {
        radix_string(v, 10) + zeros((-diff) as nat)
    };
    number + seq![' '] + unit_symbol(wanted.unit)
}

impl TimescaleUnit {
    pub fn to_exponent(&self) -> (r: i8)
        ensures
            r as int == exponent(*self),
    {
        match self {
            TimescaleUnit::FemtoSeconds => -15,
            TimescaleUnit::PicoSeconds => -12,
            TimescaleUnit::NanoSeconds => -9,
            TimescaleUnit::MicroSeconds => -6,
            TimescaleUnit::MilliSeconds => -3,
            TimescaleUnit::Seconds => 0,
        }
    }

    /// The symbol of the unit, such as `ns`.
    pub fn to_string(&self) -> (r: String)
        ensures
            r@ == unit_symbol(*self),
    {
        let s = match self {
            TimescaleUnit::FemtoSeconds => "fs",
            TimescaleUnit::PicoSeconds => "ps",
            TimescaleUnit::NanoSeconds => "ns",
            TimescaleUnit::MicroSeconds => "\u{b5}s",
            TimescaleUnit::MilliSeconds => "ms",
            TimescaleUnit::Seconds => "s",
        };
        proof {
            reveal_strlit("fs");
            reveal_strlit("ps");
            reveal_strlit("ns");
            reveal_strlit("\u{b5}s");
            reveal_strlit("ms");
            reveal_strlit("s");
        }
        let r = String::from_str(s);
        assert(r@ =~= unit_symbol(*self));
        r
    }
}

fn digit_str(d: u8) -> (r: &'static str)
    requires
        d < 10,
    ensures
        r@ == seq![digit_char(d as nat)],
{
    proof {
        reveal_strlit("0");
        reveal_strlit("1");
        reveal_strlit("2");
        reveal_strlit("3");
        reveal_strlit("4");
        reveal_strlit("5");
        reveal_strlit("6");
        reveal_strlit("7");
        reveal_strlit("8");
        reveal_strlit("9");
    }
    let r = match d {
        0 => "0",
        1 => "1",
        2 => "2",
        3 => "3",
        4 => "4",
        5 => "5",
        6 => "6",
        7 => "7",
        8 => "8",
        _ => "9",
    };
    assert(r@ =~= seq![digit_char(d as nat)]);
    r
}

/// Appends the decimal digits of `n`, none for zero.
fn push_digits(out: &mut String, n: u128)
    ensures
        final(out)@ == old(out)@ + digits_in_radix(n as nat, 10),
    decreases n,
{
    if n == 0 {
        assert(old(out)@ + digits_in_radix(0, 10) =~= old(out)@);
        return ;
    }
    push_digits(out, n / 10);
    out.append(digit_str((n % 10) as u8));
    assert(out@ =~= old(out)@ + digits_in_radix(n as nat, 10));
}

/// Appends the last `w` decimal digits of `n`, with leading zeros.
fn push_fixed_digits(out: &mut String, n: u128, w: u32)
    ensures
        final(out)@ == old(out)@ + fixed_digits(n as nat, w as nat),
    decreases w,
{
    if w == 0 {
        assert(old(out)@ + fixed_digits(n as nat, 0) =~= old(out)@);
        return ;
    }
    push_fixed_digits(out, n / 10, w - 1);
    out.append(digit_str((n % 10) as u8));
    assert(out@ =~= old(out)@ + fixed_digits(n as nat, w as nat));
}

/// Appends `n` written in decimal.
pub(crate) fn push_decimal(out: &mut String, n: u128)
    ensures
        final(out)@ == old(out)@ + radix_string(n as nat, 10),
{
    if n == 0 {
        out.append(digit_str(0));
    } else {
        push_digits(out, n);
    }
}

fn pow10_exec(e: u32) -> (r: u128)
    requires
        e <= 15,
    ensures
        r as nat == pow10(e as nat),
        r >= 1,
    decreases e,
{
    proof {
        lemma_pow10_bound(e as nat);
    }
    if e == 0 {
        1
    } else {
        let p = pow10_exec(e - 1);
        10 * p
    }
}

proof fn lemma_pow10_step(e: nat)
    ensures
        1 <= pow10(e) <= pow10(e + 1),
    decreases e,
{
    if e > 0 {
        lemma_pow10_step((e - 1) as nat);
    }
}

proof fn lemma_pow10_le(e: nat, f: nat)
    requires
        e <= f,
    ensures
        pow10(e) <= pow10(f),
    decreases f - e,
{
    lemma_pow10_step(e);
    if e < f {
        lemma_pow10_le(e + 1, f);
    }
}

proof fn lemma_pow10_bound(e: nat)
    requires
        e <= 15,
    ensures
        1 <= pow10(e) <= 1_000_000_000_000_000,
{
    lemma_pow10_le(e, 15);
    lemma_pow10_step(e);
    assert(pow10(0) == 1);
    assert(pow10(1) == 10);
    assert(pow10(2) == 100);
    assert(pow10(3) == 1000);
    assert(pow10(4) == 10000);
    assert(pow10(5) == 100000);
    assert(pow10(6) == 1000000);
    assert(pow10(7) == 10000000);
    assert(pow10(8) == 100000000);
    assert(pow10(9) == 1000000000);
    assert(pow10(10) == 10000000000);
    assert(pow10(11) == 100000000000);
    assert(pow10(12) == 1000000000000);
    assert(pow10(13) == 10000000000000);
    assert(pow10(14) == 100000000000000);
    assert(pow10(15) == 1000000000000000);
}

/// Writes `time` ticks of the trace's timescale in the unit of `wanted_timescale`.
pub fn time_string(time: u64, data_timescale: &Timescale, wanted_timescale: &Timescale) -> (r: String)
    ensures
        r@ == time_text(time as nat, *data_timescale, *wanted_timescale),
{
    let wanted_exponent = wanted_timescale.unit.to_exponent();
    let data_exponent = data_timescale.unit.to_exponent();
    let exponent_diff = wanted_exponent - data_exponent;
    let t = time as u128;
    let f = data_timescale.factor as u128;
    assert(t * f <= 0xffff_ffff_ffff_ffff * 0xffff_ffffu128) by (nonlinear_arith)
        requires
            t <= 0xffff_ffff_ffff_ffff,
            f <= 0xffff_ffff,
    ;
    let v: u128 = t * f;
    let mut out = String::new();
    if exponent_diff >= 0 {
        let precision = exponent_diff as u32;
        let whole = v / pow10_exec(precision);
        push_decimal(&mut out, whole);
        if precision > 0 {
            proof {
                reveal_strlit(".");
            }
            out.append(".");
            push_fixed_digits(&mut out, v, precision);
        }
    } else if v == 0 {
        out.append(digit_str(0));
    } else {
        push_decimal(&mut out, v);
        let mut i: i8 = 0;
        let ghost number = out@;
        while i < -exponent_diff
            invariant
                -15 <= exponent_diff < 0,
                0 <= i <= -exponent_diff,
                out@ == number + zeros(i as nat),
            decreases -exponent_diff - i,
        {
            out.append(digit_str(0));
            assert(out@ =~= number + zeros((i + 1) as nat));
            i += 1;
        }
    }
    proof {
        reveal_strlit(" ");
    }
    out.append(" ");
    let unit = wanted_timescale.unit.to_string();
    out.append(unit.as_str());
    assert(out@ =~= time_text(time as nat, *data_timescale, *wanted_timescale));
    out
}

} // verus!
