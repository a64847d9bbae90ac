use surfer_core::time::{time_string, Timescale, TimescaleUnit};

fn ts(factor: u32, unit: TimescaleUnit) -> Timescale {
    Timescale { factor, unit }
}

#[test]
fn nanoseconds_shown_in_microseconds() {
    let s = time_string(1500, &ts(1, TimescaleUnit::NanoSeconds), &ts(1, TimescaleUnit::MicroSeconds));
    assert_eq!(s, "1.500 \u{b5}s");
}

#[test]
fn nanoseconds_shown_in_picoseconds() {
    let s = time_string(2, &ts(1, TimescaleUnit::NanoSeconds), &ts(1, TimescaleUnit::PicoSeconds));
    assert_eq!(s, "2000 ps");
}

#[test]
fn same_unit_has_no_decimals() {
    let s = time_string(42, &ts(10, TimescaleUnit::NanoSeconds), &ts(1, TimescaleUnit::NanoSeconds));
    assert_eq!(s, "420 ns");
}

#[test]
fn small_values_keep_leading_zeros_of_fraction() {
    let s = time_string(7, &ts(1, TimescaleUnit::FemtoSeconds), &ts(1, TimescaleUnit::Seconds));
    assert_eq!(s, "0.000000000000007 s");
}

#[test]
fn zero_in_finer_unit() {
    let s = time_string(0, &ts(1, TimescaleUnit::MilliSeconds), &ts(1, TimescaleUnit::FemtoSeconds));
    assert_eq!(s, "0 fs");
}

#[test]
fn largest_time_is_exact() {
    let s = time_string(u64::MAX, &ts(1, TimescaleUnit::PicoSeconds), &ts(1, TimescaleUnit::NanoSeconds));
    assert_eq!(s, "18446744073709551.615 ns");
}

#[test]
fn unit_symbols() {
    assert_eq!(TimescaleUnit::MilliSeconds.to_string(), "ms");
    assert_eq!(TimescaleUnit::Seconds.to_exponent(), 0);
    assert_eq!(TimescaleUnit::FemtoSeconds.to_exponent(), -15);
}
