use surfer_core::signal_canvas::{
    bool_drawing_spec, generate_signal_commands, BoolLevel, sample_times, shade_clock_cycles, SampleTime, SignalChange,
    TimeAtPixel,
};
use surfer_core::translation::{SignalMeta, SignalValue, ValueKind};
use surfer_core::translators::{
    BitTranslator, ClockTranslator, NumericTranslator, TranslationError, Translator,
};

fn samples(n: i64) -> Vec<SampleTime> {
    (0..n).map(|x| SampleTime { pixel: x, time: (x * 10) as u64 }).collect()
}

fn change(time: u64, v: &str) -> Option<SignalChange> {
    Some(SignalChange { time, value: SignalValue::String(v.to_string()) })
}

fn one_bit() -> SignalMeta {
    SignalMeta { num_bits: Some(1) }
}

#[test]
fn constant_signal_draws_one_region() {
    let s = samples(100);
    let q: Vec<_> = (0..100).map(|_| change(0, "1010")).collect();
    let hex = Translator::Numeric(NumericTranslator::Hexadecimal);
    let c = generate_signal_commands(&hex, &SignalMeta { num_bits: Some(4) }, &s, &q).unwrap();
    assert_eq!(c.fields.len(), 1);
    let (path, cmds) = &c.fields[0];
    assert!(path.is_empty());
    assert!(!cmds.is_bool);
    let pixels: Vec<i64> = cmds.values.iter().map(|e| e.0).collect();
    assert_eq!(pixels, vec![1, 99]);
    for (_, region) in &cmds.values {
        assert_eq!(region.inner, Some(("a".to_string(), ValueKind::Normal)));
        assert!(!region.force_anti_alias);
    }
    assert!(c.clock_edges.is_empty());
}

#[test]
fn many_unchanged_samples_stay_sparse() {
    let n = 2000;
    let s = samples(n);
    // three changes: at times 5, 7005, 15005
    let q: Vec<_> = (0..n)
        .map(|x| {
            let t = (x * 10) as u64;
            if t >= 15005 {
                change(15005, "0")
            } else if t >= 7005 {
                change(7005, "1")
            } else if t >= 5 {
                change(5, "0")
            } else {
                None
            }
        })
        .collect();
    let bit = Translator::Bit(BitTranslator {});
    let c = generate_signal_commands(&bit, &one_bit(), &s, &q).unwrap();
    let cmds = &c.fields[0].1;
    assert!(cmds.is_bool);
    let pixels: Vec<i64> = cmds.values.iter().map(|e| e.0).collect();
    assert_eq!(pixels, vec![1, 701, 1501, 1999]);
    assert!(cmds.values.len() <= 3 + 2);
}

#[test]
fn repeated_value_with_new_change_time_forces_anti_alias() {
    let s = samples(5);
    let q = vec![change(0, "1"), change(0, "1"), change(0, "1"), change(25, "1"), change(25, "1")];
    let bit = Translator::Bit(BitTranslator {});
    let c = generate_signal_commands(&bit, &one_bit(), &s, &q).unwrap();
    let v = &c.fields[0].1.values;
    let got: Vec<(i64, bool)> = v.iter().map(|e| (e.0, e.1.force_anti_alias)).collect();
    assert_eq!(got, vec![(1, false), (3, true), (4, false)]);
}

#[test]
fn change_exactly_at_previous_sample_is_skipped() {
    let s = samples(5);
    let q = vec![change(0, "0"), change(0, "0"), change(10, "1"), change(10, "1"), change(10, "1")];
    let bit = Translator::Bit(BitTranslator {});
    let c = generate_signal_commands(&bit, &one_bit(), &s, &q).unwrap();
    let got: Vec<i64> = c.fields[0].1.values.iter().map(|e| e.0).collect();
    assert_eq!(got, vec![1, 4]);
}

#[test]
fn clock_edges_skip_first_and_last_pixel() {
    let s = samples(6);
    let q = vec![
        change(0, "1"),
        change(0, "1"),
        change(15, "0"),
        change(25, "1"),
        change(35, "0"),
        change(45, "1"),
    ];
    let clock = Translator::Clock(ClockTranslator::new());
    let c = generate_signal_commands(&clock, &one_bit(), &s, &q).unwrap();
    assert_eq!(c.clock_edges, vec![3]);
    assert!(c.fields[0].1.is_bool);
}

#[test]
fn wide_clock_fails() {
    let s = samples(3);
    let q = vec![change(0, "10"), change(0, "10"), change(0, "10")];
    let clock = Translator::Clock(ClockTranslator::new());
    let r = generate_signal_commands(&clock, &SignalMeta { num_bits: Some(2) }, &s, &q);
    assert_eq!(r.unwrap_err(), TranslationError::NotOneBit);
}

#[test]
fn no_values_draw_nothing() {
    let s = samples(4);
    let q = vec![None, None, None, None];
    let hex = Translator::Numeric(NumericTranslator::Hexadecimal);
    let c = generate_signal_commands(&hex, &SignalMeta { num_bits: Some(8) }, &s, &q).unwrap();
    assert!(c.fields.is_empty());
}

#[test]
fn samples_outside_trace_are_dropped() {
    let cands = vec![
        TimeAtPixel { pixel: -2, whole: -1, fractional: true },
        TimeAtPixel { pixel: -1, whole: 0, fractional: false },
        TimeAtPixel { pixel: 0, whole: 3, fractional: true },
        TimeAtPixel { pixel: 1, whole: 10, fractional: false },
        TimeAtPixel { pixel: 2, whole: 10, fractional: true },
        TimeAtPixel { pixel: 3, whole: 11, fractional: false },
    ];
    let s = sample_times(&cands, 10);
    assert_eq!(
        s,
        vec![
            SampleTime { pixel: -1, time: 0 },
            SampleTime { pixel: 0, time: 3 },
            SampleTime { pixel: 1, time: 10 },
        ]
    );
}

#[test]
fn clock_shading_threshold() {
    assert!(!shade_clock_cycles(&vec![]));
    assert!(shade_clock_cycles(&vec![10]));
    assert!(!shade_clock_cycles(&vec![10, 20]));
    assert!(shade_clock_cycles(&vec![10, 30]));
    assert!(!shade_clock_cycles(&vec![10, 25]));
    assert!(shade_clock_cycles(&vec![10, 26, 27]));
}

#[test]
fn boolean_levels() {
    assert_eq!(bool_drawing_spec("0", ValueKind::Normal), (BoolLevel::Low, false));
    assert_eq!(bool_drawing_spec("1", ValueKind::Normal), (BoolLevel::High, true));
    assert_eq!(bool_drawing_spec("L", ValueKind::Weak), (BoolLevel::Low, false));
    assert_eq!(bool_drawing_spec("h", ValueKind::Weak), (BoolLevel::High, true));
    assert_eq!(bool_drawing_spec("x", ValueKind::Undef), (BoolLevel::Middle, false));
    assert_eq!(bool_drawing_spec("z", ValueKind::HighImp), (BoolLevel::Middle, false));
}
