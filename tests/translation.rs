use surfer_core::translation::{
    translate_bit, translate_numeric, value_kind_of, SignalInfo, SignalMeta, SignalValue,
    SubFieldInfo, TranslationPreference, ValueKind,
};
use surfer_core::translators::{
    BitTranslator, ClockTranslator, NumericTranslator, SubFieldTranslationResult,
    TranslationError, TranslationResult, Translator,
};

fn text(s: &str) -> SignalValue {
    SignalValue::String(s.to_string())
}

fn bits(n: u32) -> SignalMeta {
    SignalMeta { num_bits: Some(n) }
}

#[test]
fn binary_string_in_hex() {
    assert_eq!(translate_numeric(16, &text("1010")), ("a".to_string(), ValueKind::Normal));
}

#[test]
fn binary_string_in_other_bases() {
    assert_eq!(translate_numeric(10, &text("11111111")), ("255".to_string(), ValueKind::Normal));
    assert_eq!(translate_numeric(8, &text("1001")), ("11".to_string(), ValueKind::Normal));
    assert_eq!(translate_numeric(2, &text("0010")), ("10".to_string(), ValueKind::Normal));
    assert_eq!(translate_numeric(16, &text("0000")), ("0".to_string(), ValueKind::Normal));
}

#[test]
fn bytes_in_bases() {
    let v = SignalValue::Binary(vec![1, 0]);
    assert_eq!(translate_numeric(10, &v), ("256".to_string(), ValueKind::Normal));
    assert_eq!(translate_numeric(16, &v), ("100".to_string(), ValueKind::Normal));
    let big = SignalValue::Binary(vec![0xde, 0xad, 0xbe, 0xef, 0x01, 0x23, 0x45, 0x67, 0x89]);
    assert_eq!(translate_numeric(16, &big), ("deadbeef0123456789".to_string(), ValueKind::Normal));
    assert_eq!(translate_numeric(16, &SignalValue::Binary(vec![])), ("0".to_string(), ValueKind::Normal));
}

#[test]
fn four_value_markers_are_not_parsed() {
    assert_eq!(translate_numeric(16, &text("10x1")), ("10x1".to_string(), ValueKind::Undef));
    assert_eq!(translate_numeric(16, &text("zzzz")), ("zzzz".to_string(), ValueKind::HighImp));
    assert_eq!(translate_numeric(16, &text("1-0")), ("1-0".to_string(), ValueKind::DontCare));
    assert_eq!(translate_numeric(16, &text("xz")), ("xz".to_string(), ValueKind::Undef));
    assert_eq!(translate_numeric(16, &text("z-")), ("z-".to_string(), ValueKind::HighImp));
    assert_eq!(translate_numeric(16, &text("hl")), ("hl".to_string(), ValueKind::Weak));
    assert_eq!(translate_numeric(16, &text("")), ("".to_string(), ValueKind::Normal));
}

#[test]
fn value_kinds_of_markers() {
    assert_eq!(value_kind_of("u"), ValueKind::Undef);
    assert_eq!(value_kind_of("w"), ValueKind::Undef);
    assert_eq!(value_kind_of("0101"), ValueKind::Normal);
}

#[test]
fn bit_translation_keeps_strings() {
    assert_eq!(translate_bit(&text("1")), ("1".to_string(), ValueKind::Normal));
    assert_eq!(translate_bit(&text("x")), ("x".to_string(), ValueKind::Undef));
    assert_eq!(translate_bit(&SignalValue::Binary(vec![1])), ("1".to_string(), ValueKind::Normal));
    assert_eq!(translate_bit(&SignalValue::Binary(vec![0])), ("0".to_string(), ValueKind::Normal));
}

#[test]
fn clock_rejects_wide_signals() {
    let clock = Translator::Clock(ClockTranslator::new());
    let r = clock.translate(&bits(4), &text("1010"));
    assert_eq!(r.unwrap_err(), TranslationError::NotOneBit);
    let r = clock.translate(&SignalMeta { num_bits: None }, &text("1"));
    assert!(r.is_err());
    let ok = clock.translate(&bits(1), &text("1")).unwrap();
    assert_eq!(ok.val, "1");
    assert_eq!(ok.kind, ValueKind::Normal);
    assert!(matches!(clock.signal_info(&bits(1)), SignalInfo::Clock));
}

#[test]
fn translator_preferences() {
    let hex = Translator::Numeric(NumericTranslator::Hexadecimal);
    let bit = Translator::Bit(BitTranslator {});
    let clock = Translator::Clock(ClockTranslator::new());
    assert_eq!(hex.translates(&bits(8)), TranslationPreference::Yes);
    assert_eq!(hex.translates(&SignalMeta { num_bits: None }), TranslationPreference::No);
    assert_eq!(bit.translates(&bits(1)), TranslationPreference::Prefer);
    assert_eq!(bit.translates(&bits(2)), TranslationPreference::No);
    assert_eq!(clock.translates(&bits(1)), TranslationPreference::Yes);
    assert_eq!(clock.translates(&bits(3)), TranslationPreference::No);
    assert_eq!(hex.name(), "Hexadecimal");
    assert_eq!(clock.name(), "Clock");
    assert_eq!(bit.name(), "Bit");
}

#[test]
fn hex_translator_translates_sample() {
    let hex = Translator::Numeric(NumericTranslator::Hexadecimal);
    let r = hex.translate(&bits(8), &text("11110000")).unwrap();
    assert_eq!(r.val, "f0");
    assert!(r.subfields.is_empty());
    let fields = r.flatten();
    assert_eq!(fields.len(), 1);
    assert!(fields[0].path.is_empty());
    assert_eq!(fields[0].value, Some(("f0".to_string(), ValueKind::Normal)));
}

#[test]
fn flatten_lists_members_after_root() {
    let r = TranslationResult {
        val: "{..}".to_string(),
        kind: ValueKind::Normal,
        subfields: vec![
            SubFieldTranslationResult { name: "a".to_string(), result: Some(("1".to_string(), ValueKind::Normal)) },
            SubFieldTranslationResult { name: "b".to_string(), result: None },
        ],
    };
    let f = r.flatten();
    assert_eq!(f.len(), 3);
    assert_eq!(f[1].path, vec!["a".to_string()]);
    assert_eq!(f[2].path, vec!["b".to_string()]);
    assert_eq!(f[2].value, None);
}

#[test]
fn compound_subinfo_lookup() {
    let info = SignalInfo::Compound {
        subfields: vec![
            SubFieldInfo { name: "clk".to_string(), info: SignalInfo::Clock },
            SubFieldInfo {
                name: "inner".to_string(),
                info: SignalInfo::Compound {
                    subfields: vec![SubFieldInfo { name: "x".to_string(), info: SignalInfo::Bits }],
                },
            },
        ],
    };
    assert!(matches!(info.get_subinfo(&vec!["clk".to_string()]), Some(SignalInfo::Clock)));
    assert!(matches!(
        info.get_subinfo(&vec!["inner".to_string(), "x".to_string()]),
        Some(SignalInfo::Bits)
    ));
    assert!(info.has_subpath(&vec![]));
    assert!(!info.has_subpath(&vec!["missing".to_string()]));
    assert!(!info.has_subpath(&vec!["clk".to_string(), "deeper".to_string()]));
}
