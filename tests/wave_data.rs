use surfer_core::displayed_item::{
    DisplayedCursor, DisplayedDivider, DisplayedItem, DisplayedSignal, SignalNameType,
};
use surfer_core::signal_canvas::{SampleTime, SignalChange};
use surfer_core::translation::{SignalInfo, SignalMeta, SignalValue};
use surfer_core::translators::{NumericTranslator, Translator};
use surfer_core::wave_container::{FieldRef, VarName};
use surfer_core::wave_data::{
    all_translators, generate_draw_commands, select_preferred_translator, signal_translator,
    update_formats, DrawCache, DrawData, ReloadedSignal, SignalFormats, SignalInput,
};

fn bits(n: u32) -> SignalMeta {
    SignalMeta { num_bits: Some(n) }
}

#[test]
fn single_bits_prefer_the_bit_translator() {
    let list = all_translators();
    assert_eq!(select_preferred_translator(&bits(1), &list), "Bit");
    assert_eq!(select_preferred_translator(&bits(8), &list), "Hexadecimal");
    assert_eq!(select_preferred_translator(&SignalMeta { num_bits: None }, &list), "Hexadecimal");
}

#[test]
fn translator_validity() {
    let list = all_translators();
    assert!(list.is_valid_translator(&bits(1), &"Clock".to_string()));
    assert!(!list.is_valid_translator(&bits(2), &"Clock".to_string()));
    assert!(!list.is_valid_translator(&bits(2), &"Nonexistent".to_string()));
    assert_eq!(list.get_translator(&"Octal".to_string()), Some(Translator::Numeric(NumericTranslator::Octal)));
    assert_eq!(list.all_translators().len(), 6);
}

#[test]
fn formats_set_get_and_reset() {
    let mut f = SignalFormats::new();
    let root = FieldRef::from_strs(&["top", "s"], &[]);
    let sub = FieldRef::from_strs(&["top", "s"], &["a"]);
    let other = FieldRef::from_strs(&["top", "t"], &[]);
    f.set(root.clone(), "Binary".to_string());
    f.set(sub.clone(), "Octal".to_string());
    f.set(other.clone(), "Unsigned".to_string());
    f.set(root.clone(), "Clock".to_string());
    assert_eq!(f.get(&root), Some("Clock".to_string()));
    assert_eq!(f.get(&sub), Some("Octal".to_string()));
    f.reset(&root);
    assert_eq!(f.get(&root), None);
    assert_eq!(f.get(&sub), Some("Octal".to_string()));
    assert_eq!(f.get(&other), Some("Unsigned".to_string()));
    assert_eq!(f.entries.len(), 2);
    f.reset(&root);
    assert_eq!(f.entries.len(), 2);
}

#[test]
fn chosen_translator_overrides_preference() {
    let list = all_translators();
    let mut f = SignalFormats::new();
    let root = FieldRef::from_strs(&["top", "clk"], &[]);
    assert_eq!(
        signal_translator(&root, &f, Some(bits(1)), &list).map(|t| t.name()),
        Some("Bit".to_string())
    );
    assert_eq!(
        signal_translator(&root, &f, None, &list).map(|t| t.name()),
        Some("Hexadecimal".to_string())
    );
    f.set(root.clone(), "Clock".to_string());
    assert_eq!(
        signal_translator(&root, &f, Some(bits(1)), &list).map(|t| t.name()),
        Some("Clock".to_string())
    );
    assert_eq!(
        signal_translator(&root, &f, Some(bits(4)), &list).map(|t| t.name()),
        Some("Hexadecimal".to_string())
    );
    f.set(root.clone(), "Gone".to_string());
    assert_eq!(
        signal_translator(&root, &f, Some(bits(1)), &list).map(|t| t.name()),
        Some("Bit".to_string())
    );
    let member = FieldRef::from_strs(&["top", "clk"], &["m"]);
    f.set(member.clone(), "Gone".to_string());
    assert_eq!(signal_translator(&member, &f, Some(bits(1)), &list), None);
}

fn ch(time: u64, v: &str) -> Option<SignalChange> {
    Some(SignalChange { time, value: SignalValue::String(v.to_string()) })
}

#[test]
fn invalid_choice_falls_back_and_unknown_shape_is_skipped() {
    let list = all_translators();
    let mut formats = SignalFormats::new();
    let wide = VarName::from_strs(&["top", "bus"]);
    let clk = VarName::from_strs(&["top", "clk"]);
    formats.set(FieldRef::without_fields(wide.clone()), "Clock".to_string());
    formats.set(FieldRef::without_fields(clk.clone()), "Clock".to_string());
    let samples = vec![
        SampleTime { pixel: 0, time: 0 },
        SampleTime { pixel: 1, time: 10 },
        SampleTime { pixel: 2, time: 20 },
        SampleTime { pixel: 3, time: 30 },
    ];
    let signals = vec![
        SignalInput {
            root: wide.clone(),
            meta: Some(bits(4)),
            queries: vec![ch(0, "1010"), ch(0, "1010"), ch(0, "1010"), ch(0, "1010")],
        },
        SignalInput {
            root: clk.clone(),
            meta: Some(bits(1)),
            queries: vec![ch(0, "0"), ch(5, "1"), ch(15, "0"), ch(25, "1")],
        },
        SignalInput { root: VarName::from_strs(&["gone"]), meta: None, queries: vec![] },
    ];
    let d = generate_draw_commands(&samples, &signals, &formats, &list);
    assert!(d.reset_formats.is_empty());
    assert_eq!(d.draw_commands.len(), 2);
    assert_eq!(d.draw_commands[0].0, FieldRef::without_fields(wide));
    assert!(!d.draw_commands[0].1.is_bool);
    let bus: Vec<(i64, Option<String>)> = d.draw_commands[0]
        .1
        .values
        .iter()
        .map(|e| (e.0, e.1.inner.clone().map(|v| v.0)))
        .collect();
    assert_eq!(bus, vec![(1, Some("a".to_string())), (3, Some("a".to_string()))]);
    assert_eq!(d.draw_commands[1].0, FieldRef::without_fields(clk));
    assert!(d.draw_commands[1].1.is_bool);
    let pixels: Vec<i64> = d.draw_commands[1].1.values.iter().map(|e| e.0).collect();
    assert_eq!(pixels, vec![1, 2, 3]);
    assert_eq!(d.clock_edges, vec![]);
}

#[test]
fn clock_edges_of_all_signals_in_order() {
    let list = all_translators();
    let mut formats = SignalFormats::new();
    let a = VarName::from_strs(&["a"]);
    let b = VarName::from_strs(&["b"]);
    formats.set(FieldRef::without_fields(a.clone()), "Clock".to_string());
    formats.set(FieldRef::without_fields(b.clone()), "Clock".to_string());
    let samples: Vec<SampleTime> = (0..5).map(|x| SampleTime { pixel: x, time: (x * 10) as u64 }).collect();
    let qa = vec![ch(0, "0"), ch(0, "0"), ch(15, "1"), ch(25, "0"), ch(25, "0")];
    let qb = vec![ch(0, "0"), ch(0, "0"), ch(0, "0"), ch(25, "1"), ch(35, "0")];
    let signals = vec![
        SignalInput { root: a, meta: Some(bits(1)), queries: qa },
        SignalInput { root: b, meta: Some(bits(1)), queries: qb },
    ];
    let d = generate_draw_commands(&samples, &signals, &formats, &list);
    assert_eq!(d.clock_edges, vec![2, 3]);
}

#[test]
fn variable_shown_twice_gets_one_list_per_field() {
    let list = all_translators();
    let formats = SignalFormats::new();
    let clk = VarName::from_strs(&["top", "clk"]);
    let samples: Vec<SampleTime> = (0..5).map(|x| SampleTime { pixel: x, time: (x * 10) as u64 }).collect();
    let q = vec![ch(0, "0"), ch(0, "0"), ch(15, "1"), ch(25, "0"), ch(25, "0")];
    let signals = vec![
        SignalInput { root: clk.clone(), meta: Some(bits(1)), queries: q.clone() },
        SignalInput { root: clk.clone(), meta: Some(bits(1)), queries: q },
    ];
    let d = generate_draw_commands(&samples, &signals, &formats, &list);
    assert_eq!(d.draw_commands.len(), 1);
    assert_eq!(d.draw_commands[0].0, FieldRef::without_fields(clk));
    let pixels: Vec<i64> = d.draw_commands[0].1.values.iter().map(|e| e.0).collect();
    assert_eq!(pixels, vec![1, 2, 3, 4]);
}

fn cursor() -> DisplayedItem {
    DisplayedItem::Cursor(DisplayedCursor {
        color: None,
        background_color: None,
        name: "start".to_string(),
        idx: 12,
    })
}

#[test]
fn cursor_display_name_has_index() {
    let c = cursor();
    assert_eq!(c.display_name(), "12: start");
    assert_eq!(c.name(), "start");
}

#[test]
fn items_change_colors_and_names() {
    let mut c = cursor();
    c.set_color(Some("red".to_string()));
    c.set_background_color(Some("blue".to_string()));
    c.set_name("end".to_string());
    assert_eq!(c.color(), Some("red".to_string()));
    assert_eq!(c.background_color(), Some("blue".to_string()));
    assert_eq!(c.name(), "end");
    let mut d = DisplayedItem::Divider(DisplayedDivider {
        color: None,
        background_color: None,
        name: "--".to_string(),
    });
    d.set_name("section".to_string());
    assert_eq!(d.display_name(), "section");
    assert_eq!(d.color(), None);
}

#[test]
fn signals_keep_their_name() {
    let mut s = DisplayedItem::Signal(DisplayedSignal {
        signal_ref: VarName::from_strs(&["top", "clk"]),
        info: SignalInfo::Clock,
        color: None,
        background_color: None,
        display_name: "clk".to_string(),
        display_name_type: SignalNameType::Local,
    });
    s.set_name("other".to_string());
    assert_eq!(s.name(), "clk");
    assert_eq!(s.display_name(), "clk");
}

#[test]
fn reload_keeps_only_valid_choices() {
    let list = all_translators();
    let clk = VarName::from_strs(&["top", "clk"]);
    let bus = VarName::from_strs(&["top", "bus"]);
    let gone = VarName::from_strs(&["top", "gone"]);
    let mut f = SignalFormats::new();
    f.set(FieldRef::without_fields(clk.clone()), "Clock".to_string());
    f.set(FieldRef::without_fields(bus.clone()), "Clock".to_string());
    f.set(FieldRef::without_fields(gone.clone()), "Binary".to_string());
    f.set(FieldRef::from_strs(&["top", "bus"], &["member"]), "Binary".to_string());
    let displayed = vec![
        ReloadedSignal { var: clk.clone(), meta: Some(bits(1)) },
        ReloadedSignal { var: bus.clone(), meta: Some(bits(8)) },
        ReloadedSignal { var: gone.clone(), meta: None },
    ];
    let r = update_formats(&f, &displayed, &list);
    assert_eq!(r.get(&FieldRef::without_fields(clk)), Some("Clock".to_string()));
    assert_eq!(r.get(&FieldRef::without_fields(bus)), None);
    assert_eq!(r.get(&FieldRef::without_fields(gone)), None);
    assert_eq!(r.get(&FieldRef::from_strs(&["top", "bus"], &["member"])), None);
    assert_eq!(r.entries.len(), 1);
}

#[test]
fn cache_is_stale_until_stored() {
    let mut c = DrawCache::new();
    assert!(!c.is_fresh());
    c.store(DrawData { draw_commands: vec![], clock_edges: vec![5], reset_formats: vec![] });
    assert!(c.is_fresh());
    c.invalidate();
    assert!(!c.is_fresh());
}
