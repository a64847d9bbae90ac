use surfer_core::wave_container::{FieldRef, ScopeName, VarName};

#[test]
fn scope_from_hierarchy_string_splits_on_dots() {
    let s = ScopeName::from_hierarchy_string("top.cpu.alu");
    assert_eq!(s, ScopeName::from_strs(&["top", "cpu", "alu"]));
    assert_eq!(s.name(), "alu");
    assert_eq!(s.to_string(), "top.cpu.alu");
}

#[test]
fn scope_with_subscope_appends() {
    let s = ScopeName::from_strs(&["top"]).with_subscope("cpu".to_string());
    assert_eq!(s, ScopeName::from_strs(&["top", "cpu"]));
}

#[test]
fn empty_scope_has_empty_name() {
    let s = ScopeName::from_strs(&[]);
    assert_eq!(s.name(), "");
    assert_eq!(s.to_string(), "");
}

#[test]
fn var_from_hierarchy_string_splits_path_and_name() {
    let v = VarName::from_hierarchy_string("top.cpu.clk");
    assert_eq!(v.path, ScopeName::from_strs(&["top", "cpu"]));
    assert_eq!(v.name, "clk");
    assert_eq!(v.full_path_string(), "top.cpu.clk");
    assert_eq!(v.full_path(), vec!["top".to_string(), "cpu".to_string(), "clk".to_string()]);
}

#[test]
fn var_without_scope_prints_name_only() {
    let v = VarName::from_hierarchy_string("clk");
    assert_eq!(v.path, ScopeName::from_strs(&[]));
    assert_eq!(v.full_path_string(), "clk");
}

#[test]
fn empty_var_string_gives_empty_path_and_name() {
    let v = VarName::from_hierarchy_string("");
    assert_eq!(v.path, ScopeName::from_strs(&[]));
    assert_eq!(v.name, "");
    assert_eq!(v.full_path_string(), "");
}

#[test]
fn var_string_round_trips_with_empty_pieces() {
    for s in ["a..b", ".x", "x.", "top.sub.sig"] {
        assert_eq!(VarName::from_hierarchy_string(s).full_path_string(), s);
    }
}

#[test]
fn var_from_strs_takes_last_as_name() {
    let v = VarName::from_strs(&["a", "b", "c"]);
    assert_eq!(v, VarName::new(ScopeName::from_strs(&["a", "b"]), "c".to_string()));
    assert_ne!(v, VarName::from_strs(&["a", "c"]));
}

#[test]
fn field_refs_with_different_fields_differ() {
    let a = FieldRef::from_strs(&["top", "s"], &[]);
    let b = FieldRef::from_strs(&["top", "s"], &["x"]);
    assert_ne!(a, b);
    assert_eq!(a, FieldRef::without_fields(VarName::from_strs(&["top", "s"])));
    assert_eq!(b.field, vec!["x".to_string()]);
}
