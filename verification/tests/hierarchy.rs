use libfst_rust::builder::HierarchyEvent;
use libfst_rust::hierarchy::Hierarchy;
use libfst_rust::hierarchy::Scope;
use libfst_rust::hierarchy::ScopeRef;
use libfst_rust::hierarchy::ScopeType;
use libfst_rust::hierarchy::SignalRef;
use libfst_rust::hierarchy::Timescale;
use libfst_rust::hierarchy::TimescaleUnit;
use libfst_rust::hierarchy::Var;
use libfst_rust::hierarchy::VarDirection;
use libfst_rust::hierarchy::VarIndex;
use libfst_rust::hierarchy::VarRef;
use libfst_rust::hierarchy::VarType;

fn enter(name: &str, kind: u8) -> HierarchyEvent {
    HierarchyEvent::EnterScope { name: name.to_string(), kind }
}

fn declare(name: &str, kind: u8, direction: u8, bit_length: u32, handle: u32) -> HierarchyEvent {
    HierarchyEvent::DeclareVar { name: name.to_string(), kind, direction, bit_length, handle }
}

fn build(events: Vec<HierarchyEvent>) -> Hierarchy {
    Hierarchy::from_fst(&events, "today".to_string(), "v1".to_string(), -9)
}

fn sample() -> Hierarchy {
    build(vec![
        enter("top", 0),
        declare("clk", 16, 1, 1, 1),
        declare("data[7:0]", 5, 2, 8, 2),
        enter("sub", 1),
        declare("q", 16, 0, 0, 2),
        HierarchyEvent::ExitScope,
        enter("gen", 5),
        HierarchyEvent::ExitScope,
        HierarchyEvent::ExitScope,
        enter("other", 0),
        declare("r", 3, 9, 64, 7),
        HierarchyEvent::End,
    ])
}

#[test]
fn scopes_form_the_tree_of_the_events() {
    let h = sample();
    assert_eq!(h.scopes.len(), 4);
    assert_eq!(h.scopes[0].name, "top");
    assert_eq!(h.scopes[0].scope_type, ScopeType::Module);
    assert_eq!(h.scopes[0].parent, None);
    assert_eq!(h.scopes[0].children, vec![ScopeRef(1), ScopeRef(2)]);
    assert_eq!(h.scopes[0].vars, vec![VarRef(0), VarRef(1)]);
    assert_eq!(h.scopes[1].name, "sub");
    assert_eq!(h.scopes[1].scope_type, ScopeType::Task);
    assert_eq!(h.scopes[1].parent, Some(ScopeRef(0)));
    assert_eq!(h.scopes[1].children, vec![]);
    assert_eq!(h.scopes[1].vars, vec![VarRef(2)]);
    assert_eq!(h.scopes[2].name, "gen");
    assert_eq!(h.scopes[2].scope_type, ScopeType::Generate);
    assert_eq!(h.scopes[2].parent, Some(ScopeRef(0)));
    assert_eq!(h.scopes[3].name, "other");
    assert_eq!(h.scopes[3].parent, None);
    assert_eq!(h.scopes[3].vars, vec![VarRef(3)]);
}

#[test]
fn parents_are_older_than_their_children() {
    let h = sample();
    for (i, scope) in h.scopes.iter().enumerate() {
        if let Some(p) = scope.parent {
            assert!(p.0 < i);
            assert!(h.scopes[p.0].children.contains(&ScopeRef(i)));
        }
        for child in &scope.children {
            assert_eq!(h.scopes[child.0].parent, Some(ScopeRef(i)));
        }
        for var in &scope.vars {
            assert_eq!(h.vars[var.0].scope, Some(ScopeRef(i)));
        }
    }
}

#[test]
fn variables_are_decoded_from_their_declarations() {
    let h = sample();
    assert_eq!(h.vars.len(), 4);
    let clk = &h.vars[0];
    assert_eq!(clk.name, "clk");
    assert_eq!(clk.var_type, VarType::Wire);
    assert_eq!(clk.direction, VarDirection::Input);
    assert_eq!(clk.length, Some(1));
    assert_eq!(clk.index, None);
    assert_eq!(clk.scope, Some(ScopeRef(0)));
    assert_eq!(clk.fst_handle, 1);
    let data = &h.vars[1];
    assert_eq!(data.name, "data");
    assert_eq!(data.var_type, VarType::Reg);
    assert_eq!(data.direction, VarDirection::Output);
    assert_eq!(data.length, Some(8));
    assert_eq!(data.index, Some(VarIndex { msb: 7, lsb: 0 }));
    let q = &h.vars[2];
    assert_eq!(q.length, None);
    assert_eq!(q.direction, VarDirection::Implicit);
    assert_eq!(q.scope, Some(ScopeRef(1)));
    let r = &h.vars[3];
    assert_eq!(r.var_type, VarType::Real);
    assert_eq!(r.direction, VarDirection::Unknown);
    assert_eq!(r.scope, Some(ScopeRef(3)));
}

#[test]
fn declarations_sharing_a_handle_alias_one_signal() {
    let h = build(vec![
        enter("top", 0),
        declare("a", 16, 0, 1, 5),
        declare("b", 16, 0, 1, 5),
        HierarchyEvent::ExitScope,
    ]);
    assert_eq!(h.vars.len(), 2);
    assert_eq!(h.vars[0].name, "a");
    assert_eq!(h.vars[1].name, "b");
    assert_eq!(h.vars[0].signal_ref, h.vars[1].signal_ref);
    assert_eq!(h.vars[0].signal_ref, SignalRef(0));
    assert_eq!(h.signal_ref_map.len(), 1);
    assert_eq!(h.signal_ref_map.get(&5), Some(&SignalRef(0)));
}

#[test]
fn signal_identities_count_up_with_new_handles() {
    let h = sample();
    let refs: Vec<usize> = h.vars.iter().map(|v| v.signal_ref.0).collect();
    assert_eq!(refs, vec![0, 1, 1, 2]);
    assert_eq!(h.signal_ref_map.get(&1), Some(&SignalRef(0)));
    assert_eq!(h.signal_ref_map.get(&2), Some(&SignalRef(1)));
    assert_eq!(h.signal_ref_map.get(&7), Some(&SignalRef(2)));
    assert_eq!(h.signal_ref_map.get(&3), None);
    for a in &h.vars {
        for b in &h.vars {
            assert_eq!(a.fst_handle == b.fst_handle, a.signal_ref == b.signal_ref);
        }
    }
}

#[test]
fn variables_are_found_by_their_dotted_path() {
    let h = sample();
    assert_eq!(h.var_by_path("top.clk").map(|v| v.fst_handle), Some(1));
    assert_eq!(h.var_by_path("top.data").map(|v| v.name.clone()), Some("data".to_string()));
    assert_eq!(h.var_by_path("top.sub.q").map(|v| v.fst_handle), Some(2));
    assert_eq!(h.var_by_path("other.r").map(|v| v.fst_handle), Some(7));
    assert!(h.var_by_path("top.data[7:0]").is_none());
    assert!(h.var_by_path("clk").is_none());
    assert!(h.var_by_path("").is_none());
    assert!(h.var_by_path("top.gen.q").is_none());
}

#[test]
fn full_name_is_the_registered_path() {
    let h = sample();
    let names: Vec<String> = h.vars.iter().map(|v| h.var_full_name(v)).collect();
    assert_eq!(names, vec!["top.clk", "top.data", "top.sub.q", "other.r"]);
    for var in h.all_vars() {
        let path = h.var_full_name(var);
        assert_eq!(h.var_by_path(&path).map(|v| v.fst_handle), Some(var.fst_handle));
    }
}

#[test]
fn full_name_of_a_variable_outside_every_scope() {
    let h = build(vec![declare("lonely[3]", 16, 0, 1, 1)]);
    assert_eq!(h.vars[0].scope, None);
    assert_eq!(h.var_full_name(&h.vars[0]), "lonely");
    assert_eq!(h.var_by_path("lonely").map(|v| v.fst_handle), Some(1));
}

#[test]
fn full_name_of_a_scope() {
    let h = sample();
    assert_eq!(h.scope_full_name(&h.scopes[0]), "top");
    assert_eq!(h.scope_full_name(&h.scopes[1]), "top.sub");
    assert_eq!(h.scope_full_name(&h.scopes[2]), "top.gen");
    assert_eq!(h.scope_full_name(&h.scopes[3]), "other");
}

#[test]
fn full_name_stops_at_a_parent_that_is_not_older() {
    let mut h = sample();
    h.scopes[0].parent = Some(ScopeRef(1));
    assert_eq!(h.var_full_name(&h.vars[2]), "top.sub.q");
    h.scopes[1].parent = Some(ScopeRef(1));
    assert_eq!(h.var_full_name(&h.vars[2]), "sub.q");
    h.scopes[1].parent = Some(ScopeRef(40));
    assert_eq!(h.var_full_name(&h.vars[2]), "sub.q");
    let stray = Var::new(
        "v".to_string(),
        VarType::Wire,
        VarDirection::Unknown,
        None,
        SignalRef(0),
        1,
        Some(ScopeRef(99)),
    );
    assert_eq!(h.var_full_name(&stray), "v");
}

#[test]
fn top_scopes_are_those_without_a_parent() {
    let h = sample();
    let names: Vec<&str> = h.top_scopes().iter().map(|s| s.name.as_str()).collect();
    assert_eq!(names, vec!["top", "other"]);
    assert!(build(vec![]).top_scopes().is_empty());
}

#[test]
fn get_var_and_get_scope_are_bounded() {
    let h = sample();
    assert_eq!(h.get_var(VarRef(0)).map(|v| v.name.clone()), Some("clk".to_string()));
    assert_eq!(h.get_var(VarRef(3)).map(|v| v.name.clone()), Some("r".to_string()));
    assert!(h.get_var(VarRef(4)).is_none());
    assert_eq!(h.get_scope(ScopeRef(1)).map(|s| s.name.clone()), Some("sub".to_string()));
    assert!(h.get_scope(ScopeRef(4)).is_none());
    assert_eq!(h.all_vars().len(), 4);
}

#[test]
fn leaving_a_scope_that_is_not_open_changes_nothing() {
    let h = build(vec![
        HierarchyEvent::ExitScope,
        enter("a", 0),
        HierarchyEvent::ExitScope,
        HierarchyEvent::ExitScope,
        HierarchyEvent::ExitScope,
        enter("b", 0),
        declare("x", 16, 0, 1, 1),
    ]);
    assert_eq!(h.scopes.len(), 2);
    assert_eq!(h.scopes[1].parent, None);
    assert_eq!(h.var_full_name(&h.vars[0]), "b.x");
}

#[test]
fn markers_and_unknown_entries_change_nothing() {
    let plain = build(vec![enter("a", 0), declare("x", 16, 0, 1, 1), HierarchyEvent::ExitScope]);
    let marked = build(vec![
        HierarchyEvent::TreeBegin,
        HierarchyEvent::AttrBegin,
        enter("a", 0),
        HierarchyEvent::AttrEnd,
        HierarchyEvent::Other,
        declare("x", 16, 0, 1, 1),
        HierarchyEvent::AttrBegin,
        HierarchyEvent::ExitScope,
        HierarchyEvent::TreeEnd,
    ]);
    assert_eq!(marked.scopes.len(), plain.scopes.len());
    assert_eq!(marked.vars.len(), plain.vars.len());
    assert_eq!(marked.scopes[0].vars, plain.scopes[0].vars);
    assert_eq!(marked.var_full_name(&marked.vars[0]), "a.x");
}

#[test]
fn nothing_after_the_end_is_read() {
    let h = build(vec![
        enter("a", 0),
        HierarchyEvent::End,
        declare("x", 16, 0, 1, 1),
        enter("b", 0),
    ]);
    assert_eq!(h.scopes.len(), 1);
    assert_eq!(h.vars.len(), 0);
    let none = build(vec![HierarchyEvent::End, enter("a", 0)]);
    assert_eq!(none.scopes.len(), 0);
}

#[test]
fn a_path_declared_twice_names_the_later_variable() {
    let h = build(vec![
        enter("a", 0),
        declare("x[1]", 16, 0, 1, 1),
        declare("x[2]", 16, 0, 1, 2),
    ]);
    assert_eq!(h.vars.len(), 2);
    assert_eq!(h.var_by_path("a.x").map(|v| v.fst_handle), Some(2));
    assert_eq!(h.path_to_var.len(), 1);
}

#[test]
fn scope_names_may_be_empty_or_dotted() {
    let h = build(vec![enter("", 0), enter("a.b", 0), declare("x", 16, 0, 1, 1)]);
    assert_eq!(h.var_full_name(&h.vars[0]), ".a.b.x");
    assert_eq!(h.var_by_path(".a.b.x").map(|v| v.fst_handle), Some(1));
}

#[test]
fn header_fields_are_kept() {
    let h = sample();
    assert_eq!(h.date, "today");
    assert_eq!(h.version, "v1");
    assert_eq!(h.file_format, "FST");
    assert_eq!(h.timescale, Some(Timescale { factor: 1, unit: TimescaleUnit::Nanoseconds }));
}

#[test]
fn exponent_zero_records_no_timescale() {
    let h = Hierarchy::from_fst(&vec![], String::new(), String::new(), 0);
    assert_eq!(h.timescale, None);
    let odd = Hierarchy::from_fst(&vec![], String::new(), String::new(), 4);
    assert_eq!(odd.timescale, Some(Timescale { factor: 1, unit: TimescaleUnit::Unknown }));
}

#[test]
fn timescale_units_and_exponents() {
    let table = [
        (-21i8, TimescaleUnit::Zeptoseconds, "zs"),
        (-18, TimescaleUnit::Attoseconds, "as"),
        (-15, TimescaleUnit::Femtoseconds, "fs"),
        (-12, TimescaleUnit::Picoseconds, "ps"),
        (-9, TimescaleUnit::Nanoseconds, "ns"),
        (-6, TimescaleUnit::Microseconds, "us"),
        (-3, TimescaleUnit::Milliseconds, "ms"),
        (0, TimescaleUnit::Seconds, "s"),
    ];
    for (exp, unit, suffix) in table {
        assert_eq!(TimescaleUnit::from_exponent(exp), unit);
        assert_eq!(unit.to_exponent(), Some(exp));
        assert_eq!(unit.suffix(), suffix);
        assert_eq!(Timescale::from_fst_exponent(exp), Timescale::new(1, unit));
    }
    for exp in [-128i8, -22, -20, -10, -1, 1, 3, 127] {
        assert_eq!(TimescaleUnit::from_exponent(exp), TimescaleUnit::Unknown);
    }
    assert_eq!(TimescaleUnit::Unknown.to_exponent(), None);
    assert_eq!(TimescaleUnit::Unknown.suffix(), "unknown");
}

#[test]
fn scope_kinds_of_codes() {
    let table = [
        (0u8, ScopeType::Module, "module"),
        (1, ScopeType::Task, "task"),
        (2, ScopeType::Function, "function"),
        (3, ScopeType::Begin, "begin"),
        (4, ScopeType::Fork, "fork"),
        (5, ScopeType::Generate, "generate"),
    ];
    for (code, kind, label) in table {
        assert_eq!(ScopeType::from_fst(code), kind);
        assert_eq!(kind.label(), label);
    }
    for code in 6..=255u8 {
        assert_eq!(ScopeType::from_fst(code), ScopeType::Unknown);
    }
    assert_eq!(ScopeType::Struct.label(), "struct");
    assert_eq!(ScopeType::Union.label(), "union");
    assert_eq!(ScopeType::Class.label(), "class");
    assert_eq!(ScopeType::Interface.label(), "interface");
    assert_eq!(ScopeType::Package.label(), "package");
    assert_eq!(ScopeType::Program.label(), "program");
    assert_eq!(ScopeType::VhdlBlock.label(), "unknown");
    assert_eq!(ScopeType::Unknown.label(), "unknown");
}

#[test]
fn variable_kinds_of_codes() {
    let table = [
        (0u8, VarType::Event),
        (1, VarType::Integer),
        (2, VarType::Parameter),
        (3, VarType::Real),
        (5, VarType::Reg),
        (6, VarType::Supply0),
        (7, VarType::Supply1),
        (8, VarType::Time),
        (9, VarType::Tri),
        (10, VarType::TriAnd),
        (11, VarType::TriOr),
        (12, VarType::TriReg),
        (13, VarType::Tri0),
        (14, VarType::Tri1),
        (15, VarType::WAnd),
        (16, VarType::Wire),
        (17, VarType::WOr),
        (18, VarType::Port),
        (19, VarType::SparseArray),
        (20, VarType::RealTime),
        (21, VarType::String),
        (22, VarType::Bit),
        (23, VarType::Logic),
        (24, VarType::Int),
        (25, VarType::ShortInt),
        (26, VarType::LongInt),
        (27, VarType::Byte),
        (28, VarType::Enum),
        (29, VarType::ShortReal),
        (253, VarType::String),
        (254, VarType::Real),
    ];
    for (code, kind) in table {
        assert_eq!(VarType::from_fst(code), kind, "code {}", code);
    }
    assert_eq!(VarType::from_fst(4), VarType::Wire);
    for code in 30..=252u8 {
        assert_eq!(VarType::from_fst(code), VarType::Wire);
    }
    assert_eq!(VarType::from_fst(255), VarType::Wire);
}

#[test]
fn variable_kind_labels() {
    assert_eq!(VarType::Event.label(), "Event");
    assert_eq!(VarType::Wire.label(), "Wire");
    assert_eq!(VarType::TriAnd.label(), "TriAnd");
    assert_eq!(VarType::SparseArray.label(), "SparseArray");
    assert_eq!(VarType::ShortReal.label(), "ShortReal");
    assert_eq!(VarType::StdULogicVector.label(), "StdULogicVector");
    assert_eq!(format!("{:?}", VarType::LongInt), VarType::LongInt.label());
}

#[test]
fn directions_of_codes() {
    assert_eq!(VarDirection::from_fst(0), VarDirection::Implicit);
    assert_eq!(VarDirection::from_fst(1), VarDirection::Input);
    assert_eq!(VarDirection::from_fst(2), VarDirection::Output);
    assert_eq!(VarDirection::from_fst(3), VarDirection::InOut);
    for code in 4..=255u8 {
        assert_eq!(VarDirection::from_fst(code), VarDirection::Unknown);
    }
    assert_eq!(VarDirection::Unknown.label(), "Unknown");
    assert_eq!(VarDirection::Implicit.label(), "Implicit");
    assert_eq!(VarDirection::Input.label(), "Input");
    assert_eq!(VarDirection::Output.label(), "Output");
    assert_eq!(VarDirection::InOut.label(), "InOut");
    assert_eq!(VarDirection::Buffer.label(), "Buffer");
    assert_eq!(VarDirection::Linkage.label(), "Linkage");
}

#[test]
fn real_and_string_kinds() {
    for kind in [VarType::Real, VarType::RealTime, VarType::ShortReal] {
        assert!(kind.is_real());
        assert!(!kind.is_string());
    }
    assert!(VarType::String.is_string());
    assert!(!VarType::String.is_real());
    for kind in [VarType::Wire, VarType::Reg, VarType::Integer, VarType::Parameter, VarType::Time] {
        assert!(!kind.is_real());
        assert!(!kind.is_string());
    }
}

fn var_of(kind: VarType, length: Option<u32>) -> Var {
    Var::new("v".to_string(), kind, VarDirection::Unknown, length, SignalRef(0), 1, None)
}

#[test]
fn one_bit_variables() {
    assert!(var_of(VarType::Wire, Some(1)).is_1bit());
    assert!(var_of(VarType::Wire, None).is_1bit());
    assert!(!var_of(VarType::Wire, Some(2)).is_1bit());
    assert!(!var_of(VarType::Wire, Some(0)).is_1bit());
    assert!(!var_of(VarType::String, Some(1)).is_1bit());
    assert!(!var_of(VarType::Real, Some(1)).is_1bit());
    assert!(!var_of(VarType::RealTime, None).is_1bit());
    assert!(var_of(VarType::Real, None).is_real());
    assert!(var_of(VarType::String, None).is_string());
    assert_eq!(var_of(VarType::Wire, Some(12)).bitwidth(), Some(12));
    assert_eq!(var_of(VarType::Wire, None).bitwidth(), None);
}

#[test]
fn new_scope_is_empty() {
    let scope = Scope::new("s".to_string(), ScopeType::Fork, Some(ScopeRef(3)));
    assert_eq!(scope.name, "s");
    assert_eq!(scope.scope_type, ScopeType::Fork);
    assert_eq!(scope.parent, Some(ScopeRef(3)));
    assert!(scope.children.is_empty());
    assert!(scope.vars.is_empty());
    let copy = scope.clone();
    assert_eq!(copy.name, "s");
    assert_eq!(copy.parent, Some(ScopeRef(3)));
}

#[test]
fn variable_clone_keeps_every_field() {
    let h = sample();
    let data = h.vars[1].clone();
    assert_eq!(data.name, "data");
    assert_eq!(data.index, Some(VarIndex::new(7, 0)));
    assert_eq!(data.signal_ref, h.vars[1].signal_ref);
    assert_eq!(data.fst_handle, 2);
    assert_eq!(data.scope, Some(ScopeRef(0)));
}
