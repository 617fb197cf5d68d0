use std::sync::Arc;

use libfst_rust::builder::HierarchyEvent;
use libfst_rust::hierarchy::Hierarchy;
use libfst_rust::hierarchy::SignalRef;
use libfst_rust::hierarchy::Var;
use libfst_rust::signal::Signal;
use libfst_rust::signal::SignalValue;
use libfst_rust::source::BlockScan;
use libfst_rust::source::LoadStep;
use libfst_rust::source::RawSample;
use libfst_rust::source::ScanRequest;
use libfst_rust::waveform::assemble;
use libfst_rust::waveform::Waveform;

fn declare(name: &str, kind: u8, handle: u32) -> HierarchyEvent {
    HierarchyEvent::DeclareVar { name: name.to_string(), kind, direction: 0, bit_length: 1, handle }
}

fn hierarchy() -> Hierarchy {
    let events = vec![
        HierarchyEvent::EnterScope { name: "top".to_string(), kind: 0 },
        declare("a", 16, 1),
        declare("b", 16, 2),
        declare("c", 16, 3),
        declare("a_alias", 16, 1),
        declare("level", 3, 4),
        declare("state", 21, 5),
        HierarchyEvent::ExitScope,
    ];
    Hierarchy::from_fst(&events, String::new(), String::new(), -12)
}

fn waveform(load_body: bool) -> Waveform {
    Waveform::new(hierarchy(), 5, 500, true, false, load_body)
}

/// What the trace holds for a handle: one change at the handle's own number.
fn scan(handle: u32) -> BlockScan {
    let text = match handle {
        4 => "0.5".to_string(),
        5 => "idle".to_string(),
        h => format!("{:b}", h),
    };
    let number = text.parse::<f64>().ok().map(f64::to_bits);
    BlockScan {
        samples: vec![RawSample { time: handle as u64, bytes: Some(text.into_bytes()), number }],
        completed: handle != 3,
    }
}

fn fetch(waveform: &mut Waveform, var: &Var, scans: &mut Vec<u32>) -> Result<Arc<Signal>, String> {
    match waveform.get_signal(var) {
        LoadStep::Ready(signal) => Ok(signal),
        LoadStep::Scan(request) => {
            scans.push(request.handle);
            waveform.complete_load(&request, &scan(request.handle))
        }
    }
}

#[test]
fn body_is_loaded_on_request_or_at_once() {
    let lazy = waveform(false);
    assert!(!lazy.body_loaded());
    assert_eq!(lazy.time_range, None);
    assert!(lazy.wave_source.is_none());
    assert!(lazy.multi_threaded);
    let eager = waveform(true);
    assert!(eager.body_loaded());
    assert_eq!(eager.time_range, Some((5, 500)));
    assert_eq!(eager.trace_span, (5, 500));
}

#[test]
fn loading_the_body_twice_changes_nothing() {
    let mut w = waveform(false);
    w.load_body();
    assert!(w.body_loaded());
    assert_eq!(w.time_range, Some((5, 500)));
    let vars = hierarchy().vars;
    let mut scans = Vec::new();
    let first = fetch(&mut w, &vars[0], &mut scans).unwrap();
    w.time_range = Some((1, 2));
    w.load_body();
    assert_eq!(w.time_range, Some((1, 2)));
    let again = fetch(&mut w, &vars[0], &mut scans).unwrap();
    assert!(Arc::ptr_eq(&first, &again));
    assert_eq!(scans, vec![1]);
}

#[test]
fn asking_for_a_signal_loads_the_body() {
    let mut w = waveform(false);
    let vars = hierarchy().vars;
    let step = w.get_signal(&vars[1]);
    assert!(w.body_loaded());
    assert_eq!(w.time_range, Some((5, 500)));
    match step {
        LoadStep::Scan(request) => {
            assert_eq!(request, ScanRequest { signal_ref: vars[1].signal_ref, handle: 2, is_real: false, is_string: false });
        }
        LoadStep::Ready(_) => panic!("nothing is cached yet"),
    }
}

#[test]
fn requests_carry_the_kind_of_the_variable() {
    let mut w = waveform(true);
    let vars = hierarchy().vars;
    match w.get_signal(&vars[4]) {
        LoadStep::Scan(request) => assert!(request.is_real && !request.is_string && request.handle == 4),
        LoadStep::Ready(_) => panic!("nothing is cached yet"),
    }
    match w.get_signal(&vars[5]) {
        LoadStep::Scan(request) => assert!(!request.is_real && request.is_string && request.handle == 5),
        LoadStep::Ready(_) => panic!("nothing is cached yet"),
    }
    let mut scans = Vec::new();
    let level = fetch(&mut w, &vars[4], &mut scans).unwrap();
    assert_eq!(level.changes[0].value, SignalValue::Real(0.5f64.to_bits()));
    let state = fetch(&mut w, &vars[5], &mut scans).unwrap();
    assert_eq!(state.changes[0].value, SignalValue::String("idle".to_string()));
}

#[test]
fn aliased_variables_share_one_cached_signal() {
    let mut w = waveform(false);
    let vars = hierarchy().vars;
    assert_eq!(vars[0].signal_ref, vars[3].signal_ref);
    let mut scans = Vec::new();
    let a = fetch(&mut w, &vars[0], &mut scans).unwrap();
    let alias = fetch(&mut w, &vars[3], &mut scans).unwrap();
    assert!(Arc::ptr_eq(&a, &alias));
    assert_eq!(*a, *alias);
    assert_eq!(scans, vec![1]);
    let mut other = waveform(false);
    let mut scans = Vec::new();
    let alias_first = fetch(&mut other, &vars[3], &mut scans).unwrap();
    let a_second = fetch(&mut other, &vars[0], &mut scans).unwrap();
    assert!(Arc::ptr_eq(&alias_first, &a_second));
    assert_eq!(*alias_first, *a);
}

#[test]
fn signal_by_path() {
    let mut w = waveform(false);
    let request = match w.get_signal_from_path("top.b") {
        Ok(LoadStep::Scan(request)) => request,
        _ => panic!("the path names a variable whose signal is not cached"),
    };
    assert_eq!(request.handle, 2);
    assert!(w.body_loaded());
    let loaded = w.complete_load(&request, &scan(request.handle)).unwrap();
    match w.get_signal_from_path("top.b") {
        Ok(LoadStep::Ready(signal)) => assert!(Arc::ptr_eq(&signal, &loaded)),
        _ => panic!("the signal is cached"),
    }
}

#[test]
fn path_that_names_no_variable_is_an_error() {
    let mut w = waveform(false);
    match w.get_signal_from_path("top.missing") {
        Err(e) => assert_eq!(e, "Variable not found: top.missing"),
        Ok(_) => panic!("no such variable"),
    }
    assert!(!w.body_loaded());
    match w.get_signal_from_path("") {
        Err(e) => assert_eq!(e, "Variable not found: "),
        Ok(_) => panic!("no such variable"),
    }
}

#[test]
fn completing_a_load_without_a_body_is_an_error() {
    let mut w = waveform(false);
    let request = ScanRequest { signal_ref: SignalRef(0), handle: 1, is_real: false, is_string: false };
    assert_eq!(w.complete_load(&request, &scan(1)), Err("Wave source not available".to_string()));
    assert!(!w.body_loaded());
    assert_eq!(w.collect_signals(&[], false), Err("Wave source not available".to_string()));
}

#[test]
fn failed_scan_is_reported_and_not_cached() {
    let mut w = waveform(true);
    let vars = hierarchy().vars;
    let mut scans = Vec::new();
    assert_eq!(fetch(&mut w, &vars[2], &mut scans), Err("Failed to iterate blocks".to_string()));
    assert_eq!(fetch(&mut w, &vars[2], &mut scans), Err("Failed to iterate blocks".to_string()));
    assert_eq!(scans, vec![3, 3]);
}

#[test]
fn batch_comes_back_in_the_order_asked_for() {
    let vars = hierarchy().vars;
    let batch = vec![vars[0].clone(), vars[1].clone(), vars[5].clone()];
    for reversed in [false, true] {
        let mut w = waveform(false);
        let mut scans = Vec::new();
        let cached_b = fetch(&mut w, &vars[1], &mut scans).unwrap();
        let plan = w.load_signals(&batch);
        assert!(!plan.parallel);
        let handles: Vec<u32> = plan.scans.iter().map(|s| s.handle).collect();
        assert_eq!(handles, vec![1, 5]);
        let mut order = plan.scans.clone();
        if reversed {
            order.reverse();
        }
        for request in &order {
            w.complete_load(request, &scan(request.handle)).unwrap();
        }
        let signals = w.collect_signals(&batch, reversed).unwrap();
        assert_eq!(signals.len(), 3);
        assert_eq!(signals[0].changes[0].time, 1);
        assert!(Arc::ptr_eq(&signals[1], &cached_b));
        assert_eq!(signals[2].changes[0].value, SignalValue::String("idle".to_string()));
        let again = w.load_signals(&batch);
        assert!(again.scans.is_empty());
    }
}

#[test]
fn batch_with_aliases_and_repeats_scans_once_each() {
    let vars = hierarchy().vars;
    let batch = vec![vars[0].clone(), vars[3].clone(), vars[0].clone(), vars[1].clone()];
    let mut w = waveform(false);
    let plan = w.load_signals_multithreaded(&batch);
    assert!(plan.parallel);
    assert!(w.body_loaded());
    let handles: Vec<u32> = plan.scans.iter().map(|s| s.handle).collect();
    assert_eq!(handles, vec![1, 2]);
    for request in &plan.scans {
        w.complete_load(request, &scan(request.handle)).unwrap();
    }
    let signals = w.collect_signals(&batch, plan.parallel).unwrap();
    assert_eq!(signals.len(), 4);
    assert!(Arc::ptr_eq(&signals[0], &signals[1]));
    assert!(Arc::ptr_eq(&signals[0], &signals[2]));
    assert_eq!(signals[3].changes[0].time, 2);
}

#[test]
fn batch_names_the_first_variable_that_is_missing() {
    let vars = hierarchy().vars;
    let batch = vec![vars[0].clone(), vars[2].clone(), vars[1].clone()];
    let mut w = waveform(false);
    let plan = w.load_signals(&batch);
    assert_eq!(plan.scans.len(), 3);
    for request in &plan.scans {
        let _ = w.complete_load(request, &scan(request.handle));
    }
    assert_eq!(w.collect_signals(&batch, false), Err("Failed to load signal for c".to_string()));
    assert_eq!(w.collect_signals(&batch, true), Err("Failed to load signal for c".to_string()));
    assert_eq!(w.collect_signals(&[vars[1].clone(), vars[0].clone()], false).map(|s| s.len()), Ok(2));
    let mut untouched = waveform(true);
    assert_eq!(untouched.collect_signals(&batch, false), Err("Failed to load signal for a".to_string()));
    assert_eq!(untouched.collect_signals(&[], true).map(|s| s.len()), Ok(0));
    assert!(untouched.load_signals(&[]).scans.is_empty());
}

#[test]
fn unloading_makes_the_next_request_scan_again() {
    let vars = hierarchy().vars;
    let mut w = waveform(false);
    w.unload_signals(&[SignalRef(0)]);
    assert!(!w.body_loaded());
    let mut scans = Vec::new();
    fetch(&mut w, &vars[0], &mut scans).unwrap();
    let kept = fetch(&mut w, &vars[1], &mut scans).unwrap();
    w.unload_signals(&[vars[0].signal_ref]);
    fetch(&mut w, &vars[3], &mut scans).unwrap();
    let still = fetch(&mut w, &vars[1], &mut scans).unwrap();
    assert!(Arc::ptr_eq(&kept, &still));
    assert_eq!(scans, vec![1, 2, 1]);
    assert_eq!(w.time_range, Some((5, 500)));
}

#[test]
fn hierarchy_is_shared_as_given() {
    let w = waveform(false);
    assert_eq!(w.hierarchy.vars.len(), 6);
    assert_eq!(w.hierarchy.var_by_path("top.level").map(|v| v.is_real()), Some(true));
    assert_eq!(w.hierarchy.var_by_path("top.state").map(|v| v.is_string()), Some(true));
}

fn signal_at(time: u64) -> Arc<Signal> {
    let mut signal = Signal::new();
    signal.add_change(time, SignalValue::Binary(vec![1]));
    Arc::new(signal)
}

#[test]
fn assembling_follows_the_variables_not_the_loads() {
    let vars = hierarchy().vars;
    let batch = vec![vars[0].clone(), vars[1].clone(), vars[2].clone()];
    let a = (vars[0].signal_ref, signal_at(1));
    let b = (vars[1].signal_ref, signal_at(2));
    let c = (vars[2].signal_ref, signal_at(3));
    let orders: Vec<Vec<usize>> =
        vec![vec![0, 1, 2], vec![0, 2, 1], vec![1, 0, 2], vec![1, 2, 0], vec![2, 0, 1], vec![2, 1, 0]];
    let entries = [a, b, c];
    for order in orders {
        let loaded: Vec<(SignalRef, Arc<Signal>)> =
            order.iter().map(|i| (entries[*i].0, entries[*i].1.clone())).collect();
        let signals = assemble(&batch, &loaded).unwrap();
        assert_eq!(signals.len(), 3);
        for i in 0..3 {
            assert!(Arc::ptr_eq(&signals[i], &entries[i].1));
        }
    }
}

#[test]
fn assembling_takes_the_first_entry_of_an_identity() {
    let vars = hierarchy().vars;
    let first = signal_at(1);
    let second = signal_at(2);
    let loaded = vec![(SignalRef(9), signal_at(0)), (vars[0].signal_ref, first.clone()), (vars[0].signal_ref, second)];
    let signals = assemble(&[vars[0].clone(), vars[3].clone(), vars[0].clone()], &loaded).unwrap();
    assert_eq!(signals.len(), 3);
    for signal in &signals {
        assert!(Arc::ptr_eq(signal, &first));
    }
}

#[test]
fn assembling_names_the_first_variable_without_an_entry() {
    let vars = hierarchy().vars;
    let loaded = vec![(vars[1].signal_ref, signal_at(2))];
    let batch = [vars[1].clone(), vars[4].clone(), vars[0].clone()];
    assert_eq!(assemble(&batch, &loaded), Err("Failed to load signal for level".to_string()));
    assert_eq!(assemble(&batch, &vec![]), Err("Failed to load signal for b".to_string()));
    assert_eq!(assemble(&[], &vec![]).map(|s| s.len()), Ok(0));
    assert_eq!(assemble(&[], &loaded).map(|s| s.len()), Ok(0));
}
