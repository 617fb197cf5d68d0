use libfst_rust::signal::QueryResult;
use libfst_rust::signal::Signal;
use libfst_rust::signal::SignalValue;
use libfst_rust::signal::TimeTable;

fn value(text: &str) -> SignalValue {
    SignalValue::from_fst_string(text, false, false, None)
}

fn signal_of(changes: &[(u64, &str)]) -> Signal {
    let mut signal = Signal::new();
    for (time, text) in changes {
        signal.add_change(*time, value(text));
    }
    signal
}

fn text_at(signal: &Signal, time: u64) -> Option<String> {
    signal.value_at_time(time).map(|v| v.to_string_repr().unwrap())
}

#[test]
fn value_at_time_is_that_of_the_latest_change() {
    let signal = signal_of(&[(0, "0"), (10, "1"), (20, "x")]);
    assert_eq!(text_at(&signal, 5), Some("0".to_string()));
    assert_eq!(text_at(&signal, 10), Some("1".to_string()));
    assert_eq!(text_at(&signal, 19), Some("1".to_string()));
    assert_eq!(text_at(&signal, 25), Some("x".to_string()));
    assert_eq!(text_at(&signal, 0), Some("0".to_string()));
    assert_eq!(text_at(&signal, 20), Some("x".to_string()));
    assert_eq!(text_at(&signal, u64::MAX), Some("x".to_string()));
}

#[test]
fn value_at_time_before_any_change_is_none() {
    let signal = signal_of(&[(5, "0"), (10, "1")]);
    assert_eq!(signal.value_at_time(4), None);
    assert_eq!(signal.value_at_time(0), None);
    assert_eq!(signal.value_at_time(5), Some(&value("0")));
    assert_eq!(Signal::new().value_at_time(0), None);
    assert_eq!(Signal::new().value_at_time(u64::MAX), None);
}

#[test]
fn value_at_time_agrees_with_a_linear_scan() {
    let times: Vec<u64> = vec![1, 2, 3, 5, 8, 13, 21, 34, 55, 89, 144];
    let mut signal = Signal::with_capacity(times.len());
    for (i, t) in times.iter().enumerate() {
        signal.add_change(*t, SignalValue::String(format!("v{}", i)));
    }
    for query in 0..150u64 {
        let expected = times.iter().rposition(|t| *t <= query).map(|i| format!("v{}", i));
        assert_eq!(text_at(&signal, query), expected, "at {}", query);
    }
}

#[test]
fn value_at_time_on_a_store_out_of_order_stays_within_it() {
    let signal = signal_of(&[(9, "0"), (3, "1"), (7, "x"), (1, "z")]);
    for query in 0..12u64 {
        if let Some(v) = signal.value_at_time(query) {
            assert!(signal.changes.iter().any(|c| &c.value == v));
        }
        let q = signal.query_signal(query);
        if let Some(n) = q.next_idx {
            assert!(n < 4);
            assert_eq!(q.next_time, Some(signal.changes[n].time));
        } else {
            assert_eq!(q.next_time, None);
        }
        assert!(signal.all_changes_after(query).len() <= 4);
    }
}

#[test]
fn value_at_idx_is_positional() {
    let signal = signal_of(&[(0, "0"), (10, "1"), (20, "x")]);
    assert_eq!(signal.value_at_idx(0), Some(&value("0")));
    assert_eq!(signal.value_at_idx(2), Some(&value("x")));
    assert_eq!(signal.value_at_idx(3), None);
    assert_eq!(signal.value_at_idx(usize::MAX), None);
    assert_eq!(Signal::new().value_at_idx(0), None);
}

#[test]
fn add_change_appends() {
    let mut signal = Signal::new();
    assert_eq!(signal.changes.len(), 0);
    signal.add_change(7, value("1"));
    signal.add_change(9, value("z"));
    assert_eq!(signal.changes.len(), 2);
    assert_eq!(signal.changes[0].time, 7);
    assert_eq!(signal.changes[0].value, SignalValue::Binary(vec![1]));
    assert_eq!(signal.changes[1].time, 9);
    assert_eq!(signal.changes[1].value, SignalValue::FourValue("z".to_string()));
}

#[test]
fn all_changes_lists_every_change_in_order_and_again() {
    let signal = signal_of(&[(0, "a"), (5, "b"), (9, "c")]);
    let a = value("a");
    let b = value("b");
    let c = value("c");
    assert_eq!(signal.all_changes(), vec![(0, &a), (5, &b), (9, &c)]);
    assert_eq!(signal.all_changes(), vec![(0, &a), (5, &b), (9, &c)]);
    assert_eq!(Signal::new().all_changes(), vec![]);
}

#[test]
fn all_changes_after_starts_at_the_given_time() {
    let signal = signal_of(&[(0, "a"), (5, "b"), (9, "c")]);
    let a = value("a");
    let b = value("b");
    let c = value("c");
    assert_eq!(signal.all_changes_after(0), vec![(0, &a), (5, &b), (9, &c)]);
    assert_eq!(signal.all_changes_after(1), vec![(5, &b), (9, &c)]);
    assert_eq!(signal.all_changes_after(5), vec![(5, &b), (9, &c)]);
    assert_eq!(signal.all_changes_after(6), vec![(9, &c)]);
    assert_eq!(signal.all_changes_after(9), vec![(9, &c)]);
    assert_eq!(signal.all_changes_after(10), vec![]);
    assert_eq!(Signal::new().all_changes_after(0), vec![]);
}

#[test]
fn query_signal_exact_match() {
    let signal = signal_of(&[(0, "a"), (5, "b"), (9, "c")]);
    let at5 = signal.query_signal(5);
    assert_eq!(at5.value, Some(value("b")));
    assert_eq!(at5.actual_time, Some(5));
    assert_eq!(at5.next_idx, Some(2));
    assert_eq!(at5.next_time, Some(9));
    let at9 = signal.query_signal(9);
    assert_eq!(at9.value, Some(value("c")));
    assert_eq!(at9.actual_time, Some(9));
    assert_eq!(at9.next_idx, None);
    assert_eq!(at9.next_time, None);
}

#[test]
fn query_signal_between_changes() {
    let signal = signal_of(&[(0, "a"), (5, "b"), (9, "c")]);
    let q = signal.query_signal(3);
    assert_eq!(
        q,
        QueryResult { value: Some(value("a")), actual_time: Some(0), next_idx: Some(1), next_time: Some(5) }
    );
    let q = signal.query_signal(8);
    assert_eq!(
        q,
        QueryResult { value: Some(value("b")), actual_time: Some(5), next_idx: Some(2), next_time: Some(9) }
    );
    let q = signal.query_signal(100);
    assert_eq!(q, QueryResult { value: Some(value("c")), actual_time: Some(9), next_idx: None, next_time: None });
}

#[test]
fn query_signal_before_the_first_change_reports_it_as_next() {
    let signal = signal_of(&[(2, "a"), (5, "b")]);
    let q = signal.query_signal(1);
    assert_eq!(q, QueryResult { value: None, actual_time: None, next_idx: Some(0), next_time: Some(2) });
}

#[test]
fn query_signal_on_an_empty_store() {
    let q = Signal::new().query_signal(4);
    assert_eq!(q, QueryResult { value: None, actual_time: None, next_idx: None, next_time: None });
}

#[test]
fn query_result_clone_is_equal() {
    let signal = signal_of(&[(0, "a"), (5, "b")]);
    let q = signal.query_signal(0);
    assert_eq!(q.clone(), q);
}

#[test]
fn signal_clone_is_equal() {
    let signal = signal_of(&[(0, "a"), (5, "101"), (9, "c")]);
    assert_eq!(signal.clone(), signal);
}

#[test]
fn time_table_is_addressed_by_position() {
    let empty = TimeTable::new();
    assert_eq!(empty.len(), 0);
    assert!(empty.is_empty());
    assert_eq!(empty.get(0), None);
    let table = TimeTable::from_times(vec![0, 5, 9]);
    assert_eq!(table.len(), 3);
    assert!(!table.is_empty());
    assert_eq!(table.get(0), Some(0));
    assert_eq!(table.get(1), Some(5));
    assert_eq!(table.get(2), Some(9));
    assert_eq!(table.get(3), None);
    assert_eq!(table.clone(), table);
}
