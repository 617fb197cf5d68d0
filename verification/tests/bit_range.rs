use libfst_rust::hierarchy::parse_bit_range;
use libfst_rust::hierarchy::Var;
use libfst_rust::hierarchy::VarDirection;
use libfst_rust::hierarchy::VarIndex;
use libfst_rust::hierarchy::VarType;
use libfst_rust::hierarchy::SignalRef;

fn parts(name: &str) -> (String, Option<(i32, i32)>) {
    let (base, index) = parse_bit_range(name);
    (base, index.map(|i| (i.msb, i.lsb)))
}

#[test]
fn range_with_msb_and_lsb() {
    assert_eq!(parts("data[7:0]"), ("data".to_string(), Some((7, 0))));
    assert_eq!(parts("bus[15:8]"), ("bus".to_string(), Some((15, 8))));
}

#[test]
fn single_index_stands_for_both_ends() {
    assert_eq!(parts("data[3]"), ("data".to_string(), Some((3, 3))));
    assert_eq!(parts("mem[0]"), ("mem".to_string(), Some((0, 0))));
}

#[test]
fn name_without_brackets_is_left_whole() {
    assert_eq!(parts("flag"), ("flag".to_string(), None));
    assert_eq!(parts(""), ("".to_string(), None));
    assert_eq!(parts("half[open"), ("half[open".to_string(), None));
    assert_eq!(parts("half]closed"), ("half]closed".to_string(), None));
}

#[test]
fn malformed_range_leaves_name_untouched() {
    assert_eq!(parts("weird[abc]"), ("weird[abc]".to_string(), None));
    assert_eq!(parts("a[1:]"), ("a[1:]".to_string(), None));
    assert_eq!(parts("a[:1]"), ("a[:1]".to_string(), None));
    assert_eq!(parts("a[]"), ("a[]".to_string(), None));
    assert_eq!(parts("a[1:2:3]"), ("a[1:2:3]".to_string(), None));
    assert_eq!(parts("a[ 1]"), ("a[ 1]".to_string(), None));
}

#[test]
fn closing_bracket_before_opening_one() {
    assert_eq!(parts("a]3["), ("a]3[".to_string(), None));
    assert_eq!(parts("a[1]b["), ("a[1]b[".to_string(), None));
}

#[test]
fn last_brackets_count() {
    assert_eq!(parts("a[1][2]"), ("a[1]".to_string(), Some((2, 2))));
    assert_eq!(parts("a[3]]"), ("a[3]]".to_string(), None));
    assert_eq!(parts("mem[4].q[7:0]"), ("mem[4].q".to_string(), Some((7, 0))));
}

#[test]
fn text_after_the_range_is_dropped_with_it() {
    assert_eq!(parts("a[3]tail"), ("a".to_string(), Some((3, 3))));
}

#[test]
fn signs_and_limits_of_indices() {
    assert_eq!(parts("a[-1:+2]"), ("a".to_string(), Some((-1, 2))));
    assert_eq!(parts("a[007]"), ("a".to_string(), Some((7, 7))));
    assert_eq!(parts("a[-0]"), ("a".to_string(), Some((0, 0))));
    assert_eq!(parts("a[2147483647]"), ("a".to_string(), Some((2147483647, 2147483647))));
    assert_eq!(parts("a[-2147483648:0]"), ("a".to_string(), Some((-2147483648, 0))));
    assert_eq!(parts("a[2147483648]"), ("a[2147483648]".to_string(), None));
    assert_eq!(parts("a[-2147483649]"), ("a[-2147483649]".to_string(), None));
    assert_eq!(parts("a[99999999999999999999999]"), ("a[99999999999999999999999]".to_string(), None));
    assert_eq!(parts("a[-]"), ("a[-]".to_string(), None));
    assert_eq!(parts("a[+]"), ("a[+]".to_string(), None));
    assert_eq!(parts("a[+-1]"), ("a[+-1]".to_string(), None));
}

#[test]
fn parser_agrees_with_the_standard_integer_parser() {
    let texts = [
        "0", "1", "-1", "+1", "12", "0012", "-0", "+", "-", "", "1a", "a1", " 1", "1 ", "--1",
        "2147483647", "2147483648", "-2147483648", "-2147483649", "4294967296", "١٢",
        "00000000000000000000000000042",
    ];
    for text in texts {
        let name = format!("v[{}]", text);
        let expected = text.parse::<i32>().ok().map(|i| (i, i));
        assert_eq!(parts(&name).1, expected, "index text {:?}", text);
    }
}

#[test]
fn names_with_characters_outside_ascii() {
    assert_eq!(parts("größe[3:1]"), ("größe".to_string(), Some((3, 1))));
    assert_eq!(parts("größe[é]"), ("größe[é]".to_string(), None));
}

#[test]
fn variable_keeps_clean_name_and_index() {
    let var = Var::new(
        "data[7:0]".to_string(),
        VarType::Wire,
        VarDirection::Input,
        Some(8),
        SignalRef(4),
        9,
        None,
    );
    assert_eq!(var.name, "data");
    assert_eq!(var.index, Some(VarIndex::new(7, 0)));
    assert_eq!(var.var_type, VarType::Wire);
    assert_eq!(var.direction, VarDirection::Input);
    assert_eq!(var.length, Some(8));
    assert_eq!(var.signal_ref, SignalRef(4));
    assert_eq!(var.fst_handle, 9);
    assert_eq!(var.scope, None);
    assert_eq!(var.bitwidth(), Some(8));
}
