//! The typed value of one signal sample, the time-ordered store of a signal's
//! value changes, and point queries over it.

use vstd::prelude::*;
use vstd::string::StringExecFns;
use vstd::arithmetic::power2::pow2;
use vstd::arithmetic::power2::lemma2_to64;
use vstd::arithmetic::power2::lemma2_to64_rest;
use vstd::arithmetic::power2::lemma_pow2_unfold;
use crate::text::chars_of;

verus! {

/// One sample of a signal.
///
/// `Binary` holds one byte per bit, most significant first. `Real` holds the
/// IEEE-754 binary64 bit pattern of the number.
#[derive(Debug, PartialEq, Eq)]
pub enum SignalValue {
    Binary(Vec<u8>),
    FourValue(String),
    Real(u64),
    String(String),
}

/// What a [`SignalValue`] holds, as mathematical sequences.
pub enum SignalValueView {
    Binary(Seq<u8>),
    FourValue(Seq<char>),
    Real(u64),
    String(Seq<char>),
}

impl View for SignalValue {
    type V = SignalValueView;

    open spec fn view(&self) -> SignalValueView {
        match *self {
            SignalValue::Binary(bits) => SignalValueView::Binary(bits@),
            SignalValue::FourValue(s) => SignalValueView::FourValue(s@),
            SignalValue::Real(r) => SignalValueView::Real(r),
            SignalValue::String(s) => SignalValueView::String(s@),
        }
    }
}

/// A value as a host language takes it: a number, a text, or a real number
/// by its IEEE-754 binary64 bit pattern.
#[derive(Debug, PartialEq, Eq)]
pub enum Scalar {
    Int(u64),
    Text(String),
    Real(u64),
}

/// What a [`Scalar`] holds, with its text as a sequence of characters.
pub enum ScalarView {
    Int(u64),
    Text(Seq<char>),
    Real(u64),
}

impl View for Scalar {
    type V = ScalarView;

    open spec fn view(&self) -> ScalarView {
        match *self {
            Scalar::Int(n) => ScalarView::Int(n),
            Scalar::Text(s) => ScalarView::Text(s@),
            Scalar::Real(r) => ScalarView::Real(r),
        }
    }
}

/// Whether every character of `s` is `'0'` or `'1'`.
pub open spec fn is_binary_text(s: Seq<char>) -> bool {
    forall|i: int| 0 <= i < s.len() ==> (#[trigger] s[i] == '0' || s[i] == '1')
}

/// One bit per character: 1 for `'1'`, 0 for anything else.
pub open spec fn bits_of_text(s: Seq<char>) -> Seq<u8> {
    Seq::new(s.len(), |i: int| if s[i] == '1' { 1u8 } else { 0u8 })
}

/// The text of a bit vector: `'1'` for a byte equal to 1, `'0'` for any other.
pub open spec fn text_of_bits(bits: Seq<u8>) -> Seq<char> {
    Seq::new(bits.len(), |i: int| if bits[i] == 1 { '1' } else { '0' })
}

/// The value that the sample text `s` stands for. `number` is the outcome of
/// reading `s` as a real number; it counts only for a variable declared real.
/// The rule is applied sample by sample: a real variable whose text is no
/// number, or a logic variable whose sample holds `x` or `z`, falls through
/// to the later cases for that sample alone.
pub open spec fn classify(s: Seq<char>, is_real: bool, is_string: bool, number: Option<u64>)
    -> SignalValueView {
    if is_real && number is Some {
        SignalValueView::Real(number->0)
    } else if is_string {
        SignalValueView::String(s)
    } else if is_binary_text(s) {
        SignalValueView::Binary(bits_of_text(s))
    } else {
        SignalValueView::FourValue(s)
    }
}

/// The text of a value: the bits as `'0'` and `'1'` characters for a bit
/// vector, the text itself for four-value and string samples. A real number
/// has no text here.
pub open spec fn text_of(value: SignalValueView) -> Option<Seq<char>> {
    match value {
        SignalValueView::Binary(bits) => Some(text_of_bits(bits)),
        SignalValueView::FourValue(t) => Some(t),
        SignalValueView::Real(_) => None,
        SignalValueView::String(t) => Some(t),
    }
}

/// Classifying a sample loses nothing of its text: unless the value is a
/// real number, its text is the text of the sample.
pub proof fn lemma_classified_text(s: Seq<char>, is_real: bool, is_string: bool, number: Option<u64>)
    ensures
        classify(s, is_real, is_string, number) is Real <==> is_real && number is Some,
        !(classify(s, is_real, is_string, number) is Real) ==> text_of(
            classify(s, is_real, is_string, number),
        ) == Some(s),
{
    if !(is_real && number is Some) && !is_string && is_binary_text(s) {
        assert(text_of_bits(bits_of_text(s)) =~= s);
    }
}

/// The unsigned number that `bits` writes in base two, first bit most
/// significant. A byte counts as a one exactly when it equals 1.
pub open spec fn bits_value(bits: Seq<u8>) -> nat
    decreases bits.len(),
{
    if bits.len() == 0 {
        0
    } else {
        2 * bits_value(bits.drop_last()) + if bits.last() == 1 { 1nat } else { 0nat }
    }
}

/// A bit vector of `n` bits writes a number below two to the `n`.
pub proof fn lemma_bits_value_bound(bits: Seq<u8>)
    ensures
        bits_value(bits) < pow2(bits.len()),
    decreases bits.len(),
{
    if bits.len() == 0 {
        lemma2_to64();
    } else {
        lemma_bits_value_bound(bits.drop_last());
        lemma_pow2_unfold(bits.len());
    }
}

impl Clone for SignalValue {
    fn clone(&self) -> (r: Self)
        ensures
            r@ == self@,
    {
        match self {
            SignalValue::Binary(bits) => {
                let copy = bits.clone();
                assert(copy@ =~= bits@);
                SignalValue::Binary(copy)
            },
            SignalValue::FourValue(s) => SignalValue::FourValue(s.clone()),
            SignalValue::Real(r) => SignalValue::Real(*r),
            SignalValue::String(s) => SignalValue::String(s.clone()),
        }
    }
}

impl SignalValue {
    /// Classifies the sample text `s` of a variable declared real
    /// (`is_real`) or string (`is_string`). `number` is what reading `s` as a
    /// real number gave: the bit pattern of the number, or `None` when `s` is
    /// no number or was not read.
    pub fn from_fst_string(s: &str, is_real: bool, is_string: bool, number: Option<u64>) -> (r: Self)
        ensures
            r@ == classify(s@, is_real, is_string, number),
    {
        if is_real {
            if let Some(bits) = number {
                return SignalValue::Real(bits);
            }
        }
        if is_string {
            return SignalValue::String(s.to_owned());
        }
        let chars = chars_of(s);
        let mut bits: Vec<u8> = Vec::new();
        let mut i: usize = 0;
        while i < chars.len()
            invariant
                i <= chars.len(),
                chars@ == s@,
                !is_string,
                !(is_real && number is Some),
                is_binary_text(s@.take(i as int)),
                bits@ == bits_of_text(s@.take(i as int)),
            decreases chars.len() - i,
        {
            let c: char = chars[i];
            if c != '0' && c != '1' {
                assert(!is_binary_text(s@)) by {
                    assert(s@[i as int] == c);
                }
                return SignalValue::FourValue(s.to_owned());
            }
            bits.push(if c == '1' { 1u8 } else { 0u8 });
            i += 1;
            assert(is_binary_text(s@.take(i as int))) by {
                assert forall|k: int| 0 <= k < i implies (#[trigger] s@.take(i as int)[k] == '0'
                    || s@.take(i as int)[k] == '1') by {
                    if k < i - 1 {
                        assert(s@.take(i - 1)[k] == s@[k]);
                    }
                }
            }
            assert(bits@ =~= bits_of_text(s@.take(i as int)));
        }
        assert(s@.take(i as int) =~= s@);
        SignalValue::Binary(bits)
    }

    /// The number a bit vector of at most 64 bits writes, first bit most
    /// significant. A longer vector, and any other kind of value, has none.
    pub fn to_int(&self) -> (r: Option<u64>)
        ensures
            r == match self@ {
                SignalValueView::Binary(bits) => if bits.len() <= 64 {
                    Some(bits_value(bits) as u64)
                } else {
                    None
                },
                _ => None,
            },
            r matches Some(v) ==> self@ matches SignalValueView::Binary(bits) && v == bits_value(bits),
    {
        match self {
            SignalValue::Binary(bits) => {
                if bits.len() > 64 {
                    return None;
                }
                let mut val: u64 = 0;
                let mut i: usize = 0;
                while i < bits.len()
                    invariant
                        i <= bits.len() <= 64,
                        val == bits_value(bits@.take(i as int)),
                    decreases bits.len() - i,
                {
                    let ghost next = bits@.take(i + 1);
                    proof {
                        assert(next.drop_last() =~= bits@.take(i as int));
                        lemma_bits_value_bound(next);
                        lemma_pow2_le_64(next.len());
                    }
                    let bit: u64 = if bits[i] == 1 { 1 } else { 0 };
                    val = val * 2 + bit;
                    i += 1;
                }
                assert(bits@.take(i as int) =~= bits@);
                Some(val)
            },
            _ => None,
        }
    }

    /// The value as a host language takes it: a bit vector of at most 64 bits
    /// as the number it writes and a longer one as its text, four-value and
    /// string samples as their text, a real number as it is.
    pub fn to_scalar(&self) -> (r: Scalar)
        ensures
            r@ == match self@ {
                SignalValueView::Binary(bits) => if bits.len() <= 64 {
                    ScalarView::Int(bits_value(bits) as u64)
                } else {
                    ScalarView::Text(text_of_bits(bits))
                },
                SignalValueView::FourValue(t) => ScalarView::Text(t),
                SignalValueView::Real(number) => ScalarView::Real(number),
                SignalValueView::String(t) => ScalarView::Text(t),
            },
    {
        match self {
            SignalValue::Real(number) => Scalar::Real(*number),
            _ => match self.to_int() {
                Some(n) => Scalar::Int(n),
                None => match self.to_string_repr() {
                    Some(text) => Scalar::Text(text),
                    None => Scalar::Text(String::new()),
                },
            },
        }
    }

    /// The text of the value: the bits as `'0'` and `'1'` characters for a
    /// bit vector, the text itself for four-value and string samples. A real
    /// number has no text here: its decimal form is the number formatter's to
    /// give.
    pub fn to_string_repr(&self) -> (r: Option<String>)
        ensures
            match r {
                Some(s) => text_of(self@) == Some(s@),
                None => text_of(self@) is None,
            },
    {
        match self {
            SignalValue::Binary(bits) => {
                let mut s = String::new();
                let mut i: usize = 0;
                while i < bits.len()
                    invariant
                        i <= bits.len(),
                        s@ == text_of_bits(bits@.take(i as int)),
                    decreases bits.len() - i,
                {
                    proof {
                        reveal_strlit("1");
                        reveal_strlit("0");
                    }
                    if bits[i] == 1 {
                        s.append("1");
                    } else {
                        s.append("0");
                    }
                    i += 1;
                    assert(s@ =~= text_of_bits(bits@.take(i as int)));
                }
                assert(bits@.take(i as int) =~= bits@);
                Some(s)
            },
            SignalValue::FourValue(s) => Some(s.clone()),
            SignalValue::Real(_) => None,
            SignalValue::String(s) => Some(s.clone()),
        }
    }
}

/// One value change: the time at which the signal took a value, and the value.
#[derive(Debug, PartialEq, Eq)]
pub struct SignalChange {
    pub time: u64,
    pub value: SignalValue,
}

impl View for SignalChange {
    type V = (u64, SignalValueView);

    open spec fn view(&self) -> (u64, SignalValueView) {
        (self.time, self.value@)
    }
}

impl Clone for SignalChange {
    fn clone(&self) -> (r: Self)
        ensures
            r@ == self@,
    {
        SignalChange { time: self.time, value: self.value.clone() }
    }
}

/// All value changes of one signal, in the order in which they were recorded.
#[derive(Debug, PartialEq, Eq)]
pub struct Signal {
    pub changes: Vec<SignalChange>,
}

impl View for Signal {
    type V = Seq<(u64, SignalValueView)>;

    open spec fn view(&self) -> Seq<(u64, SignalValueView)> {
        self.changes@.map_values(|c: SignalChange| c@)
    }
}

/// Whether the times of `s` never decrease from one change to the next. A
/// well-formed trace records strictly increasing times, which is a special
/// case.
pub open spec fn ordered(s: Seq<(u64, SignalValueView)>) -> bool {
    forall|i: int, j: int| 0 <= i <= j < s.len() ==> (#[trigger] s[i]).0 <= (#[trigger] s[j]).0
}

/// Whether the times of `s` strictly increase from one change to the next.
pub open spec fn strictly_ordered(s: Seq<(u64, SignalValueView)>) -> bool {
    forall|i: int, j: int| 0 <= i < j < s.len() ==> (#[trigger] s[i]).0 < (#[trigger] s[j]).0
}

/// Whether a change at `time` lies at or before `t` (`inclusive`), or strictly
/// before it.
pub open spec fn precedes(time: u64, t: u64, inclusive: bool) -> bool {
    time < t || (inclusive && time == t)
}

/// How many changes of `s` lie at or before `t` (`inclusive`), or strictly
/// before it.
pub open spec fn count_preceding(s: Seq<(u64, SignalValueView)>, t: u64, inclusive: bool) -> nat
    decreases s.len(),
{
    if s.len() == 0 {
        0
    } else {
        count_preceding(s.drop_last(), t, inclusive) + if precedes(s.last().0, t, inclusive) {
            1nat
        } else {
            0nat
        }
    }
}

/// How many changes of `s` have a time at or before `t`. In an ordered store
/// these are the first ones, so the latest change at or before `t` is the one
/// just below this index.
pub open spec fn changes_up_to(s: Seq<(u64, SignalValueView)>, t: u64) -> nat {
    count_preceding(s, t, true)
}

/// How many changes of `s` have a time strictly before `t`.
pub open spec fn changes_before(s: Seq<(u64, SignalValueView)>, t: u64) -> nat {
    count_preceding(s, t, false)
}

/// The value in force at time `t`: that of the latest change at or before
/// `t`, if there is one.
pub open spec fn value_in_force(s: Seq<(u64, SignalValueView)>, t: u64) -> Option<SignalValueView> {
    let k = changes_up_to(s, t);
    if k == 0 {
        None
    } else {
        Some(s[k - 1].1)
    }
}

/// No more changes precede `t` than there are changes.
pub proof fn lemma_count_preceding_bound(s: Seq<(u64, SignalValueView)>, t: u64, inclusive: bool)
    ensures
        count_preceding(s, t, inclusive) <= s.len(),
    decreases s.len(),
{
    if s.len() > 0 {
        lemma_count_preceding_bound(s.drop_last(), t, inclusive);
    }
}

/// In an ordered store, an index that parts the changes preceding `t` from
/// the others is the number of changes preceding `t`.
pub proof fn lemma_count_preceding_boundary(
    s: Seq<(u64, SignalValueView)>,
    t: u64,
    inclusive: bool,
    p: int,
)
    requires
        0 <= p <= s.len(),
        forall|i: int| 0 <= i < p ==> precedes((#[trigger] s[i]).0, t, inclusive),
        forall|i: int| p <= i < s.len() ==> !precedes((#[trigger] s[i]).0, t, inclusive),
    ensures
        count_preceding(s, t, inclusive) == p,
    decreases s.len(),
{
    if s.len() > 0 {
        let rest = s.drop_last();
        let q = if p == s.len() { p - 1 } else { p };
        assert forall|i: int| 0 <= i < q implies precedes((#[trigger] rest[i]).0, t, inclusive) by {
            assert(rest[i] == s[i]);
        }
        assert forall|i: int| q <= i < rest.len() implies !precedes(
            (#[trigger] rest[i]).0,
            t,
            inclusive,
        ) by {
            assert(rest[i] == s[i]);
        }
        lemma_count_preceding_boundary(rest, t, inclusive, q);
        if p == s.len() {
            assert(precedes(s[p - 1].0, t, inclusive));
        } else {
            assert(!precedes(s[s.len() - 1].0, t, inclusive));
        }
    }
}

/// In an ordered store the changes preceding `t` are exactly those below the
/// index `count_preceding` gives.
pub proof fn lemma_count_preceding_parts(s: Seq<(u64, SignalValueView)>, t: u64, inclusive: bool)
    requires
        ordered(s),
    ensures
        count_preceding(s, t, inclusive) <= s.len(),
        forall|i: int|
            0 <= i < count_preceding(s, t, inclusive) ==> precedes(
                (#[trigger] s[i]).0,
                t,
                inclusive,
            ),
        forall|i: int|
            count_preceding(s, t, inclusive) <= i < s.len() ==> !precedes(
                (#[trigger] s[i]).0,
                t,
                inclusive,
            ),
    decreases s.len(),
{
    if s.len() > 0 {
        let rest = s.drop_last();
        assert(ordered(rest)) by {
            assert forall|i: int, j: int| 0 <= i <= j < rest.len() implies (#[trigger] rest[i]).0 <= (
            #[trigger] rest[j]).0 by {
                assert(rest[i] == s[i] && rest[j] == s[j]);
            }
        }
        lemma_count_preceding_parts(rest, t, inclusive);
        let k = count_preceding(rest, t, inclusive);
        assert forall|i: int| 0 <= i < count_preceding(s, t, inclusive) implies precedes(
            (#[trigger] s[i]).0,
            t,
            inclusive,
        ) by {
            if i < k {
                assert(rest[i] == s[i]);
            }
        }
        assert forall|i: int| count_preceding(s, t, inclusive) <= i < s.len() implies !precedes(
            (#[trigger] s[i]).0,
            t,
            inclusive,
        ) by {
            if i < rest.len() {
                assert(rest[i] == s[i]);
            }
            if precedes(s.last().0, t, inclusive) {
                if k < rest.len() {
                    assert(!precedes(rest[k as int].0, t, inclusive));
                    assert(rest[k as int] == s[k as int]);
                    assert(s[k as int].0 <= s[s.len() - 1].0);
                }
            }
        }
    }
}

/// In an ordered store the value in force at `t` is that of the latest
/// change at or before `t`: it belongs to a change that is not after `t` and
/// that every later change is after. There is none exactly when the store is
/// empty or its first change is after `t`.
pub proof fn lemma_value_in_force(s: Seq<(u64, SignalValueView)>, t: u64)
    requires
        ordered(s),
    ensures
        value_in_force(s, t) is None <==> s.len() == 0 || s[0].0 > t,
        value_in_force(s, t) matches Some(v) ==> exists|i: int|
            {
                &&& 0 <= i < s.len()
                &&& v == (#[trigger] s[i]).1
                &&& s[i].0 <= t
                &&& forall|j: int| i < j < s.len() ==> (#[trigger] s[j]).0 > t
            },
{
    lemma_count_preceding_parts(s, t, true);
    let k = changes_up_to(s, t);
    if k > 0 {
        assert(precedes(s[k - 1].0, t, true));
        assert(s[0].0 <= s[k - 1].0);
        assert forall|j: int| k - 1 < j < s.len() implies (#[trigger] s[j]).0 > t by {
            assert(!precedes(s[j].0, t, true));
        }
    } else if s.len() > 0 {
        assert(!precedes(s[0].0, t, true));
    }
}

/// A change that is not after `t` and that every later change is after is
/// the one whose value is in force at `t`.
pub proof fn lemma_latest_change_is_in_force(s: Seq<(u64, SignalValueView)>, t: u64, i: int)
    requires
        ordered(s),
        0 <= i < s.len(),
        s[i].0 <= t,
        i + 1 < s.len() ==> s[i + 1].0 > t,
    ensures
        changes_up_to(s, t) == i + 1,
        value_in_force(s, t) == Some(s[i].1),
{
    assert forall|j: int| 0 <= j < i + 1 implies precedes((#[trigger] s[j]).0, t, true) by {
        assert(s[j].0 <= s[i].0);
    }
    assert forall|j: int| i + 1 <= j < s.len() implies !precedes((#[trigger] s[j]).0, t, true) by {
        assert(s[i + 1].0 <= s[j].0);
    }
    lemma_count_preceding_boundary(s, t, true, i + 1);
}

/// A change appended at or after the time of the last one keeps the store
/// ordered.
pub proof fn lemma_append_keeps_order(s: Seq<(u64, SignalValueView)>, change: (u64, SignalValueView))
    requires
        ordered(s),
        s.len() > 0 ==> s.last().0 <= change.0,
    ensures
        ordered(s.push(change)),
{
    let t = s.push(change);
    assert forall|i: int, j: int| 0 <= i <= j < t.len() implies (#[trigger] t[i]).0 <= (
    #[trigger] t[j]).0 by {
        if j < s.len() {
            assert(t[i] == s[i] && t[j] == s[j]);
        } else if i < s.len() {
            assert(t[i] == s[i]);
            assert(s[i].0 <= s[s.len() - 1].0);
        }
    }
}

/// Strictly increasing times are ordered times.
pub proof fn lemma_strictly_ordered_is_ordered(s: Seq<(u64, SignalValueView)>)
    requires
        strictly_ordered(s),
    ensures
        ordered(s),
{
    assert forall|i: int, j: int| 0 <= i <= j < s.len() implies (#[trigger] s[i]).0 <= (
    #[trigger] s[j]).0 by {
        if i < j {
            assert(s[i].0 < s[j].0);
        }
    }
}

impl Clone for Signal {
    fn clone(&self) -> (r: Self)
        ensures
            r@ == self@,
    {
        let mut changes: Vec<SignalChange> = Vec::new();
        let mut i: usize = 0;
        while i < self.changes.len()
            invariant
                i <= self.changes.len(),
                changes.len() == i,
                forall|k: int| 0 <= k < i ==> (#[trigger] changes@[k])@ == self.changes@[k]@,
            decreases self.changes.len() - i,
        {
            changes.push(self.changes[i].clone());
            i += 1;
        }
        let r = Signal { changes };
        assert(r@ =~= self@);
        r
    }
}

/// What a query at time `t` reports of an ordered store: the value in force
/// with the time of the change that set it, and the position and time of the
/// first change after `t`.
pub open spec fn query_at(s: Seq<(u64, SignalValueView)>, t: u64) -> QueryResultView {
    let k = changes_up_to(s, t) as int;
    QueryResultView {
        value: value_in_force(s, t),
        actual_time: if k == 0 {
            None
        } else {
            Some(s[k - 1].0)
        },
        next_idx: if k < s.len() {
            Some(k as usize)
        } else {
            None
        },
        next_time: if k < s.len() {
            Some(s[k].0)
        } else {
            None
        },
    }
}

/// What [`Signal::query_signal`] reports about one point in time.
#[derive(Debug, PartialEq, Eq)]
pub struct QueryResult {
    /// The value in force at the queried time.
    pub value: Option<SignalValue>,
    /// The time of the change that set that value.
    pub actual_time: Option<u64>,
    /// The index of the first change after it.
    pub next_idx: Option<usize>,
    /// The time of the first change after it.
    pub next_time: Option<u64>,
}

/// A [`QueryResult`] with its value as mathematical sequences.
pub struct QueryResultView {
    pub value: Option<SignalValueView>,
    pub actual_time: Option<u64>,
    pub next_idx: Option<usize>,
    pub next_time: Option<u64>,
}

impl View for QueryResult {
    type V = QueryResultView;

    open spec fn view(&self) -> QueryResultView {
        QueryResultView {
            value: match self.value {
                Some(v) => Some(v@),
                None => None,
            },
            actual_time: self.actual_time,
            next_idx: self.next_idx,
            next_time: self.next_time,
        }
    }
}

impl Clone for QueryResult {
    fn clone(&self) -> (r: Self)
        ensures
            r@ == self@,
    {
        QueryResult {
            value: match &self.value {
                Some(v) => Some(v.clone()),
                None => None,
            },
            actual_time: self.actual_time,
            next_idx: self.next_idx,
            next_time: self.next_time,
        }
    }
}

impl Signal {
    /// A signal without changes.
    pub fn new() -> (r: Self)
        ensures
            r.changes@.len() == 0,
            r@ == Seq::<(u64, SignalValueView)>::empty(),
    {
        let r = Signal { changes: Vec::new() };
        assert(r@ =~= Seq::<(u64, SignalValueView)>::empty());
        r
    }

    /// A signal without changes, with room for `capacity` of them.
    pub fn with_capacity(capacity: usize) -> (r: Self)
        ensures
            r.changes@.len() == 0,
            r@ == Seq::<(u64, SignalValueView)>::empty(),
    {
        let r = Signal { changes: Vec::with_capacity(capacity) };
        assert(r@ =~= Seq::<(u64, SignalValueView)>::empty());
        r
    }

    /// Appends a change. The store does not look at `time`: keeping the times
    /// in order is the caller's business.
    pub fn add_change(&mut self, time: u64, value: SignalValue)
        ensures
            final(self).changes@ == old(self).changes@.push(SignalChange { time, value }),
            final(self)@ == old(self)@.push((time, value@)),
    {
        self.changes.push(SignalChange { time, value });
        assert(self@ =~= old(self)@.push((time, value@)));
    }

    /// The number of changes that precede `t`, found by bisection. On a store
    /// whose times are out of order the result is some index within bounds.
    fn bisect(&self, t: u64, inclusive: bool) -> (p: usize)
        ensures
            p <= self.changes@.len(),
            ordered(self@) ==> p == count_preceding(self@, t, inclusive),
    {
        let mut lo: usize = 0;
        let mut hi: usize = self.changes.len();
        while lo < hi
            invariant
                lo <= hi <= self.changes@.len(),
                ordered(self@) ==> forall|i: int|
                    0 <= i < lo ==> precedes((#[trigger] self@[i]).0, t, inclusive),
                ordered(self@) ==> forall|i: int|
                    hi <= i < self@.len() ==> !precedes((#[trigger] self@[i]).0, t, inclusive),
            decreases hi - lo,
        {
            let mid: usize = lo + (hi - lo) / 2;
            let time: u64 = self.changes[mid].time;
            assert(self@[mid as int].0 == time);
            if time < t || (inclusive && time == t) {
                lo = mid + 1;
            } else {
                hi = mid;
            }
        }
        proof {
            if ordered(self@) {
                lemma_count_preceding_boundary(self@, t, inclusive, lo as int);
            }
        }
        lo
    }

    /// The value of the latest change at or before `time`; `None` when `time`
    /// lies before the first change or the store is empty.
    pub fn value_at_time(&self, time: u64) -> (r: Option<&SignalValue>)
        ensures
            r matches Some(v) ==> exists|i: int|
                0 <= i < self.changes@.len() && *v == (#[trigger] self.changes@[i]).value,
            ordered(self@) ==> {
                let k = changes_up_to(self@, time);
                &&& k <= self.changes@.len()
                &&& r == if k == 0 {
                    None
                } else {
                    Some(&self.changes@[k - 1].value)
                }
            },
            ordered(self@) ==> match r {
                Some(v) => value_in_force(self@, time) == Some(v@),
                None => value_in_force(self@, time) is None,
            },
            ordered(self@) ==> (r is Some <==> self@.len() > 0 && self@[0].0 <= time),
    {
        let k = self.bisect(time, true);
        proof {
            if ordered(self@) {
                lemma_count_preceding_parts(self@, time, true);
            }
        }
        if k == 0 {
            None
        } else {
            Some(&self.changes[k - 1].value)
        }
    }

    /// The value of the change at position `idx`, if there is one.
    pub fn value_at_idx(&self, idx: usize) -> (r: Option<&SignalValue>)
        ensures
            r == if idx < self.changes@.len() {
                Some(&self.changes@[idx as int].value)
            } else {
                None
            },
    {
        if idx < self.changes.len() {
            Some(&self.changes[idx].value)
        } else {
            None
        }
    }

    /// Every change as a pair of time and value, in store order.
    pub fn all_changes(&self) -> (r: Vec<(u64, &SignalValue)>)
        ensures
            r@.len() == self.changes@.len(),
            forall|i: int|
                0 <= i < r@.len() ==> #[trigger] r@[i] == (
                    self.changes@[i].time,
                    &self.changes@[i].value,
                ),
    {
        self.changes_from(0)
    }

    /// The changes at or after `start_time`, in store order.
    pub fn all_changes_after(&self, start_time: u64) -> (r: Vec<(u64, &SignalValue)>)
        ensures
            r@.len() <= self.changes@.len(),
            forall|i: int|
                0 <= i < r@.len() ==> #[trigger] r@[i] == (
                    self.changes@[self.changes@.len() - r@.len() + i].time,
                    &self.changes@[self.changes@.len() - r@.len() + i].value,
                ),
            ordered(self@) ==> r@.len() == self@.len() - changes_before(self@, start_time),
    {
        let from = self.bisect(start_time, false);
        self.changes_from(from)
    }

    /// The changes from position `from` on.
    fn changes_from(&self, from: usize) -> (r: Vec<(u64, &SignalValue)>)
        requires
            from <= self.changes@.len(),
        ensures
            r@.len() == self.changes@.len() - from,
            forall|i: int|
                0 <= i < r@.len() ==> #[trigger] r@[i] == (
                    self.changes@[from + i].time,
                    &self.changes@[from + i].value,
                ),
    {
        let mut out: Vec<(u64, &SignalValue)> = Vec::new();
        let mut i: usize = from;
        while i < self.changes.len()
            invariant
                from <= i <= self.changes@.len(),
                out@.len() == i - from,
                forall|k: int|
                    0 <= k < out@.len() ==> #[trigger] out@[k] == (
                        self.changes@[from + k].time,
                        &self.changes@[from + k].value,
                    ),
            decreases self.changes@.len() - i,
        {
            out.push((self.changes[i].time, &self.changes[i].value));
            i += 1;
        }
        out
    }

    /// The value in force at `query_time` with the time of the change that
    /// set it, and the position and time of the first change after it.
    /// Before the first change there is no value, and the first change is the
    /// next one; after the last change there is no next one.
    pub fn query_signal(&self, query_time: u64) -> (r: QueryResult)
        ensures
            r.next_idx matches Some(n) ==> n < self.changes@.len() && r.next_time == Some(
                self@[n as int].0,
            ),
            r.next_idx is None ==> r.next_time is None,
            ordered(self@) ==> r@ == query_at(self@, query_time),
    {
        proof {
            lemma_count_preceding_bound(self@, query_time, true);
        }
        let k = self.bisect(query_time, true);
        let (value, actual_time) = if k == 0 {
            (None, None)
        } else {
            (Some(self.changes[k - 1].value.clone()), Some(self.changes[k - 1].time))
        };
        let (next_idx, next_time) = if k < self.changes.len() {
            (Some(k), Some(self.changes[k].time))
        } else {
            (None, None)
        };
        QueryResult { value, actual_time, next_idx, next_time }
    }
}

/// The distinct timestamps of a trace, addressed by position.
#[derive(Debug, PartialEq, Eq)]
pub struct TimeTable {
    times: Vec<u64>,
}

impl View for TimeTable {
    type V = Seq<u64>;

    closed spec fn view(&self) -> Seq<u64> {
        self.times@
    }
}

impl Clone for TimeTable {
    fn clone(&self) -> (r: Self)
        ensures
            r@ == self@,
    {
        let times = self.times.clone();
        assert(times@ =~= self.times@);
        TimeTable { times }
    }
}

impl TimeTable {
    /// A table without timestamps.
    pub fn new() -> (r: Self)
        ensures
            r@ == Seq::<u64>::empty(),
    {
        TimeTable { times: Vec::new() }
    }

    /// A table of the given timestamps, in the given order.
    pub fn from_times(times: Vec<u64>) -> (r: Self)
        ensures
            r@ == times@,
    {
        TimeTable { times }
    }

    /// The timestamp at position `idx`, if there is one.
    pub fn get(&self, idx: usize) -> (r: Option<u64>)
        ensures
            r == if idx < self@.len() {
                Some(self@[idx as int])
            } else {
                None
            },
    {
        if idx < self.times.len() {
            Some(self.times[idx])
        } else {
            None
        }
    }

    /// The number of timestamps.
    pub fn len(&self) -> (r: usize)
        ensures
            r == self@.len(),
    {
        self.times.len()
    }

    /// Whether the table holds no timestamp.
    pub fn is_empty(&self) -> (r: bool)
        ensures
            r == (self@.len() == 0),
    {
        self.times.len() == 0
    }
}

/// Two to a power of at most 64 is at most two to the 64.
proof fn lemma_pow2_le_64(n: nat)
    requires
        n <= 64,
    ensures
        pow2(n) <= 0x1_0000_0000_0000_0000,
    decreases 64 - n,
{
    if n == 64 {
        lemma2_to64_rest();
    } else {
        lemma_pow2_le_64(n + 1);
        lemma_pow2_unfold(n + 1);
    }
}

} // verus!
