use vstd::prelude::*;

use crate::aggregate::{agg_spec, aggregate, field11, nan_token, AggError, Stat, NANO};
use crate::cli::Mode;

verus! {

/// An emitted comparison value: the exact rational `num / den`, negated when
/// `negative` is set.  Under `Diff` the unit is nano-percent (`den` is the
/// nano scale); under `Ratio` the value is the dimensionless quotient of the
/// two means.
#[derive(Debug, Clone, Copy, PartialEq, Eq, Structural)]
pub struct Value {
    pub negative: bool,
    pub num: u64,
    pub den: u64,
}

/// The numerator of a value with its sign, as a mathematical integer.
pub open spec fn signed_num(v: Value) -> int {
    if v.negative {
        -(v.num as int)
    } else {
        v.num as int
    }
}

/// Combines the two window statistics under `mode`.  A window whose
/// comparison is undefined — either side empty, or a zero denominator under
/// `Ratio` — yields `None` and is dropped from the output.
pub open spec fn compare_spec(mode: Mode, t: Stat, c: Stat) -> Option<Value> {
    match (t, c) {
        (Stat::Mean(tm), Stat::Mean(cm)) => match mode {
            Mode::Diff => Some(
                if tm >= cm {
                    Value { negative: false, num: (tm - cm) as u64, den: NANO }
                } else {
                    Value { negative: true, num: (cm - tm) as u64, den: NANO }
                },
            ),
            Mode::Ratio => if cm == 0 {
                None
            } else {
                Some(Value { negative: false, num: tm, den: cm })
            },
        },
        _ => None,
    }
}

/// Combines a treatment mean and a control mean under the selected mode.
pub fn compare(mode: Mode, t: Stat, c: Stat) -> (r: Option<Value>)
    ensures
        r == compare_spec(mode, t, c),
{
    match (t, c) {
        (Stat::Mean(tm), Stat::Mean(cm)) => match mode {
            Mode::Diff => Some(
                if tm >= cm {
                    Value { negative: false, num: tm - cm, den: NANO }
                } else {
                    Value { negative: true, num: cm - tm, den: NANO }
                },
            ),
            Mode::Ratio => if cm == 0 {
                None
            } else {
                Some(Value { negative: false, num: tm, den: cm })
            },
        },
        _ => None,
    }
}

/// The decision for one window: the records of the two queries in, at most
/// one value out; the treatment side's error, then the control side's, wins.
pub open spec fn window_value_spec(mode: Mode, t_recs: Seq<Seq<u8>>, c_recs: Seq<Seq<u8>>) -> Result<
    Option<Value>,
    AggError,
> {
    match agg_spec(t_recs) {
        Err(e) => Err(e),
        Ok(t) => match agg_spec(c_recs) {
            Err(e) => Err(e),
            Ok(c) => Ok(compare_spec(mode, t, c)),
        },
    }
}

/// Aggregates the two record sets of one window and compares the means:
/// `Ok(Some(v))` emits `v`, `Ok(None)` drops the window silently, `Err`
/// aborts the run.
pub fn window_value(mode: Mode, t_records: &Vec<Vec<u8>>, c_records: &Vec<Vec<u8>>) -> (r: Result<
    Option<Value>,
    AggError,
>)
    ensures
        r == window_value_spec(mode, t_records.deep_view(), c_records.deep_view()),
{
    match aggregate(t_records) {
        Err(e) => Err(e),
        Ok(t) => match aggregate(c_records) {
            Err(e) => Err(e),
            Ok(c) => Ok(compare(mode, t, c)),
        },
    }
}

/// Every emitted value is a finite rational: whatever the mode, a `Some`
/// result carries a positive denominator, so no emitted value stands for an
/// infinity or an undefined quotient.
pub proof fn lemma_value_defined(mode: Mode, t: Stat, c: Stat)
    ensures
        compare_spec(mode, t, c) matches Some(v) ==> v.den > 0,
{
}

/// Ratio skip: under `Ratio` a value is emitted exactly when both windows
/// have a mean and the control mean is nonzero, and it is then the exact
/// quotient of the two means — never an infinity and never undefined.
pub proof fn lemma_ratio_skip(t: Stat, c: Stat)
    ensures
        compare_spec(Mode::Ratio, t, c) is Some <==> (t is Mean && c is Mean && c->Mean_0 != 0),
        compare_spec(Mode::Ratio, t, c) matches Some(v) ==> v.den > 0 && !v.negative && v.num
            == t->Mean_0 && v.den == c->Mean_0,
{
}

/// Diff symmetry: swapping treatment and control under `Diff` drops exactly
/// the same windows, and negates every emitted value.
pub proof fn lemma_diff_symmetry(t: Stat, c: Stat)
    ensures
        compare_spec(Mode::Diff, t, c) is Some <==> compare_spec(Mode::Diff, c, t) is Some,
        compare_spec(Mode::Diff, t, c) matches Some(v) ==> {
            let w = compare_spec(Mode::Diff, c, t)->Some_0;
            w.den == v.den && signed_num(w) == -signed_num(v)
        },
{
}

/// Diff symmetry lifted to whole windows: when both orders of the record
/// sets aggregate cleanly, the swapped run emits for exactly the same
/// windows, with every value negated.
pub proof fn lemma_diff_symmetry_windows(t_recs: Seq<Seq<u8>>, c_recs: Seq<Seq<u8>>)
    requires
        window_value_spec(Mode::Diff, t_recs, c_recs) is Ok,
        window_value_spec(Mode::Diff, c_recs, t_recs) is Ok,
    ensures
        window_value_spec(Mode::Diff, t_recs, c_recs)->Ok_0 is Some <==> window_value_spec(
            Mode::Diff,
            c_recs,
            t_recs,
        )->Ok_0 is Some,
        window_value_spec(Mode::Diff, t_recs, c_recs)->Ok_0 matches Some(v) ==> {
            let w = window_value_spec(Mode::Diff, c_recs, t_recs)->Ok_0->Some_0;
            w.den == v.den && signed_num(w) == -signed_num(v)
        },
{
    let t = agg_spec(t_recs)->Ok_0;
    let c = agg_spec(c_recs)->Ok_0;
    lemma_diff_symmetry(t, c);
}

/// An empty side drops the window under either mode.
pub proof fn lemma_empty_dropped(mode: Mode, s: Stat)
    ensures
        compare_spec(mode, Stat::Empty, s) is None,
        compare_spec(mode, s, Stat::Empty) is None,
{
}

proof fn lemma_all_nan_fold(recs: Seq<Seq<u8>>)
    requires
        forall|i: int| 0 <= i < recs.len() ==> field11(#[trigger] recs[i]) == Some(nan_token()),
    ensures
        crate::aggregate::agg_fold(recs) == Ok::<(int, int), AggError>((0int, 0int)),
    decreases recs.len(),
{
    if recs.len() > 0 {
        assert(forall|i: int|
            0 <= i < recs.drop_last().len() ==> field11(#[trigger] recs.drop_last()[i]) == Some(
                nan_token(),
            ));
        lemma_all_nan_fold(recs.drop_last());
        assert(field11(recs.last()) == Some(nan_token()));
    }
}

/// Exclusion of `nan`: a region whose every record carries the `nan`
/// sentinel in field 11 aggregates to the empty statistic, and the window is
/// dropped under either mode, whatever the other side holds.
pub proof fn lemma_nan_window_dropped(mode: Mode, recs: Seq<Seq<u8>>, other: Stat)
    requires
        forall|i: int| 0 <= i < recs.len() ==> field11(#[trigger] recs[i]) == Some(nan_token()),
    ensures
        agg_spec(recs) == Ok::<Stat, AggError>(Stat::Empty),
        compare_spec(mode, Stat::Empty, other) is None,
        compare_spec(mode, other, Stat::Empty) is None,
{
    lemma_all_nan_fold(recs);
}

/// Determinism: the decision for a window is a mathematical function of the
/// mode and the two record sequences, so equal inputs give equal output.
pub proof fn lemma_window_value_deterministic(
    mode1: Mode,
    mode2: Mode,
    t1: Seq<Seq<u8>>,
    c1: Seq<Seq<u8>>,
    t2: Seq<Seq<u8>>,
    c2: Seq<Seq<u8>>,
)
    requires
        mode1 == mode2,
        t1 == t2,
        c1 == c2,
    ensures
        window_value_spec(mode1, t1, c1) == window_value_spec(mode2, t2, c2),
{
}

} // verus!
