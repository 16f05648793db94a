use methyl_windows::aggregate::AggError;
use methyl_windows::aggregate::Stat;
use methyl_windows::aggregate::NANO;
use methyl_windows::compare::compare;
use methyl_windows::compare::window_value;
use methyl_windows::compare::Value;
use methyl_windows::Mode;

/// A bedMethyl-style record line whose 11th field is `value`.
fn rec(value: &str) -> Vec<u8> {
    format!("chr1\t0\t1\tm\t5\t+\t0\t1\t255,0,0\t5\t{value}").into_bytes()
}

/// The floating rendering of a value, as the emitter prints it.
fn render(v: &Value) -> f32 {
    let q = (v.num as f64 / v.den as f64) as f32;
    if v.negative { -q } else { q }
}

#[test]
fn diff_emits_difference() {
    let r = compare(Mode::Diff, Stat::Mean(40 * NANO), Stat::Mean(25 * NANO));
    let v = r.expect("diff of two means is defined");
    assert_eq!(v, Value { negative: false, num: 15 * NANO, den: NANO });
    let line = format!("chr1\t{}\t{}\t{}", 1, 5000, render(&v));
    assert_eq!(line, "chr1\t1\t5000\t15");
}

#[test]
fn ratio_with_zero_control_is_skipped() {
    let r = compare(Mode::Ratio, Stat::Mean(10 * NANO), Stat::Mean(0));
    assert_eq!(r, None);
}

#[test]
fn ratio_emits_quotient() {
    let r = compare(Mode::Ratio, Stat::Mean(30 * NANO), Stat::Mean(10 * NANO));
    let v = r.expect("ratio with nonzero control is defined");
    assert_eq!(v, Value { negative: false, num: 30 * NANO, den: 10 * NANO });
    let line = format!("chr1\t{}\t{}\t{}", 1, 5000, render(&v));
    assert_eq!(line, "chr1\t1\t5000\t3");
}

#[test]
fn diff_negates_when_swapped() {
    let a = compare(Mode::Diff, Stat::Mean(40 * NANO), Stat::Mean(25 * NANO)).unwrap();
    let b = compare(Mode::Diff, Stat::Mean(25 * NANO), Stat::Mean(40 * NANO)).unwrap();
    assert_eq!(a.num, b.num);
    assert_eq!(a.den, b.den);
    assert!(!a.negative && b.negative);
    assert_eq!(render(&b), -render(&a));
}

#[test]
fn empty_side_drops_window() {
    for mode in [Mode::Diff, Mode::Ratio] {
        assert_eq!(compare(mode, Stat::Empty, Stat::Mean(NANO)), None);
        assert_eq!(compare(mode, Stat::Mean(NANO), Stat::Empty), None);
        assert_eq!(compare(mode, Stat::Empty, Stat::Empty), None);
    }
}

#[test]
fn window_value_runs_both_sides() {
    let treatment = vec![rec("40")];
    let control = vec![rec("25")];
    let r = window_value(Mode::Diff, &treatment, &control);
    assert_eq!(r, Ok(Some(Value { negative: false, num: 15 * NANO, den: NANO })));
}

#[test]
fn window_value_all_nan_side_drops_window() {
    let treatment = vec![rec("nan"), rec("nan")];
    let control = vec![rec("25")];
    assert_eq!(window_value(Mode::Diff, &treatment, &control), Ok(None));
    assert_eq!(window_value(Mode::Ratio, &treatment, &control), Ok(None));
}

#[test]
fn window_value_reports_treatment_error_first() {
    let treatment = vec![b"bad".to_vec()];
    let control = vec![rec("abc")];
    assert_eq!(window_value(Mode::Diff, &treatment, &control), Err(AggError::MalformedRecord));
    let treatment = vec![rec("25")];
    assert_eq!(window_value(Mode::Diff, &treatment, &control), Err(AggError::BadValue));
}

#[test]
fn window_value_is_deterministic() {
    let treatment = vec![rec("40"), rec("nan"), rec("12.5")];
    let control = vec![rec("25"), rec("0.25")];
    let first = window_value(Mode::Ratio, &treatment, &control);
    let second = window_value(Mode::Ratio, &treatment, &control);
    assert_eq!(first, second);
}

#[test]
fn negative_diff_renders_with_sign() {
    let v = compare(Mode::Diff, Stat::Mean(10 * NANO), Stat::Mean(12 * NANO)).unwrap();
    assert_eq!(v, Value { negative: true, num: 2 * NANO, den: NANO });
    assert_eq!(format!("{}", render(&v)), "-2");
}
