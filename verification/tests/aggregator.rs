use methyl_windows::aggregate::aggregate;
use methyl_windows::aggregate::AggError;
use methyl_windows::aggregate::Stat;
use methyl_windows::aggregate::NANO;

/// A bedMethyl-style record line whose 11th field is `value`.
fn rec(value: &str) -> Vec<u8> {
    format!("chr1\t0\t1\tm\t5\t+\t0\t1\t255,0,0\t5\t{value}").into_bytes()
}

#[test]
fn mean_excludes_nan_records() {
    let records = vec![rec("10"), rec("nan"), rec("30")];
    assert_eq!(aggregate(&records), Ok(Stat::Mean(20 * NANO)));
}

#[test]
fn all_nan_region_is_empty() {
    let records = vec![rec("nan"), rec("nan"), rec("nan")];
    assert_eq!(aggregate(&records), Ok(Stat::Empty));
}

#[test]
fn no_records_is_empty() {
    let records: Vec<Vec<u8>> = Vec::new();
    assert_eq!(aggregate(&records), Ok(Stat::Empty));
}

#[test]
fn record_with_too_few_fields_is_fatal() {
    let records = vec![rec("10"), b"chr1\t0\t1\tonly\tfour".to_vec()];
    assert_eq!(aggregate(&records), Err(AggError::MalformedRecord));
}

#[test]
fn unreadable_value_is_fatal() {
    let records = vec![rec("10"), rec("abc")];
    assert_eq!(aggregate(&records), Err(AggError::BadValue));
}

#[test]
fn decimal_fractions_are_exact() {
    assert_eq!(aggregate(&vec![rec("12.34")]), Ok(Stat::Mean(12_340_000_000)));
    assert_eq!(aggregate(&vec![rec("0.5")]), Ok(Stat::Mean(NANO / 2)));
    assert_eq!(aggregate(&vec![rec(".5")]), Ok(Stat::Mean(NANO / 2)));
    assert_eq!(aggregate(&vec![rec("5.")]), Ok(Stat::Mean(5 * NANO)));
    assert_eq!(aggregate(&vec![rec("100")]), Ok(Stat::Mean(100 * NANO)));
}

#[test]
fn value_with_leading_plus_parses() {
    assert_eq!(aggregate(&vec![rec("+7")]), Ok(Stat::Mean(7 * NANO)));
}

#[test]
fn fraction_below_resolution_is_dropped() {
    assert_eq!(aggregate(&vec![rec("0.0000000001")]), Ok(Stat::Mean(0)));
    assert_eq!(aggregate(&vec![rec("1.0000000019")]), Ok(Stat::Mean(NANO + 1)));
}

#[test]
fn mean_rounds_toward_zero() {
    // (10 + 11) / 2 = 10.5 exactly at nano resolution
    let records = vec![rec("10"), rec("11")];
    assert_eq!(aggregate(&records), Ok(Stat::Mean(10 * NANO + NANO / 2)));
    // (10 + 10 + 11) / 3 truncates
    let records = vec![rec("10"), rec("10"), rec("11")];
    assert_eq!(aggregate(&records), Ok(Stat::Mean(31 * NANO / 3)));
}

#[test]
fn stray_forms_are_rejected() {
    assert_eq!(aggregate(&vec![rec("1e5")]), Err(AggError::BadValue));
    assert_eq!(aggregate(&vec![rec("-5")]), Err(AggError::BadValue));
    assert_eq!(aggregate(&vec![rec("1.2.3")]), Err(AggError::BadValue));
    assert_eq!(aggregate(&vec![rec("")]), Err(AggError::BadValue));
    assert_eq!(aggregate(&vec![rec(".")]), Err(AggError::BadValue));
    assert_eq!(aggregate(&vec![rec("NaN")]), Err(AggError::BadValue));
    assert_eq!(aggregate(&vec![rec("inf")]), Err(AggError::BadValue));
}

#[test]
fn value_beyond_the_stored_range_is_fatal() {
    // would exceed a u64 of nano-percent
    assert_eq!(aggregate(&vec![rec("99999999999")]), Err(AggError::BadValue));
}

#[test]
fn first_error_wins() {
    let records = vec![b"short".to_vec(), rec("abc")];
    assert_eq!(aggregate(&records), Err(AggError::MalformedRecord));
    let records = vec![rec("abc"), b"short".to_vec()];
    assert_eq!(aggregate(&records), Err(AggError::BadValue));
}
