use vstd::prelude::*;

use crate::text::{
    all_digits, copy_range, digits_val, find_from, first_sep, lemma_digits_val_bounds,
    lemma_pow10_mono, lemma_pow10_mul, nth_field, parse_digits_u64, pow10, DOT, PLUS, TAB,
};

verus! {

/// Nano-percent: parsed field values are integer multiples of 1e-9 percent.
pub const NANO: u64 = 1000000000;

/// The bytes of the `nan` sentinel of field 11.
pub open spec fn nan_token() -> Seq<u8> {
    seq![110u8, 97u8, 110u8]
}

/// Fraction digits scaled to nano units: the first nine digits carry weight,
/// the rest lie below the stored resolution and are dropped.
pub open spec fn frac_nano(fp: Seq<u8>) -> int {
    if fp.len() >= 9 {
        digits_val(fp.take(9))
    } else {
        digits_val(fp) * pow10((9 - fp.len()) as nat)
    }
}

/// Value in nano-percent of a plain decimal numeral: an optional leading `+`,
/// digits, optionally split once by a dot, at least one digit in all.  `None`
/// for anything else, and for values too large for a `u64` of nano-percent.
pub open spec fn parse_nano_spec(f: Seq<u8>) -> Option<int> {
    let g = if f.len() > 0 && f[0] == PLUS {
        f.skip(1)
    } else {
        f
    };
    let k = first_sep(g, DOT);
    if k == g.len() {
        if g.len() > 0 && all_digits(g) && digits_val(g) * (NANO as int) <= u64::MAX {
            Some(digits_val(g) * (NANO as int))
        } else {
            None
        }
    } else {
        let ip = g.take(k);
        let fp = g.skip(k + 1);
        if ip.len() + fp.len() > 0 && all_digits(ip) && all_digits(fp) && digits_val(ip) * (
        NANO as int) + frac_nano(fp) <= u64::MAX {
            Some(digits_val(ip) * (NANO as int) + frac_nano(fp))
        } else {
            None
        }
    }
}

pub proof fn lemma_pow10_vals()
    ensures
        pow10(8) == 100000000,
        pow10(9) == 1000000000,
{
    assert(pow10(0) == 1);
    assert(pow10(1) == 10);
    assert(pow10(2) == 100);
    assert(pow10(3) == 1000);
    assert(pow10(4) == 10000);
    assert(pow10(5) == 100000);
    assert(pow10(6) == 1000000);
    assert(pow10(7) == 10000000);
    assert(pow10(8) == 100000000);
    assert(pow10(9) == 1000000000);
}

pub proof fn lemma_frac_nano_bounds(fp: Seq<u8>)
    requires
        all_digits(fp),
    ensures
        0 <= frac_nano(fp) < pow10(9),
{
    if fp.len() >= 9 {
        assert(all_digits(fp.take(9)));
        lemma_digits_val_bounds(fp.take(9));
    } else {
        lemma_digits_val_bounds(fp);
        lemma_pow10_mul(fp.len(), (9 - fp.len()) as nat);
        lemma_pow10_mono(0, (9 - fp.len()) as nat);
        assert(digits_val(fp) * pow10((9 - fp.len()) as nat) < pow10(9)) by (nonlinear_arith)
            requires
                0 <= digits_val(fp) < pow10(fp.len()),
                pow10(fp.len()) * pow10((9 - fp.len()) as nat) == pow10(9),
                pow10((9 - fp.len()) as nat) >= 1,
        ;
        assert(digits_val(fp) * pow10((9 - fp.len()) as nat) >= 0) by (nonlinear_arith)
            requires
                0 <= digits_val(fp),
                pow10((9 - fp.len()) as nat) >= 1,
        ;
    }
}

pub proof fn lemma_parse_nano_bounds(f: Seq<u8>)
    ensures
        parse_nano_spec(f) matches Some(v) ==> 0 <= v <= u64::MAX,
{
    let g = if f.len() > 0 && f[0] == PLUS {
        f.skip(1)
    } else {
        f
    };
    let k = first_sep(g, DOT);
    if parse_nano_spec(f) is Some {
        if k == g.len() {
            lemma_digits_val_bounds(g);
            assert(digits_val(g) * (NANO as int) >= 0) by (nonlinear_arith)
                requires
                    digits_val(g) >= 0,
            ;
        } else {
            lemma_digits_val_bounds(g.take(k));
            lemma_frac_nano_bounds(g.skip(k + 1));
            assert(digits_val(g.take(k)) * (NANO as int) >= 0) by (nonlinear_arith)
                requires
                    digits_val(g.take(k)) >= 0,
            ;
        }
    }
}

/// Parses field 11 as a decimal percentage in nano-percent units.
#[verifier::loop_isolation(false)]
#[verifier::rlimit(60)]
pub fn parse_nano(f: &Vec<u8>) -> (r: Option<u64>)
    ensures
        match r {
            Some(v) => parse_nano_spec(f@) == Some(v as int),
            None => parse_nano_spec(f@) is None,
        },
{
    let g: Vec<u8> = if f.len() > 0 && f[0] == PLUS {
        copy_range(f, 1, f.len())
    } else {
        copy_range(f, 0, f.len())
    };
    proof {
        if f@.len() > 0 && f@[0] == PLUS {
            assert(g@ =~= f@.skip(1));
        } else {
            assert(g@ =~= f@);
        }
    }
    let k = find_from(&g, 0, DOT);
    proof {
        assert(g@.skip(0) =~= g@);
        lemma_pow10_vals();
    }
    if k == g.len() {
        match parse_digits_u64(&g) {
            None => {
                proof {
                    if g@.len() > 0 && all_digits(g@) {
                        assert(digits_val(g@) > u64::MAX);
                        assert(digits_val(g@) * (NANO as int) >= digits_val(g@))
                            by (nonlinear_arith)
                            requires
                                digits_val(g@) >= 0,
                        ;
                    }
                }
                None
            },
            Some(v) => {
                match v.checked_mul(NANO) {
                    None => {
                        None
                    },
                    Some(total) => Some(total),
                }
            },
        }
    } else {
        let ip = copy_range(&g, 0, k);
        let fp = copy_range(&g, k + 1, g.len());
        proof {
            assert(ip@ =~= g@.take(k as int));
            assert(fp@ =~= g@.skip(k + 1));
        }
        if ip.len() == 0 && fp.len() == 0 {
            return None;
        }
        // validate the fraction digits
        let mut i: usize = 0;
        while i < fp.len()
            invariant
                0 <= i <= fp@.len(),
                forall|j: int| 0 <= j < i ==> crate::text::is_digit(fp@[j]),
            decreases fp@.len() - i,
        {
            let b = fp[i];
            if !(48 <= b && b <= 57) {
                proof {
                    assert(!crate::text::is_digit(fp@[i as int]));
                }
                return None;
            }
            i = i + 1;
        }
        assert(all_digits(fp@));
        // value of the first nine fraction digits
        let fcount: usize = if fp.len() < 9 {
            fp.len()
        } else {
            9
        };
        let mut fv: u64 = 0;
        let mut j: usize = 0;
        while j < fcount
            invariant
                0 <= j <= fcount <= 9,
                fcount <= fp@.len(),
                all_digits(fp@),
                fv == digits_val(fp@.take(j as int)),
                fcount == if fp@.len() < 9 {
                    fp@.len() as int
                } else {
                    9
                },
            decreases fcount - j,
        {
            let d = (fp[j] - 48) as u64;
            proof {
                assert(all_digits(fp@.take(j as int)));
                lemma_digits_val_bounds(fp@.take(j as int));
                lemma_pow10_mono(j as nat, 8);
                lemma_pow10_vals();
                assert(fp@.take(j + 1).drop_last() =~= fp@.take(j as int));
                assert(fp@.take(j + 1).last() == fp@[j as int]);
            }
            fv = fv * 10 + d;
            j = j + 1;
        }
        let frac: u64 = if fp.len() < 9 {
            proof {
                assert(fp@.take(fcount as int) =~= fp@);
                lemma_digits_val_bounds(fp@);
                lemma_pow10_mul(fp@.len(), (9 - fp@.len()) as nat);
                lemma_pow10_mono(0, (9 - fp@.len()) as nat);
                lemma_pow10_vals();
            }
            let scale = crate::text::pow10_u64(9 - fp.len());
            proof {
                assert(fv * scale < pow10(9)) by (nonlinear_arith)
                    requires
                        0 <= fv < pow10(fp@.len()),
                        scale == pow10((9 - fp@.len()) as nat),
                        pow10(fp@.len()) * pow10((9 - fp@.len()) as nat) == pow10(9),
                        scale >= 1,
                ;
                assert(fv * scale >= 0) by (nonlinear_arith)
                    requires
                        0 <= fv,
                        scale >= 1,
                ;
            }
            fv * scale
        } else {
            proof {
                assert(fp@.take(fcount as int) =~= fp@.take(9));
            }
            fv
        };
        assert(frac == frac_nano(fp@));
        proof {
            lemma_frac_nano_bounds(fp@);
        }
        // the integer part
        let ip_val: u64 = if ip.len() == 0 {
            proof {
                assert(digits_val(ip@) == 0);
            }
            0
        } else {
            match parse_digits_u64(&ip) {
                None => {
                    proof {
                        if all_digits(ip@) {
                            assert(digits_val(ip@) > u64::MAX);
                            assert(digits_val(ip@) * (NANO as int) >= digits_val(ip@))
                                by (nonlinear_arith)
                                requires
                                    digits_val(ip@) >= 0,
                            ;
                        }
                    }
                    return None;
                },
                Some(v) => v,
            }
        };
        proof {
            assert(all_digits(ip@));
        }
        match ip_val.checked_mul(NANO) {
            None => {
                None
            },
            Some(scaled) => {
                match scaled.checked_add(frac) {
                    None => {
                        None
                    },
                    Some(total) => Some(total),
                }
            },
        }
    }
}

/// Whether a field holds exactly the `nan` sentinel.
pub fn is_nan_field(f: &Vec<u8>) -> (r: bool)
    ensures
        r == (f@ == nan_token()),
{
    let r = f.len() == 3 && f[0] == 110 && f[1] == 97 && f[2] == 110;
    proof {
        if r {
            assert(f@ =~= nan_token());
        } else if f@ == nan_token() {
            assert(f@.len() == 3);
            assert(f@[0] == 110 && f@[1] == 97 && f@[2] == 110);
        }
    }
    r
}

/// A record is malformed (fewer than 11 tab-separated fields), or its 11th
/// field is neither the `nan` token nor a decimal this library can hold.
#[derive(Debug, Clone, Copy, PartialEq, Eq, Structural)]
pub enum AggError {
    MalformedRecord,
    BadValue,
}

/// The statistic of one window: `Empty` when no record contributed, else the
/// mean of the contributing values in nano-percent, rounded toward zero.
#[derive(Debug, Clone, Copy, PartialEq, Eq, Structural)]
pub enum Stat {
    Empty,
    Mean(u64),
}

/// The 11th tab-separated field of a record line.
pub open spec fn field11(rec: Seq<u8>) -> Option<Seq<u8>> {
    nth_field(rec, 10, TAB)
}

/// Folds one record into a running (sum, count): `nan` contributes to
/// neither; a malformed record or an unreadable value is the fold's error.
pub open spec fn rec_step(acc: Result<(int, int), AggError>, rec: Seq<u8>) -> Result<
    (int, int),
    AggError,
> {
    match acc {
        Err(e) => Err(e),
        Ok(sc) => match field11(rec) {
            None => Err(AggError::MalformedRecord),
            Some(f) => if f == nan_token() {
                Ok(sc)
            } else {
                match parse_nano_spec(f) {
                    None => Err(AggError::BadValue),
                    Some(v) => Ok((sc.0 + v, sc.1 + 1)),
                }
            },
        },
    }
}

/// Sum and count of the usable values of a record sequence, first error wins.
pub open spec fn agg_fold(recs: Seq<Seq<u8>>) -> Result<(int, int), AggError>
    decreases recs.len(),
{
    if recs.len() == 0 {
        Ok((0, 0))
    } else {
        rec_step(agg_fold(recs.drop_last()), recs.last())
    }
}

/// The window statistic of a record sequence.
pub open spec fn agg_spec(recs: Seq<Seq<u8>>) -> Result<Stat, AggError> {
    match agg_fold(recs) {
        Err(e) => Err(e),
        Ok(sc) => Ok(
            if sc.1 == 0 {
                Stat::Empty
            } else {
                Stat::Mean((sc.0 / sc.1) as u64)
            },
        ),
    }
}

pub proof fn lemma_agg_fold_bounds(recs: Seq<Seq<u8>>)
    ensures
        agg_fold(recs) matches Ok(sc) ==> 0 <= sc.1 <= recs.len() && 0 <= sc.0 <= sc.1 * (
        u64::MAX as int),
    decreases recs.len(),
{
    if recs.len() == 0 {
    } else {
        lemma_agg_fold_bounds(recs.drop_last());
        if agg_fold(recs) is Ok {
            let prev = agg_fold(recs.drop_last());
            let sc = prev->Ok_0;
            match field11(recs.last()) {
                Some(f) => {
                    if f != nan_token() {
                        lemma_parse_nano_bounds(f);
                        let v = parse_nano_spec(f)->Some_0;
                        assert((sc.1 + 1) * (u64::MAX as int) == sc.1 * (u64::MAX as int) + (
                        u64::MAX as int)) by (nonlinear_arith);
                    }
                },
                None => {},
            }
        }
    }
}

/// An error of a prefix is the error of the whole fold.
pub proof fn lemma_agg_fold_err(recs: Seq<Seq<u8>>, i: int, e: AggError)
    requires
        0 <= i <= recs.len(),
        agg_fold(recs.take(i)) == Err::<(int, int), AggError>(e),
    ensures
        agg_fold(recs) == Err::<(int, int), AggError>(e),
    decreases recs.len() - i,
{
    if i == recs.len() {
        assert(recs.take(i) =~= recs);
    } else {
        assert(recs.take(i + 1).drop_last() =~= recs.take(i));
        lemma_agg_fold_err(recs, i + 1, e);
    }
}

/// Mean of the 11th field over a window's records, with `nan` records
/// excluded from both the sum and the count.
#[verifier::loop_isolation(false)]
pub fn aggregate(records: &Vec<Vec<u8>>) -> (r: Result<Stat, AggError>)
    ensures
        r == agg_spec(records.deep_view()),
{
    let ghost recs = records.deep_view();
    let mut sum: u128 = 0;
    let mut count: usize = 0;
    let mut i: usize = 0;
    proof {
        assert(recs.len() == records@.len());
    }
    while i < records.len()
        invariant
            0 <= i <= records@.len(),
            recs == records.deep_view(),
            recs.len() == records@.len(),
            count <= i,
            sum <= count * (u64::MAX as int),
            agg_fold(recs.take(i as int)) == Ok::<(int, int), AggError>((sum as int, count as int)),
        decreases records@.len() - i,
    {
        let rec: &Vec<u8> = &records[i];
        proof {
            assert(recs[i as int] =~= rec@);
            assert(recs.take(i + 1).drop_last() =~= recs.take(i as int));
            assert(recs.take(i + 1).last() == recs[i as int]);
        }
        match crate::text::nth_field_range(rec, 10, TAB) {
            None => {
                proof {
                    lemma_agg_fold_err(recs, i + 1, AggError::MalformedRecord);
                }
                return Err(AggError::MalformedRecord);
            },
            Some((a, b)) => {
                let f = copy_range(rec, a, b);
                proof {
                    assert(field11(rec@) == Some(f@));
                }
                if is_nan_field(&f) {
                    // excluded from sum and count
                } else {
                    match parse_nano(&f) {
                        None => {
                            proof {
                                lemma_agg_fold_err(recs, i + 1, AggError::BadValue);
                            }
                            return Err(AggError::BadValue);
                        },
                        Some(v) => {
                            proof {
                                assert((count + 1) * (u64::MAX as int) == count * (u64::MAX as int)
                                    + (u64::MAX as int)) by (nonlinear_arith);
                            }
                            sum = sum + (v as u128);
                            count = count + 1;
                        },
                    }
                }
            },
        }
        i = i + 1;
    }
    proof {
        assert(recs.take(i as int) =~= recs);
    }
    if count == 0 {
        Ok(Stat::Empty)
    } else {
        proof {
            vstd::arithmetic::div_mod::lemma_div_is_ordered(
                sum as int,
                (count as int) * (u64::MAX as int),
                count as int,
            );
            vstd::arithmetic::div_mod::lemma_div_by_multiple(u64::MAX as int, count as int);
            assert((count as int) * (u64::MAX as int) == (u64::MAX as int) * (count as int))
                by (nonlinear_arith);
        }
        let mean = (sum / (count as u128)) as u64;
        Ok(Stat::Mean(mean))
    }
}

} // verus!
