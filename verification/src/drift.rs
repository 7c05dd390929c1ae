//! The linear drift model: a correction `offset(t) = slope * t +
//! intercept` fitted through two anchor pairs and applied to
//! timestamps. Slope and intercept are exact rationals over a common
//! denominator, so the fitted line passes through both anchors exactly;
//! only the final offset is truncated toward zero, as a cast to an
//! integer would be.

use vstd::prelude::*;

use crate::timestamp::Timestamp;

verus! {

/// A linear time correction `offset(t) = (slope_num * t +
/// intercept_num) / slope_den`, the division truncating toward zero.
/// `slope_num / slope_den` is the slope and `intercept_num /
/// slope_den` the intercept, kept over the common denominator so both
/// are exact.
#[derive(Clone, Copy, PartialEq, Eq, Structural, Debug)]
pub struct DriftParameters {
    pub slope_num: i128,
    pub slope_den: i128,
    pub intercept_num: i128,
}

/// Failure of `calculate_drift`.
#[derive(Clone, Copy, PartialEq, Eq, Structural, Debug)]
pub enum DriftError {
    /// The two anchors name the same `before` time, so no line through
    /// both points exists.
    DegenerateAnchors,
}

/// Magnitude of `a`.
pub open spec fn abs_int(a: int) -> int {
    if a < 0 {
        -a
    } else {
        a
    }
}

/// Integer division truncated toward zero, as Rust's `/` divides.
pub open spec fn trunc_div(a: int, b: int) -> int {
    let q = abs_int(a) / abs_int(b);
    if (a < 0) != (b < 0) {
        -q
    } else {
        q
    }
}

impl DriftParameters {
    /// Bounds under which applying the model to an `i32` total cannot
    /// overflow the intermediate arithmetic, together with a usable
    /// denominator. Every constructor establishes them.
    pub open spec fn wf(self) -> bool {
        &&& self.slope_den != 0
        &&& -17179869184 <= self.slope_num <= 17179869184
        &&& -8589934592 <= self.slope_den <= 8589934592
        &&& -36893488147419103232 <= self.intercept_num <= 36893488147419103232
    }

    /// The correction added to a timestamp of `t` milliseconds.
    pub open spec fn offset_spec(self, t: int) -> int {
        trunc_div(self.slope_num * t + self.intercept_num, self.slope_den as int)
    }

    /// A model with integer slope and intercept: `offset(t) = slope * t
    /// + intercept` exactly.
    pub fn new(slope_num: i32, slope_den: i32, intercept: i32) -> (r: DriftParameters)
        requires
            slope_den != 0,
        ensures
            r.wf(),
            r.slope_num == slope_num,
            r.slope_den == slope_den,
            r.intercept_num == intercept as int * slope_den as int,
    {
        proof {
            assert(
                -36893488147419103232 <= (intercept as int) * (slope_den as int)
                    <= 36893488147419103232
            ) by (nonlinear_arith)
                requires
                    -2147483648 <= intercept as int <= 2147483647 && -2147483648 <= slope_den as int
                        <= 2147483647,
            ;
        }
        DriftParameters {
            slope_num: slope_num as i128,
            slope_den: slope_den as i128,
            intercept_num: (intercept as i128) * (slope_den as i128),
        }
    }

    /// The constant-offset command form: slope one, intercept the
    /// given offset. Applying it still follows the shared formula, so
    /// a timestamp `t` becomes `2 * t + offset_ms`.
    pub fn fixed_offset(offset_ms: i32) -> (r: DriftParameters)
        ensures
            r.wf(),
            r.slope_num == 1,
            r.slope_den == 1,
            r.intercept_num == offset_ms,
    {
        DriftParameters { slope_num: 1, slope_den: 1, intercept_num: offset_ms as i128 }
    }
}

/// Fits the line `offset(t) = slope * t + intercept` through the two
/// points `(before_i, after_i - before_i)`. Over the common denominator
/// `slope_den = before_1 - before_2`:
/// `slope_num = delta_1 - delta_2` and
/// `intercept_num = delta_1 * slope_den - slope_num * before_1`,
/// where `delta_i = after_i - before_i`. Fails if and only if the two
/// `before` times coincide, when no such line exists.
pub fn calculate_drift(t1: (&Timestamp, &Timestamp), t2: (&Timestamp, &Timestamp)) -> (r: Result<
    DriftParameters,
    DriftError,
>)
    ensures
        (r is Err) == (t1.0.total_milliseconds == t2.0.total_milliseconds),
        r is Err ==> r->Err_0 == DriftError::DegenerateAnchors,
        r is Ok ==> ({
            let p = r->Ok_0;
            let b1 = t1.0.total_milliseconds as int;
            let d1 = t1.1.total_milliseconds - t1.0.total_milliseconds;
            let b2 = t2.0.total_milliseconds as int;
            let d2 = t2.1.total_milliseconds - t2.0.total_milliseconds;
            &&& p.wf()
            &&& p.slope_den == b1 - b2
            &&& p.slope_num == d1 - d2
            &&& p.intercept_num == d1 * (b1 - b2) - (d1 - d2) * b1
        }),
{
    let b1 = t1.0.total_milliseconds as i64;
    let a1 = t1.1.total_milliseconds as i64;
    let b2 = t2.0.total_milliseconds as i64;
    let a2 = t2.1.total_milliseconds as i64;
    if b1 == b2 {
        return Err(DriftError::DegenerateAnchors);
    }
    let d1 = a1 - b1;
    let d2 = a2 - b2;
    let den = b1 - b2;
    let num = d1 - d2;
    proof {
        assert(
            -18446744073709551616 <= (d1 as int) * (den as int) <= 18446744073709551616
        ) by (nonlinear_arith)
            requires
                -4294967296 <= d1 as int <= 4294967296 && -4294967296 <= den as int <= 4294967296,
        ;
        assert(
            -18446744073709551616 <= (num as int) * (b1 as int) <= 18446744073709551616
        ) by (nonlinear_arith)
            requires
                -8589934592 <= num as int <= 8589934592 && -2147483648 <= b1 as int <= 2147483647,
        ;
    }
    let intercept: i128 = (d1 as i128) * (den as i128) - (num as i128) * (b1 as i128);
    Ok(DriftParameters { slope_num: num as i128, slope_den: den as i128, intercept_num: intercept })
}

/// The fitted line passes through both anchor points exactly: over the
/// common denominator, `slope * before_i + intercept == delta_i` for
/// each anchor, that is, `slope_num * before_i + intercept_num ==
/// delta_i * slope_den`.
pub proof fn lemma_fit_exact(p: DriftParameters, b1: int, d1: int, b2: int, d2: int)
    requires
        p.slope_den == b1 - b2,
        p.slope_num == d1 - d2,
        p.intercept_num == d1 * (b1 - b2) - (d1 - d2) * b1,
    ensures
        p.slope_num * b1 + p.intercept_num == d1 * p.slope_den,
        p.slope_num * b2 + p.intercept_num == d2 * p.slope_den,
{
    assert((d1 - d2) * b1 + (d1 * (b1 - b2) - (d1 - d2) * b1) == d1 * (b1 - b2))
        by (nonlinear_arith);
    assert((d1 - d2) * b2 + (d1 * (b1 - b2) - (d1 - d2) * b1) == d2 * (b1 - b2))
        by (nonlinear_arith);
}

/// A model with slope zero and an integer intercept is purely
/// additive: every timestamp moves by exactly the intercept.
pub proof fn lemma_pure_additive(p: DriftParameters, t: int)
    requires
        p.slope_num == 0,
        p.slope_den == 1,
    ensures
        t + p.offset_spec(t) == t + p.intercept_num,
{
    assert(p.slope_num * t == 0) by (nonlinear_arith)
        requires
            p.slope_num == 0,
    ;
    let a = p.intercept_num as int;
    assert(abs_int(a) / 1 == abs_int(a));
    assert(trunc_div(a, 1) == a);
    assert(p.offset_spec(t) == trunc_div(p.slope_num * t + a, 1));
}

/// Applies the correction: the result is `t + offset(t)` with the
/// offset truncated toward zero, exactly as `offset_spec` states;
/// `None` if and only if the corrected value leaves the `i32` range.
pub fn apply_drift(drift: &DriftParameters, ts: Timestamp) -> (r: Option<Timestamp>)
    requires
        drift.wf(),
    ensures
        ({
            let t = ts.total_milliseconds as int;
            let corrected = t + drift.offset_spec(t);
            if -2147483648 <= corrected <= 2147483647 {
                r is Some && r->0.total_milliseconds == corrected
            } else {
                r is None
            }
        }),
{
    let t = ts.total_milliseconds as i64;
    proof {
        assert(
            -36893488147419103232 <= (drift.slope_num as int) * (t as int) <= 36893488147419103232
        ) by (nonlinear_arith)
            requires
                -17179869184 <= drift.slope_num as int <= 17179869184 && -2147483648 <= t as int
                    <= 2147483647,
        ;
    }
    let num: i128 = (drift.slope_num) * (t as i128) + drift.intercept_num;
    let den: i128 = drift.slope_den;
    let num_abs: u128 = if num < 0 {
        (-num) as u128
    } else {
        num as u128
    };
    let den_abs: u128 = if den < 0 {
        (-den) as u128
    } else {
        den as u128
    };
    let q_abs: u128 = num_abs / den_abs;
    proof {
        assert(q_abs <= num_abs) by (nonlinear_arith)
            requires
                den_abs >= 1 && q_abs == num_abs as int / den_abs as int,
        ;
        assert(num_abs == abs_int(num as int));
        assert(den_abs == abs_int(den as int));
    }
    let q: i128 = if (num < 0) != (den < 0) {
        -(q_abs as i128)
    } else {
        q_abs as i128
    };
    proof {
        assert(q == trunc_div(num as int, den as int));
        assert(num as int == drift.slope_num * (ts.total_milliseconds as int)
            + drift.intercept_num);
    }
    let corrected: i128 = (t as i128) + q;
    if corrected < -2147483648 || corrected > 2147483647 {
        return None;
    }
    Some(Timestamp { total_milliseconds: corrected as i32 })
}

} // verus!
