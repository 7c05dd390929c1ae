//! A signed, millisecond-resolution time value with a compact
//! colon/comma text codec: `parse` reads the lenient grammar
//! (`"05,500"`, `"02:03"`, `"-01:02:03,004"`), `to_text` renders the
//! canonical form `[-]HH:MM:SS,mmm`, and the two round-trip.

use vstd::prelude::*;

use crate::text::SepKind;
use crate::text::all_digits;
use crate::text::dec_digits;
use crate::text::digit_val;
use crate::text::digits_val;
use crate::text::is_digit;
use crate::text::lemma_dec_digits;
use crate::text::lemma_leading_zero;
use crate::text::lemma_split_no_sep;
use crate::text::lemma_split_push_sep;
use crate::text::lemma_split_append_clean;
use crate::text::num_to_string;
use crate::text::lemma_dec_digits_len;
use crate::text::lemma_digits_nonneg;
use crate::text::lemma_digits_prefix;
use crate::text::lemma_split_len;
use crate::text::sep_fn;
use crate::text::split_on;
use crate::text::split_on_sep;

verus! {

/// Sign read from an optional leading `-`; a `+` or no sign is positive.
pub open spec fn field_sign(s: Seq<char>) -> int {
    if s.len() > 0 && s[0] == '-' {
        -1
    } else {
        1
    }
}

/// `s` with an optional leading sign character removed.
pub open spec fn field_body(s: Seq<char>) -> Seq<char> {
    if s.len() > 0 && (s[0] == '-' || s[0] == '+') {
        s.skip(1)
    } else {
        s
    }
}

/// An integer sub-field: optional sign, then one or more decimal
/// digits, the signed value lying in the `i32` range; `None` otherwise.
pub open spec fn field_val(s: Seq<char>) -> Option<int> {
    let b = field_body(s);
    if b.len() > 0 && all_digits(b) {
        let v = field_sign(s) * digits_val(b);
        if -2147483648 <= v <= 2147483647 {
            Some(v)
        } else {
            None
        }
    } else {
        None
    }
}

/// Milliseconds contributed by the rightmost `:`-group: seconds, then
/// optionally a `,`- or `.`-separated milliseconds sub-field.
pub open spec fn group0_val(g: Seq<char>) -> Option<int> {
    let subs = split_on(g, sep_fn(SepKind::SubSec));
    if subs.len() == 1 {
        match field_val(subs[0]) {
            Some(sv) => Some(1000 * sv),
            None => None,
        }
    } else if subs.len() == 2 {
        match (field_val(subs[0]), field_val(subs[1])) {
            (Some(sv), Some(mv)) => Some(1000 * sv + mv),
            _ => None,
        }
    } else {
        None
    }
}

/// The signed millisecond value of timestamp text, before the final
/// range check: an optional sign, then one to three `:`-groups read
/// right to left as seconds-and-milliseconds, minutes, hours.
pub open spec fn parse_val(s: Seq<char>) -> Option<int> {
    if s.len() == 0 {
        None
    } else {
        let sgn = field_sign(s);
        let groups = split_on(field_body(s), sep_fn(SepKind::Colon));
        if groups.len() == 1 {
            match group0_val(groups[0]) {
                Some(v0) => Some(sgn * v0),
                None => None,
            }
        } else if groups.len() == 2 {
            match (field_val(groups[0]), group0_val(groups[1])) {
                (Some(v1), Some(v0)) => Some(sgn * (v0 + 60000 * v1)),
                _ => None,
            }
        } else if groups.len() == 3 {
            match (field_val(groups[0]), field_val(groups[1]), group0_val(groups[2])) {
                (Some(v2), Some(v1), Some(v0)) => Some(sgn * (v0 + 60000 * v1 + 3600000 * v2)),
                _ => None,
            }
        } else {
            None
        }
    }
}

/// What `Timestamp::parse` returns: the value of `parse_val` when it
/// exists and fits in an `i32` total, `None` otherwise.
pub open spec fn parse_spec(s: Seq<char>) -> Option<int> {
    match parse_val(s) {
        Some(v) => if -2147483648 <= v <= 2147483647 {
            Some(v)
        } else {
            None
        },
        None => None,
    }
}

/// Reads one integer sub-field, as `str::parse::<i32>` does: optional
/// sign, one or more digits, value within the `i32` range.
fn parse_field(s: &str) -> (r: Option<i32>)
    ensures
        (field_val(s@) is Some) == (r is Some),
        r is Some ==> r->0 as int == field_val(s@)->0,
{
    let n = s.unicode_len();
    if n == 0 {
        return None;
    }
    let c0 = s.get_char(0);
    let neg = c0 == '-';
    let start: usize = if c0 == '-' || c0 == '+' {
        1
    } else {
        0
    };
    let ghost body = field_body(s@);
    proof {
        assert(body =~= s@.skip(start as int));
    }
    if n == start {
        return None;
    }
    let mut acc: u64 = 0;
    let mut i: usize = start;
    proof {
        assert(body.take(0) =~= Seq::<char>::empty());
    }
    while i < n
        invariant
            start <= i <= n,
            n == s@.len(),
            body == field_body(s@),
            body == s@.skip(start as int),
            body.len() == n - start,
            all_digits(body.take(i - start)),
            acc == digits_val(body.take(i - start)),
            acc <= 2147483648,
        decreases n - i,
    {
        let c = s.get_char(i);
        let u = c as u32;
        let ghost k = i - start;
        proof {
            assert(body[k as int] == s@[i as int]);
        }
        if u < 48 || u > 57 {
            proof {
                assert(c as int == u as int);
                assert('0' as int == 48 && '9' as int == 57);
                assert(!is_digit(body[k as int]));
                assert(!all_digits(body));
            }
            return None;
        }
        proof {
            assert(body.take(k + 1).drop_last() =~= body.take(k as int));
            assert(body.take(k + 1).last() == body[k as int]);
            assert(is_digit(body[k as int]));
            assert(digit_val(body[k as int]) == u - 48);
            assert(all_digits(body.take(k + 1))) by {
                assert(forall|j: int|
                    0 <= j < k + 1 ==> #[trigger] body.take(k + 1)[j] == body.take(k as int).push(
                        body[k as int],
                    )[j]);
            }
        }
        acc = acc * 10 + ((u - 48) as u64);
        i = i + 1;
        if acc > 2147483648 {
            proof {
                if body.len() > 0 && all_digits(body) {
                    lemma_digits_prefix(body, i - start);
                    assert(body.take(body.len() as int) =~= body);
                    assert(digits_val(body) >= acc > 2147483648);
                }
            }
            return None;
        }
    }
    proof {
        assert(body.take(n - start) =~= body);
        lemma_digits_nonneg(body);
    }
    if !neg && acc > 2147483647 {
        return None;
    }
    let v: i64 = if neg {
        -(acc as i64)
    } else {
        acc as i64
    };
    Some(v as i32)
}

/// A count of milliseconds; negative values lie before time zero.
#[derive(Clone, Copy, PartialEq, Eq, Structural, Debug)]
pub struct Timestamp {
    pub total_milliseconds: i32,
}

/// Magnitude of `v`.
pub open spec fn abs_val(v: int) -> int {
    if v < 0 {
        -v
    } else {
        v
    }
}

/// Whole hours of the magnitude of `v` milliseconds.
pub open spec fn hours_of(v: int) -> int {
    abs_val(v) / 3600000
}

/// Minutes past the hour of the magnitude of `v` milliseconds.
pub open spec fn mins_of(v: int) -> int {
    (abs_val(v) % 3600000) / 60000
}

/// Seconds past the minute of the magnitude of `v` milliseconds.
pub open spec fn secs_of(v: int) -> int {
    (abs_val(v) % 60000) / 1000
}

/// Milliseconds past the second of the magnitude of `v` milliseconds.
pub open spec fn msecs_of(v: int) -> int {
    abs_val(v) % 1000
}

/// Decimal digits of `n`, zero-padded on the left to two places.
pub open spec fn pad2(n: nat) -> Seq<char> {
    if n < 10 {
        seq!['0'].add(dec_digits(n))
    } else {
        dec_digits(n)
    }
}

/// Decimal digits of `n`, zero-padded on the left to three places.
pub open spec fn pad3(n: nat) -> Seq<char> {
    if n < 10 {
        seq!['0', '0'].add(dec_digits(n))
    } else if n < 100 {
        seq!['0'].add(dec_digits(n))
    } else {
        dec_digits(n)
    }
}

/// Canonical text of `v` milliseconds: `[-]HH:MM:SS,mmm`, the hour
/// field growing past two digits when it must.
pub open spec fn format_spec(v: int) -> Seq<char> {
    let sign = if v < 0 {
        seq!['-']
    } else {
        Seq::<char>::empty()
    };
    sign.add(pad2(hours_of(v) as nat)).push(':').add(pad2(mins_of(v) as nat)).push(':').add(
        pad2(secs_of(v) as nat),
    ).push(',').add(pad3(msecs_of(v) as nat))
}

/// The derived fields recombine to the magnitude of the total.
pub proof fn lemma_field_decomposition(v: int)
    ensures
        hours_of(v) * 3600000 + mins_of(v) * 60000 + secs_of(v) * 1000 + msecs_of(v) == abs_val(v),
{
    let a = abs_val(v);
    assert(a >= 0);
    assert(a == (a / 3600000) * 3600000 + a % 3600000) by (nonlinear_arith)
        requires
            a >= 0,
    ;
    let r1 = a % 3600000;
    assert(r1 == (r1 / 60000) * 60000 + r1 % 60000) by (nonlinear_arith)
        requires
            r1 >= 0,
    ;
    assert(r1 % 60000 == a % 60000) by (nonlinear_arith)
        requires
            a >= 0 && r1 == a % 3600000,
    ;
    let r2 = a % 60000;
    assert(r2 == (r2 / 1000) * 1000 + r2 % 1000) by (nonlinear_arith)
        requires
            r2 >= 0,
    ;
    assert(r2 % 1000 == a % 1000) by (nonlinear_arith)
        requires
            a >= 0 && r2 == a % 60000,
    ;
}

impl Timestamp {
    /// A timestamp of exactly `msecs` milliseconds.
    pub fn new(msecs: i32) -> (r: Timestamp)
        ensures
            r.total_milliseconds == msecs,
    {
        Timestamp { total_milliseconds: msecs }
    }

    /// The linear combination of the given fields; no range check, so
    /// `mins = 90` normalizes naturally through the total.
    pub fn from(hours: i32, mins: i32, secs: i32, msecs: i32) -> (r: Timestamp)
        requires
            i32::MIN <= hours * 3600000 + mins * 60000 + secs * 1000 + msecs <= i32::MAX,
        ensures
            r.total_milliseconds == hours * 3600000 + mins * 60000 + secs * 1000 + msecs,
    {
        let total: i64 = (hours as i64) * 3600000 + (mins as i64) * 60000 + (secs as i64) * 1000
            + (msecs as i64);
        Timestamp { total_milliseconds: total as i32 }
    }

    /// Magnitude of the total, which fits in a `u32`.
    fn abs_u32(&self) -> (r: u32)
        ensures
            r == abs_val(self.total_milliseconds as int),
    {
        if self.total_milliseconds < 0 {
            (-(self.total_milliseconds as i64)) as u32
        } else {
            self.total_milliseconds as u32
        }
    }

    /// Whole hours of the magnitude.
    pub fn hours(&self) -> (r: i32)
        ensures
            r == hours_of(self.total_milliseconds as int),
    {
        (self.abs_u32() / 3600000) as i32
    }

    /// Minutes past the hour of the magnitude.
    pub fn mins(&self) -> (r: i32)
        ensures
            r == mins_of(self.total_milliseconds as int),
    {
        ((self.abs_u32() % 3600000) / 60000) as i32
    }

    /// Seconds past the minute of the magnitude.
    pub fn secs(&self) -> (r: i32)
        ensures
            r == secs_of(self.total_milliseconds as int),
    {
        ((self.abs_u32() % 60000) / 1000) as i32
    }

    /// Milliseconds past the second of the magnitude.
    pub fn msecs(&self) -> (r: i32)
        ensures
            r == msecs_of(self.total_milliseconds as int),
    {
        (self.abs_u32() % 1000) as i32
    }

    /// Sum of two timestamps, by their totals.
    pub fn plus(&self, other: &Timestamp) -> (r: Timestamp)
        requires
            i32::MIN <= self.total_milliseconds + other.total_milliseconds <= i32::MAX,
        ensures
            r.total_milliseconds == self.total_milliseconds + other.total_milliseconds,
    {
        Timestamp { total_milliseconds: self.total_milliseconds + other.total_milliseconds }
    }

    /// Difference of two timestamps, by their totals.
    pub fn minus(&self, other: &Timestamp) -> (r: Timestamp)
        requires
            i32::MIN <= self.total_milliseconds - other.total_milliseconds <= i32::MAX,
        ensures
            r.total_milliseconds == self.total_milliseconds - other.total_milliseconds,
    {
        Timestamp { total_milliseconds: self.total_milliseconds - other.total_milliseconds }
    }

    /// Parses timestamp text: an optional sign, then one to three
    /// `:`-separated groups read right to left as
    /// seconds-and-milliseconds, minutes, hours. Lenient forms such as
    /// `"05,500"` and `"02:03"` are accepted; an empty string, a
    /// non-integer sub-field, too many groups or sub-fields, or a total
    /// outside the `i32` range give `None`.
    pub fn parse(text: &str) -> (r: Option<Timestamp>)
        ensures
            (parse_spec(text@) is Some) == (r is Some),
            r is Some ==> r->0.total_milliseconds as int == parse_spec(text@)->0,
    {
        let n = text.unicode_len();
        if n == 0 {
            return None;
        }
        let c0 = text.get_char(0);
        let neg = c0 == '-';
        let rest: &str = if c0 == '-' || c0 == '+' {
            text.substring_char(1, n)
        } else {
            text
        };
        proof {
            assert(rest@ =~= field_body(text@));
        }
        let ghost sgroups = split_on(field_body(text@), sep_fn(SepKind::Colon));
        let groups = split_on_sep(rest, SepKind::Colon);
        proof {
            lemma_split_len(rest@, sep_fn(SepKind::Colon));
            assert(groups.deep_view() =~~= sgroups);
        }
        let glen = groups.len();
        if glen > 3 {
            return None;
        }
        let g0: &String = &groups[glen - 1];
        proof {
            assert(g0@ == sgroups[glen - 1]);
        }
        let ghost ssubs = split_on(g0@, sep_fn(SepKind::SubSec));
        let subs = split_on_sep(g0.as_str(), SepKind::SubSec);
        proof {
            lemma_split_len(g0@, sep_fn(SepKind::SubSec));
            assert(subs.deep_view() =~~= ssubs);
        }
        let slen = subs.len();
        if slen > 2 {
            return None;
        }
        proof {
            assert(subs[0]@ == ssubs[0]);
        }
        let s_f: i32 = match parse_field(subs[0].as_str()) {
            Some(v) => v,
            None => {
                return None;
            },
        };
        let ms_f: i32 = if slen == 2 {
            proof {
                assert(subs[1]@ == ssubs[1]);
            }
            match parse_field(subs[1].as_str()) {
                Some(v) => v,
                None => {
                    return None;
                },
            }
        } else {
            0
        };
        proof {
            assert(group0_val(sgroups[glen - 1]) == Some(
                1000 * (s_f as int) + (if slen == 2 {
                    ms_f as int
                } else {
                    0
                }),
            ));
        }
        let m_f: i32 = if glen >= 2 {
            proof {
                assert(groups[glen - 2]@ == sgroups[glen - 2]);
            }
            match parse_field(groups[glen - 2].as_str()) {
                Some(v) => v,
                None => {
                    return None;
                },
            }
        } else {
            0
        };
        let h_f: i32 = if glen == 3 {
            proof {
                assert(groups[0]@ == sgroups[0]);
            }
            match parse_field(groups[0].as_str()) {
                Some(v) => v,
                None => {
                    return None;
                },
            }
        } else {
            0
        };
        let total: i64 = 1000 * (s_f as i64) + (ms_f as i64) + 60000 * (m_f as i64) + 3600000 * (
        h_f as i64);
        let signed: i64 = if neg {
            -total
        } else {
            total
        };
        proof {
            assert(parse_val(text@) == Some(signed as int));
        }
        if signed < -2147483648 || signed > 2147483647 {
            return None;
        }
        Some(Timestamp { total_milliseconds: signed as i32 })
    }

    /// Renders the canonical form `[-]HH:MM:SS,mmm`.
    pub fn to_text(&self) -> (r: String)
        ensures
            r@ == format_spec(self.total_milliseconds as int),
    {
        let v = self.total_milliseconds;
        let mut out = String::new();
        if v < 0 {
            proof {
                reveal_strlit("-");
            }
            out.append("-");
        }
        let hh = pad2_str(self.abs_u32() / 3600000);
        out.append(hh.as_str());
        proof {
            reveal_strlit(":");
        }
        out.append(":");
        let mm = pad2_str((self.abs_u32() % 3600000) / 60000);
        out.append(mm.as_str());
        out.append(":");
        let ss = pad2_str((self.abs_u32() % 60000) / 1000);
        out.append(ss.as_str());
        proof {
            reveal_strlit(",");
        }
        out.append(",");
        let ms = pad3_str(self.abs_u32() % 1000);
        out.append(ms.as_str());
        proof {
            assert(out@ =~= format_spec(self.total_milliseconds as int));
        }
        out
    }
}

/// A padded field is all digits and keeps its value.
pub proof fn lemma_pad2_val(n: nat)
    ensures
        pad2(n).len() >= 2,
        all_digits(pad2(n)),
        digits_val(pad2(n)) == n,
{
    lemma_dec_digits(n);
    if n < 10 {
        lemma_leading_zero(dec_digits(n));
        assert forall|i: int| 0 <= i < pad2(n).len() implies is_digit(#[trigger] pad2(n)[i]) by {
            if i >= 1 {
                assert(pad2(n)[i] == dec_digits(n)[i - 1]);
            }
        }
    } else {
        lemma_dec_digits(n / 10);
        assert(dec_digits(n).len() == dec_digits(n / 10).len() + 1);
    }
}

/// A three-wide padded field is all digits and keeps its value.
pub proof fn lemma_pad3_val(n: nat)
    ensures
        pad3(n).len() >= 3,
        all_digits(pad3(n)),
        digits_val(pad3(n)) == n,
{
    lemma_dec_digits(n);
    if n < 10 {
        lemma_leading_zero(dec_digits(n));
        lemma_leading_zero(seq!['0'].add(dec_digits(n)));
        assert(seq!['0'].add(seq!['0'].add(dec_digits(n))) =~= pad3(n));
        assert forall|i: int| 0 <= i < pad3(n).len() implies is_digit(#[trigger] pad3(n)[i]) by {
            if i >= 2 {
                assert(pad3(n)[i] == dec_digits(n)[i - 2]);
            }
        }
    } else if n < 100 {
        lemma_leading_zero(dec_digits(n));
        assert forall|i: int| 0 <= i < pad3(n).len() implies is_digit(#[trigger] pad3(n)[i]) by {
            if i >= 1 {
                assert(pad3(n)[i] == dec_digits(n)[i - 1]);
            }
        }
        lemma_dec_digits_len(n);
    } else {
        lemma_dec_digits(n / 10 / 10);
        assert(10 <= n / 10);
        assert(dec_digits(n / 10).len() == dec_digits(n / 10 / 10).len() + 1);
        assert(dec_digits(n).len() == dec_digits(n / 10).len() + 1);
    }
}

/// A nonempty digit string in range reads back as itself.
pub proof fn lemma_field_val_digits(d: Seq<char>)
    requires
        all_digits(d),
        d.len() >= 1,
        digits_val(d) <= 2147483647,
    ensures
        field_val(d) == Some(digits_val(d)),
{
    assert(is_digit(d[0]));
    assert('-' as int == 45 && '+' as int == 43 && '0' as int == 48);
    assert(d[0] != '-' && d[0] != '+');
    assert(field_body(d) == d);
    lemma_digits_nonneg(d);
}

/// Splitting text of the shape `p1 <c> p2` on a family containing `c`,
/// where neither part holds a separator, gives exactly the two parts.
pub proof fn lemma_split_one_sep(p1: Seq<char>, p2: Seq<char>, c: char, sep: spec_fn(char) -> bool)
    requires
        sep(c),
        forall|i: int| 0 <= i < p1.len() ==> !sep(#[trigger] p1[i]),
        forall|i: int| 0 <= i < p2.len() ==> !sep(#[trigger] p2[i]),
    ensures
        split_on(p1.add(seq![c]).add(p2), sep) =~~= seq![p1, p2],
{
    lemma_split_no_sep(p1, sep);
    lemma_split_push_sep(p1, c, sep);
    assert(p1.push(c) =~= p1.add(seq![c]));
    assert(split_on(p1.add(seq![c]), sep) =~~= seq![p1, Seq::<char>::empty()]);
    lemma_split_append_clean(p1.add(seq![c]), p2, sep);
    assert(Seq::<char>::empty().add(p2) =~= p2);
    assert(seq![p1, Seq::<char>::empty()].drop_last().push(p2) =~~= seq![p1, p2]);
}

/// Splitting text of the shape `p1 <c> p2 <c> p3` on a family
/// containing `c`, no part holding a separator, gives the three parts.
pub proof fn lemma_split_two_seps(
    p1: Seq<char>,
    p2: Seq<char>,
    p3: Seq<char>,
    c: char,
    sep: spec_fn(char) -> bool,
)
    requires
        sep(c),
        forall|i: int| 0 <= i < p1.len() ==> !sep(#[trigger] p1[i]),
        forall|i: int| 0 <= i < p2.len() ==> !sep(#[trigger] p2[i]),
        forall|i: int| 0 <= i < p3.len() ==> !sep(#[trigger] p3[i]),
    ensures
        split_on(p1.add(seq![c]).add(p2).add(seq![c]).add(p3), sep) =~~= seq![p1, p2, p3],
{
    lemma_split_one_sep(p1, p2, c, sep);
    let s2 = p1.add(seq![c]).add(p2);
    lemma_split_push_sep(s2, c, sep);
    assert(s2.push(c) =~= s2.add(seq![c]));
    assert(split_on(s2.add(seq![c]), sep) =~~= seq![p1, p2, Seq::<char>::empty()]);
    lemma_split_append_clean(s2.add(seq![c]), p3, sep);
    assert(Seq::<char>::empty().add(p3) =~= p3);
    assert(seq![p1, p2, Seq::<char>::empty()].drop_last().push(p3) =~~= seq![p1, p2, p3]);
}

/// Round trip: canonical text parses back to the value it renders.
/// For any total `v` in range, `parse` accepts `format_spec(v)` and
/// returns exactly `v`, so formatting after parsing reproduces
/// canonical text unchanged.
pub proof fn lemma_round_trip(v: int)
    requires
        -2147483648 <= v <= 2147483647,
    ensures
        parse_spec(format_spec(v)) == Some(v),
{
    let a = abs_val(v);
    let hh = hours_of(v);
    let mm = mins_of(v);
    let ss = secs_of(v);
    let ms = msecs_of(v);
    assert(0 <= a <= 2147483648);
    assert(0 <= hh <= 596) by (nonlinear_arith)
        requires
            0 <= a <= 2147483648 && hh == a / 3600000,
    ;
    assert(0 <= mm < 60) by (nonlinear_arith)
        requires
            a >= 0 && mm == (a % 3600000) / 60000,
    ;
    assert(0 <= ss < 60) by (nonlinear_arith)
        requires
            a >= 0 && ss == (a % 60000) / 1000,
    ;
    assert(0 <= ms < 1000) by (nonlinear_arith)
        requires
            a >= 0 && ms == a % 1000,
    ;
    let ph = pad2(hh as nat);
    let pm = pad2(mm as nat);
    let ps = pad2(ss as nat);
    let pms = pad3(ms as nat);
    lemma_pad2_val(hh as nat);
    lemma_pad2_val(mm as nat);
    lemma_pad2_val(ss as nat);
    lemma_pad3_val(ms as nat);
    let g0 = ps.add(seq![',']).add(pms);
    let body = ph.add(seq![':']).add(pm).add(seq![':']).add(g0);
    let s = format_spec(v);
    assert(s =~= if v < 0 {
        seq!['-'].add(body)
    } else {
        body
    });
    assert('-' as int == 45 && '+' as int == 43 && ':' as int == 58 && ',' as int == 44 && '.'
        as int == 46 && '0' as int == 48 && '9' as int == 57);
    // The sign prefix strips to the digit body.
    assert(is_digit(body[0]) && body[0] == ph[0]);
    assert(field_body(s) =~= body);
    assert(field_sign(s) == if v < 0 {
        -1int
    } else {
        1int
    });
    // The body splits on `:` into the three padded groups.
    let colon = sep_fn(SepKind::Colon);
    assert forall|i: int| 0 <= i < g0.len() implies !colon(#[trigger] g0[i]) by {
        if i < ps.len() {
            assert(g0[i] == ps[i]);
        } else if i == ps.len() {
            assert(g0[i] == ',');
        } else {
            assert(g0[i] == pms[i - ps.len() - 1]);
        }
    }
    lemma_split_two_seps(ph, pm, g0, ':', colon);
    let groups = split_on(field_body(s), colon);
    assert(groups =~~= seq![ph, pm, g0]);
    // The last group splits on `,` into seconds and milliseconds.
    let subsec = sep_fn(SepKind::SubSec);
    assert(g0 =~= ps.add(seq![',']).add(pms));
    lemma_split_one_sep(ps, pms, ',', subsec);
    assert(split_on(g0, subsec) =~~= seq![ps, pms]);
    // Each field reads back as the value it renders.
    lemma_field_val_digits(ph);
    lemma_field_val_digits(pm);
    lemma_field_val_digits(ps);
    lemma_field_val_digits(pms);
    assert(group0_val(g0) == Some(1000 * ss + ms));
    assert(field_val(groups[1]) == Some(mm));
    assert(field_val(groups[0]) == Some(hh));
    lemma_field_decomposition(v);
    assert(parse_val(s) == Some(field_sign(s) * (1000 * ss + ms + 60000 * mm + 3600000 * hh)));
    assert(1000 * ss + ms + 60000 * mm + 3600000 * hh == a);
    assert(field_sign(s) * a == v);
}

/// Round trip over text: canonical text — the rendering of some total
/// `v` in range — parses successfully, and rendering the parsed value
/// reproduces the text unchanged.
pub proof fn lemma_round_trip_text(s: Seq<char>, v: int)
    requires
        -2147483648 <= v <= 2147483647,
        s == format_spec(v),
    ensures
        parse_spec(s) is Some,
        format_spec(parse_spec(s)->0) == s,
{
    lemma_round_trip(v);
}

/// The message shown when a command-line timestamp does not parse.
pub fn invalid_timestamp_format() -> (r: &'static str)
    ensures
        r@ == "The provided timestamp format is incorrect!"@,
{
    "The provided timestamp format is incorrect!"
}

/// Renders `n` zero-padded to at least two digits.
pub fn pad2_str(n: u32) -> (r: String)
    ensures
        r@ == pad2(n as nat),
{
    proof {
        reveal_strlit("0");
    }
    if n < 10 {
        let d = num_to_string(n as u64);
        let r = String::from_str("0").concat(d.as_str());
        proof {
            assert(r@ =~= pad2(n as nat));
        }
        r
    } else {
        num_to_string(n as u64)
    }
}

/// Renders `n` zero-padded to at least three digits.
pub fn pad3_str(n: u32) -> (r: String)
    ensures
        r@ == pad3(n as nat),
{
    proof {
        reveal_strlit("0");
        reveal_strlit("00");
    }
    if n < 10 {
        let d = num_to_string(n as u64);
        let r = String::from_str("00").concat(d.as_str());
        proof {
            assert(r@ =~= pad3(n as nat));
        }
        r
    } else if n < 100 {
        let d = num_to_string(n as u64);
        let r = String::from_str("0").concat(d.as_str());
        proof {
            assert(r@ =~= pad3(n as nat));
        }
        r
    } else {
        num_to_string(n as u64)
    }
}

} // verus!
