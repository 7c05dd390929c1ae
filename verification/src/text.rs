//! Character-level text machinery shared by the timestamp codec and the
//! cue rewriter: decimal digits, splitting on separator characters, and
//! whitespace trimming, each with a mathematical model over `Seq<char>`.

use vstd::prelude::*;

verus! {

/// An ASCII decimal digit.
pub open spec fn is_digit(c: char) -> bool {
    '0' <= c && c <= '9'
}

/// Numeric value of an ASCII decimal digit.
pub open spec fn digit_val(c: char) -> int {
    c as int - '0' as int
}

/// The digit character for a value in `0..10`.
pub open spec fn digit_char(n: int) -> char {
    if n == 0 {
        '0'
    } else if n == 1 {
        '1'
    } else if n == 2 {
        '2'
    } else if n == 3 {
        '3'
    } else if n == 4 {
        '4'
    } else if n == 5 {
        '5'
    } else if n == 6 {
        '6'
    } else if n == 7 {
        '7'
    } else if n == 8 {
        '8'
    } else {
        '9'
    }
}

/// Every character of `s` is an ASCII decimal digit.
pub open spec fn all_digits(s: Seq<char>) -> bool {
    forall|i: int| 0 <= i < s.len() ==> is_digit(#[trigger] s[i])
}

/// The value of a digit string read in base ten, most significant first.
pub open spec fn digits_val(s: Seq<char>) -> int
    decreases s.len(),
{
    if s.len() == 0 {
        0
    } else {
        digits_val(s.drop_last()) * 10 + digit_val(s.last())
    }
}

/// The canonical (no leading zero) decimal digit string of `n`.
pub open spec fn dec_digits(n: nat) -> Seq<char>
    decreases n,
{
    if n < 10 {
        seq![digit_char(n as int)]
    } else {
        dec_digits(n / 10).push(digit_char((n % 10) as int))
    }
}

/// `digit_char` renders a digit whose value reads back as `n`.
pub proof fn lemma_digit_char_val(n: int)
    requires
        0 <= n < 10,
    ensures
        is_digit(digit_char(n)),
        digit_val(digit_char(n)) == n,
{
}

/// The decimal rendering of `n` is a nonempty digit string worth `n`.
pub proof fn lemma_dec_digits(n: nat)
    ensures
        dec_digits(n).len() >= 1,
        all_digits(dec_digits(n)),
        digits_val(dec_digits(n)) == n,
    decreases n,
{
    if n < 10 {
        lemma_digit_char_val(n as int);
        assert(dec_digits(n) =~= seq![digit_char(n as int)]);
        assert(dec_digits(n).drop_last() =~= Seq::<char>::empty());
        assert(digits_val(Seq::<char>::empty()) == 0);
    } else {
        lemma_dec_digits(n / 10);
        lemma_digit_char_val((n % 10) as int);
        let d = dec_digits(n / 10).push(digit_char((n % 10) as int));
        assert(d.drop_last() =~= dec_digits(n / 10));
        assert(digits_val(d) == (n / 10) * 10 + n % 10);
        assert((n / 10) * 10 + n % 10 == n) by (nonlinear_arith);
        assert forall|i: int| 0 <= i < d.len() implies is_digit(#[trigger] d[i]) by {
            if i < d.len() - 1 {
                assert(d[i] == dec_digits(n / 10)[i]);
            }
        }
    }
}

/// A digit string has a nonnegative value.
pub proof fn lemma_digits_nonneg(s: Seq<char>)
    requires
        all_digits(s),
    ensures
        digits_val(s) >= 0,
    decreases s.len(),
{
    if s.len() > 0 {
        assert(all_digits(s.drop_last())) by {
            assert(forall|i: int|
                0 <= i < s.len() - 1 ==> #[trigger] s.drop_last()[i] == s[i]);
        }
        lemma_digits_nonneg(s.drop_last());
        assert(is_digit(s.last()));
    }
}

/// A digit string is worth at least any of its prefixes.
pub proof fn lemma_digits_prefix(s: Seq<char>, i: int)
    requires
        all_digits(s),
        0 <= i <= s.len(),
    ensures
        digits_val(s.take(i)) <= digits_val(s),
    decreases s.len() - i,
{
    if i == s.len() {
        assert(s.take(i) =~= s);
    } else {
        lemma_digits_prefix(s, i + 1);
        let t = s.take(i + 1);
        assert(t.drop_last() =~= s.take(i));
        assert(all_digits(s.take(i))) by {
            assert(forall|j: int|
                0 <= j < i ==> #[trigger] s.take(i)[j] == s[j]);
        }
        lemma_digits_nonneg(s.take(i));
        assert(is_digit(t.last()));
        assert(digits_val(t) == digits_val(s.take(i)) * 10 + digit_val(t.last()));
        assert(digits_val(s.take(i)) * 10 >= digits_val(s.take(i))) by (nonlinear_arith)
            requires
                digits_val(s.take(i)) >= 0,
        ;
    }
}

/// Digit-string length of `n`: one digit below ten, two below one hundred.
pub proof fn lemma_dec_digits_len(n: nat)
    ensures
        n < 10 ==> dec_digits(n).len() == 1,
        10 <= n < 100 ==> dec_digits(n).len() == 2,
        100 <= n < 1000 ==> dec_digits(n).len() == 3,
{
    if n < 10 {
        assert(dec_digits(n).len() == 1);
    } else if n < 100 {
        assert(n / 10 < 10);
        assert(dec_digits(n / 10).len() == 1);
        assert(dec_digits(n).len() == 2);
    } else if n < 1000 {
        assert(10 <= n / 10 < 100);
        assert(n / 10 / 10 < 10);
        assert(dec_digits(n / 10 / 10).len() == 1);
        assert(dec_digits(n / 10).len() == 2);
        assert(dec_digits(n).len() == 3);
    }
}

/// A leading zero does not change the value of a digit string.
pub proof fn lemma_leading_zero(s: Seq<char>)
    ensures
        digits_val(seq!['0'].add(s)) == digits_val(s),
    decreases s.len(),
{
    let z = seq!['0'].add(s);
    if s.len() == 0 {
        assert(z =~= seq!['0']);
        assert(z.drop_last() =~= Seq::<char>::empty());
        assert(digits_val(Seq::<char>::empty()) == 0);
        assert(digits_val(z) == digits_val(z.drop_last()) * 10 + digit_val(z.last()));
    } else {
        assert(z.drop_last() =~= seq!['0'].add(s.drop_last()));
        assert(z.last() == s.last());
        lemma_leading_zero(s.drop_last());
        assert(digits_val(z) == digits_val(z.drop_last()) * 10 + digit_val(z.last()));
        assert(digits_val(s) == digits_val(s.drop_last()) * 10 + digit_val(s.last()));
    }
}

/// The single-character string for a decimal digit.
pub fn digit_str(d: u8) -> (r: &'static str)
    requires
        0 <= d < 10,
    ensures
        r@ =~= seq![digit_char(d as int)],
{
    proof {
        reveal_strlit("0");
        reveal_strlit("1");
        reveal_strlit("2");
        reveal_strlit("3");
        reveal_strlit("4");
        reveal_strlit("5");
        reveal_strlit("6");
        reveal_strlit("7");
        reveal_strlit("8");
        reveal_strlit("9");
    }
    match d {
        0 => "0",
        1 => "1",
        2 => "2",
        3 => "3",
        4 => "4",
        5 => "5",
        6 => "6",
        7 => "7",
        8 => "8",
        _ => "9",
    }
}

/// The separator families that timestamp and anchor syntax use.
#[derive(Clone, Copy, PartialEq, Eq, Structural, Debug)]
pub enum SepKind {
    /// `:` between hour, minute and second groups.
    Colon,
    /// `,` or `.` between seconds and milliseconds.
    SubSec,
    /// `-` between the two timestamps of an anchor pair.
    Dash,
}

/// The separator predicate of a family.
pub open spec fn sep_fn(k: SepKind) -> spec_fn(char) -> bool {
    match k {
        SepKind::Colon => |c: char| c == ':',
        SepKind::SubSec => |c: char| c == ',' || c == '.',
        SepKind::Dash => |c: char| c == '-',
    }
}

/// Splitting on a separator predicate, as `str::split` does: the
/// separators themselves are dropped, an empty string yields one empty
/// chunk, and adjacent separators yield empty chunks between them.
pub open spec fn split_on(s: Seq<char>, sep: spec_fn(char) -> bool) -> Seq<Seq<char>>
    decreases s.len(),
{
    if s.len() == 0 {
        seq![Seq::<char>::empty()]
    } else {
        let rest = split_on(s.drop_last(), sep);
        if sep(s.last()) {
            rest.push(Seq::<char>::empty())
        } else {
            rest.drop_last().push(rest.last().push(s.last()))
        }
    }
}

pub proof fn lemma_split_len(s: Seq<char>, sep: spec_fn(char) -> bool)
    ensures
        split_on(s, sep).len() >= 1,
    decreases s.len(),
{
    if s.len() > 0 {
        lemma_split_len(s.drop_last(), sep);
    }
}

/// A string without separators splits into itself alone.
pub proof fn lemma_split_no_sep(s: Seq<char>, sep: spec_fn(char) -> bool)
    requires
        forall|i: int| 0 <= i < s.len() ==> !sep(#[trigger] s[i]),
    ensures
        split_on(s, sep) =~~= seq![s],
    decreases s.len(),
{
    if s.len() > 0 {
        lemma_split_no_sep(s.drop_last(), sep);
        assert(!sep(s.last()));
        assert(split_on(s.drop_last(), sep) =~~= seq![s.drop_last()]);
        assert(s.drop_last().push(s.last()) =~= s);
    }
}

/// Appending a separator appends one empty chunk.
pub proof fn lemma_split_push_sep(s: Seq<char>, c: char, sep: spec_fn(char) -> bool)
    requires
        sep(c),
    ensures
        split_on(s.push(c), sep) =~~= split_on(s, sep).push(Seq::<char>::empty()),
{
    assert(s.push(c).drop_last() =~= s);
}

/// Appending a non-separator extends the last chunk.
pub proof fn lemma_split_push_char(s: Seq<char>, c: char, sep: spec_fn(char) -> bool)
    requires
        !sep(c),
    ensures
        split_on(s.push(c), sep) =~~= split_on(s, sep).drop_last().push(
            split_on(s, sep).last().push(c),
        ),
{
    assert(s.push(c).drop_last() =~= s);
}

/// Appending separator-free text extends the last chunk.
pub proof fn lemma_split_append_clean(s: Seq<char>, t: Seq<char>, sep: spec_fn(char) -> bool)
    requires
        forall|i: int| 0 <= i < t.len() ==> !sep(#[trigger] t[i]),
    ensures
        split_on(s.add(t), sep) =~~= split_on(s, sep).drop_last().push(
            split_on(s, sep).last().add(t),
        ),
    decreases t.len(),
{
    lemma_split_len(s, sep);
    if t.len() == 0 {
        assert(s.add(t) =~= s);
        assert(split_on(s, sep).last().add(t) =~= split_on(s, sep).last());
        assert(split_on(s, sep).drop_last().push(split_on(s, sep).last()) =~~= split_on(s, sep));
    } else {
        lemma_split_append_clean(s, t.drop_last(), sep);
        assert(s.add(t) =~= s.add(t.drop_last()).push(t.last()));
        lemma_split_push_char(s.add(t.drop_last()), t.last(), sep);
        let q = split_on(s, sep);
        let p = split_on(s.add(t.drop_last()), sep);
        assert(p =~~= q.drop_last().push(q.last().add(t.drop_last())));
        assert(p.drop_last() =~~= q.drop_last());
        assert(p.last() == q.last().add(t.drop_last()));
        assert(q.last().add(t.drop_last()).push(t.last()) =~= q.last().add(t));
    }
}

/// Splits `s` on the separators of family `k`, as `str::split` does.
pub fn split_on_sep(s: &str, k: SepKind) -> (r: Vec<String>)
    ensures
        r.deep_view() =~~= split_on(s@, sep_fn(k)),
{
    let n = s.unicode_len();
    let mut r: Vec<String> = Vec::new();
    let mut start: usize = 0;
    let mut i: usize = 0;
    while i < n
        invariant
            start <= i <= n,
            n == s@.len(),
            split_on(s@.take(i as int), sep_fn(k)) =~~= r.deep_view().push(
                s@.subrange(start as int, i as int),
            ),
        decreases n - i,
    {
        let c = s.get_char(i);
        let ghost pre = s@.take(i as int);
        let ghost post = s@.take(i as int + 1);
        proof {
            assert(post =~= pre.push(s@[i as int]));
        }
        if sep_matches(k, c) {
            proof {
                lemma_split_push_sep(pre, s@[i as int], sep_fn(k));
            }
            let chunk = s.substring_char(start, i);
            r.push(String::from_str(chunk));
            start = i + 1;
            proof {
                assert(s@.subrange(start as int, i as int + 1) =~= Seq::<char>::empty());
            }
        } else {
            proof {
                lemma_split_push_char(pre, s@[i as int], sep_fn(k));
                let q = split_on(pre, sep_fn(k));
                assert(q.drop_last() =~~= r.deep_view());
                assert(q.last() == s@.subrange(start as int, i as int));
                assert(
                    s@.subrange(start as int, i as int).push(s@[i as int]) =~= s@.subrange(
                        start as int,
                        i as int + 1,
                    )
                );
            }
        }
        i = i + 1;
    }
    let chunk = s.substring_char(start, n);
    r.push(String::from_str(chunk));
    proof {
        assert(s@.take(n as int) =~= s@);
    }
    r
}

/// Whether `c` belongs to the separator family `k`.
pub fn sep_matches(k: SepKind, c: char) -> (b: bool)
    ensures
        b == sep_fn(k)(c),
{
    match k {
        SepKind::Colon => c == ':',
        SepKind::SubSec => c == ',' || c == '.',
        SepKind::Dash => c == '-',
    }
}

/// A Unicode whitespace character, the set `str::trim` removes.
pub open spec fn is_ws(c: char) -> bool {
    c == ' ' || c == '\t' || c == '\n' || c == '\r' || c == '\u{b}' || c == '\u{c}' || c
        == '\u{85}' || c == '\u{a0}' || c == '\u{1680}' || ('\u{2000}' <= c && c <= '\u{200a}') || c
        == '\u{2028}' || c == '\u{2029}' || c == '\u{202f}' || c == '\u{205f}' || c == '\u{3000}'
}

/// `s` with leading and trailing whitespace removed.
pub open spec fn trim_spec(s: Seq<char>) -> Seq<char>
    decreases s.len(),
{
    if s.len() > 0 && is_ws(s[0]) {
        trim_spec(s.skip(1))
    } else if s.len() > 0 && is_ws(s.last()) {
        trim_spec(s.drop_last())
    } else {
        s
    }
}

/// Whether `c` is Unicode whitespace.
pub fn is_ws_char(c: char) -> (b: bool)
    ensures
        b == is_ws(c),
{
    c == ' ' || c == '\t' || c == '\n' || c == '\r' || c == '\u{b}' || c == '\u{c}' || c
        == '\u{85}' || c == '\u{a0}' || c == '\u{1680}' || (c >= '\u{2000}' && c <= '\u{200a}') || c
        == '\u{2028}' || c == '\u{2029}' || c == '\u{202f}' || c == '\u{205f}' || c == '\u{3000}'
}

/// Removes leading and trailing whitespace, as `str::trim` does.
pub fn trim(s: &str) -> (r: String)
    ensures
        r@ == trim_spec(s@),
{
    let n = s.unicode_len();
    let mut a: usize = 0;
    proof {
        assert(s@.skip(0) =~= s@);
    }
    while a < n && is_ws_char(s.get_char(a))
        invariant
            0 <= a <= n,
            n == s@.len(),
            trim_spec(s@) == trim_spec(s@.skip(a as int)),
        decreases n - a,
    {
        proof {
            assert(s@.skip(a as int)[0] == s@[a as int]);
            assert(s@.skip(a as int).skip(1) =~= s@.skip(a as int + 1));
        }
        a = a + 1;
    }
    let mut b: usize = n;
    while b > a && is_ws_char(s.get_char(b - 1))
        invariant
            a <= b <= n,
            n == s@.len(),
            a < n ==> !is_ws(s@[a as int]),
            a == n ==> b == a,
            trim_spec(s@) == trim_spec(s@.subrange(a as int, b as int)),
        decreases b,
    {
        proof {
            let seg = s@.subrange(a as int, b as int);
            assert(seg.last() == s@[b - 1 as int]);
            assert(seg[0] == s@[a as int]);
            assert(seg.drop_last() =~= s@.subrange(a as int, b as int - 1));
        }
        b = b - 1;
    }
    proof {
        let seg = s@.subrange(a as int, b as int);
        if a < b {
            assert(seg[0] == s@[a as int]);
            assert(seg.last() == s@[b - 1 as int]);
        }
        assert(trim_spec(seg) == seg);
    }
    let res = s.substring_char(a, b);
    String::from_str(res)
}

/// Renders `n` in decimal, most significant digit first, no padding.
pub fn num_to_string(n: u64) -> (r: String)
    ensures
        r@ == dec_digits(n as nat),
    decreases n,
{
    if n < 10 {
        let s = digit_str(n as u8);
        String::from_str(s)
    } else {
        let high = num_to_string(n / 10);
        let low = digit_str((n % 10) as u8);
        high.concat(low)
    }
}

} // verus!
