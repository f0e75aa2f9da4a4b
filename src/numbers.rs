//! Reading numbers, flags and decimal texts out of character sequences.

use vstd::prelude::*;
use crate::text::chars_of;

verus! {

pub open spec fn is_digit(c: char) -> bool {
    '0' <= c && c <= '9'
}

pub open spec fn digit_value(c: char) -> nat {
    ((c as u32) - 48) as nat
}

pub open spec fn all_digits(s: Seq<char>) -> bool {
    forall|i: int| 0 <= i < s.len() ==> is_digit(#[trigger] s[i])
}

/// The value of a run of decimal digits, most significant first.
pub open spec fn digits_value(s: Seq<char>) -> nat
    decreases s.len(),
{
    if s.len() == 0 {
        0
    } else {
        digits_value(s.drop_last()) * 10 + digit_value(s.last())
    }
}

/// An unsigned integer written in decimal, with an optional leading `+`,
/// when its value is at most `max`.
pub open spec fn unsigned_of(s: Seq<char>, max: nat) -> Option<nat> {
    let d = if s.len() > 0 && s[0] == '+' {
        s.drop_first()
    } else {
        s
    };
    if d.len() > 0 && all_digits(d) && digits_value(d) <= max {
        Some(digits_value(d))
    } else {
        None
    }
}

/// `true` and `false`, spelt exactly so.
pub open spec fn bool_of(s: Seq<char>) -> Option<bool> {
    if s == seq!['t', 'r', 'u', 'e'] {
        Some(true)
    } else if s == seq!['f', 'a', 'l', 's', 'e'] {
        Some(false)
    } else {
        None
    }
}

/// A decimal number without its sign: digits with at most one decimal
/// point, and at least one digit.
pub open spec fn is_unsigned_decimal(u: Seq<char>) -> bool {
    &&& forall|i: int| 0 <= i < u.len() ==> is_digit(#[trigger] u[i]) || u[i] == '.'
    &&& forall|i: int, j: int|
        0 <= i < u.len() && 0 <= j < u.len() && #[trigger] u[i] == '.' && #[trigger] u[j] == '.'
            ==> i == j
    &&& exists|i: int| 0 <= i < u.len() && is_digit(#[trigger] u[i])
}

pub open spec fn is_exp_char(c: char) -> bool {
    c == 'e' || c == 'E'
}

/// The exponent after `e` or `E`: an optional sign, then one or more digits.
pub open spec fn is_exponent(x: Seq<char>) -> bool {
    let d = if x.len() > 0 && (x[0] == '+' || x[0] == '-') {
        x.drop_first()
    } else {
        x
    };
    d.len() > 0 && all_digits(d)
}

/// A number without its sign: an unsigned decimal, optionally followed by
/// `e` or `E` and an exponent.
pub open spec fn is_number(u: Seq<char>) -> bool {
    ||| is_unsigned_decimal(u)
    ||| exists|p: int|
        0 <= p < u.len() && is_exp_char(#[trigger] u[p]) && is_unsigned_decimal(u.take(p))
            && is_exponent(u.skip(p + 1))
}

/// `u` spells the word whose letters are `lower`, each letter in either case.
pub open spec fn word_any_case(u: Seq<char>, lower: Seq<char>, upper: Seq<char>) -> bool {
    &&& u.len() == lower.len()
    &&& forall|i: int| 0 <= i < u.len() ==> #[trigger] u[i] == lower[i] || u[i] == upper[i]
}

/// `inf`, `infinity` or `nan`, in any case.
pub open spec fn is_special(u: Seq<char>) -> bool {
    ||| word_any_case(u, seq!['i', 'n', 'f'], seq!['I', 'N', 'F'])
    ||| word_any_case(
        u,
        seq!['i', 'n', 'f', 'i', 'n', 'i', 't', 'y'],
        seq!['I', 'N', 'F', 'I', 'N', 'I', 'T', 'Y'],
    )
    ||| word_any_case(u, seq!['n', 'a', 'n'], seq!['N', 'A', 'N'])
}

/// A floating-point number as std reads an `f64`: an optional sign, then a
/// special word or a number.
pub open spec fn is_decimal(s: Seq<char>) -> bool {
    let u = if s.len() > 0 && (s[0] == '+' || s[0] == '-') {
        s.drop_first()
    } else {
        s
    };
    is_special(u) || is_number(u)
}

/// A measured quantity, kept as the text it was written in; the text reads
/// as an `f64`.
#[derive(Debug, Clone)]
pub struct Decimal {
    pub text: String,
}

impl Decimal {
    pub open spec fn wf(&self) -> bool {
        is_decimal(self.text@)
    }
}

proof fn lemma_digits_value_grows(s: Seq<char>, i: int)
    requires
        0 <= i <= s.len(),
    ensures
        digits_value(s.take(i)) <= digits_value(s),
    decreases s.len() - i,
{
    if i < s.len() {
        lemma_digits_value_grows(s, i + 1);
        assert(s.take(i + 1).drop_last() =~= s.take(i));
        assert(digits_value(s.take(i + 1)) == digits_value(s.take(i)) * 10 + digit_value(
            s.take(i + 1).last(),
        ));
    } else {
        assert(s.take(i) =~= s);
    }
}

/// Reads an unsigned integer that is at most `max` (see `unsigned_of`).
pub fn parse_unsigned(s: &Vec<char>, max: u64) -> (r: Option<u64>)
    ensures
        match r {
            Some(v) => unsigned_of(s@, max as nat) == Some(v as nat),
            None => unsigned_of(s@, max as nat) is None,
        },
{
    let n = s.len();
    let start: usize = if n > 0 && s[0] == '+' {
        1
    } else {
        0
    };
    let ghost d = if s@.len() > 0 && s@[0] == '+' {
        s@.drop_first()
    } else {
        s@
    };
    assert(d =~= s@.skip(start as int));
    if start >= n {
        return None;
    }
    let mut value: u64 = 0;
    let mut i: usize = start;
    proof {
        assert(d.take(0) =~= Seq::<char>::empty());
    }
    while i < n
        invariant
            start <= i <= n,
            n == s@.len(),
            d =~= s@.skip(start as int),
            d == (if s@.len() > 0 && s@[0] == '+' {
                s@.drop_first()
            } else {
                s@
            }),
            value as nat == digits_value(d.take(i - start)),
            value <= max,
            all_digits(d.take(i - start)),
        decreases n - i,
    {
        let c = s[i];
        let ghost k = i - start;
        proof {
            assert(d.take(k + 1).drop_last() =~= d.take(k));
            assert(d[k] == c);
            assert(d.take(k + 1).last() == c);
        }
        if !('0' <= c && c <= '9') {
            assert(!is_digit(d[k]));
            assert(!all_digits(d));
            return None;
        }
        let dv: u64 = ((c as u32) - 48) as u64;
        if value > max / 10 {
            proof {
                assert(value * 10 + dv > max) by (nonlinear_arith)
                    requires
                        value > max / 10,
                ;
                lemma_digits_value_grows(d, k + 1);
            }
            return None;
        }
        assert(value * 10 <= max) by (nonlinear_arith)
            requires
                value <= max / 10,
        ;
        if dv > max - value * 10 {
            proof {
                lemma_digits_value_grows(d, k + 1);
            }
            return None;
        }
        value = value * 10 + dv;
        i = i + 1;
        proof {
            assert forall|j: int| 0 <= j < d.take(k + 1).len() implies is_digit(
                #[trigger] d.take(k + 1)[j],
            ) by {
                if j < k {
                    assert(d.take(k + 1)[j] == d.take(k)[j]);
                }
            }
        }
    }
    proof {
        assert(d.take(n - start) =~= d);
    }
    Some(value)
}

/// Reads `true` or `false` (see `bool_of`).
pub fn parse_bool(s: &Vec<char>) -> (r: Option<bool>)
    ensures
        r == bool_of(s@),
{
    if s.len() == 4 && s[0] == 't' && s[1] == 'r' && s[2] == 'u' && s[3] == 'e' {
        assert(s@ =~= seq!['t', 'r', 'u', 'e']);
        Some(true)
    } else if s.len() == 5 && s[0] == 'f' && s[1] == 'a' && s[2] == 'l' && s[3] == 's' && s[4]
        == 'e' {
        assert(s@ =~= seq!['f', 'a', 'l', 's', 'e']);
        Some(false)
    } else {
        proof {
            if s@ == seq!['t', 'r', 'u', 'e'] {
                assert(s@[0] == 't' && s@[3] == 'e');
            }
            if s@ == seq!['f', 'a', 'l', 's', 'e'] {
                assert(s@[0] == 'f' && s@[4] == 'e');
            }
        }
        None
    }
}

fn unsigned_decimal_ok(s: &Vec<char>, start: usize, end: usize) -> (r: bool)
    requires
        start <= end <= s@.len(),
    ensures
        r == is_unsigned_decimal(s@.subrange(start as int, end as int)),
{
    let ghost u = s@.subrange(start as int, end as int);
    let mut i: usize = start;
    let mut dot: Option<usize> = None;
    let mut digit: Option<usize> = None;
    while i < end
        invariant
            start <= i <= end <= s@.len(),
            u == s@.subrange(start as int, end as int),
            forall|j: int| 0 <= j < i - start ==> is_digit(#[trigger] u[j]) || u[j] == '.',
            match dot {
                Some(p) => start <= p < i && u[p - start] == '.' && forall|j: int|
                    0 <= j < i - start && #[trigger] u[j] == '.' ==> j == p - start,
                None => forall|j: int| 0 <= j < i - start ==> #[trigger] u[j] != '.',
            },
            match digit {
                Some(p) => start <= p < i && is_digit(u[p - start]),
                None => forall|j: int| 0 <= j < i - start ==> !is_digit(#[trigger] u[j]),
            },
        decreases end - i,
    {
        let c = s[i];
        assert(u[i - start] == c);
        if c == '.' {
            if dot.is_some() {
                proof {
                    let p = dot->0;
                    assert(u[p - start] == '.' && u[i - start] == '.');
                }
                return false;
            }
            dot = Some(i);
        } else if '0' <= c && c <= '9' {
            digit = Some(i);
        } else {
            return false;
        }
        i = i + 1;
    }
    match digit {
        Some(p) => {
            assert(is_digit(u[p - start]));
            true
        },
        None => false,
    }
}

fn exponent_ok(s: &Vec<char>, start: usize) -> (r: bool)
    requires
        start <= s@.len(),
    ensures
        r == is_exponent(s@.skip(start as int)),
{
    let ghost x = s@.skip(start as int);
    let signed = start < s.len() && (s[start] == '+' || s[start] == '-');
    let from: usize = if signed {
        start + 1
    } else {
        start
    };
    let ghost d = if x.len() > 0 && (x[0] == '+' || x[0] == '-') {
        x.drop_first()
    } else {
        x
    };
    assert(d =~= s@.skip(from as int));
    if from >= s.len() {
        return false;
    }
    let mut i: usize = from;
    while i < s.len()
        invariant
            from <= i <= s@.len(),
            from < s@.len(),
            x == s@.skip(start as int),
            d == s@.skip(from as int),
            d == (if x.len() > 0 && (x[0] == '+' || x[0] == '-') {
                x.drop_first()
            } else {
                x
            }),
            forall|j: int| 0 <= j < i - from ==> is_digit(#[trigger] d[j]),
        decreases s.len() - i,
    {
        let c = s[i];
        assert(d[i - from] == c);
        if !('0' <= c && c <= '9') {
            assert(!is_digit(d[i - from]));
            return false;
        }
        i = i + 1;
    }
    assert(all_digits(d));
    true
}

/// Whether `s` from `start` on spells `lower`, each letter in either case.
fn word_ok(s: &Vec<char>, start: usize, lower: &str, upper: &str) -> (r: bool)
    requires
        start <= s@.len(),
        lower@.len() == upper@.len(),
    ensures
        r == word_any_case(s@.skip(start as int), lower@, upper@),
{
    let lo = chars_of(lower);
    let up = chars_of(upper);
    let ghost u = s@.skip(start as int);
    if s.len() - start != lo.len() {
        return false;
    }
    let mut i: usize = 0;
    while i < lo.len()
        invariant
            0 <= i <= lo@.len(),
            lo@ == lower@,
            up@ == upper@,
            lo@.len() == up@.len(),
            u == s@.skip(start as int),
            u.len() == lo@.len(),
            start + lo@.len() == s@.len(),
            s@.len() <= usize::MAX,
            forall|j: int| 0 <= j < i ==> #[trigger] u[j] == lo@[j] || u[j] == up@[j],
        decreases lo.len() - i,
    {
        let c = s[start + i];
        assert(u[i as int] == c);
        if c != lo[i] && c != up[i] {
            return false;
        }
        i = i + 1;
    }
    true
}

fn special_ok(s: &Vec<char>, start: usize) -> (r: bool)
    requires
        start <= s@.len(),
    ensures
        r == is_special(s@.skip(start as int)),
{
    proof {
        reveal_strlit("inf");
        reveal_strlit("INF");
        reveal_strlit("infinity");
        reveal_strlit("INFINITY");
        reveal_strlit("nan");
        reveal_strlit("NAN");
        assert("inf"@ =~= seq!['i', 'n', 'f']);
        assert("INF"@ =~= seq!['I', 'N', 'F']);
        assert("infinity"@ =~= seq!['i', 'n', 'f', 'i', 'n', 'i', 't', 'y']);
        assert("INFINITY"@ =~= seq!['I', 'N', 'F', 'I', 'N', 'I', 'T', 'Y']);
        assert("nan"@ =~= seq!['n', 'a', 'n']);
        assert("NAN"@ =~= seq!['N', 'A', 'N']);
    }
    word_ok(s, start, "inf", "INF") || word_ok(s, start, "infinity", "INFINITY") || word_ok(
        s,
        start,
        "nan",
        "NAN",
    )
}

fn number_ok(s: &Vec<char>, start: usize) -> (r: bool)
    requires
        start <= s@.len(),
    ensures
        r == is_number(s@.skip(start as int)),
{
    let ghost u = s@.skip(start as int);
    let mut q: usize = start;
    while q < s.len() && !(s[q] == 'e' || s[q] == 'E')
        invariant
            start <= q <= s@.len(),
            u == s@.skip(start as int),
            forall|j: int| 0 <= j < q - start ==> !is_exp_char(#[trigger] u[j]),
        decreases s.len() - q,
    {
        assert(u[q - start] == s@[q as int]);
        q = q + 1;
    }
    if q == s.len() {
        assert(s@.subrange(start as int, s@.len() as int) =~= u);
        let r = unsigned_decimal_ok(s, start, q);
        proof {
            if exists|p: int|
                0 <= p < u.len() && is_exp_char(#[trigger] u[p]) && is_unsigned_decimal(u.take(p))
                    && is_exponent(u.skip(p + 1)) {
                let p = choose|p: int|
                    0 <= p < u.len() && is_exp_char(#[trigger] u[p]) && is_unsigned_decimal(
                        u.take(p),
                    ) && is_exponent(u.skip(p + 1));
                assert(!is_exp_char(u[p]));
            }
        }
        r
    } else {
        let ghost p0 = q - start;
        assert(u[p0] == s@[q as int]);
        assert(u.take(p0) =~= s@.subrange(start as int, q as int));
        assert(u.skip(p0 + 1) =~= s@.skip(q + 1));
        let r = unsigned_decimal_ok(s, start, q) && exponent_ok(s, q + 1);
        proof {
            assert(!is_unsigned_decimal(u)) by {
                if is_unsigned_decimal(u) {
                    assert(is_digit(u[p0]) || u[p0] == '.');
                }
            }
            if exists|p: int|
                0 <= p < u.len() && is_exp_char(#[trigger] u[p]) && is_unsigned_decimal(u.take(p))
                    && is_exponent(u.skip(p + 1)) {
                let p = choose|p: int|
                    0 <= p < u.len() && is_exp_char(#[trigger] u[p]) && is_unsigned_decimal(
                        u.take(p),
                    ) && is_exponent(u.skip(p + 1));
                if p < p0 {
                    assert(!is_exp_char(u[p]));
                } else if p > p0 {
                    assert(u.take(p)[p0] == u[p0]);
                    assert(is_digit(u.take(p)[p0]) || u.take(p)[p0] == '.');
                }
            }
            if r {
                assert(is_exp_char(u[p0]));
            }
        }
        r
    }
}

/// Checks the text `text` against `is_decimal` and keeps it as a `Decimal`.
pub fn parse_decimal(text: &String) -> (r: Option<Decimal>)
    ensures
        match r {
            Some(d) => is_decimal(text@) && d.text@ == text@ && d.wf(),
            None => !is_decimal(text@),
        },
{
    let s = chars_of(text.as_str());
    let signed = s.len() > 0 && (s[0] == '+' || s[0] == '-');
    let start: usize = if signed {
        1
    } else {
        0
    };
    assert(s@.skip(0) =~= s@);
    assert(signed ==> s@.skip(1) =~= s@.drop_first());
    if special_ok(&s, start) || number_ok(&s, start) {
        Some(Decimal { text: text.clone() })
    } else {
        None
    }
}

} // verus!
