//! Token limits: `500`, `10k`, `1.5K`.
use vstd::prelude::*;
use vstd::string::*;

use crate::text::{chars_of, debug_quoted, find_char, first_index, lemma_first_index, str_debug};

verus! {

pub open spec fn is_digit(c: char) -> bool {
    '0' <= c <= '9'
}

pub open spec fn all_digits(s: Seq<char>) -> bool {
    forall|i: int| 0 <= i < s.len() ==> #[trigger] is_digit(s[i])
}

/// The value of a digit string, most significant digit first.
pub open spec fn digits_value(s: Seq<char>) -> int
    decreases s.len(),
{
    if s.len() == 0 {
        0
    } else {
        digits_value(s.drop_last()) * 10 + (s.last() as int - 48)
    }
}

/// An unsigned decimal integer: one or more ASCII digits whose value fits in `u64`.
pub open spec fn parse_digits(s: Seq<char>) -> Option<u64> {
    if s.len() > 0 && all_digits(s) && digits_value(s) <= u64::MAX {
        Some(digits_value(s) as u64)
    } else {
        None
    }
}

/// Multiplier of a thousandths fraction of one to three digits.
pub open spec fn fraction_scale(len: nat) -> int {
    if len == 1 {
        100
    } else if len == 2 {
        10
    } else {
        1
    }
}

/// `whole[.fraction]` followed by `k` or `K`, in thousands.
pub open spec fn parse_thousands(number: Seq<char>) -> Option<u64> {
    match first_index(number, '.') {
        None => match parse_digits(number) {
            Some(w) => if w * 1000 <= u64::MAX {
                Some((w * 1000) as u64)
            } else {
                None
            },
            None => None,
        },
        Some(d) => {
            let whole = number.take(d);
            let fraction = number.skip(d + 1);
            match (parse_digits(whole), parse_digits(fraction)) {
                (Some(w), Some(f)) => if 1 <= fraction.len() <= 3 && w * 1000 + f
                    * fraction_scale(fraction.len()) <= u64::MAX {
                    Some((w * 1000 + f * fraction_scale(fraction.len())) as u64)
                } else {
                    None
                },
                _ => None,
            }
        },
    }
}

/// The accepted limit grammar: an unsigned decimal integer, or a decimal with up
/// to three fractional digits followed by `k` or `K` (times 1000). The value must fit in `u64`.
pub open spec fn spec_parse_limit(value: Seq<char>) -> Option<u64> {
    if value.len() > 0 && (value.last() == 'k' || value.last() == 'K') {
        parse_thousands(value.drop_last())
    } else {
        parse_digits(value)
    }
}

/// The error text for a rejected limit.
pub open spec fn limit_error(value: Seq<char>) -> Seq<char> {
    "Invalid token limit "@ + str_debug(value) + "; use 500, 10k, or 1.5k"@
}

proof fn lemma_digits_value_nonneg(s: Seq<char>)
    requires
        all_digits(s),
    ensures
        digits_value(s) >= 0,
    decreases s.len(),
{
    if s.len() > 0 {
        assert(all_digits(s.drop_last())) by {
            assert forall|i: int| 0 <= i < s.drop_last().len() implies #[trigger] is_digit(
                s.drop_last()[i],
            ) by {
                assert(is_digit(s[i]));
            }
        }
        lemma_digits_value_nonneg(s.drop_last());
        assert(is_digit(s[s.len() - 1]));
    }
}

pub open spec fn ten_pow(n: nat) -> int
    decreases n,
{
    if n == 0 {
        1
    } else {
        10 * ten_pow((n - 1) as nat)
    }
}

proof fn lemma_digits_value_upper(s: Seq<char>)
    requires
        all_digits(s),
    ensures
        digits_value(s) < ten_pow(s.len()),
    decreases s.len(),
{
    if s.len() > 0 {
        let p = s.drop_last();
        assert(all_digits(p)) by {
            assert forall|i: int| 0 <= i < p.len() implies #[trigger] is_digit(p[i]) by {
                assert(is_digit(s[i]));
            }
        }
        lemma_digits_value_upper(p);
        assert(is_digit(s[s.len() - 1]));
    }
}

/// A digit string is worth at least any of its prefixes.
proof fn lemma_digits_value_prefix(s: Seq<char>, j: int)
    requires
        all_digits(s),
        0 <= j <= s.len(),
    ensures
        digits_value(s) >= digits_value(s.take(j)),
    decreases s.len(),
{
    if j < s.len() {
        let p = s.drop_last();
        assert(all_digits(p)) by {
            assert forall|i: int| 0 <= i < p.len() implies #[trigger] is_digit(p[i]) by {
                assert(is_digit(s[i]));
            }
        }
        lemma_digits_value_prefix(p, j);
        assert(p.take(j) == s.take(j));
        lemma_digits_value_nonneg(p);
        assert(is_digit(s[s.len() - 1]));
    } else {
        assert(s.take(j) == s);
    }
}

/// Parses `c[lo..hi]` as an unsigned decimal integer.
fn digits_in(c: &Vec<char>, lo: usize, hi: usize) -> (r: Option<u64>)
    requires
        lo <= hi <= c@.len(),
    ensures
        r == parse_digits(c@.subrange(lo as int, hi as int)),
{
    let ghost s = c@.subrange(lo as int, hi as int);
    if lo == hi {
        return None;
    }
    let mut acc: u64 = 0;
    let mut i: usize = lo;
    while i < hi
        invariant
            lo <= i <= hi <= c@.len(),
            s == c@.subrange(lo as int, hi as int),
            all_digits(s.take(i - lo)),
            acc as int == digits_value(s.take(i - lo)),
        decreases hi - i,
    {
        let ch = c[i];
        if !(ch >= '0' && ch <= '9') {
            assert(!is_digit(s[i - lo]));
            return None;
        }
        assert(s.take(i - lo + 1).drop_last() == s.take(i - lo));
        assert(all_digits(s.take(i - lo + 1))) by {
            assert forall|k: int| 0 <= k < s.take(i - lo + 1).len() implies #[trigger] is_digit(
                s.take(i - lo + 1)[k],
            ) by {
                if k < i - lo {
                    assert(is_digit(s.take(i - lo)[k]));
                }
            }
        }
        let d = (ch as u32 - 48) as u64;
        match acc.checked_mul(10) {
            Some(m) => match m.checked_add(d) {
                Some(a) => {
                    acc = a;
                },
                None => {
                    proof {
                        if all_digits(s) {
                            lemma_digits_value_prefix(s, i - lo + 1);
                        }
                    }
                    return None;
                },
            },
            None => {
                proof {
                    if all_digits(s) {
                        lemma_digits_value_prefix(s, i - lo + 1);
                    }
                }
                return None;
            },
        }
        i = i + 1;
    }
    assert(s.take(hi - lo) == s);
    Some(acc)
}

fn thousands(c: &Vec<char>, hi: usize) -> (r: Option<u64>)
    requires
        hi <= c@.len(),
    ensures
        r == parse_thousands(c@.take(hi as int)),
{
    let ghost number = c@.take(hi as int);
    assert(c@.subrange(0, hi as int) == number);
    match find_char(c, 0, hi, '.') {
        None => match digits_in(c, 0, hi) {
            Some(w) => w.checked_mul(1000),
            None => None,
        },
        Some(d) => {
            let d = d;
            proof {
                lemma_first_index(number, '.');
            }
            assert(number.take(d as int) == c@.subrange(0, d as int));
            assert(number.skip(d + 1) == c@.subrange(d + 1, hi as int));
            let whole = digits_in(c, 0, d);
            let fraction = digits_in(c, d + 1, hi);
            match (whole, fraction) {
                (Some(w), Some(f)) => {
                    let len = hi - (d + 1);
                    if len < 1 || len > 3 {
                        return None;
                    }
                    proof {
                        let fr = c@.subrange(d + 1, hi as int);
                        assert(fr.len() == len);
                        assert(parse_digits(fr) == Some(f));
                        lemma_digits_value_upper(fr);
                        lemma_digits_value_nonneg(fr);
                        assert(f < ten_pow(fr.len()));
                        reveal_with_fuel(ten_pow, 4);
                        assert(ten_pow(1) == 10);
                        assert(ten_pow(2) == 100);
                    }
                    let scaled: u64 = if len == 1 {
                        f * 100
                    } else if len == 2 {
                        f * 10
                    } else {
                        f
                    };
                    match w.checked_mul(1000) {
                        Some(m) => m.checked_add(scaled),
                        None => None,
                    }
                },
                _ => None,
            }
        },
    }
}

/// Parse an integer token budget or a decimal-k budget: `500`, `10k`, `1.5K`.
/// k means 1000. Fractional tokens, negatives, whitespace, and overflow fail.
pub fn parse_limit(value: &str) -> (r: Result<u64, String>)
    ensures
        r is Ok <==> spec_parse_limit(value@) is Some,
        r matches Ok(n) ==> spec_parse_limit(value@) == Some(n),
        r matches Err(e) ==> e@ == limit_error(value@),
{
    let c = chars_of(value);
    let n = c.len();
    let parsed = if n > 0 && (c[n - 1] == 'k' || c[n - 1] == 'K') {
        assert(c@.take(n - 1) == value@.drop_last());
        thousands(&c, n - 1)
    } else {
        assert(c@.subrange(0, n as int) == value@);
        digits_in(&c, 0, n)
    };
    match parsed {
        Some(v) => Ok(v),
        None => {
            let mut e = String::from_str("Invalid token limit ");
            let q = debug_quoted(value);
            e.append(q.as_str());
            e.append("; use 500, 10k, or 1.5k");
            proof {
                reveal_strlit("Invalid token limit ");
                reveal_strlit("; use 500, 10k, or 1.5k");
            }
            Err(e)
        },
    }
}

/// Units: a `k` or `K` suffix multiplies a whole number by 1000, so `1k` and
/// `1000` are the same limit.
pub proof fn law_thousands_suffix(digits: Seq<char>, suffix: char)
    requires
        digits.len() > 0,
        all_digits(digits),
        suffix == 'k' || suffix == 'K',
        digits_value(digits) * 1000 <= u64::MAX,
    ensures
        spec_parse_limit(digits.push(suffix)) == Some((digits_value(digits) * 1000) as u64),
        spec_parse_limit(digits) == Some(digits_value(digits) as u64),
{
    lemma_digits_value_nonneg(digits);
    assert(digits.push(suffix).drop_last() =~= digits);
    lemma_first_index(digits, '.');
    if first_index(digits, '.') is Some {
        let d = first_index(digits, '.').unwrap();
        assert(is_digit(digits[d]));
    }
    assert(digits.last() != 'k' && digits.last() != 'K') by {
        assert(is_digit(digits[digits.len() - 1]));
    }
}


proof fn lemma_no_dot(w: Seq<char>)
    requires
        all_digits(w),
    ensures
        first_index(w, '.') is None,
{
    lemma_first_index(w, '.');
    if first_index(w, '.') is Some {
        let d = first_index(w, '.').unwrap();
        assert(is_digit(w[d]));
    }
}

/// A plain limit: a nonempty run of digits is its decimal value (leading
/// zeros allowed), when that fits in `u64`.
pub proof fn law_limit_digits(v: Seq<char>)
    requires
        v.len() > 0,
        all_digits(v),
    ensures
        spec_parse_limit(v) == (if digits_value(v) <= u64::MAX {
            Some(digits_value(v) as u64)
        } else {
            None
        }),
{
    assert(is_digit(v[v.len() - 1]));
}

/// A limit in thousands: digits `w`, optionally `.` and one to three
/// fraction digits `f`, then `k` or `K`, is `w * 1000 + f * 10^(3 - |f|)`,
/// when that fits in `u64`.
pub proof fn law_limit_thousands(w: Seq<char>, f: Seq<char>, k: char)
    requires
        w.len() > 0,
        all_digits(w),
        f.len() <= 3,
        all_digits(f),
        k == 'k' || k == 'K',
    ensures
        ({
            let v = if f.len() == 0 {
                w.push(k)
            } else {
                w + seq!['.'] + f + seq![k]
            };
            let n = digits_value(w) * 1000 + digits_value(f) * ten_pow((3 - f.len()) as nat);
            spec_parse_limit(v) == if n <= u64::MAX {
                Some(n as u64)
            } else {
                None
            }
        }),
{
    lemma_digits_value_nonneg(w);
    lemma_digits_value_nonneg(f);
    assert(ten_pow(0) == 1);
    assert(ten_pow(1) == 10);
    assert(ten_pow(2) == 100);
    assert(ten_pow(3) == 1000);
    if f.len() == 0 {
        assert(digits_value(f) == 0);
        assert(w.push(k).drop_last() =~= w);
        lemma_no_dot(w);
    } else {
        let body = w + seq!['.'] + f;
        let v = body + seq![k];
        assert(v.drop_last() =~= body);
        lemma_first_index(body, '.');
        assert(body[w.len() as int] == '.');
        let d = first_index(body, '.').unwrap();
        assert forall|j: int| 0 <= j < w.len() implies body[j] != '.' by {
            assert(body[j] == w[j]);
            assert(is_digit(w[j]));
        }
        assert(d == w.len());
        assert(body.take(d) =~= w);
        assert(body.skip(d + 1) =~= f);
    }
}

/// Nothing else is a limit: an accepted value is a run of digits, or digits
/// followed by `k` or `K`, or digits, `.`, one to three digits and `k` or `K`.
pub proof fn law_limit_forms(v: Seq<char>)
    ensures
        spec_parse_limit(v) is Some ==> {
            ||| v.len() > 0 && all_digits(v)
            ||| v.len() > 1 && (v.last() == 'k' || v.last() == 'K') && all_digits(v.drop_last())
            ||| exists|d: int|
                0 < d < v.len() - 2 && v[d] == '.' && (v.last() == 'k' || v.last() == 'K') && all_digits(
                    v.take(d),
                ) && all_digits(#[trigger] v.subrange(d + 1, v.len() - 1)) && v.len() - 1 - (d + 1) <= 3
        },
{
    if spec_parse_limit(v) is Some && v.len() > 0 && (v.last() == 'k' || v.last() == 'K') {
        let number = v.drop_last();
        lemma_first_index(number, '.');
        if let Some(d) = first_index(number, '.') {
            assert(number.take(d) =~= v.take(d));
            assert(number.skip(d + 1) =~= v.subrange(d + 1, v.len() - 1));
            assert(v[d] == number[d]);
        }
    }
}
} // verus!
