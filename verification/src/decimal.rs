//! Exact decimal numbers with seven places behind the point.
//!
//! A column of eight characters can hold at most seven fraction digits, so
//! every number that a coordinate, occupancy or temperature-factor column
//! can spell in plain decimal notation is held without rounding. A number
//! with an exponent is held as the nearest number of ten-millionths, and
//! one that is too large as the largest.

use vstd::prelude::*;
use crate::text::{
    all_digits, digit, digits_value, first_position, lemma_digits_value_push, lemma_first_position,
    lemma_first_position_after, lemma_first_position_range, span,
};

verus! {

/// The number of fraction digits that a [`Decimal`] keeps.
pub const DECIMAL_PLACES: usize = 7;

/// The number of units in one: ten to the power [`DECIMAL_PLACES`].
pub const DECIMAL_ONE: u64 = 10_000_000;

/// A signed decimal number, held as a sign and a whole number of
/// ten-millionths. Zero may carry either sign, as it may in the text.
#[derive(Debug, Clone, Copy, PartialEq, Eq, Hash, Structural)]
pub struct Decimal {
    pub negative: bool,
    pub magnitude: u64,
}

/// Ten to the power `n`.
pub open spec fn power_of_ten(n: nat) -> nat
    decreases n,
{
    if n == 0 {
        1
    } else {
        10 * power_of_ten((n - 1) as nat)
    }
}

/// The position of the first `.` in `s`, or the length of `s` if it holds
/// none.
pub open spec fn point_position(s: Seq<char>) -> int {
    first_position(s, '.')
}

/// The position of the first `e` or `E` in `s`, or the length of `s` if it
/// holds neither.
pub open spec fn exponent_position(s: Seq<char>) -> int {
    if first_position(s, 'e') <= first_position(s, 'E') {
        first_position(s, 'e')
    } else {
        first_position(s, 'E')
    }
}

/// `s` without a leading sign.
pub open spec fn unsigned_part(s: Seq<char>) -> Seq<char> {
    if s.len() > 0 && (s[0] == '+' || s[0] == '-') {
        s.drop_first()
    } else {
        s
    }
}

/// The part of `s` before its exponent mark; all of `s` if it has none.
pub open spec fn mantissa(s: Seq<char>) -> Seq<char> {
    s.take(exponent_position(s))
}

/// Whether `s` holds an exponent mark, `e` or `E`.
pub open spec fn has_exponent(s: Seq<char>) -> bool {
    exponent_position(s) < s.len()
}

/// The part of `s` behind its exponent mark; empty if it has none.
pub open spec fn exponent_text(s: Seq<char>) -> Seq<char> {
    if has_exponent(s) {
        s.skip(exponent_position(s) + 1)
    } else {
        Seq::empty()
    }
}

/// The digits of `s` before its first `.`.
pub open spec fn whole_digits(s: Seq<char>) -> Seq<char> {
    s.take(point_position(s))
}

/// The digits of `s` behind its first `.`; empty if it holds none.
pub open spec fn fraction_digits(s: Seq<char>) -> Seq<char> {
    if point_position(s) < s.len() {
        s.skip(point_position(s) + 1)
    } else {
        Seq::empty()
    }
}

/// Whether `s` is a number in plain decimal notation: digits with at most
/// one `.` among them, and at least one digit.
pub open spec fn decimal_notation(s: Seq<char>) -> bool {
    &&& all_digits(whole_digits(s))
    &&& all_digits(fraction_digits(s))
    &&& whole_digits(s).len() + fraction_digits(s).len() > 0
}

/// Whether `x` is an exponent: an optional sign and at least one digit.
pub open spec fn exponent_notation(x: Seq<char>) -> bool {
    unsigned_part(x).len() > 0 && all_digits(unsigned_part(x))
}

/// Whether `s` is an unsigned number: a number in plain decimal notation,
/// and behind it, if there is an exponent mark, an exponent.
pub open spec fn number_notation(s: Seq<char>) -> bool {
    &&& decimal_notation(mantissa(s))
    &&& has_exponent(s) ==> exponent_notation(exponent_text(s))
}

/// The exponent that the number `s` carries; zero if it has none.
pub open spec fn exponent_of(s: Seq<char>) -> int {
    let x = exponent_text(s);
    if !has_exponent(s) {
        0
    } else if x.len() > 0 && x[0] == '-' {
        -(digits_value(unsigned_part(x)) as int)
    } else {
        digits_value(unsigned_part(x)) as int
    }
}

/// The whole number that the first `cut` digits of `digits` denote,
/// rounded by the digit behind them: five or more rounds upwards. Where
/// `cut` goes beyond the digits, zeros are taken for the digits that are
/// missing; where it lies before them, the number is zero.
pub open spec fn shifted_units(digits: Seq<char>, cut: int) -> nat {
    if cut < 0 {
        0
    } else if cut >= digits.len() {
        digits_value(digits) * power_of_ten((cut - digits.len()) as nat)
    } else if digits[cut] >= '5' {
        digits_value(digits.take(cut)) + 1
    } else {
        digits_value(digits.take(cut))
    }
}

/// The number of ten-millionths that the unsigned number `s` denotes: the
/// point of its mantissa is moved by its exponent and then by seven
/// places, and the digits that are left behind the point round the result
/// to the nearest, a half away from zero.
pub open spec fn decimal_units(s: Seq<char>) -> nat {
    let m = mantissa(s);
    shifted_units(
        whole_digits(m) + fraction_digits(m),
        whole_digits(m).len() + DECIMAL_PLACES + exponent_of(s),
    )
}

/// The largest number of ten-millionths that a [`Decimal`] holds.
pub const DECIMAL_MAX: u64 = 18_446_744_073_709_551_615;

/// The decimal written in `s`: an optional sign, digits with at most one
/// `.` among them, and optionally `e` or `E` with an exponent, read as a
/// number of ten-millionths. Every text of this form is a decimal: a
/// number with digits beyond the seventh fraction digit is rounded to the
/// nearest ten-millionth, a half away from zero, and a number too large
/// for 64 bits of ten-millionths is held as the largest there is, as a
/// float would hold it as an infinity. The words for infinities and
/// not-a-number are no decimals.
pub open spec fn decimal_of(s: Seq<char>) -> Option<Decimal> {
    let body = unsigned_part(s);
    if number_notation(body) {
        Some(
            Decimal {
                negative: s.len() > 0 && s[0] == '-',
                magnitude: if decimal_units(body) <= DECIMAL_MAX {
                    decimal_units(body) as u64
                } else {
                    DECIMAL_MAX
                },
            },
        )
    } else {
        None
    }
}

impl Decimal {
    /// The signed number of ten-millionths that this decimal stands for.
    pub open spec fn units(self) -> int {
        if self.negative {
            -(self.magnitude as int)
        } else {
            self.magnitude as int
        }
    }

    /// The decimal 0.
    pub fn zero() -> (r: Decimal)
        ensures
            r == (Decimal { negative: false, magnitude: 0 }),
    {
        Decimal { negative: false, magnitude: 0 }
    }

    /// The decimal 1.
    pub fn one() -> (r: Decimal)
        ensures
            r == (Decimal { negative: false, magnitude: DECIMAL_ONE }),
    {
        Decimal { negative: false, magnitude: DECIMAL_ONE }
    }
}

/// An exponent from which on a number is zero or too large, whatever its
/// digits: two to the power seventy.
const FAR_EXPONENT: u128 = 1_180_591_620_717_411_303_424;

/// Finds the exponent mark: the position of the first `e` or `E`.
fn find_exponent(s: &[char]) -> (p: usize)
    ensures
        p == exponent_position(s@),
        p <= s.len(),
{
    let mut p: usize = 0;
    while p < s.len() && s[p] != 'e' && s[p] != 'E'
        invariant
            p <= s.len(),
            forall|i: int| 0 <= i < p ==> #[trigger] s@[i] != 'e' && s@[i] != 'E',
        decreases s.len() - p,
    {
        p += 1;
    }
    proof {
        lemma_first_position_range(s@, 'e');
        lemma_first_position_range(s@, 'E');
        if p == s.len() {
            lemma_first_position(s@, 'e', p as int);
            lemma_first_position(s@, 'E', p as int);
        } else {
            if s@[p as int] == 'e' {
                lemma_first_position(s@, 'e', p as int);
            } else {
                lemma_first_position(s@, 'E', p as int);
            }
            if p > 0 {
                lemma_first_position_after(s@, 'e', p - 1);
                lemma_first_position_after(s@, 'E', p - 1);
            }
        }
    }
    p
}

/// Reads a number in plain decimal notation: gives its digits without the
/// point, and how many of them stand before the point.
fn scan_mantissa(m: &[char]) -> (r: Option<(Vec<char>, usize)>)
    ensures
        match r {
            Some((digits, whole)) => {
                &&& decimal_notation(m@)
                &&& digits@ == whole_digits(m@) + fraction_digits(m@)
                &&& whole == whole_digits(m@).len()
                &&& all_digits(digits@)
            },
            None => !decimal_notation(m@),
        },
{
    let n: usize = m.len();
    let ghost body = m@;
    let mut digits: Vec<char> = Vec::new();
    let mut point: Option<usize> = None;
    let mut i: usize = 0;
    while i < n
        invariant
            i <= n,
            n == m@.len(),
            body == m@,
            all_digits(digits@),
            point is None ==> {
                &&& forall|k: int| 0 <= k < i ==> #[trigger] body[k] != '.'
                &&& digits@ == body.take(i as int)
            },
            point matches Some(p) ==> {
                &&& p < i
                &&& point_position(body) == p
                &&& all_digits(whole_digits(body))
                &&& digits@ == whole_digits(body) + body.subrange(p + 1, i as int)
            },
        decreases n - i,
    {
        let c: char = m[i];
        if c == '.' && point.is_none() {
            proof {
                lemma_first_position(body, '.', i as int);
                assert(body.subrange(i + 1, i + 1) =~= Seq::<char>::empty());
                assert(whole_digits(body) + Seq::<char>::empty() =~= body.take(i as int));
            }
            point = Some(i);
        } else if c >= '0' && c <= '9' {
            digits.push(c);
            proof {
                match point {
                    None => {
                        assert(digits@ =~= body.take(i + 1));
                    },
                    Some(p) => {
                        assert(digits@ =~= whole_digits(body) + body.subrange(p + 1, i + 1));
                    },
                }
            }
        } else {
            proof {
                match point {
                    None => {
                        lemma_first_position_after(body, '.', i as int);
                        lemma_first_position_range(body, '.');
                        assert(whole_digits(body)[i as int] == c);
                    },
                    Some(p) => {
                        assert(fraction_digits(body)[i - p - 1] == c);
                    },
                }
            }
            return None;
        }
        i += 1;
    }
    let ghost fraction = fraction_digits(body);
    proof {
        match point {
            None => {
                lemma_first_position(body, '.', n as int);
                assert(body.take(n as int) =~= body);
                assert(whole_digits(body) + fraction_digits(body) =~= body);
            },
            Some(p) => {
                assert(body.subrange(p + 1, n as int) =~= fraction_digits(body));
            },
        }
        assert(digits@ == whole_digits(body) + fraction);
        assert forall|k: int| 0 <= k < whole_digits(body).len() implies digit(
            #[trigger] whole_digits(body)[k],
        ) by {
            assert(digits@[k] == whole_digits(body)[k]);
        }
        assert forall|k: int| 0 <= k < fraction.len() implies digit(#[trigger] fraction[k]) by {
            assert(digits@[whole_digits(body).len() + k] == fraction[k]);
        }
    }
    if digits.len() == 0 {
        return None;
    }
    let whole: usize = match point {
        Some(p) => p,
        None => n,
    };
    Some((digits, whole))
}

/// Reads an exponent: gives its sign and its size, the size as it is while
/// it is below [`FAR_EXPONENT`] and some number from there on otherwise.
fn scan_exponent(x: &[char]) -> (r: Option<(bool, u128)>)
    ensures
        match r {
            Some((negative, size)) => {
                &&& exponent_notation(x@)
                &&& negative == (x@.len() > 0 && x@[0] == '-')
                &&& size < FAR_EXPONENT ==> size == digits_value(unsigned_part(x@))
                &&& size >= FAR_EXPONENT ==> digits_value(unsigned_part(x@)) >= FAR_EXPONENT
            },
            None => !exponent_notation(x@),
        },
{
    let n: usize = x.len();
    let signed: bool = n > 0 && (x[0] == '+' || x[0] == '-');
    let negative: bool = n > 0 && x[0] == '-';
    let start: usize = if signed {
        1
    } else {
        0
    };
    let ghost body = unsigned_part(x@);
    proof {
        if signed {
            assert(body =~= x@.skip(1));
        } else {
            assert(body =~= x@.skip(0));
        }
    }
    if start == n {
        return None;
    }
    let mut size: u128 = 0;
    let mut i: usize = start;
    while i < n
        invariant
            start <= i <= n,
            n == x@.len(),
            body == x@.skip(start as int),
            body == unsigned_part(x@),
            all_digits(body.take(i - start)),
            size < FAR_EXPONENT ==> size == digits_value(body.take(i - start)),
            size >= FAR_EXPONENT ==> digits_value(body.take(i - start)) >= FAR_EXPONENT,
            size < 10 * FAR_EXPONENT + 10,
        decreases n - i,
    {
        let c: char = x[i];
        assert(body[i - start] == c);
        if !(c >= '0' && c <= '9') {
            return None;
        }
        let d: u128 = (c as u32 - '0' as u32) as u128;
        proof {
            let before = body.take(i - start);
            let after = body.take(i - start + 1);
            assert(after =~= before.push(c));
            lemma_digits_value_push(before, c);
            assert forall|k: int| 0 <= k < after.len() implies digit(#[trigger] after[k]) by {
                if k < before.len() {
                    assert(after[k] == before[k]);
                }
            }
        }
        if size < FAR_EXPONENT {
            size = size * 10 + d;
        }
        i += 1;
    }
    assert(body.take(n - start) =~= body);
    Some((negative, size))
}

/// The number that the first `upto` of the digits denote, if it fits 64
/// bits.
fn digits_to_u64(digits: &[char], upto: usize) -> (r: Option<u64>)
    requires
        all_digits(digits@),
        upto <= digits.len(),
    ensures
        match r {
            Some(v) => v == digits_value(digits@.take(upto as int)),
            None => digits_value(digits@.take(upto as int)) > u64::MAX,
        },
{
    let mut value: u64 = 0;
    let mut i: usize = 0;
    while i < upto
        invariant
            i <= upto <= digits.len(),
            all_digits(digits@),
            value == digits_value(digits@.take(i as int)),
        decreases upto - i,
    {
        let c: char = digits[i];
        assert(digit(digits@[i as int]));
        let d: u64 = (c as u32 - '0' as u32) as u64;
        proof {
            assert(digits@.take(i + 1) =~= digits@.take(i as int).push(c));
            lemma_digits_value_push(digits@.take(i as int), c);
        }
        if value > (u64::MAX - d) / 10 {
            proof {
                lemma_digits_value_prefix(digits@.take(upto as int), i + 1);
                assert(digits@.take(upto as int).take(i + 1) =~= digits@.take(i + 1));
            }
            return None;
        }
        value = value * 10 + d;
        i += 1;
    }
    Some(value)
}

/// The first digits of a number denote no more than the number.
pub proof fn lemma_digits_value_prefix(s: Seq<char>, k: int)
    requires
        0 <= k <= s.len(),
    ensures
        digits_value(s.take(k)) <= digits_value(s),
    decreases s.len() - k,
{
    if k < s.len() {
        lemma_digits_value_prefix(s.drop_last(), k);
        assert(s.drop_last().take(k) =~= s.take(k));
        assert(digits_value(s.drop_last()) * 10 >= digits_value(s.drop_last())) by (nonlinear_arith);
    } else {
        assert(s.take(k) =~= s);
    }
}

/// The digits of a number with its point moved to `cut`, as a whole
/// number that fits 64 bits. The exponent is given by its sign and its
/// size, the size exactly while it is below [`FAR_EXPONENT`].
fn shift_digits(
    digits: &[char],
    whole: usize,
    negative: bool,
    size: u128,
    Ghost(exponent): Ghost<nat>,
) -> (r: Option<u64>)
    requires
        all_digits(digits@),
        whole <= digits.len(),
        size < FAR_EXPONENT ==> size == exponent,
        size >= FAR_EXPONENT ==> exponent >= FAR_EXPONENT,
    ensures
        ({
            let cut = whole + DECIMAL_PLACES + if negative {
                -(exponent as int)
            } else {
                exponent as int
            };
            r == if shifted_units(digits@, cut) <= u64::MAX {
                Some(shifted_units(digits@, cut) as u64)
            } else {
                None
            }
        }),
{
    let len: usize = digits.len();
    let ghost cut: int = whole + DECIMAL_PLACES + if negative {
        -(exponent as int)
    } else {
        exponent as int
    };
    assert(digits@.take(len as int) =~= digits@);
    if size >= FAR_EXPONENT {
        if negative {
            return Some(0);
        }
        proof {
            lemma_power_of_ten_grows(20, (cut - len) as nat);
            lemma_power_of_twenty();
        }
        return match digits_to_u64(digits, len) {
            Some(v) => if v == 0 {
                assert(0 * power_of_ten((cut - len) as nat) == 0);
                Some(0)
            } else {
                proof {
                    lemma_product_is_large(v as nat, power_of_ten((cut - len) as nat));
                }
                None
            },
            None => {
                proof {
                    lemma_product_is_large(
                        digits_value(digits@),
                        power_of_ten((cut - len) as nat),
                    );
                }
                None
            },
        };
    }
    let reach: i128 = whole as i128 + DECIMAL_PLACES as i128;
    let at: i128 = if negative {
        reach - size as i128
    } else {
        reach + size as i128
    };
    assert(at == cut);
    if at < 0 {
        return Some(0);
    }
    if at < len as i128 {
        let k: usize = at as usize;
        let up: bool = digits[k] >= '5';
        return match digits_to_u64(digits, k) {
            Some(v) => if up {
                if v == u64::MAX {
                    None
                } else {
                    Some(v + 1)
                }
            } else {
                Some(v)
            },
            None => None,
        };
    }
    let shift: i128 = at - len as i128;
    let value: u64 = match digits_to_u64(digits, len) {
        Some(v) => v,
        None => {
            proof {
                lemma_power_of_ten_positive(shift as nat);
                lemma_product_is_large(digits_value(digits@), power_of_ten(shift as nat));
            }
            return None;
        },
    };
    if value == 0 {
        assert(0 * power_of_ten(shift as nat) == 0);
        return Some(0);
    }
    let mut magnitude: u64 = value;
    let mut t: i128 = 0;
    assert(value * power_of_ten(0) == value) by {
        assert(power_of_ten(0) == 1);
    }
    while t < shift
        invariant
            0 <= t <= shift,
            magnitude == value * power_of_ten(t as nat),
            shifted_units(digits@, cut) == value * power_of_ten(shift as nat),
            cut == whole + DECIMAL_PLACES + if negative {
                -(exponent as int)
            } else {
                exponent as int
            },
        decreases shift - t,
    {
        proof {
            assert(power_of_ten((t + 1) as nat) == 10 * power_of_ten(t as nat));
            assert(value * (10 * power_of_ten(t as nat)) == (value * power_of_ten(t as nat)) * 10)
                by (nonlinear_arith);
        }
        if magnitude > u64::MAX / 10 {
            proof {
                lemma_power_of_ten_grows((t + 1) as nat, shift as nat);
                let next = power_of_ten((t + 1) as nat);
                let last = power_of_ten(shift as nat);
                assert(value * next == magnitude * 10);
                assert(value * last >= value * next) by (nonlinear_arith)
                    requires
                        last >= next,
                ;
                assert(shifted_units(digits@, cut) > u64::MAX);
            }
            return None;
        }
        magnitude = magnitude * 10;
        t += 1;
    }
    Some(magnitude)
}

/// Ten to the power twenty does not fit 64 bits.
proof fn lemma_power_of_twenty()
    ensures
        power_of_ten(20) > u64::MAX,
{
    reveal_with_fuel(power_of_ten, 21);
}

/// A product of a number that does not fit, or is at least one, with a
/// factor that is at least one, or does not fit, does not fit.
proof fn lemma_product_is_large(v: nat, p: nat)
    requires
        (v > u64::MAX && p >= 1) || (v >= 1 && p > u64::MAX),
    ensures
        v * p > u64::MAX,
{
    assert(v * p >= v && v * p >= p) by (nonlinear_arith)
        requires
            v >= 1,
            p >= 1,
    ;
}

/// Reads a decimal: an optional sign, digits with at most one `.` among
/// them, and optionally an exponent. Text in any other form gives `None`.
/// Digits beyond the seventh fraction digit round the number to the
/// nearest ten-millionth, a half away from zero, and a number too large
/// for 64 bits of ten-millionths gives the largest decimal.
pub fn parse_decimal(s: &[char]) -> (r: Option<Decimal>)
    ensures
        r == decimal_of(s@),
{
    let n: usize = s.len();
    let signed: bool = n > 0 && (s[0] == '+' || s[0] == '-');
    let negative: bool = n > 0 && s[0] == '-';
    let start: usize = if signed {
        1
    } else {
        0
    };
    let body = span(s, start, n);
    proof {
        if signed {
            assert(body@ =~= s@.drop_first());
        } else {
            assert(body@ =~= s@);
        }
    }
    let p: usize = find_exponent(body);
    let m = span(body, 0, p);
    assert(m@ =~= mantissa(body@));
    let (digits, whole) = match scan_mantissa(m) {
        Some(found) => found,
        None => {
            return None;
        },
    };
    let mut exponent_negative: bool = false;
    let mut size: u128 = 0;
    if p < body.len() {
        let x = span(body, p + 1, body.len());
        assert(x@ =~= exponent_text(body@));
        match scan_exponent(x) {
            Some((sign, found)) => {
                exponent_negative = sign;
                size = found;
            },
            None => {
                return None;
            },
        }
    }
    let ghost exponent: nat = if has_exponent(body@) {
        digits_value(unsigned_part(exponent_text(body@)))
    } else {
        0
    };
    assert(exponent_of(body@) == if exponent_negative {
        -(exponent as int)
    } else {
        exponent as int
    });
    match shift_digits(digits.as_slice(), whole, exponent_negative, size, Ghost(exponent)) {
        Some(magnitude) => Some(Decimal { negative, magnitude }),
        None => Some(Decimal { negative, magnitude: DECIMAL_MAX }),
    }
}

/// Every power of ten is at least one.
pub proof fn lemma_power_of_ten_positive(n: nat)
    ensures
        power_of_ten(n) >= 1,
    decreases n,
{
    if n > 0 {
        lemma_power_of_ten_positive((n - 1) as nat);
    }
}

/// A larger exponent gives a power of ten that is no smaller.
pub proof fn lemma_power_of_ten_grows(m: nat, n: nat)
    requires
        m <= n,
    ensures
        power_of_ten(m) <= power_of_ten(n),
    decreases n,
{
    if m < n {
        lemma_power_of_ten_grows(m, (n - 1) as nat);
        lemma_power_of_ten_positive((n - 1) as nat);
    }
}

} // verus!
