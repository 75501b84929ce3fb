//! Numbers and padded fields as text: the vocabulary in which records are
//! written back into fixed columns.

use vstd::prelude::*;
use crate::decimal::{power_of_ten, Decimal, DECIMAL_PLACES};
use crate::text::{
    all_digits, digit, digit_value, digits_value, lemma_digits_value_push, string_of,
};

verus! {

/// The character of the digit `d`.
pub open spec fn digit_char(d: nat) -> char
    recommends
        d < 10,
{
    (('0' as u32) + d as u32) as char
}

/// `n` in base ten, without leading zeros; zero is one digit.
pub open spec fn decimal_digits(n: nat) -> Seq<char>
    decreases n,
{
    if n < 10 {
        seq![digit_char(n)]
    } else {
        decimal_digits(n / 10).push(digit_char(n % 10))
    }
}

/// The last `places` digits of `n` in base ten, with leading zeros.
pub open spec fn fixed_digits(n: nat, places: nat) -> Seq<char>
    decreases places,
{
    if places == 0 {
        Seq::empty()
    } else {
        fixed_digits(n / 10, (places - 1) as nat).push(digit_char(n % 10))
    }
}

/// `n` blanks.
pub open spec fn blanks(n: int) -> Seq<char> {
    Seq::new(
        if n > 0 {
            n as nat
        } else {
            0
        },
        |i: int| ' ',
    )
}

/// `s` with blanks before it up to a width of `width`; as it is if it is
/// wider.
pub open spec fn right_aligned(s: Seq<char>, width: int) -> Seq<char> {
    blanks(width - s.len()) + s
}

/// `s` with blanks behind it up to a width of `width`; as it is if it is
/// wider.
pub open spec fn left_aligned(s: Seq<char>, width: int) -> Seq<char> {
    s + blanks(width - s.len())
}

/// The magnitude of `d` in units of ten to the minus `places`, rounded to
/// the nearest, a half upwards.
pub open spec fn rounded_magnitude(d: Decimal, places: nat) -> nat
    recommends
        places <= DECIMAL_PLACES,
{
    let unit = power_of_ten((DECIMAL_PLACES - places) as nat);
    let whole = d.magnitude as nat / unit;
    if 2 * (d.magnitude as nat % unit) >= unit {
        whole + 1
    } else {
        whole
    }
}

/// `d` with `places` digits behind the point: a minus sign if `d` carries
/// one, the whole part without leading zeros, a point, and the fraction,
/// rounded to the nearest with a half going away from zero.
pub open spec fn fixed_notation(d: Decimal, places: nat) -> Seq<char>
    recommends
        0 < places <= DECIMAL_PLACES,
{
    let r = rounded_magnitude(d, places);
    let sign = if d.negative {
        seq!['-']
    } else {
        Seq::<char>::empty()
    };
    sign + decimal_digits(r / power_of_ten(places)) + seq!['.'] + fixed_digits(r, places)
}

/// The digit characters are digits, and stand for what they were made of.
pub proof fn lemma_digit_char(d: nat)
    requires
        d < 10,
    ensures
        digit(digit_char(d)),
        digit_value(digit_char(d)) == d,
{
}

/// A number written in base ten is read back as itself.
pub proof fn lemma_decimal_digits_value(n: nat)
    ensures
        all_digits(decimal_digits(n)),
        decimal_digits(n).len() > 0,
        digits_value(decimal_digits(n)) == n,
    decreases n,
{
    lemma_digit_char(n % 10);
    if n < 10 {
        let s = decimal_digits(n);
        assert(s.drop_last() =~= Seq::<char>::empty());
        assert(digits_value(s.drop_last()) == 0);
    } else {
        lemma_decimal_digits_value(n / 10);
        lemma_digits_value_push(decimal_digits(n / 10), digit_char(n % 10));
    }
}

/// The character of the digit `d`.
pub(crate) fn char_of_digit(d: u8) -> (c: char)
    requires
        d < 10,
    ensures
        c == digit_char(d as nat),
{
    (48u8 + d) as char
}

/// Appends the digits of `n` in base ten.
pub fn push_number(out: &mut Vec<char>, n: u128)
    ensures
        final(out)@ == old(out)@ + decimal_digits(n as nat),
    decreases n,
{
    if n >= 10 {
        push_number(out, n / 10);
    }
    let d: u8 = (n % 10) as u8;
    out.push(char_of_digit(d));
    assert(out@ =~= old(out)@ + decimal_digits(n as nat));
}

/// Appends the last `places` digits of `n` in base ten, with leading zeros.
pub fn push_fixed_digits(out: &mut Vec<char>, n: u64, places: usize)
    ensures
        final(out)@ == old(out)@ + fixed_digits(n as nat, places as nat),
    decreases places,
{
    if places == 0 {
        assert(out@ =~= old(out)@ + fixed_digits(n as nat, 0));
    } else {
        push_fixed_digits(out, n / 10, places - 1);
        let d: u8 = (n % 10) as u8;
        out.push(char_of_digit(d));
        assert(out@ =~= old(out)@ + fixed_digits(n as nat, places as nat));
    }
}

/// Appends `n` blanks.
pub fn push_blanks(out: &mut Vec<char>, n: usize)
    ensures
        final(out)@ == old(out)@ + blanks(n as int),
{
    let mut i: usize = 0;
    assert(out@ =~= old(out)@ + blanks(0));
    while i < n
        invariant
            i <= n,
            out@ == old(out)@ + blanks(i as int),
        decreases n - i,
    {
        out.push(' ');
        assert(out@ =~= old(out)@ + blanks(i + 1));
        i += 1;
    }
}

/// Appends the characters of `s`.
pub fn push_all(out: &mut Vec<char>, s: &[char])
    ensures
        final(out)@ == old(out)@ + s@,
{
    let mut i: usize = 0;
    while i < s.len()
        invariant
            i <= s.len(),
            out@ == old(out)@ + s@.take(i as int),
        decreases s.len() - i,
    {
        out.push(s[i]);
        assert(out@ =~= old(out)@ + s@.take(i + 1));
        i += 1;
    }
    assert(s@.take(s.len() as int) =~= s@);
}

/// Appends `s` with blanks before it up to a width of `width`.
pub fn push_right_aligned(out: &mut Vec<char>, s: &[char], width: usize)
    ensures
        final(out)@ == old(out)@ + right_aligned(s@, width as int),
{
    if s.len() < width {
        push_blanks(out, width - s.len());
    } else {
        assert(blanks(width - s.len()) =~= Seq::<char>::empty());
    }
    push_all(out, s);
    assert(out@ =~= old(out)@ + right_aligned(s@, width as int));
}

/// Appends `s` with blanks behind it up to a width of `width`.
pub fn push_left_aligned(out: &mut Vec<char>, s: &[char], width: usize)
    ensures
        final(out)@ == old(out)@ + left_aligned(s@, width as int),
{
    push_all(out, s);
    if s.len() < width {
        push_blanks(out, width - s.len());
    } else {
        assert(blanks(width - s.len()) =~= Seq::<char>::empty());
    }
    assert(out@ =~= old(out)@ + left_aligned(s@, width as int));
}

/// Ten to the power `n`, for the powers that a decimal needs.
pub(crate) fn ten_to(n: usize) -> (r: u64)
    requires
        n <= DECIMAL_PLACES,
    ensures
        r == power_of_ten(n as nat),
        1 <= r <= 10_000_000,
{
    let mut r: u64 = 1;
    let mut i: usize = 0;
    assert(power_of_ten(0) == 1);
    while i < n
        invariant
            i <= n <= DECIMAL_PLACES,
            r == power_of_ten(i as nat),
            i == 0 ==> r == 1,
            i == 1 ==> r == 10,
            i == 2 ==> r == 100,
            i == 3 ==> r == 1_000,
            i == 4 ==> r == 10_000,
            i == 5 ==> r == 100_000,
            i == 6 ==> r == 1_000_000,
            i == 7 ==> r == 10_000_000,
        decreases n - i,
    {
        assert(power_of_ten((i + 1) as nat) == 10 * power_of_ten(i as nat));
        r = r * 10;
        i += 1;
    }
    r
}

/// The characters of `d` with `places` digits behind the point.
pub(crate) fn format_decimal(d: Decimal, places: usize) -> (r: Vec<char>)
    requires
        0 < places <= DECIMAL_PLACES,
    ensures
        r@ == fixed_notation(d, places as nat),
{
    let unit: u64 = ten_to(DECIMAL_PLACES - places);
    let scale: u64 = ten_to(places);
    let whole: u64 = d.magnitude / unit;
    let rest: u64 = d.magnitude % unit;
    let rounded: u128 = if 2 * (rest as u128) >= unit as u128 {
        whole as u128 + 1
    } else {
        whole as u128
    };
    assert(rounded == rounded_magnitude(d, places as nat));
    let mut out: Vec<char> = Vec::new();
    if d.negative {
        out.push('-');
    }
    assert(out@ =~= if d.negative {
        seq!['-']
    } else {
        Seq::<char>::empty()
    });
    push_number(&mut out, rounded / (scale as u128));
    out.push('.');
    let low: u64 = (rounded % (scale as u128)) as u64;
    proof {
        lemma_fixed_digits_low(rounded as nat, places as nat);
    }
    push_fixed_digits(&mut out, low, places);
    out
}

impl Decimal {
    /// The decimal written out in full: a minus sign if it carries one,
    /// the whole part, a point, and all seven fraction digits.
    pub fn to_text(&self) -> (text: String)
        ensures
            text@ == fixed_notation(*self, DECIMAL_PLACES as nat),
    {
        let chars = format_decimal(*self, DECIMAL_PLACES);
        string_of(chars.as_slice())
    }

    /// The decimal written with three digits behind the point, as a
    /// coordinate is.
    pub fn to_coordinate_text(&self) -> (text: String)
        ensures
            text@ == fixed_notation(*self, 3),
    {
        let chars = format_decimal(*self, 3);
        string_of(chars.as_slice())
    }
}

/// The last `places` digits of a number are those of its remainder by ten
/// to the `places`.
pub proof fn lemma_fixed_digits_low(n: nat, places: nat)
    ensures
        fixed_digits(n % power_of_ten(places), places) == fixed_digits(n, places),
    decreases places,
{
    if places > 0 {
        let p = power_of_ten((places - 1) as nat);
        crate::decimal::lemma_power_of_ten_positive((places - 1) as nat);
        lemma_fixed_digits_low(n / 10, (places - 1) as nat);
        let m = n % (10 * p);
        vstd::arithmetic::div_mod::lemma_mod_breakdown(n as int, 10, p as int);
        assert(m == 10 * ((n / 10) % p) + n % 10);
        assert(m % 10 == n % 10 && (m / 10) == (n / 10) % p);
        lemma_fixed_digits_low(m / 10, (places - 1) as nat);
    }
}

} // verus!
