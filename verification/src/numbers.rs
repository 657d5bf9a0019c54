//! Numbers in decimal notation, read and written.

use vstd::prelude::*;

use crate::text;

verus! {

// ---------------------------------------------------------------------------
// Unsigned integers
// ---------------------------------------------------------------------------

/// Whether `c` is one of `0` to `9`.
pub open spec fn is_digit(c: char) -> bool {
    '0' <= c && c <= '9'
}

/// Whether every character is one of `0` to `9`.
pub open spec fn all_digits(s: Seq<char>) -> bool {
    forall|i: int| 0 <= i < s.len() ==> is_digit(#[trigger] s[i])
}

/// The number that a digit stands for.
pub open spec fn digit_value(c: char) -> nat {
    (c as u32 - 48) as nat
}

/// The number that a run of digits stands for, in base ten.
pub open spec fn digits_value(s: Seq<char>) -> nat
    decreases s.len(),
{
    if s.len() == 0 {
        0
    } else {
        10 * digits_value(s.drop_last()) + digit_value(s.last())
    }
}

/// The number that `s` stands for as a `usize`: an optional `+` and then at least
/// one digit. `None` for any other text, and for a number that does not fit.
pub open spec fn usize_text(s: Seq<char>) -> Option<usize> {
    let digits = if s.len() > 0 && s[0] == '+' {
        s.skip(1)
    } else {
        s
    };
    if digits.len() > 0 && all_digits(digits) && digits_value(digits) <= usize::MAX {
        Some(digits_value(digits) as usize)
    } else {
        None
    }
}

/// More digits never make a smaller number.
proof fn lemma_digits_value_grows(s: Seq<char>, n: int)
    requires
        0 <= n <= s.len(),
        all_digits(s),
    ensures
        digits_value(s.take(n)) <= digits_value(s),
    decreases s.len() - n,
{
    if n < s.len() {
        assert(s.take(n + 1).drop_last() =~= s.take(n));
        lemma_digits_value_grows(s, n + 1);
    } else {
        assert(s.take(n) =~= s);
    }
}

/// Reads a `usize` in decimal notation.
pub fn parse_usize(s: &str) -> (n: Option<usize>)
    ensures
        n == usize_text(s@),
{
    let text: Vec<char> = text::chars_of(s);
    let from: usize = if text.len() > 0 && text[0] == '+' {
        1
    } else {
        0
    };
    let ghost digits = s@.skip(from as int);
    proof {
        if from == 0 {
            assert(digits =~= s@);
        }
    }
    if from == text.len() {
        return None;
    }
    let mut value: usize = 0;
    let mut i: usize = from;
    assert(digits.take(0) =~= seq![]);
    while i < text.len()
        invariant
            text@ == s@,
            digits == s@.skip(from as int),
            digits == (if s@.len() > 0 && s@[0] == '+' { s@.skip(1) } else { s@ }),
            from <= i <= text@.len(),
            digits.len() > 0,
            all_digits(digits.take(i - from)),
            value == digits_value(digits.take(i - from)),
        decreases text@.len() - i,
    {
        let c: char = text[i];
        assert(c == digits[i - from]);
        if !('0' <= c && c <= '9') {
            return None;
        }
        let digit: usize = c as usize - 48;
        proof {
            let next = digits.take(i - from + 1);
            assert(next.drop_last() =~= digits.take(i - from));
            assert(digits_value(next) == 10 * value + digit);
            if all_digits(digits) {
                lemma_digits_value_grows(digits, i - from + 1);
            }
        }
        if value > (usize::MAX - digit) / 10 {
            return None;
        }
        value = value * 10 + digit;
        i += 1;
    }
    assert(digits.take(i - from) =~= digits);
    Some(value)
}

/// The digit that stands for `n`, which is below ten.
pub open spec fn digit_char(n: nat) -> char {
    (n + 48) as char
}

/// `n` in decimal notation, without leading zeros.
pub open spec fn decimal(n: nat) -> Seq<char>
    decreases n,
{
    if n < 10 {
        seq![digit_char(n)]
    } else {
        decimal(n / 10).push(digit_char(n % 10))
    }
}

/// `n` in decimal notation.
pub fn usize_to_string(n: usize) -> (s: String)
    ensures
        s@ == decimal(n as nat),
    decreases n,
{
    let mut s: String = if n < 10 {
        String::new()
    } else {
        usize_to_string(n / 10)
    };
    let digit: u8 = (n % 10) as u8 + 48;
    s.push(digit as char);
    assert(n < 10 ==> s@ =~= seq![digit_char(n as nat)]);
    s
}

/// Reading a number back from its decimal notation gives the number.
pub proof fn decimal_is_read_back(n: usize)
    ensures
        usize_text(decimal(n as nat)) == Some(n),
{
    decimals_are_digits(n as nat);
    assert(decimal(n as nat)[0] != '+');
}

/// The decimal notation of a number is made of digits, which add up to the number.
pub proof fn decimals_are_digits(n: nat)
    ensures
        decimal(n).len() > 0,
        all_digits(decimal(n)),
        digits_value(decimal(n)) == n,
    decreases n,
{
    let s = decimal(n);
    if n < 10 {
        assert(s.drop_last() =~= seq![]);
        assert(digits_value(s.drop_last()) == 0);
    } else {
        decimals_are_digits(n / 10);
        assert(s.drop_last() =~= decimal(n / 10));
    }
}

// ---------------------------------------------------------------------------
// Decimal fractions
// ---------------------------------------------------------------------------

/// `s` without a sign at its beginning.
pub open spec fn unsigned(s: Seq<char>) -> Seq<char> {
    if s.len() > 0 && (s[0] == '+' || s[0] == '-') {
        s.skip(1)
    } else {
        s
    }
}

/// Whether `s` spells `word`, in small or capital letters.
pub open spec fn spells(s: Seq<char>, word: Seq<char>) -> bool {
    s.len() == word.len() && forall|i: int| 0 <= i < s.len() ==> text::ascii_lower(#[trigger] s[i]) == word[i]
}

/// Digits, with at most one point before, between or behind them.
pub open spec fn is_mantissa(s: Seq<char>) -> bool {
    ||| s.len() > 0 && all_digits(s)
    ||| s.len() > 1 && exists|p: int|
        0 <= p < s.len() && #[trigger] s[p] == '.' && all_digits(s.take(p)) && all_digits(
            s.skip(p + 1),
        )
}

/// The letter `e`, an optional sign, and digits.
pub open spec fn is_exponent(s: Seq<char>) -> bool {
    &&& s.len() > 0
    &&& s[0] == 'e' || s[0] == 'E'
    &&& unsigned(s.skip(1)).len() > 0
    &&& all_digits(unsigned(s.skip(1)))
}

/// Digits with an optional point, and behind them an optional exponent.
pub open spec fn number_text(u: Seq<char>) -> bool {
    exists|k: int|
        0 <= k <= u.len() && is_mantissa(#[trigger] u.take(k)) && (k == u.len() || is_exponent(
            u.skip(k),
        ))
}

/// Whether `s` is a number in the notation that `f64::from_str` reads: an optional
/// sign, and then `inf`, `infinity`, `nan`, or digits with an optional point and an
/// optional exponent. Letters may be small or capital.
pub open spec fn float_text(s: Seq<char>) -> bool {
    let u = unsigned(s);
    ||| spells(u, "inf"@)
    ||| spells(u, "infinity"@)
    ||| spells(u, "nan"@)
    ||| number_text(u)
}

fn spells_at(text: &Vec<char>, from: usize, word: &str) -> (yes: bool)
    requires
        from <= text@.len(),
    ensures
        yes == spells(text@.skip(from as int), word@),
{
    let letters: Vec<char> = text::chars_of(word);
    if letters.len() != text.len() - from {
        return false;
    }
    let mut i: usize = 0;
    while i < letters.len()
        invariant
            letters@ == word@,
            from + letters@.len() == text.len(),
            i <= letters@.len(),
            forall|j: int|
                0 <= j < i ==> text::ascii_lower(#[trigger] text@.skip(from as int)[j]) == word@[j],
        decreases letters@.len() - i,
    {
        let c: char = text[from + i];
        let small: char = if 'A' <= c && c <= 'Z' {
            (c as u8 + 32) as char
        } else {
            c
        };
        assert(c == text@.skip(from as int)[i as int]);
        if small != letters[i] {
            return false;
        }
        i += 1;
    }
    true
}

fn digits_from(text: &Vec<char>, from: usize) -> (to: usize)
    requires
        from <= text@.len(),
    ensures
        from <= to <= text@.len(),
        all_digits(text@.subrange(from as int, to as int)),
        to < text@.len() ==> !is_digit(text@[to as int]),
{
    let mut to: usize = from;
    while to < text.len() && '0' <= text[to] && text[to] <= '9'
        invariant
            from <= to <= text@.len(),
            all_digits(text@.subrange(from as int, to as int)),
        decreases text@.len() - to,
    {
        assert(text@.subrange(from as int, to + 1)
            =~= text@.subrange(from as int, to as int).push(text@[to as int]));
        to += 1;
    }
    to
}

/// Where the digits and the point of a number end: a run of digits up to `a`, and,
/// where a point follows, that point and a run of digits up to `b`.
spec fn splits_at(u: Seq<char>, a: int, b: int) -> bool {
    &&& 0 <= a <= b <= u.len()
    &&& all_digits(u.take(a))
    &&& if a < u.len() && u[a] == '.' {
        b > a && all_digits(u.subrange(a + 1, b)) && (b < u.len() ==> !is_digit(u[b]))
    } else {
        b == a && (a < u.len() ==> !is_digit(u[a]))
    }
}

/// No other place than the end of the digits can be the end of the mantissa.
proof fn lemma_mantissa_end(u: Seq<char>, a: int, b: int, k: int)
    requires
        splits_at(u, a, b),
        0 <= k <= u.len(),
        is_mantissa(u.take(k)),
        k == u.len() || is_exponent(u.skip(k)),
    ensures
        k == b,
{
    let m = u.take(k);
    assert(k < u.len() ==> u[k] == u.skip(k)[0]);
    assert forall|i: int| 0 <= i < a implies is_digit(#[trigger] u[i]) by {
        assert(u.take(a)[i] == u[i]);
    }
    assert forall|i: int| a < i < b implies is_digit(#[trigger] u[i]) by {
        assert(u.subrange(a + 1, b)[i - a - 1] == u[i]);
    }
    if all_digits(m) {
        assert(a < k ==> m[a] == u[a]);
    } else {
        let p = choose|p: int|
            0 <= p < m.len() && #[trigger] m[p] == '.' && all_digits(m.take(p)) && all_digits(
                m.skip(p + 1),
            );
        assert(u[p] == '.');
        assert(a < p ==> m.take(p)[a] == u[a]);
        assert(p == a);
        assert(b < k ==> m.skip(p + 1)[b - p - 1] == u[b]);
    }
}

/// Where the digits end, the one candidate decides.
proof fn lemma_number_text(u: Seq<char>, a: int, b: int)
    requires
        splits_at(u, a, b),
    ensures
        is_mantissa(u.take(b)) == (b > 0 && (a < u.len() && u[a] == '.' ==> b > 1)),
        number_text(u) == (is_mantissa(u.take(b)) && (b == u.len() || is_exponent(u.skip(b)))),
{
    let m = u.take(b);
    if a < u.len() && u[a] == '.' {
        assert(m[a] == '.');
        assert(m.take(a) =~= u.take(a));
        assert(m.skip(a + 1) =~= u.subrange(a + 1, b));
    } else {
        assert(m =~= u.take(a));
    }
    if number_text(u) {
        let k = choose|k: int|
            0 <= k <= u.len() && is_mantissa(#[trigger] u.take(k)) && (k == u.len() || is_exponent(
                u.skip(k),
            ));
        lemma_mantissa_end(u, a, b, k);
    }
}

/// Whether an exponent, and nothing else, stands at `from`.
fn exponent_at(text: &Vec<char>, from: usize) -> (yes: bool)
    requires
        from < text.len(),
    ensures
        yes == is_exponent(text@.skip(from as int)),
{
    let ghost e = text@.skip(from as int);
    assert(e[0] == text@[from as int]);
    if text[from] != 'e' && text[from] != 'E' {
        return false;
    }
    let signed: bool = from + 1 < text.len() && (text[from + 1] == '+' || text[from + 1] == '-');
    let first: usize = if signed {
        from + 2
    } else {
        from + 1
    };
    let end: usize = digits_from(text, first);
    let ghost digits = text@.skip(first as int);
    proof {
        assert(e.skip(1) =~= text@.skip(from + 1));
        assert(unsigned(e.skip(1)) =~= digits);
        if end < text@.len() {
            assert(digits[end - first] == text@[end as int]);
        } else {
            assert(text@.subrange(first as int, end as int) =~= digits);
        }
    }
    first < end && end == text.len()
}

/// Whether `s` is a number in the notation that `f64::from_str` reads.
pub fn is_float_text(s: &str) -> (yes: bool)
    ensures
        yes == float_text(s@),
{
    let text: Vec<char> = text::chars_of(s);
    let from: usize = if text.len() > 0 && (text[0] == '+' || text[0] == '-') {
        1
    } else {
        0
    };
    let ghost u = unsigned(s@);
    assert(u =~= text@.skip(from as int));
    if spells_at(&text, from, "inf") || spells_at(&text, from, "infinity") || spells_at(
        &text,
        from,
        "nan",
    ) {
        return true;
    }
    let a: usize = digits_from(&text, from);
    let point: bool = a < text.len() && text[a] == '.';
    let b: usize = if point {
        digits_from(&text, a + 1)
    } else {
        a
    };
    proof {
        assert(u.take(a - from) =~= text@.subrange(from as int, a as int));
        if point {
            assert(u.subrange(a - from + 1, b - from) =~= text@.subrange(a + 1, b as int));
        }
        lemma_number_text(u, a - from, b - from);
        assert(u.skip(b - from) =~= text@.skip(b as int));
    }
    if b == from || (point && b == from + 1) {
        return false;
    }
    b == text.len() || exponent_at(&text, b)
}

// ---------------------------------------------------------------------------
// Laws
// ---------------------------------------------------------------------------

/// A number below ten is written as its digit, and any other as what stands before its
/// last digit, followed by that.
pub proof fn numbers_are_written_in_base_ten(n: nat, d: nat)
    requires
        d < 10,
    ensures
        decimal(d) == seq![(d + 48) as char],
        n > 0 ==> decimal(10 * n + d) == decimal(n).push((d + 48) as char),
{
    assert((10 * n + d) / 10 == n && (10 * n + d) % 10 == d);
}

/// Digits are read in base ten: one more digit makes ten times the number and the digit,
/// where the machine has that number. A plus sign before digits changes nothing.
pub proof fn digits_are_read_in_base_ten(s: Seq<char>, c: char)
    requires
        s.len() > 0,
        forall|i: int| 0 <= i < s.len() ==> '0' <= #[trigger] s[i] <= '9',
        '0' <= c <= '9',
    ensures
        usize_text(seq![c]) == Some((c as u32 - 48) as usize),
        usize_text(s.push(c)) == match usize_text(s) {
            Some(n) if 10 * n + (c as u32 - 48) <= usize::MAX => Some(
                (10 * n + (c as u32 - 48)) as usize,
            ),
            _ => None,
        },
        usize_text(seq!['+'] + s) == usize_text(s),
{
    let one = seq![c];
    assert(one.drop_last() =~= seq![]);
    assert(digits_value(one.drop_last()) == 0);
    assert forall|i: int| 0 <= i < s.len() implies is_digit(#[trigger] s[i]) by {}
    let more = s.push(c);
    assert(more.drop_last() =~= s);
    assert forall|i: int| 0 <= i < more.len() implies is_digit(#[trigger] more[i]) by {
        if i < s.len() {
            assert(more[i] == s[i]);
        }
    }
    assert(s[0] != '+' && more[0] != '+') by {
        assert('0' <= s[0] <= '9');
    }
    assert((seq!['+'] + s).skip(1) =~= s);
    assert(c != '+');
}

/// Only digits, behind at most one plus sign, are a number.
pub proof fn only_digits_are_a_number(s: Seq<char>)
    ensures
        usize_text(s) is Some ==> {
            let from: int = if s[0] == '+' {
                1
            } else {
                0
            };
            &&& s.len() > from
            &&& forall|i: int| from <= i < s.len() ==> '0' <= #[trigger] s[i] <= '9'
        },
{
    if usize_text(s) is Some {
        let from: int = if s[0] == '+' {
            1
        } else {
            0
        };
        if s[0] == '+' {
            assert forall|i: int| from <= i < s.len() implies '0' <= #[trigger] s[i] <= '9' by {
                assert(is_digit(s.skip(1)[i - 1]));
            }
        } else {
            assert forall|i: int| from <= i < s.len() implies '0' <= #[trigger] s[i] <= '9' by {
                assert(is_digit(s[i]));
            }
        }
    }
}

/// Whether `s` is made of digits.
pub open spec fn is_run(s: Seq<char>) -> bool {
    forall|i: int| 0 <= i < s.len() ==> '0' <= #[trigger] s[i] <= '9'
}

/// Digits, with a point behind them and more digits behind that, if `point` says so.
pub open spec fn fraction(whole: Seq<char>, point: bool, part: Seq<char>) -> Seq<char> {
    if point {
        whole + seq!['.'] + part
    } else {
        whole
    }
}

/// Whether `s` is empty or one sign.
pub open spec fn is_sign(s: Seq<char>) -> bool {
    s.len() == 0 || s == seq!['+'] || s == seq!['-']
}

proof fn lemma_fraction(whole: Seq<char>, point: bool, part: Seq<char>)
    requires
        is_run(whole),
        is_run(part),
        whole.len() + part.len() > 0,
        !point ==> part.len() == 0,
    ensures
        is_mantissa(fraction(whole, point, part)),
        fraction(whole, point, part)[0] != '+',
        fraction(whole, point, part)[0] != '-',
{
    let m = fraction(whole, point, part);
    if point {
        let p = whole.len() as int;
        assert(m[p] == '.');
        assert(m.take(p) =~= whole);
        assert(m.skip(p + 1) =~= part);
        assert(all_digits(whole) && all_digits(part));
    } else {
        assert(all_digits(m));
    }
    if whole.len() > 0 {
        assert(m[0] == whole[0]);
    }
}

proof fn lemma_unsigned(sign: Seq<char>, u: Seq<char>)
    requires
        is_sign(sign),
        u.len() > 0,
        u[0] != '+',
        u[0] != '-',
    ensures
        unsigned(sign + u) == u,
{
    if sign.len() > 0 {
        assert((sign + u).skip(1) =~= u);
    } else {
        assert(sign + u =~= u);
    }
}

/// Digits, with a point before, between or behind them or without one, are a decimal
/// fraction, and so they are with a sign before them.
pub proof fn decimal_fractions_are_read(
    sign: Seq<char>,
    whole: Seq<char>,
    point: bool,
    part: Seq<char>,
)
    requires
        is_sign(sign),
        is_run(whole),
        is_run(part),
        whole.len() + part.len() > 0,
        !point ==> part.len() == 0,
    ensures
        float_text(sign + fraction(whole, point, part)),
{
    let m = fraction(whole, point, part);
    lemma_fraction(whole, point, part);
    lemma_unsigned(sign, m);
    assert(m.take(m.len() as int) =~= m);
    assert(number_text(m));
}

/// A decimal fraction stays one with an exponent behind it: the letter `e`, a sign or
/// none, and digits.
pub proof fn exponents_are_read(
    sign: Seq<char>,
    whole: Seq<char>,
    point: bool,
    part: Seq<char>,
    e: char,
    exponent_sign: Seq<char>,
    exponent: Seq<char>,
)
    requires
        is_sign(sign),
        is_sign(exponent_sign),
        is_run(whole),
        is_run(part),
        is_run(exponent),
        whole.len() + part.len() > 0,
        !point ==> part.len() == 0,
        e == 'e' || e == 'E',
        exponent.len() > 0,
    ensures
        float_text(
            sign + (fraction(whole, point, part) + (seq![e] + (exponent_sign + exponent))),
        ),
{
    let m = fraction(whole, point, part);
    let tail = seq![e] + (exponent_sign + exponent);
    let u = m + tail;
    lemma_fraction(whole, point, part);
    assert('0' <= exponent[0] <= '9');
    lemma_unsigned(exponent_sign, exponent);
    lemma_unsigned(sign, u);
    assert(tail.skip(1) =~= exponent_sign + exponent);
    assert(all_digits(exponent));
    assert(is_exponent(tail));
    assert(u.take(m.len() as int) =~= m);
    assert(u.skip(m.len() as int) =~= tail);
    assert(number_text(u));
}

/// What follows a sign, or all where there is none.
pub open spec fn behind_sign(s: Seq<char>) -> Seq<char> {
    if s.len() > 0 && (s[0] == '+' || s[0] == '-') {
        s.skip(1)
    } else {
        s
    }
}

/// Whether `u` is made of digits, with at most one point.
pub open spec fn is_plain_number(u: Seq<char>) -> bool {
    exists|whole: Seq<char>, point: bool, part: Seq<char>|
        u == #[trigger] fraction(whole, point, part) && is_run(whole) && is_run(part)
            && whole.len() + part.len() > 0 && (!point ==> part.len() == 0)
}

/// Whether `u` is made of digits, with at most one point, and an exponent behind them.
pub open spec fn is_scientific_number(u: Seq<char>) -> bool {
    exists|m: Seq<char>, e: char, sign: Seq<char>, digits: Seq<char>|
        u == #[trigger] (m + (seq![e] + (sign + digits))) && is_plain_number(m) && (e == 'e' || e
            == 'E') && is_sign(sign) && is_run(digits) && digits.len() > 0
}

proof fn lemma_mantissa_is_plain(m: Seq<char>)
    requires
        is_mantissa(m),
    ensures
        is_plain_number(m),
{
    let none = Seq::<char>::empty();
    if m.len() > 0 && all_digits(m) {
        assert forall|i: int| 0 <= i < m.len() implies '0' <= #[trigger] m[i] <= '9' by {
            assert(is_digit(m[i]));
        }
        assert(m == fraction(m, false, none));
    } else {
        let p = choose|p: int|
            0 <= p < m.len() && #[trigger] m[p] == '.' && all_digits(m.take(p)) && all_digits(
                m.skip(p + 1),
            );
        let whole = m.take(p);
        let part = m.skip(p + 1);
        assert forall|i: int| 0 <= i < whole.len() implies '0' <= #[trigger] whole[i] <= '9' by {
            assert(is_digit(whole[i]));
        }
        assert forall|i: int| 0 <= i < part.len() implies '0' <= #[trigger] part[i] <= '9' by {
            assert(is_digit(part[i]));
        }
        assert(m =~= fraction(whole, true, part));
    }
}

/// Nothing is read as a decimal fraction but, behind a sign or none, digits with at most
/// one point, these with an exponent behind them, and the words for what is no number.
pub proof fn nothing_else_is_a_fraction(s: Seq<char>)
    ensures
        float_text(s) ==> {
            let u = behind_sign(s);
            let small = u.map_values(|c: char| text::ascii_lower(c));
            ||| small == "inf"@
            ||| small == "infinity"@
            ||| small == "nan"@
            ||| is_plain_number(u)
            ||| is_scientific_number(u)
        },
{
    if float_text(s) {
        let u = behind_sign(s);
        let small = u.map_values(|c: char| text::ascii_lower(c));
        if spells(u, "inf"@) {
            assert(small =~= "inf"@);
        } else if spells(u, "infinity"@) {
            assert(small =~= "infinity"@);
        } else if spells(u, "nan"@) {
            assert(small =~= "nan"@);
        } else {
            let k = choose|k: int|
                0 <= k <= u.len() && is_mantissa(#[trigger] u.take(k)) && (k == u.len()
                    || is_exponent(u.skip(k)));
            let m = u.take(k);
            lemma_mantissa_is_plain(m);
            if k == u.len() {
                assert(m =~= u);
            } else {
                let x = u.skip(k);
                let y = x.skip(1);
                let digits = unsigned(y);
                let sign = y.take(y.len() - digits.len());
                assert(y =~= sign + digits);
                assert(is_sign(sign)) by {
                    if y.len() > digits.len() {
                        assert(sign =~= seq![y[0]]);
                    }
                }
                assert forall|i: int| 0 <= i < digits.len() implies '0' <= #[trigger] digits[i]
                    <= '9' by {
                    assert(is_digit(digits[i]));
                }
                assert(u =~= m + (seq![x[0]] + (sign + digits)));
                assert(is_scientific_number(u));
            }
        }
    }
}

/// The words for what is no number are read in small and in capital letters.
pub proof fn words_for_no_number_are_read(sign: Seq<char>, word: Seq<char>)
    requires
        is_sign(sign),
        ({
            let small = word.map_values(|c: char| text::ascii_lower(c));
            small == "inf"@ || small == "infinity"@ || small == "nan"@
        }),
    ensures
        float_text(sign + word),
{
    reveal_strlit("inf");
    reveal_strlit("infinity");
    reveal_strlit("nan");
    let small = word.map_values(|c: char| text::ascii_lower(c));
    assert("inf"@.len() == 3 && "infinity"@.len() == 8 && "nan"@.len() == 3);
    assert(small.len() == word.len());
    assert(small[0] == text::ascii_lower(word[0]));
    lemma_unsigned(sign, word);
    assert forall|i: int| 0 <= i < word.len() implies text::ascii_lower(#[trigger] word[i])
        == small[i] by {}
}

} // verus!
