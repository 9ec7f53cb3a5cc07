//! Decimal numbers: reading them out of text and writing them down.

use vstd::prelude::*;

verus! {

/// Why a text is not the integer that was asked for.
#[derive(Clone, Copy, Debug, PartialEq, Eq, Structural)]
pub enum ParseIntError {
    /// there is no text
    Empty,
    /// a character is no digit, or a sign stands alone
    InvalidDigit,
    /// the number is above what the type holds
    PosOverflow,
    /// the number is below what the type holds
    NegOverflow,
}

impl ParseIntError {
    /// The error in words.
    pub fn message(self) -> (r: &'static str)
        ensures
            r@ == match self {
                ParseIntError::Empty => "cannot parse integer from empty string"@,
                ParseIntError::InvalidDigit => "invalid digit found in string"@,
                ParseIntError::PosOverflow => "number too large to fit in target type"@,
                ParseIntError::NegOverflow => "number too small to fit in target type"@,
            },
    {
        match self {
            ParseIntError::Empty => "cannot parse integer from empty string",
            ParseIntError::InvalidDigit => "invalid digit found in string",
            ParseIntError::PosOverflow => "number too large to fit in target type",
            ParseIntError::NegOverflow => "number too small to fit in target type",
        }
    }
}

// --------------------------------------------------------------- reading
/// Whether `c` is one of the digits `0` to `9`.
pub open spec fn is_digit(c: char) -> bool {
    '0' <= c <= '9'
}

/// The number that a digit stands for.
pub open spec fn digit_value(c: char) -> nat {
    (c as int - '0' as int) as nat
}

/// The number that a run of digits stands for.
pub open spec fn digits_value(s: Seq<char>) -> nat
    decreases s.len(),
{
    if s.len() == 0 {
        0
    } else {
        digits_value(s.drop_last()) * 10 + digit_value(s.last())
    }
}

/// How many digits `s` begins with.
pub open spec fn digit_run(s: Seq<char>) -> int
    decreases s.len(),
{
    if s.len() == 0 || !is_digit(s.first()) {
        0
    } else {
        1 + digit_run(s.drop_first())
    }
}

/// The number that `s` writes down, if it is made of digits alone, of at
/// least one, and the number is at most `max`. The digits that `s` begins
/// with decide first: `Err(true)` says that they are above `max` already.
pub open spec fn magnitude(s: Seq<char>, max: nat) -> Result<nat, bool> {
    let n = digit_run(s);
    if digits_value(s.take(n)) > max {
        Err(true)
    } else if n == s.len() && n > 0 {
        Ok(digits_value(s))
    } else {
        Err(false)
    }
}

/// `s` read as an unsigned integer of at most 64 bits: digits, with or
/// without a plus sign in front.
pub open spec fn parsed_u64(s: Seq<char>) -> Result<u64, ParseIntError> {
    if s.len() == 0 {
        Err(ParseIntError::Empty)
    } else {
        let digits = if s.first() == '+' {
            s.drop_first()
        } else {
            s
        };
        match magnitude(digits, u64::MAX as nat) {
            Ok(v) => Ok(v as u64),
            Err(true) => Err(ParseIntError::PosOverflow),
            Err(false) => Err(ParseIntError::InvalidDigit),
        }
    }
}

/// `s` read as a signed integer of at most 32 bits: digits, with or without
/// a sign in front.
pub open spec fn parsed_i32(s: Seq<char>) -> Result<i32, ParseIntError> {
    if s.len() == 0 {
        Err(ParseIntError::Empty)
    } else if s.first() == '-' {
        match magnitude(s.drop_first(), (i32::MAX + 1) as nat) {
            Ok(v) => Ok((-v) as i32),
            Err(true) => Err(ParseIntError::NegOverflow),
            Err(false) => Err(ParseIntError::InvalidDigit),
        }
    } else {
        let digits = if s.first() == '+' {
            s.drop_first()
        } else {
            s
        };
        match magnitude(digits, i32::MAX as nat) {
            Ok(v) => Ok(v as i32),
            Err(true) => Err(ParseIntError::PosOverflow),
            Err(false) => Err(ParseIntError::InvalidDigit),
        }
    }
}

/// `digit_run` counts up to the first character that is no digit.
proof fn lemma_digit_run(s: Seq<char>)
    ensures
        0 <= digit_run(s) <= s.len(),
        digit_run(s) < s.len() ==> !is_digit(s[digit_run(s)]),
        forall|i: int| 0 <= i < digit_run(s) ==> is_digit(#[trigger] s[i]),
    decreases s.len(),
{
    if s.len() != 0 && is_digit(s.first()) {
        lemma_digit_run(s.drop_first());
        assert forall|i: int| 0 <= i < digit_run(s) implies is_digit(#[trigger] s[i]) by {
            if i > 0 {
                assert(s[i] == s.drop_first()[i - 1]);
            }
        }
    }
}

/// Nothing but the first character that is no digit ends the run.
pub proof fn lemma_digit_run_is(s: Seq<char>, i: int)
    requires
        0 <= i <= s.len(),
        i < s.len() ==> !is_digit(s[i]),
        forall|j: int| 0 <= j < i ==> is_digit(#[trigger] s[j]),
    ensures
        digit_run(s) == i,
{
    lemma_digit_run(s);
    let p = digit_run(s);
    if p < i {
        assert(is_digit(s[p]));
    }
    if i < p {
        assert(is_digit(s[i]));
    }
}

/// More digits make no smaller number.
proof fn lemma_digits_grow(s: Seq<char>, i: int, j: int)
    requires
        0 <= i <= j <= s.len(),
    ensures
        digits_value(s.take(i)) <= digits_value(s.take(j)),
    decreases j,
{
    if i < j {
        lemma_digits_grow(s, i, j - 1);
        assert(s.take(j).drop_last() =~= s.take(j - 1));
    }
}

/// The number that `s` writes down from `from` on, as `magnitude` says.
fn parse_magnitude(s: &[char], from: usize, max: u64) -> (r: Result<u64, bool>)
    requires
        from <= s.len(),
    ensures
        match r {
            Ok(v) => magnitude(s@.skip(from as int), max as nat) == Ok::<nat, bool>(v as nat) && v
                <= max,
            Err(e) => magnitude(s@.skip(from as int), max as nat) == Err::<nat, bool>(e),
        },
{
    let ghost t = s@.skip(from as int);
    let mut value: u64 = 0;
    let mut i: usize = from;
    while i < s.len() && '0' <= s[i] && s[i] <= '9'
        invariant
            from <= i <= s.len(),
            t == s@.skip(from as int),
            forall|j: int| 0 <= j < i - from ==> is_digit(#[trigger] t[j]),
            value == digits_value(t.take(i - from)),
            value <= max,
        decreases s.len() - i,
    {
        let ghost k = i - from;
        assert(t[k] == s@[i as int]);
        assert(t.take(k + 1).drop_last() =~= t.take(k));
        assert(t.take(k + 1).last() == t[k]);
        let d: u64 = (s[i] as u32 - '0' as u32) as u64;
        assert(d == digit_value(t[k]));
        assert(digits_value(t.take(k + 1)) == value * 10 + d);
        if value > max / 10 || d > max || value * 10 > max - d {
            proof {
                lemma_digit_run(t);
                assert(k + 1 <= digit_run(t)) by {
                    if digit_run(t) <= k {
                        assert(is_digit(t[digit_run(t)]));
                    }
                }
                lemma_digits_grow(t, k + 1, digit_run(t));
            }
            return Err(true);
        }
        value = value * 10 + d;
        i = i + 1;
    }
    proof {
        lemma_digit_run_is(t, i - from);
        assert(i == s.len() ==> t.take(i - from) =~= t);
    }
    if i == s.len() && i > from {
        Ok(value)
    } else {
        Err(false)
    }
}

/// `s` read as an unsigned integer of at most 64 bits.
pub fn parse_u64(s: &[char]) -> (r: Result<u64, ParseIntError>)
    ensures
        r == parsed_u64(s@),
{
    if s.len() == 0 {
        return Err(ParseIntError::Empty);
    }
    let from: usize = if s[0] == '+' {
        1
    } else {
        0
    };
    assert(s@.skip(0) =~= s@);
    assert(s@.skip(1) =~= s@.drop_first());
    match parse_magnitude(s, from, u64::MAX) {
        Ok(v) => Ok(v),
        Err(true) => Err(ParseIntError::PosOverflow),
        Err(false) => Err(ParseIntError::InvalidDigit),
    }
}

/// `s` read as a signed integer of at most 32 bits.
pub fn parse_i32(s: &[char]) -> (r: Result<i32, ParseIntError>)
    ensures
        r == parsed_i32(s@),
{
    if s.len() == 0 {
        return Err(ParseIntError::Empty);
    }
    assert(s@.skip(0) =~= s@);
    assert(s@.skip(1) =~= s@.drop_first());
    if s[0] == '-' {
        return match parse_magnitude(s, 1, 2147483648) {
            Ok(v) => Ok((-(v as i64)) as i32),
            Err(true) => Err(ParseIntError::NegOverflow),
            Err(false) => Err(ParseIntError::InvalidDigit),
        };
    }
    let from: usize = if s[0] == '+' {
        1
    } else {
        0
    };
    match parse_magnitude(s, from, 2147483647) {
        Ok(v) => Ok(v as i32),
        Err(true) => Err(ParseIntError::PosOverflow),
        Err(false) => Err(ParseIntError::InvalidDigit),
    }
}

// --------------------------------------------------------------- writing
/// The digit for a number below ten.
pub open spec fn digit_char(d: nat) -> char {
    ('0' as int + d) as char
}

/// `n` written down in decimal.
pub open spec fn decimal(n: nat) -> Seq<char>
    decreases n,
{
    if n < 10 {
        seq![digit_char(n)]
    } else {
        decimal(n / 10).push(digit_char(n % 10))
    }
}

/// `n` written down in decimal, with a minus sign in front where it is
/// negative.
pub open spec fn signed_decimal(n: int) -> Seq<char> {
    if n < 0 {
        seq!['-'] + decimal((-n) as nat)
    } else {
        decimal(n as nat)
    }
}

/// Appends `n` in decimal.
pub fn push_decimal(out: &mut String, n: u128)
    ensures
        final(out)@ == old(out)@ + decimal(n as nat),
    decreases n,
{
    if n >= 10 {
        push_decimal(out, n / 10);
    }
    let d: u8 = (n % 10) as u8;
    out.push((48u8 + d) as char);
    assert(out@ =~= old(out)@ + decimal(n as nat));
}

/// Appends `n` in decimal, with a minus sign in front where it is negative.
pub fn push_signed(out: &mut String, n: i32)
    ensures
        final(out)@ == old(out)@ + signed_decimal(n as int),
{
    if n < 0 {
        out.push('-');
        push_decimal(out, (-(n as i64)) as u128);
    } else {
        push_decimal(out, n as u128);
    }
    assert(out@ =~= old(out)@ + signed_decimal(n as int));
}

// ------------------------------------------------------------------ laws
/// What `decimal` writes are digits, at least one, and they stand for the
/// number.
pub proof fn lemma_decimal(n: nat)
    ensures
        decimal(n).len() > 0,
        forall|i: int| 0 <= i < decimal(n).len() ==> is_digit(#[trigger] decimal(n)[i]),
        digits_value(decimal(n)) == n,
    decreases n,
{
    if n < 10 {
        reveal_with_fuel(digits_value, 2);
        assert(decimal(n).drop_last() =~= Seq::<char>::empty());
    } else {
        lemma_decimal(n / 10);
        assert(decimal(n).drop_last() =~= decimal(n / 10));
        assert forall|i: int| 0 <= i < decimal(n).len() implies is_digit(
            #[trigger] decimal(n)[i],
        ) by {
            if i < decimal(n / 10).len() {
                assert(decimal(n)[i] == decimal(n / 10)[i]);
            }
        }
    }
}

/// Every unsigned number that was written down in decimal is read back.
pub proof fn law_unsigned_round_trip(n: u64)
    ensures
        parsed_u64(decimal(n as nat)) == Ok::<u64, ParseIntError>(n),
{
    let s = decimal(n as nat);
    lemma_decimal(n as nat);
    lemma_digit_run_is(s, s.len() as int);
    assert(s.take(s.len() as int) =~= s);
    assert(is_digit(s[0]));
}

/// Every signed number that was written down in decimal is read back.
pub proof fn law_signed_round_trip(n: i32)
    ensures
        parsed_i32(signed_decimal(n as int)) == Ok::<i32, ParseIntError>(n),
{
    if n < 0 {
        let s = decimal((-(n as int)) as nat);
        lemma_decimal((-(n as int)) as nat);
        lemma_digit_run_is(s, s.len() as int);
        assert(s.take(s.len() as int) =~= s);
        assert(signed_decimal(n as int).drop_first() =~= s);
    } else {
        let s = decimal(n as nat);
        lemma_decimal(n as nat);
        lemma_digit_run_is(s, s.len() as int);
        assert(s.take(s.len() as int) =~= s);
        assert(is_digit(s[0]));
    }
}

/// Whether `s` is made of digits alone, of at least one.
pub open spec fn all_digits(s: Seq<char>) -> bool {
    s.len() > 0 && forall|i: int| 0 <= i < s.len() ==> '0' <= #[trigger] s[i] <= '9'
}

/// What `magnitude` says of digits alone.
proof fn lemma_magnitude_of_digits(s: Seq<char>, max: nat)
    requires
        all_digits(s),
    ensures
        magnitude(s, max) == if digits_value(s) > max {
            Err::<nat, bool>(true)
        } else {
            Ok::<nat, bool>(digits_value(s))
        },
{
    assert forall|j: int| 0 <= j < s.len() implies is_digit(#[trigger] s[j]) by {}
    lemma_digit_run_is(s, s.len() as int);
    assert(s.take(s.len() as int) =~= s);
}

/// A single digit stands for its number.
pub proof fn law_digit_is_read(c: char)
    requires
        '0' <= c <= '9',
    ensures
        parsed_u64(seq![c]) == Ok::<u64, ParseIntError>((c as int - '0' as int) as u64),
{
    let s = seq![c];
    lemma_magnitude_of_digits(s, u64::MAX as nat);
    reveal_with_fuel(digits_value, 2);
    assert(s.drop_last() =~= Seq::<char>::empty());
}

/// One more digit makes a number ten times as big and adds the digit; where
/// that is too big, it is said so.
pub proof fn law_digit_is_added(s: Seq<char>, c: char, n: u64)
    requires
        all_digits(s),
        parsed_u64(s) == Ok::<u64, ParseIntError>(n),
        '0' <= c <= '9',
    ensures
        parsed_u64(s.push(c)) == if 10 * n + (c as int - '0' as int) <= u64::MAX {
            Ok::<u64, ParseIntError>((10 * n + (c as int - '0' as int)) as u64)
        } else {
            Err::<u64, ParseIntError>(ParseIntError::PosOverflow)
        },
{
    let t = s.push(c);
    assert('0' <= s[0] <= '9');
    assert(t[0] == s[0]);
    assert forall|i: int| 0 <= i < t.len() implies '0' <= #[trigger] t[i] <= '9' by {
        if i < s.len() {
            assert(t[i] == s[i]);
        }
    }
    lemma_magnitude_of_digits(s, u64::MAX as nat);
    lemma_magnitude_of_digits(t, u64::MAX as nat);
    assert(t.drop_last() =~= s);
}

/// A plus sign in front of digits does not change the number.
pub proof fn law_plus_sign(s: Seq<char>)
    requires
        all_digits(s),
    ensures
        parsed_u64(seq!['+'] + s) == parsed_u64(s),
        parsed_i32(seq!['+'] + s) == parsed_i32(s),
{
    assert('0' <= s[0] <= '9');
    assert((seq!['+'] + s).drop_first() =~= s);
}

/// Digits are read as the same number, signed or not, as far as it fits; a
/// minus sign in front makes the number negative.
pub proof fn law_signed_and_unsigned(s: Seq<char>, n: u64)
    requires
        all_digits(s),
        parsed_u64(s) == Ok::<u64, ParseIntError>(n),
    ensures
        parsed_i32(s) == if n <= 2147483647 {
            Ok::<i32, ParseIntError>(n as i32)
        } else {
            Err::<i32, ParseIntError>(ParseIntError::PosOverflow)
        },
        parsed_i32(seq!['-'] + s) == if n <= 2147483648 {
            Ok::<i32, ParseIntError>((-(n as int)) as i32)
        } else {
            Err::<i32, ParseIntError>(ParseIntError::NegOverflow)
        },
{
    assert('0' <= s[0] <= '9');
    assert((seq!['-'] + s).drop_first() =~= s);
    lemma_magnitude_of_digits(s, u64::MAX as nat);
    lemma_magnitude_of_digits(s, 2147483647);
    lemma_magnitude_of_digits(s, 2147483648);
}

/// What is no number is not read as one: an empty text, a sign alone, and a
/// text with a character that is neither a digit nor a sign in front.
pub proof fn law_other_texts_are_refused(s: Seq<char>, i: int)
    requires
        0 <= i < s.len(),
        !('0' <= s[i] <= '9'),
        i > 0 || (s[i] != '+' && s[i] != '-') || s.len() == 1,
    ensures
        parsed_u64(s) is Err,
        parsed_i32(s) is Err,
        parsed_u64(Seq::empty()) == Err::<u64, ParseIntError>(ParseIntError::Empty),
        parsed_i32(Seq::empty()) == Err::<i32, ParseIntError>(ParseIntError::Empty),
{
    let rest = s.drop_first();
    lemma_digit_run(s);
    lemma_digit_run(rest);
    if digit_run(s) == s.len() {
        assert(is_digit(s[i]));
    }
    if i > 0 && digit_run(rest) == rest.len() {
        assert(is_digit(rest[i - 1]));
    }
}

/// A number is written down without zeros in front.
pub proof fn law_no_leading_zero(n: nat)
    ensures
        decimal(n)[0] == '0' ==> n == 0,
        n < 10 ==> decimal(n).len() == 1,
    decreases n,
{
    if n >= 10 {
        law_no_leading_zero(n / 10);
        lemma_decimal(n / 10);
        assert(decimal(n)[0] == decimal(n / 10)[0]);
    }
}

} // verus!
