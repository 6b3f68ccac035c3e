//! Decimal numbers: reading an unsigned integer as `u32::from_str` and
//! `u64::from_str` do, and writing one as its `Display` does.

use vstd::prelude::*;

verus! {

/// Why a text is not an unsigned integer of the wanted width.
#[derive(Debug, Clone, Copy, PartialEq, Eq, Structural)]
pub enum IntErrorKind {
    /// The text is empty.
    Empty,
    /// The text holds a character that is not a decimal digit.
    InvalidDigit,
    /// The number is larger than the type holds.
    PosOverflow,
}

impl IntErrorKind {
    /// The message that std's `ParseIntError` shows for this kind.
    pub fn message(&self) -> (r: String)
        ensures
            r@ == int_error_message(*self),
    {
        match self {
            IntErrorKind::Empty => String::from_str("cannot parse integer from empty string"),
            IntErrorKind::InvalidDigit => String::from_str("invalid digit found in string"),
            IntErrorKind::PosOverflow => String::from_str("number too large to fit in target type"),
        }
    }
}

/// The text of each error kind.
pub open spec fn int_error_message(k: IntErrorKind) -> Seq<char> {
    match k {
        IntErrorKind::Empty => "cannot parse integer from empty string"@,
        IntErrorKind::InvalidDigit => "invalid digit found in string"@,
        IntErrorKind::PosOverflow => "number too large to fit in target type"@,
    }
}

/// A decimal digit.
pub open spec fn is_digit(c: char) -> bool {
    '0' <= c && c <= '9'
}

/// The value of a decimal digit.
pub open spec fn digit_value(c: char) -> int {
    c as int - '0' as int
}

/// The digit that stands for `d < 10`.
pub open spec fn digit_char(d: int) -> char {
    if d <= 0 {
        '0'
    } else if d == 1 {
        '1'
    } else if d == 2 {
        '2'
    } else if d == 3 {
        '3'
    } else if d == 4 {
        '4'
    } else if d == 5 {
        '5'
    } else if d == 6 {
        '6'
    } else if d == 7 {
        '7'
    } else if d == 8 {
        '8'
    } else {
        '9'
    }
}

/// A digit character reads back as its value.
pub proof fn lemma_digit_char(d: int)
    requires
        0 <= d < 10,
    ensures
        is_digit(digit_char(d)),
        digit_value(digit_char(d)) == d,
        digit_char(d) != '+',
        digit_char(d) != '-',
{
}

/// Reads the digits `s` from left to right, failing at the first character
/// that is not a digit or at the first prefix whose value exceeds `max`.
pub open spec fn digits_value(s: Seq<char>, max: int) -> Result<int, IntErrorKind>
    decreases s.len(),
{
    if s.len() == 0 {
        Ok(0)
    } else {
        match digits_value(s.drop_last(), max) {
            Err(k) => Err(k),
            Ok(v) => if !is_digit(s.last()) {
                Err(IntErrorKind::InvalidDigit)
            } else if v * 10 + digit_value(s.last()) > max {
                Err(IntErrorKind::PosOverflow)
            } else {
                Ok(v * 10 + digit_value(s.last()))
            },
        }
    }
}

/// `from_str` of an unsigned integer type whose largest value is `max`:
/// an optional `+`, then at least one decimal digit.
pub open spec fn parse_unsigned(s: Seq<char>, max: int) -> Result<int, IntErrorKind> {
    if s.len() == 0 {
        Err(IntErrorKind::Empty)
    } else if s.len() == 1 && (s[0] == '+' || s[0] == '-') {
        Err(IntErrorKind::InvalidDigit)
    } else if s[0] == '+' {
        digits_value(s.drop_first(), max)
    } else {
        digits_value(s, max)
    }
}

/// Reads `s[from..]` as digits of a number at most `max`.
fn digits_from(s: &Vec<char>, from: usize, max: u64) -> (r: Result<u64, IntErrorKind>)
    requires
        from <= s@.len(),
    ensures
        match r {
            Ok(v) => digits_value(s@.skip(from as int), max as int) == Ok::<int, IntErrorKind>(
                v as int,
            ),
            Err(k) => digits_value(s@.skip(from as int), max as int) == Err::<int, IntErrorKind>(k),
        },
{
    let n = s.len();
    let mut acc: u64 = 0;
    let mut i: usize = from;
    assert(s@.skip(from as int).take(0) =~= Seq::<char>::empty());
    while i < n
        invariant
            from <= i <= n == s@.len(),
            acc <= max,
            digits_value(s@.skip(from as int).take(i - from), max as int) == Ok::<
                int,
                IntErrorKind,
            >(acc as int),
        decreases n - i,
    {
        let ghost pre = s@.skip(from as int).take(i - from);
        let ghost next = s@.skip(from as int).take(i + 1 - from);
        assert(next.drop_last() =~= pre);
        assert(next.last() == s@[i as int]);
        let c = s[i];
        if !('0' <= c && c <= '9') {
            proof {
                lemma_digits_error_persists(s@.skip(from as int), (i + 1 - from) as int, max as int);
            }
            return Err(IntErrorKind::InvalidDigit);
        }
        let d = (c as u32 - '0' as u32) as u64;
        let next_value: u128 = (acc as u128) * 10 + (d as u128);
        if next_value > max as u128 {
            proof {
                lemma_digits_error_persists(s@.skip(from as int), (i + 1 - from) as int, max as int);
            }
            return Err(IntErrorKind::PosOverflow);
        }
        acc = next_value as u64;
        i = i + 1;
    }
    assert(s@.skip(from as int).take(n - from) =~= s@.skip(from as int));
    Ok(acc)
}

/// Once a prefix of the digits fails, the whole fails the same way.
proof fn lemma_digits_error_persists(s: Seq<char>, k: int, max: int)
    requires
        0 <= k <= s.len(),
        digits_value(s.take(k), max) is Err,
    ensures
        digits_value(s, max) == digits_value(s.take(k), max),
    decreases s.len() - k,
{
    if k < s.len() {
        assert(s.take(k + 1).drop_last() =~= s.take(k));
        lemma_digits_error_persists(s, k + 1, max);
    } else {
        assert(s.take(k) =~= s);
    }
}

/// `from_str` for an unsigned integer at most `max`.
fn parse_bounded(s: &Vec<char>, max: u64) -> (r: Result<u64, IntErrorKind>)
    ensures
        match r {
            Ok(v) => parse_unsigned(s@, max as int) == Ok::<int, IntErrorKind>(v as int),
            Err(k) => parse_unsigned(s@, max as int) == Err::<int, IntErrorKind>(k),
        },
{
    if s.len() == 0 {
        Err(IntErrorKind::Empty)
    } else if s.len() == 1 && (s[0] == '+' || s[0] == '-') {
        Err(IntErrorKind::InvalidDigit)
    } else if s[0] == '+' {
        assert(s@.skip(1) =~= s@.drop_first());
        digits_from(s, 1, max)
    } else {
        assert(s@.skip(0) =~= s@);
        digits_from(s, 0, max)
    }
}

/// `u32::from_str`.
pub fn parse_u32(s: &Vec<char>) -> (r: Result<u32, IntErrorKind>)
    ensures
        match r {
            Ok(v) => parse_unsigned(s@, u32::MAX as int) == Ok::<int, IntErrorKind>(v as int),
            Err(k) => parse_unsigned(s@, u32::MAX as int) == Err::<int, IntErrorKind>(k),
        },
{
    match parse_bounded(s, u32::MAX as u64) {
        Ok(v) => {
            proof {
                lemma_parse_at_most(s@, u32::MAX as int);
            }
            Ok(v as u32)
        },
        Err(k) => Err(k),
    }
}

/// `u64::from_str`.
pub fn parse_u64(s: &Vec<char>) -> (r: Result<u64, IntErrorKind>)
    ensures
        match r {
            Ok(v) => parse_unsigned(s@, u64::MAX as int) == Ok::<int, IntErrorKind>(v as int),
            Err(k) => parse_unsigned(s@, u64::MAX as int) == Err::<int, IntErrorKind>(k),
        },
{
    parse_bounded(s, u64::MAX)
}

/// What a successful read gives lies between 0 and `max`.
pub proof fn lemma_digits_at_most(s: Seq<char>, max: int)
    requires
        max >= 0,
    ensures
        digits_value(s, max) matches Ok(v) ==> 0 <= v <= max,
    decreases s.len(),
{
    if s.len() > 0 {
        lemma_digits_at_most(s.drop_last(), max);
    }
}

/// What a successful `parse_unsigned` gives lies between 0 and `max`.
pub proof fn lemma_parse_at_most(s: Seq<char>, max: int)
    requires
        max >= 0,
    ensures
        parse_unsigned(s, max) matches Ok(v) ==> 0 <= v <= max,
{
    lemma_digits_at_most(s, max);
    if s.len() > 0 {
        lemma_digits_at_most(s.drop_first(), max);
    }
}

/// The decimal digits of `n`, most significant first, without leading zeros.
pub open spec fn decimal(n: nat) -> Seq<char>
    decreases n,
{
    if n < 10 {
        seq![digit_char(n as int)]
    } else {
        decimal(n / 10).push(digit_char((n % 10) as int))
    }
}

/// Appends the decimal digits of `n` to `out`.
fn push_decimal(n: u128, out: &mut Vec<char>)
    ensures
        final(out)@ == old(out)@ + decimal(n as nat),
    decreases n,
{
    if n >= 10 {
        push_decimal(n / 10, out);
    }
    let d = (n % 10) as u32;
    let c = char_of_digit(d);
    out.push(c);
    assert(out@ =~= old(out)@ + decimal(n as nat));
}

/// The character of a digit below ten.
fn char_of_digit(d: u32) -> (c: char)
    requires
        d < 10,
    ensures
        c == digit_char(d as int),
{
    match d {
        0 => '0',
        1 => '1',
        2 => '2',
        3 => '3',
        4 => '4',
        5 => '5',
        6 => '6',
        7 => '7',
        8 => '8',
        _ => '9',
    }
}

/// The decimal text of `n`, as `Display` writes an unsigned integer.
pub fn decimal_chars(n: u128) -> (r: Vec<char>)
    ensures
        r@ == decimal(n as nat),
{
    let mut out: Vec<char> = Vec::new();
    push_decimal(n, &mut out);
    assert(out@ =~= decimal(n as nat));
    out
}

/// Reading back the decimal text of `n` gives `n`.
pub proof fn lemma_decimal_round_trip(n: nat, max: int)
    requires
        n <= max,
    ensures
        digits_value(decimal(n), max) == Ok::<int, IntErrorKind>(n as int),
        parse_unsigned(decimal(n), max) == Ok::<int, IntErrorKind>(n as int),
        decimal(n).len() > 0,
        decimal(n)[0] != '+',
        decimal(n)[0] != '-',
    decreases n,
{
    lemma_digit_char((n % 10) as int);
    if n < 10 {
        let s = decimal(n);
        assert(s.drop_last() =~= Seq::<char>::empty());
        assert(digits_value(s.drop_last(), max) == Ok::<int, IntErrorKind>(0));
        assert(s.last() == digit_char(n as int));
    } else {
        lemma_decimal_round_trip(n / 10, max);
        let s = decimal(n);
        assert(s.drop_last() =~= decimal(n / 10));
        assert(s[0] == decimal(n / 10)[0]);
        assert(s.last() == digit_char((n % 10) as int));
        assert((n / 10) * 10 + n % 10 == n);
    }
}

/// The decimal text of `n`, as `Display` writes an unsigned integer.
pub fn decimal_string(n: u128) -> (r: String)
    ensures
        r@ == decimal(n as nat),
{
    crate::text::string_from_chars(&decimal_chars(n))
}

/// Every character of a decimal text is a digit, and only zero is written
/// with a leading `0`.
pub proof fn lemma_decimal_digits(n: nat)
    ensures
        decimal(n).len() > 0,
        forall|j: int| 0 <= j < decimal(n).len() ==> is_digit(#[trigger] decimal(n)[j]),
        n > 0 ==> decimal(n)[0] != '0',
        n == 0 ==> decimal(n) == seq!['0'],
    decreases n,
{
    lemma_digit_char((n % 10) as int);
    if n >= 10 {
        lemma_decimal_digits(n / 10);
        assert(decimal(n)[0] == decimal(n / 10)[0]);
        assert forall|j: int| 0 <= j < decimal(n).len() implies is_digit(#[trigger] decimal(n)[j]) by {
            if j < decimal(n / 10).len() {
                assert(decimal(n)[j] == decimal(n / 10)[j]);
            }
        }
    }
}

/// The number that the decimal digits `s` write, most significant first.
pub open spec fn digits_number(s: Seq<char>) -> int
    decreases s.len(),
{
    if s.len() == 0 {
        0
    } else {
        digits_number(s.drop_last()) * 10 + digit_value(s.last())
    }
}

/// All characters of `s` are decimal digits.
pub open spec fn all_digits(s: Seq<char>) -> bool {
    forall|j: int| 0 <= j < s.len() ==> is_digit(#[trigger] s[j])
}

/// Digits read as the number they write, when that number is at most `max`;
/// the reading fails exactly otherwise.
pub proof fn lemma_digits_value(s: Seq<char>, max: int)
    requires
        max >= 0,
    ensures
        (digits_value(s, max) is Ok) <==> (all_digits(s) && digits_number(s) <= max),
        digits_value(s, max) matches Ok(v) ==> v == digits_number(s),
        all_digits(s) ==> digits_number(s) >= 0,
    decreases s.len(),
{
    if s.len() > 0 {
        let p = s.drop_last();
        lemma_digits_value(p, max);
        assert(all_digits(s) ==> all_digits(p)) by {
            if all_digits(s) {
                assert forall|j: int| 0 <= j < p.len() implies is_digit(#[trigger] p[j]) by {
                    assert(p[j] == s[j]);
                }
            }
        }
        assert(all_digits(p) && is_digit(s.last()) ==> all_digits(s)) by {
            if all_digits(p) && is_digit(s.last()) {
                assert forall|j: int| 0 <= j < s.len() implies is_digit(#[trigger] s[j]) by {
                    if j < p.len() {
                        assert(s[j] == p[j]);
                    }
                }
            }
        }
        assert(all_digits(s) ==> is_digit(s[s.len() - 1]));
    }
}

/// `from_str` of an unsigned integer at most `max`: the text, without one
/// leading `+`, must be at least one decimal digit, and writes the number
/// read, which must be at most `max`; an empty text is `Empty`.
pub proof fn lemma_parse_unsigned(s: Seq<char>, max: int)
    requires
        max >= 0,
    ensures
        ({
            let d = if s.len() > 0 && s[0] == '+' {
                s.drop_first()
            } else {
                s
            };
            &&& (parse_unsigned(s, max) is Ok) <==> (d.len() > 0 && all_digits(d) && digits_number(
                d,
            ) <= max)
            &&& parse_unsigned(s, max) matches Ok(v) ==> v == digits_number(d)
        }),
        parse_unsigned(s, max) == Err::<int, IntErrorKind>(IntErrorKind::Empty) <==> s.len() == 0,
{
    if s.len() > 0 {
        lemma_digits_value(s, max);
        lemma_digits_value(s.drop_first(), max);
        if s.len() == 1 && s[0] == '-' {
            assert(!is_digit(s[0]));
            assert(!all_digits(s));
        }
        lemma_digits_error_kind(s, max);
        lemma_digits_error_kind(s.drop_first(), max);
    }
}

/// Reading digits never fails with `Empty`.
proof fn lemma_digits_error_kind(s: Seq<char>, max: int)
    ensures
        digits_value(s, max) != Err::<int, IntErrorKind>(IntErrorKind::Empty),
    decreases s.len(),
{
    if s.len() > 0 {
        lemma_digits_error_kind(s.drop_last(), max);
    }
}

} // verus!
