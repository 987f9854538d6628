//! Text handling for the line protocol: trimming a received line, reading a
//! signed decimal integer from it, and writing an integer back as decimal
//! text.  Every function here works on plain characters and is specified
//! against a short mathematical definition of the notation.

use vstd::prelude::*;
use vstd::string::StringExecFns;

verus! {

/// The characters that Unicode classifies as `White_Space`.
pub open spec fn is_whitespace(c: char) -> bool {
    let n = c as u32;
    ||| 0x09 <= n <= 0x0D
    ||| n == 0x20
    ||| n == 0x85
    ||| n == 0xA0
    ||| n == 0x1680
    ||| 0x2000 <= n <= 0x200A
    ||| n == 0x2028
    ||| n == 0x2029
    ||| n == 0x202F
    ||| n == 0x205F
    ||| n == 0x3000
}

/// The ten ASCII decimal digits.
pub open spec fn is_digit(c: char) -> bool {
    0x30 <= c as u32 <= 0x39
}

/// The number that a decimal digit stands for.
pub open spec fn digit_value(c: char) -> int {
    c as u32 - 0x30
}

/// The digit that stands for `d`, for `0 <= d <= 9`.
pub open spec fn digit_char(d: int) -> char {
    seq!['0', '1', '2', '3', '4', '5', '6', '7', '8', '9'][d]
}

/// How many characters of `s` are left once trailing whitespace is cut off.
pub open spec fn trimmed_len(s: Seq<char>) -> nat
    decreases s.len(),
{
    if s.len() > 0 && is_whitespace(s.last()) {
        trimmed_len(s.drop_last())
    } else {
        s.len()
    }
}

/// `s` without its trailing whitespace.
pub open spec fn trim_end(s: Seq<char>) -> Seq<char> {
    s.take(trimmed_len(s) as int)
}

/// The length of the longest prefix of `s` that consists of decimal digits.
pub open spec fn leading_digits(s: Seq<char>) -> nat
    decreases s.len(),
{
    if s.len() > 0 && is_digit(s[0]) {
        1 + leading_digits(s.drop_first())
    } else {
        0
    }
}

/// The number that a string of decimal digits denotes, most significant digit
/// first.  The empty string denotes zero.
pub open spec fn digits_value(s: Seq<char>) -> int
    decreases s.len(),
{
    if s.len() == 0 {
        0
    } else {
        digits_value(s.drop_last()) * 10 + digit_value(s.last())
    }
}

/// Why a text is not the decimal notation of an `i64`.
#[derive(Debug, Clone, Copy, PartialEq, Eq, Structural)]
pub enum ParseFailure {
    /// The text is empty.
    Empty,
    /// The text holds a character that is no digit where a digit must stand,
    /// or a sign with nothing behind it.
    InvalidDigit,
    /// The digits denote a number above `i64::MAX`.
    PosOverflow,
    /// The digits, behind a minus sign, denote a number below `i64::MIN`.
    NegOverflow,
}

/// What a text denotes as a signed decimal integer.
///
/// The notation is an optional sign, `+` or `-`, and then one or more decimal
/// digits.  The text is read from the left: the digits are taken as far as
/// they go, and a number that has left the range of `i64` by then is reported
/// as an overflow, before any character behind the digits is looked at.
pub open spec fn parse_integer(s: Seq<char>) -> Result<i64, ParseFailure> {
    if s.len() == 0 {
        Err(ParseFailure::Empty)
    } else {
        let negative = s[0] == '-';
        let body = if s[0] == '-' || s[0] == '+' {
            s.drop_first()
        } else {
            s
        };
        let digits = leading_digits(body);
        let magnitude = digits_value(body.take(digits as int));
        if body.len() == 0 {
            Err(ParseFailure::InvalidDigit)
        } else if !negative && magnitude > i64::MAX {
            Err(ParseFailure::PosOverflow)
        } else if negative && -magnitude < i64::MIN {
            Err(ParseFailure::NegOverflow)
        } else if digits < body.len() {
            Err(ParseFailure::InvalidDigit)
        } else if negative {
            Ok((-magnitude) as i64)
        } else {
            Ok(magnitude as i64)
        }
    }
}

/// What a received line asks for: the integer that it denotes once its
/// trailing whitespace, the line terminator included, is cut off.
pub open spec fn parse_line(line: Seq<char>) -> Result<i64, ParseFailure> {
    parse_integer(trim_end(line))
}

/// The decimal digits of a natural number, without leading zeros.
pub open spec fn decimal_digits(n: nat) -> Seq<char>
    decreases n,
{
    if n < 10 {
        seq![digit_char(n as int)]
    } else {
        decimal_digits(n / 10).push(digit_char((n % 10) as int))
    }
}

/// The decimal notation of an integer: a minus sign for a negative number,
/// then the digits of its magnitude.
pub open spec fn decimal(n: int) -> Seq<char> {
    if n < 0 {
        seq!['-'] + decimal_digits((-n) as nat)
    } else {
        decimal_digits(n as nat)
    }
}

impl ParseFailure {
    /// The sentence that tells a client what was wrong with its line.
    pub open spec fn description_text(self) -> Seq<char> {
        match self {
            ParseFailure::Empty => "cannot parse integer from empty string"@,
            ParseFailure::InvalidDigit => "invalid digit found in string"@,
            ParseFailure::PosOverflow => "number too large to fit in target type"@,
            ParseFailure::NegOverflow => "number too small to fit in target type"@,
        }
    }

    /// Returns the sentence that tells a client what was wrong with its line.
    pub fn description(&self) -> (text: &'static str)
        ensures
            text@ == self.description_text(),
    {
        match self {
            ParseFailure::Empty => "cannot parse integer from empty string",
            ParseFailure::InvalidDigit => "invalid digit found in string",
            ParseFailure::PosOverflow => "number too large to fit in target type",
            ParseFailure::NegOverflow => "number too small to fit in target type",
        }
    }
}

/// The trimmed length is the one cut point behind which everything is
/// whitespace and before which the text does not end in whitespace.
pub proof fn lemma_trimmed_len(s: Seq<char>, n: int)
    requires
        0 <= n <= s.len(),
        forall|i: int| n <= i < s.len() ==> is_whitespace(#[trigger] s[i]),
        n == 0 || !is_whitespace(s[n - 1]),
    ensures
        trimmed_len(s) == n,
    decreases s.len(),
{
    if n < s.len() {
        assert(is_whitespace(s[s.len() - 1]));
        lemma_trimmed_len(s.drop_last(), n);
    }
}

/// A text whose first `k` characters are digits, and whose next character, if
/// there is one, is none, has exactly `k` leading digits.
pub proof fn lemma_leading_digits(s: Seq<char>, k: int)
    requires
        0 <= k <= s.len(),
        forall|i: int| 0 <= i < k ==> is_digit(#[trigger] s[i]),
        k == s.len() || !is_digit(s[k]),
    ensures
        leading_digits(s) == k,
    decreases k,
{
    if k > 0 {
        assert(is_digit(s[0]));
        let rest = s.drop_first();
        assert forall|i: int| 0 <= i < k - 1 implies is_digit(#[trigger] rest[i]) by {
            assert(rest[i] == s[i + 1]);
        }
        lemma_leading_digits(rest, k - 1);
    }
}

/// The leading digits of a text are digits, and they end the text or stand
/// before a character that is no digit.
pub proof fn lemma_leading_digits_are_digits(s: Seq<char>)
    ensures
        leading_digits(s) <= s.len(),
        forall|i: int| 0 <= i < leading_digits(s) ==> is_digit(#[trigger] s[i]),
        leading_digits(s) == s.len() || !is_digit(s[leading_digits(s) as int]),
    decreases s.len(),
{
    if s.len() > 0 && is_digit(s[0]) {
        let rest = s.drop_first();
        lemma_leading_digits_are_digits(rest);
        assert forall|i: int| 0 <= i < leading_digits(s) implies is_digit(#[trigger] s[i]) by {
            if i > 0 {
                assert(s[i] == rest[i - 1]);
            }
        }
        if leading_digits(s) < s.len() {
            assert(s[leading_digits(s) as int] == rest[leading_digits(rest) as int]);
        }
    }
}

/// Reading one more digit multiplies the value by ten and adds the digit.
pub proof fn lemma_digits_value_step(s: Seq<char>, i: int)
    requires
        0 <= i < s.len(),
    ensures
        digits_value(s.take(i + 1)) == digits_value(s.take(i)) * 10 + digit_value(s[i]),
{
    assert(s.take(i + 1).drop_last() =~= s.take(i));
}

/// The value of a string of digits never falls when more digits are read.
pub proof fn lemma_digits_value_grows(s: Seq<char>, i: int, j: int)
    requires
        0 <= i <= j <= s.len(),
        forall|k: int| 0 <= k < j ==> is_digit(#[trigger] s[k]),
    ensures
        0 <= digits_value(s.take(i)) <= digits_value(s.take(j)),
    decreases j,
{
    if j == 0 {
        assert(s.take(0).len() == 0);
    } else if i == j {
        lemma_digits_value_grows(s, i - 1, j - 1);
        lemma_digits_value_step(s, j - 1);
    } else {
        lemma_digits_value_grows(s, i, j - 1);
        lemma_digits_value_step(s, j - 1);
    }
}

/// Tells whether `c` is whitespace.
pub fn whitespace(c: char) -> (yes: bool)
    ensures
        yes == is_whitespace(c),
{
    let n: u32 = c as u32;
    (0x09 <= n && n <= 0x0D) || n == 0x20 || n == 0x85 || n == 0xA0 || n == 0x1680 || (0x2000 <= n
        && n <= 0x200A) || n == 0x2028 || n == 0x2029 || n == 0x202F || n == 0x205F || n == 0x3000
}

/// Tells whether `c` is a decimal digit.
pub fn digit(c: char) -> (yes: bool)
    ensures
        yes == is_digit(c),
{
    let n: u32 = c as u32;
    0x30 <= n && n <= 0x39
}

/// Returns the characters of `text`, one by one.
pub fn chars_of(text: &str) -> (chars: Vec<char>)
    ensures
        chars@ == text@,
{
    let mut chars: Vec<char> = Vec::new();
    for c in it: text.chars()
        invariant
            it.seq() == text@,
            chars@.len() == it.index(),
            forall|j: int| 0 <= j < chars@.len() ==> chars@[j] == it.seq()[j],
    {
        chars.push(c);
    }
    assert(chars@ =~= text@);
    chars
}

/// Returns how many of the characters are left once trailing whitespace is
/// cut off.
pub fn trimmed_length(chars: &Vec<char>) -> (n: usize)
    ensures
        n == trimmed_len(chars@),
        n <= chars.len(),
{
    let mut n: usize = chars.len();
    while n > 0 && whitespace(chars[n - 1])
        invariant
            n <= chars.len(),
            forall|i: int| n <= i < chars.len() ==> is_whitespace(#[trigger] chars@[i]),
        decreases n,
    {
        n = n - 1;
    }
    proof {
        lemma_trimmed_len(chars@, n as int);
    }
    n
}

/// Reads the first `n` characters as a signed decimal integer.
#[verifier::loop_isolation(false)]
pub fn parse_chars(chars: &Vec<char>, n: usize) -> (outcome: Result<i64, ParseFailure>)
    requires
        n <= chars.len(),
    ensures
        outcome == parse_integer(chars@.take(n as int)),
{
    if n == 0 {
        return Err(ParseFailure::Empty);
    }
    let ghost s = chars@.take(n as int);
    let first = chars[0];
    let negative = first == '-';
    let start: usize = if first == '-' || first == '+' {
        1
    } else {
        0
    };
    let ghost body = if start == 1 {
        s.drop_first()
    } else {
        s
    };
    assert(s[0] == first);
    assert(body.len() == n - start);
    if start == n {
        return Err(ParseFailure::InvalidDigit);
    }
    let mut acc: i64 = 0;
    let mut i: usize = start;
    proof {
        assert(body.take(0).len() == 0);
    }
    while i < n
        invariant
            start <= i <= n,
            forall|k: int| 0 <= k < i - start ==> is_digit(#[trigger] body[k]),
            negative ==> acc == -digits_value(body.take(i - start)),
            !negative ==> acc == digits_value(body.take(i - start)),
        decreases n - i,
    {
        let c = chars[i];
        let ghost seen = i - start;
        assert(body[seen] == c);
        if !digit(c) {
            proof {
                lemma_leading_digits(body, seen);
                lemma_digits_value_grows(body, seen, seen);
            }
            return Err(ParseFailure::InvalidDigit);
        }
        let d: i128 = (c as u32 - 0x30) as i128;
        assert(d == digit_value(c));
        proof {
            lemma_digits_value_step(body, seen);
            lemma_leading_digits_are_digits(body);
            if leading_digits(body) <= seen {
                assert(is_digit(body[leading_digits(body) as int]));
            }
            lemma_digits_value_grows(body, seen + 1, leading_digits(body) as int);
            lemma_digits_value_grows(body, seen, seen);
        }
        if negative {
            let wide: i128 = (acc as i128) * 10 - d;
            if wide < i64::MIN as i128 {
                return Err(ParseFailure::NegOverflow);
            }
            acc = wide as i64;
        } else {
            let wide: i128 = (acc as i128) * 10 + d;
            if wide > i64::MAX as i128 {
                return Err(ParseFailure::PosOverflow);
            }
            acc = wide as i64;
        }
        i = i + 1;
    }
    proof {
        lemma_leading_digits(body, body.len() as int);
        assert(body.take(body.len() as int) =~= body);
    }
    Ok(acc)
}

/// Reads a received line as a signed decimal integer, trailing whitespace
/// aside.
pub fn parse_number(line: &str) -> (outcome: Result<i64, ParseFailure>)
    ensures
        outcome == parse_line(line@),
{
    let chars = chars_of(line);
    let n = trimmed_length(&chars);
    parse_chars(&chars, n)
}

/// Returns the one-character text of the digit `d`.
pub fn digit_text(d: u64) -> (text: &'static str)
    requires
        d < 10,
    ensures
        text@ == seq![digit_char(d as int)],
{
    proof {
        reveal_strlit("0");
        reveal_strlit("1");
        reveal_strlit("2");
        reveal_strlit("3");
        reveal_strlit("4");
        reveal_strlit("5");
        reveal_strlit("6");
        reveal_strlit("7");
        reveal_strlit("8");
        reveal_strlit("9");
    }
    let text = if d == 0 {
        "0"
    } else if d == 1 {
        "1"
    } else if d == 2 {
        "2"
    } else if d == 3 {
        "3"
    } else if d == 4 {
        "4"
    } else if d == 5 {
        "5"
    } else if d == 6 {
        "6"
    } else if d == 7 {
        "7"
    } else if d == 8 {
        "8"
    } else {
        "9"
    };
    assert(text@ =~= seq![digit_char(d as int)]);
    text
}

/// Appends the decimal digits of `n` to `out`.
pub fn push_digits(out: &mut String, n: u64)
    ensures
        final(out)@ == old(out)@ + decimal_digits(n as nat),
    decreases n,
{
    if n >= 10 {
        push_digits(out, n / 10);
    }
    out.append(digit_text(n % 10));
}

/// Appends the decimal notation of `n` to `out`.
pub fn push_decimal(out: &mut String, n: i64)
    ensures
        final(out)@ == old(out)@ + decimal(n as int),
{
    if n < 0 {
        proof {
            reveal_strlit("-");
        }
        out.append("-");
        assert("-"@ =~= seq!['-']);
        let magnitude: u64 = if n == i64::MIN {
            0x8000_0000_0000_0000u64
        } else {
            (-n) as u64
        };
        push_digits(out, magnitude);
        assert(final(out)@ =~= old(out)@ + decimal(n as int));
    } else {
        push_digits(out, n as u64);
    }
}

/// Returns the decimal notation of `n`.
pub fn decimal_text(n: i64) -> (text: String)
    ensures
        text@ == decimal(n as int),
{
    let mut text = String::new();
    push_decimal(&mut text, n);
    assert(text@ =~= decimal(n as int));
    text
}

} // verus!
