//! Decimal literals: what a run of digit characters denotes, and an
//! executable reader that is proved against it.

use vstd::prelude::*;

verus! {

/// Why a piece of text failed to read as a non-negative integer.
#[derive(Debug, Clone, Copy, PartialEq, Eq, Structural)]
pub enum NumError {
    /// The text was empty.
    Empty,
    /// Some character was not an ASCII decimal digit.
    BadDigit,
    /// The denoted value does not fit in `u32`.
    TooLarge,
}

/// The description of each way a number can fail to read.
pub open spec fn spec_num_error_text(e: NumError) -> Seq<char> {
    match e {
        NumError::Empty => "cannot parse integer from empty string"@,
        NumError::BadDigit => "invalid digit found in string"@,
        NumError::TooLarge => "number too large to fit in target type"@,
    }
}

impl NumError {
    /// A human-readable description of the failure.
    pub fn text(&self) -> (r: &'static str)
        ensures
            r@ == spec_num_error_text(*self),
    {
        match self {
            NumError::Empty => "cannot parse integer from empty string",
            NumError::BadDigit => "invalid digit found in string",
            NumError::TooLarge => "number too large to fit in target type",
        }
    }
}

/// Whether `c` is an ASCII decimal digit.
pub open spec fn is_digit(c: char) -> bool {
    '0' as u32 <= c as u32 && c as u32 <= '9' as u32
}

/// The value of a single digit character.
pub open spec fn digit_val(c: char) -> int {
    c as u32 - '0' as u32
}

/// Whether every character of `s` is an ASCII decimal digit.
pub open spec fn all_digits(s: Seq<char>) -> bool {
    forall|i: int| 0 <= i < s.len() ==> is_digit(s[i])
}

/// The number denoted by the digit string `s`, most significant digit
/// first, with arbitrary precision.
pub open spec fn digits_val(s: Seq<char>) -> int
    decreases s.len(),
{
    if s.len() == 0 {
        0
    } else {
        digits_val(s.drop_last()) * 10 + digit_val(s.last())
    }
}

/// Whether `s` is a valid `u32` literal: nonempty, all digits, and in range.
pub open spec fn is_u32_literal(s: Seq<char>) -> bool {
    s.len() > 0 && all_digits(s) && digits_val(s) <= u32::MAX
}

proof fn lemma_digits_val_nonneg(s: Seq<char>)
    requires
        all_digits(s),
    ensures
        digits_val(s) >= 0,
    decreases s.len(),
{
    if s.len() > 0 {
        lemma_digits_val_nonneg(s.drop_last());
    }
}

/// A digit string denotes at least as much as any of its prefixes.
proof fn lemma_digits_val_prefix_le(s: Seq<char>, i: int)
    requires
        all_digits(s),
        0 <= i <= s.len(),
    ensures
        digits_val(s.take(i)) <= digits_val(s),
    decreases s.len() - i,
{
    if i < s.len() {
        assert(s.take(i + 1).drop_last() =~= s.take(i));
        assert(all_digits(s.take(i)));
        lemma_digits_val_nonneg(s.take(i));
        lemma_digits_val_prefix_le(s, i + 1);
    } else {
        assert(s.take(i) =~= s);
    }
}

/// The digit character for a value `d` between 0 and 9.
pub open spec fn char_of_digit(d: int) -> char {
    if d == 0 {
        '0'
    } else if d == 1 {
        '1'
    } else if d == 2 {
        '2'
    } else if d == 3 {
        '3'
    } else if d == 4 {
        '4'
    } else if d == 5 {
        '5'
    } else if d == 6 {
        '6'
    } else if d == 7 {
        '7'
    } else if d == 8 {
        '8'
    } else {
        '9'
    }
}

/// The decimal representation of `n >= 0`, most significant digit first,
/// with no leading zero except for `n == 0` itself.
pub open spec fn dec_digits(n: int) -> Seq<char>
    decreases n,
{
    if n < 10 {
        seq![char_of_digit(n)]
    } else {
        dec_digits(n / 10).push(char_of_digit(n % 10))
    }
}

/// A borrowed one-character string for the digit `d`.
fn digit_str(d: u32) -> (r: &'static str)
    requires
        d < 10,
    ensures
        r@ =~= seq![char_of_digit(d as int)],
{
    let r = match d {
        0 => "0",
        1 => "1",
        2 => "2",
        3 => "3",
        4 => "4",
        5 => "5",
        6 => "6",
        7 => "7",
        8 => "8",
        _ => "9",
    };
    proof {
        reveal_strlit("0");
        reveal_strlit("1");
        reveal_strlit("2");
        reveal_strlit("3");
        reveal_strlit("4");
        reveal_strlit("5");
        reveal_strlit("6");
        reveal_strlit("7");
        reveal_strlit("8");
        reveal_strlit("9");
    }
    r
}

fn push_dec(n: u32, out: &mut String)
    ensures
        final(out)@ == old(out)@ + dec_digits(n as int),
    decreases n,
{
    if n >= 10 {
        push_dec(n / 10, out);
    }
    out.append(digit_str(n % 10));
    proof {
        assert(out@ =~= old(out)@ + dec_digits(n as int));
    }
}

/// The decimal text of `n`, most significant digit first.
pub fn dec_string(n: u32) -> (r: String)
    ensures
        r@ == dec_digits(n as int),
{
    let mut out = String::new();
    push_dec(n, &mut out);
    proof {
        assert(out@ =~= dec_digits(n as int));
    }
    out
}

/// Reads `s` as a non-negative decimal `u32`.
///
/// Succeeds exactly on nonempty all-digit strings whose value fits in
/// `u32`; no sign, whitespace or other character is accepted.
pub fn parse_u32(s: &str) -> (r: Result<u32, NumError>)
    ensures
        r is Ok <==> is_u32_literal(s@),
        r is Ok ==> r->Ok_0 == digits_val(s@),
        s@.len() == 0 ==> r == Err::<u32, NumError>(NumError::Empty),
        s@.len() > 0 && !all_digits(s@) ==> r == Err::<u32, NumError>(NumError::BadDigit),
        s@.len() > 0 && all_digits(s@) && digits_val(s@) > u32::MAX ==> r == Err::<
            u32,
            NumError,
        >(NumError::TooLarge),
{
    let n = s.unicode_len();
    if n == 0 {
        return Err(NumError::Empty);
    }
    let mut i: usize = 0;
    while i < n
        invariant
            n == s@.len(),
            i <= n,
            forall|k: int| 0 <= k < i ==> is_digit(s@[k]),
        decreases n - i,
    {
        let c = s.get_char(i);
        let cv = c as u32;
        if cv < 48 || cv > 57 {
            return Err(NumError::BadDigit);
        }
        i += 1;
    }
    let mut val: u32 = 0;
    let mut j: usize = 0;
    while j < n
        invariant
            n == s@.len(),
            n > 0,
            all_digits(s@),
            j <= n,
            val == digits_val(s@.take(j as int)),
        decreases n - j,
    {
        let c = s.get_char(j);
        let d: u32 = c as u32 - 48;
        let wide: u64 = (val as u64) * 10 + (d as u64);
        proof {
            assert(s@.take(j + 1).drop_last() =~= s@.take(j as int));
            assert(digits_val(s@.take(j + 1)) == wide);
        }
        if wide > u32::MAX as u64 {
            proof {
                lemma_digits_val_prefix_le(s@, j + 1);
            }
            return Err(NumError::TooLarge);
        }
        val = wide as u32;
        j += 1;
    }
    proof {
        assert(s@.take(n as int) =~= s@);
    }
    Ok(val)
}

} // verus!
