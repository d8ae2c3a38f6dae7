//! Errors of the permutation representations, and their messages.

use vstd::prelude::*;

verus! {

/// Why a permutation could not be built or split.
#[derive(Debug, Clone, Copy, PartialEq, Eq, Structural)]
pub enum CoreError {
    /// The image is not a bijection of `[0, len)`; `index` is the first
    /// position whose value is out of range or repeats an earlier one.
    NotAPermutation { len: usize, index: usize },
    /// The image's length is not a power of two.
    NotPowerOfTwo { len: usize },
    /// `got` variables where a divisor `expected` was asked for.
    NumVarsMismatch { expected: usize, got: usize },
    /// The number of variables must be even for splitting into halves.
    OddNumVars { num_vars: usize },
}

/// The decimal digit `d` as a character.
pub open spec fn digit_char(d: nat) -> char {
    if d == 0 {
        '0'
    } else if d == 1 {
        '1'
    } else if d == 2 {
        '2'
    } else if d == 3 {
        '3'
    } else if d == 4 {
        '4'
    } else if d == 5 {
        '5'
    } else if d == 6 {
        '6'
    } else if d == 7 {
        '7'
    } else if d == 8 {
        '8'
    } else {
        '9'
    }
}

/// The decimal numeral of `n`, most significant digit first, without
/// leading zeros.
pub open spec fn decimal(n: nat) -> Seq<char>
    decreases n,
{
    if n < 10 {
        seq![digit_char(n)]
    } else {
        decimal(n / 10).push(digit_char(n % 10))
    }
}

/// The one-character string of the digit `d`.
fn digit_str(d: usize) -> (s: &'static str)
    requires
        d < 10,
    ensures
        s@ == seq![digit_char(d as nat)],
{
    proof {
        reveal_strlit("0");
        reveal_strlit("1");
        reveal_strlit("2");
        reveal_strlit("3");
        reveal_strlit("4");
        reveal_strlit("5");
        reveal_strlit("6");
        reveal_strlit("7");
        reveal_strlit("8");
        reveal_strlit("9");
    }
    if d == 0 {
        "0"
    } else if d == 1 {
        "1"
    } else if d == 2 {
        "2"
    } else if d == 3 {
        "3"
    } else if d == 4 {
        "4"
    } else if d == 5 {
        "5"
    } else if d == 6 {
        "6"
    } else if d == 7 {
        "7"
    } else if d == 8 {
        "8"
    } else {
        "9"
    }
}

/// Append the decimal numeral of `n` to `s`.
fn append_decimal(s: &mut String, n: usize)
    ensures
        final(s)@ == old(s)@ + decimal(n as nat),
    decreases n,
{
    if n >= 10 {
        append_decimal(s, n / 10);
    }
    s.append(digit_str(n % 10));
    proof {
        if n >= 10 {
            assert(old(s)@ + decimal((n / 10) as nat) + seq![digit_char((n % 10) as nat)] =~= old(s)@
                + decimal(n as nat));
        } else {
            assert(decimal(n as nat) == seq![digit_char(n as nat)]);
        }
    }
}

impl CoreError {
    /// The message for a person: what failed, with its numbers.
    pub open spec fn message_spec(&self) -> Seq<char> {
        match *self {
            CoreError::NotAPermutation { len, index } => "not a permutation of [0, "@ + decimal(
                len as nat,
            ) + "), failed at index "@ + decimal(index as nat),
            CoreError::NotPowerOfTwo { len } => "input length "@ + decimal(len as nat)
                + " is not a power of two"@,
            CoreError::NumVarsMismatch { expected, got } => "number of variables "@ + decimal(
                got as nat,
            ) + " does not match expected "@ + decimal(expected as nat),
            CoreError::OddNumVars { num_vars } => "number of variables "@ + decimal(num_vars as nat)
                + " must be even for splitting"@,
        }
    }

    /// The message for a person, as `Display` prints it.
    pub fn message(&self) -> (m: String)
        ensures
            m@ == self.message_spec(),
    {
        match *self {
            CoreError::NotAPermutation { len, index } => {
                let mut s = String::from_str("not a permutation of [0, ");
                append_decimal(&mut s, len);
                s.append("), failed at index ");
                append_decimal(&mut s, index);
                s
            },
            CoreError::NotPowerOfTwo { len } => {
                let mut s = String::from_str("input length ");
                append_decimal(&mut s, len);
                s.append(" is not a power of two");
                s
            },
            CoreError::NumVarsMismatch { expected, got } => {
                let mut s = String::from_str("number of variables ");
                append_decimal(&mut s, got);
                s.append(" does not match expected ");
                append_decimal(&mut s, expected);
                s
            },
            CoreError::OddNumVars { num_vars } => {
                let mut s = String::from_str("number of variables ");
                append_decimal(&mut s, num_vars);
                s.append(" must be even for splitting");
                s
            },
        }
    }
}

} // verus!
