//! Small text builders shared by the rest of the library: decimal rendering
//! of integers, zero padding and lowercase hexadecimal.

use vstd::prelude::*;
use vstd::string::StringExecFns;

verus! {

/// The ASCII digit for `d` (expected to be below ten).
pub open spec fn digit_char(d: nat) -> char {
    (('0' as u32) + d) as char
}

/// The decimal digits of `n`, most significant first, without leading zeros.
pub open spec fn digits(n: nat) -> Seq<char>
    decreases n,
{
    if n < 10 {
        seq![digit_char(n)]
    } else {
        digits(n / 10).push(digit_char(n % 10))
    }
}

/// The decimal rendering of `i`: a `-` sign for negative values, then its digits.
pub open spec fn decimal(i: int) -> Seq<char> {
    if i < 0 {
        seq!['-'] + digits((-i) as nat)
    } else {
        digits(i as nat)
    }
}

/// Appends one character to a string.
#[verifier::external_body]
pub(crate) fn push_char(s: &mut String, c: char)
    ensures
        final(s)@ == old(s)@.push(c),
{
    s.push(c);
}

/// Compares two string slices with `str`'s `==`.
#[verifier::external_body]
pub(crate) fn same_str(a: &str, b: &str) -> (same: bool)
    ensures
        same == (a@ == b@),
{
    a == b
}

/// Appends a string slice to a string.
pub(crate) fn push_str(s: &mut String, t: &str)
    ensures
        final(s)@ == old(s)@ + t@,
{
    s.append(t);
}

/// Appends the decimal rendering of `i` to `out`.
pub fn push_decimal(out: &mut String, i: i64)
    ensures
        final(out)@ == old(out)@ + decimal(i as int),
{
    if i < 0 {
        push_char(out, '-');
        let wide: i128 = i as i128;
        let magnitude: u64 = (-wide) as u64;
        push_digits(out, magnitude);
        proof {
            assert(out@ =~= old(out)@ + decimal(i as int));
        }
    } else {
        push_digits(out, i as u64);
    }
}

/// Appends the decimal digits of `n` to `out`.
pub fn push_digits(out: &mut String, n: u64)
    ensures
        final(out)@ == old(out)@ + digits(n as nat),
{
    let mut rev: Vec<char> = Vec::new();
    let mut m: u64 = n;
    // Collect the digits least significant first.
    loop
        invariant_except_break
            digits(n as nat) == digits(m as nat) + rev@.reverse(),
        ensures
            digits(n as nat) == rev@.reverse(),
        decreases m,
    {
        let d: u64 = m % 10;
        let c: char = digit_of(d);
        let ghost before = rev@;
        rev.push(c);
        proof {
            assert(rev@.reverse() =~= seq![c] + before.reverse());
        }
        if m < 10 {
            break;
        }
        proof {
            assert(digits(m as nat) == digits((m / 10) as nat).push(c));
            assert(digits((m / 10) as nat).push(c) + before.reverse()
                =~= digits((m / 10) as nat) + rev@.reverse());
        }
        m = m / 10;
    }
    let ghost start = out@;
    let mut i: usize = rev.len();
    while i > 0
        invariant
            i <= rev.len(),
            out@ == start + rev@.reverse().take(rev.len() - i),
        decreases i,
    {
        i = i - 1;
        let ghost prev = out@;
        push_char(out, rev[i]);
        proof {
            assert(rev@.reverse().take(rev.len() - i) =~= rev@.reverse().take(rev.len() - i - 1).push(rev@[i as int]));
        }
    }
    proof {
        assert(rev@.reverse().take(rev.len() as int) =~= rev@.reverse());
    }
}

fn digit_of(d: u64) -> (c: char)
    requires
        d < 10,
    ensures
        c == digit_char(d as nat),
{
    if d == 0 { '0' }
    else if d == 1 { '1' }
    else if d == 2 { '2' }
    else if d == 3 { '3' }
    else if d == 4 { '4' }
    else if d == 5 { '5' }
    else if d == 6 { '6' }
    else if d == 7 { '7' }
    else if d == 8 { '8' }
    else { '9' }
}

/// Appends bytes to a byte vector.
pub(crate) fn push_bytes(out: &mut Vec<u8>, bytes: &[u8])
    ensures
        final(out)@ == old(out)@ + bytes@,
{
    let mut i: usize = 0;
    while i < bytes.len()
        invariant
            i <= bytes.len(),
            out@ == old(out)@ + bytes@.take(i as int),
        decreases bytes.len() - i,
    {
        out.push(bytes[i]);
        i = i + 1;
        proof {
            assert(bytes@.take(i as int) =~= bytes@.take(i - 1).push(bytes@[i - 1]));
        }
    }
    proof {
        assert(bytes@.take(bytes.len() as int) =~= bytes@);
    }
}

} // verus!
