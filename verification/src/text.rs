//! Rendering numbers as text.

use vstd::prelude::*;

verus! {

/// The character of a decimal or hexadecimal digit.
pub open spec fn digit_char(d: int) -> char {
    if d == 0 { '0' }
    else if d == 1 { '1' }
    else if d == 2 { '2' }
    else if d == 3 { '3' }
    else if d == 4 { '4' }
    else if d == 5 { '5' }
    else if d == 6 { '6' }
    else if d == 7 { '7' }
    else if d == 8 { '8' }
    else if d == 9 { '9' }
    else if d == 10 { 'a' }
    else if d == 11 { 'b' }
    else if d == 12 { 'c' }
    else if d == 13 { 'd' }
    else if d == 14 { 'e' }
    else { 'f' }
}

/// The digits of `n` in the given base, most significant first, without leading zeros
/// (zero is written `0`).
pub open spec fn digits_text(n: nat, base: nat) -> Seq<char>
    decreases n,
{
    if base < 2 || n < base {
        seq![digit_char(n as int)]
    } else {
        proof {
            assert(n / base < n) by (nonlinear_arith)
                requires
                    base >= 2,
                    n >= base,
            ;
        }
        digits_text(n / base, base).push(digit_char((n % base) as int))
    }
}

/// `n` written in decimal.
pub open spec fn decimal_text(n: nat) -> Seq<char> {
    digits_text(n, 10)
}

/// `n` written in lower-case hexadecimal.
pub open spec fn hex_text(n: nat) -> Seq<char> {
    digits_text(n, 16)
}

/// The text of a single digit.
fn digit_str(d: u64) -> (r: &'static str)
    requires
        d < 16,
    ensures
        r@ == seq![digit_char(d as int)],
{
    proof {
        reveal_strlit("0");
        reveal_strlit("1");
        reveal_strlit("2");
        reveal_strlit("3");
        reveal_strlit("4");
        reveal_strlit("5");
        reveal_strlit("6");
        reveal_strlit("7");
        reveal_strlit("8");
        reveal_strlit("9");
        reveal_strlit("a");
        reveal_strlit("b");
        reveal_strlit("c");
        reveal_strlit("d");
        reveal_strlit("e");
        reveal_strlit("f");
    }
    if d == 0 { "0" }
    else if d == 1 { "1" }
    else if d == 2 { "2" }
    else if d == 3 { "3" }
    else if d == 4 { "4" }
    else if d == 5 { "5" }
    else if d == 6 { "6" }
    else if d == 7 { "7" }
    else if d == 8 { "8" }
    else if d == 9 { "9" }
    else if d == 10 { "a" }
    else if d == 11 { "b" }
    else if d == 12 { "c" }
    else if d == 13 { "d" }
    else if d == 14 { "e" }
    else { "f" }
}

/// Appends the digits of `n` in base `base` (ten or sixteen) to `out`.
pub fn push_digits(out: &mut String, n: u64, base: u64)
    requires
        base == 10 || base == 16,
    ensures
        final(out)@ == old(out)@ + digits_text(n as nat, base as nat),
    decreases n,
{
    let ghost start = out@;
    if n >= base {
        push_digits(out, n / base, base);
    }
    let ghost mid = out@;
    out.append(digit_str(n % base));
    assert(out@ == mid + seq![digit_char((n % base) as int)]);
    if n >= base {
        assert(out@ =~= start + digits_text((n / base) as nat, base as nat).push(digit_char((n % base) as int)));
    } else {
        assert(n % base == n);
        assert(out@ =~= start + seq![digit_char(n as int)]);
    }
    assert(digits_text(n as nat, base as nat) =~= if n < base {
        seq![digit_char(n as int)]
    } else {
        digits_text((n / base) as nat, base as nat).push(digit_char((n % base) as int))
    });
}

/// `n` written in decimal.
pub fn decimal_string(n: u64) -> (r: String)
    ensures
        r@ == decimal_text(n as nat),
{
    let mut out = String::new();
    push_digits(&mut out, n, 10);
    assert(out@ =~= decimal_text(n as nat));
    out
}

} // verus!
