//! Decimal notation of integers, as `Display` writes them.

use vstd::prelude::*;

verus! {

/// The ASCII digit for `d`, which is below ten.
pub open spec fn digit_char(d: nat) -> char {
    ((48 + d) as u8) as char
}

/// The decimal digits of `n`, most significant first, without leading zeros.
pub open spec fn decimal(n: nat) -> Seq<char>
    decreases n,
{
    if n < 10 {
        seq![digit_char(n)]
    } else {
        decimal(n / 10).push(digit_char(n % 10))
    }
}

/// The decimal notation of `v`: a `'-'` before the digits of a negative value.
pub open spec fn signed_decimal(v: int) -> Seq<char> {
    if v < 0 {
        seq!['-'] + decimal((-v) as nat)
    } else {
        decimal(v as nat)
    }
}

/// Appends the decimal digits of `n` to `out`.
pub fn push_decimal(out: &mut Vec<char>, n: u64)
    ensures
        final(out)@ == old(out)@ + decimal(n as nat),
    decreases n,
{
    if n >= 10 {
        push_decimal(out, n / 10);
    }
    let d: u8 = (n % 10) as u8;
    out.push((48u8 + d) as char);
    assert(n < 10 ==> decimal(n as nat) == seq![digit_char(n as nat)]);
}

/// The decimal digits of `n`.
pub fn usize_decimal(n: usize) -> (s: Vec<char>)
    ensures
        s@ == decimal(n as nat),
{
    let mut s: Vec<char> = Vec::new();
    push_decimal(&mut s, n as u64);
    assert(s@ =~= decimal(n as nat));
    s
}

/// The decimal notation of `v`, with a `'-'` when it is negative.
pub fn i64_decimal(v: i64) -> (s: Vec<char>)
    ensures
        s@ == signed_decimal(v as int),
{
    let mut s: Vec<char> = Vec::new();
    if v < 0 {
        s.push('-');
        let magnitude: u64 = (-(v as i128)) as u64;
        push_decimal(&mut s, magnitude);
    } else {
        push_decimal(&mut s, v as u64);
        assert(s@ =~= decimal(v as nat));
    }
    s
}

} // verus!

verus! {

/// Every character of `decimal(n)` is a digit.
pub proof fn lemma_decimal_digits(n: nat)
    ensures
        decimal(n).len() > 0,
        forall|k: int|
            0 <= k < decimal(n).len() ==> 48 <= (#[trigger] decimal(n)[k]) as u32 <= 57,
        n >= 10 ==> decimal(n).len() >= 2,
    decreases n,
{
    if n >= 10 {
        lemma_decimal_digits(n / 10);
        let d = (n % 10) as nat;
        assert((digit_char(d) as u32) == 48 + d);
        assert forall|k: int| 0 <= k < decimal(n).len() implies 48 <= (#[trigger] decimal(n)[k]) as u32 <= 57 by {
            if k < decimal(n / 10).len() {
                assert(decimal(n)[k] == decimal(n / 10)[k]);
            }
        }
    } else {
        assert((digit_char(n) as u32) == 48 + n);
    }
}

/// Different numbers have different decimal notations.
pub proof fn lemma_decimal_injective(a: nat, b: nat)
    requires
        decimal(a) == decimal(b),
    ensures
        a == b,
    decreases a,
{
    lemma_decimal_digits(a);
    lemma_decimal_digits(b);
    if a < 10 && b < 10 {
        assert((digit_char(a) as u32) == 48 + a);
        assert((digit_char(b) as u32) == 48 + b);
        assert(decimal(a)[0] == digit_char(a));
        assert(decimal(b)[0] == digit_char(b));
    } else if a >= 10 && b >= 10 {
        let da = (a % 10) as nat;
        let db = (b % 10) as nat;
        assert(decimal(a).last() == digit_char(da));
        assert(decimal(b).last() == digit_char(db));
        assert((digit_char(da) as u32) == 48 + da);
        assert((digit_char(db) as u32) == 48 + db);
        assert(decimal(a).drop_last() == decimal(a / 10));
        assert(decimal(b).drop_last() == decimal(b / 10));
        lemma_decimal_injective(a / 10, b / 10);
    }
}

} // verus!
