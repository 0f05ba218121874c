//! Decimal text: how numbers are written, and how they are read back.

use vstd::arithmetic::power::{lemma_pow0, lemma_pow1, lemma_pow_adds, lemma_pow_positive, pow};
use vstd::prelude::*;

verus! {

/// `c` is one of the ten decimal digits.
pub open spec fn is_digit(c: char) -> bool {
    '0' <= c <= '9'
}

/// The character that stands for the digit `d`.
pub open spec fn digit_char(d: nat) -> char {
    (48 + d) as char
}

/// `n` written in decimal, without leading zeros.
pub open spec fn decimal(n: nat) -> Seq<char>
    decreases n,
{
    if n < 10 {
        seq![digit_char(n)]
    } else {
        decimal(n / 10).push(digit_char(n % 10))
    }
}

/// Every character of `s` is a decimal digit.
pub open spec fn all_digits(s: Seq<char>) -> bool {
    forall|i: int| 0 <= i < s.len() ==> is_digit(#[trigger] s[i])
}

/// The number that the digits of `s` spell.
pub open spec fn digits_value(s: Seq<char>) -> nat
    decreases s.len(),
{
    if s.len() == 0 {
        0
    } else {
        digits_value(s.drop_last()) * 10 + (s.last() as nat - 48) as nat
    }
}

/// Digits without a superfluous leading zero.
pub open spec fn is_canonical(s: Seq<char>) -> bool {
    &&& s.len() >= 1
    &&& all_digits(s)
    &&& s.len() > 1 ==> s[0] != '0'
}

/// Reading back what was written in decimal gives the number that was written.
pub proof fn lemma_decimal_reads_back(n: nat)
    ensures
        is_canonical(decimal(n)),
        digits_value(decimal(n)) == n,
        n > 0 ==> decimal(n)[0] != '0',
    decreases n,
{
    reveal_with_fuel(digits_value, 2);
    if n < 10 {
        assert(decimal(n).drop_last() =~= Seq::<char>::empty());
    } else {
        lemma_decimal_reads_back(n / 10);
        assert(decimal(n).drop_last() =~= decimal(n / 10));
        assert(decimal(n)[0] == decimal(n / 10)[0]);
    }
}

/// Digits without a superfluous leading zero are how their number is written.
pub proof fn lemma_canonical_is_decimal(s: Seq<char>)
    requires
        is_canonical(s),
    ensures
        decimal(digits_value(s)) == s,
        s.len() > 1 ==> digits_value(s) >= 10,
        s.len() == 1 && s[0] != '0' ==> digits_value(s) >= 1,
    decreases s.len(),
{
    reveal_with_fuel(digits_value, 2);
    let d = (s.last() as nat - 48) as nat;
    if s.len() == 1 {
        assert(s.drop_last() =~= Seq::<char>::empty());
        assert(decimal(digits_value(s)) =~= s);
    } else {
        let front = s.drop_last();
        assert forall|i: int| 0 <= i < front.len() implies is_digit(#[trigger] front[i]) by {
            assert(is_digit(s[i]));
        }
        lemma_canonical_is_decimal(front);
        assert(is_digit(s.last()));
        assert(digits_value(s) / 10 == digits_value(front));
        assert(digits_value(s) % 10 == d);
        assert(decimal(digits_value(s)) =~= s);
    }
}

/// Different numbers are written differently.
pub proof fn lemma_decimal_injective(m: nat, n: nat)
    requires
        decimal(m) == decimal(n),
    ensures
        m == n,
{
    lemma_decimal_reads_back(m);
    lemma_decimal_reads_back(n);
}

/// A number below a thousand takes at most three digits.
pub proof fn lemma_decimal_short(n: nat)
    requires
        n < 1000,
    ensures
        decimal(n).len() <= 3,
{
    reveal_with_fuel(decimal, 4);
}

fn digit_text(d: u8) -> (text: &'static str)
    requires
        d < 10,
    ensures
        text@ == seq![digit_char(d as nat)],
{
    proof {
        reveal_strlit("0");
        reveal_strlit("1");
        reveal_strlit("2");
        reveal_strlit("3");
        reveal_strlit("4");
        reveal_strlit("5");
        reveal_strlit("6");
        reveal_strlit("7");
        reveal_strlit("8");
        reveal_strlit("9");
    }
    let text = if d == 0 {
        "0"
    } else if d == 1 {
        "1"
    } else if d == 2 {
        "2"
    } else if d == 3 {
        "3"
    } else if d == 4 {
        "4"
    } else if d == 5 {
        "5"
    } else if d == 6 {
        "6"
    } else if d == 7 {
        "7"
    } else if d == 8 {
        "8"
    } else {
        "9"
    };
    assert(text@ =~= seq![digit_char(d as nat)]);
    text
}

/// Appends `n` in decimal to `out`.
pub fn push_decimal(out: &mut String, n: u128)
    ensures
        final(out)@ == old(out)@ + decimal(n as nat),
    decreases n,
{
    if n >= 10 {
        push_decimal(out, n / 10);
    }
    let d: u8 = (n % 10) as u8;
    out.append(digit_text(d));
    assert(out@ =~= old(out)@ + decimal(n as nat));
}

/// A number in decimal has as many digits as it takes and no more, and the digit that stands `k`
/// places before the last one counts how often the power of ten number `k` goes into the number,
/// ten times that power left out.
pub proof fn decimal_is_positional(n: nat, k: nat)
    ensures
        decimal(n).len() >= 1,
        n < pow(10, decimal(n).len()),
        decimal(n).len() > 1 ==> n >= pow(10, (decimal(n).len() - 1) as nat),
        k < decimal(n).len() ==> decimal(n)[decimal(n).len() - 1 - k] as int == 48 + (n as int
            / pow(10, k)) % 10,
    decreases n,
{
    let len = decimal(n).len();
    lemma_pow0(10);
    lemma_pow1(10);
    if n >= 10 {
        let front = decimal(n / 10);
        let less = if k > 0 {
            (k - 1) as nat
        } else {
            0
        };
        decimal_is_positional(n / 10, less);
        lemma_pow_adds(10, 1, front.len());
        lemma_pow_adds(10, 1, (front.len() - 1) as nat);
        assert(len == front.len() + 1);
        if front.len() == 1 {
            assert(pow(10, (len - 1) as nat) == 10);
        }
        if 0 < k < len {
            lemma_pow_adds(10, 1, less);
            lemma_pow_positive(10, less);
            vstd::arithmetic::div_mod::lemma_div_denominator(n as int, 10, pow(10, less));
            assert(decimal(n)[len - 1 - k] == front[front.len() - 1 - less]);
        }
    }
}

/// What digits spell is told digit by digit: nothing spells zero, and one more digit behind the
/// others makes the number ten times as large and adds what that digit stands for, which is how
/// far it is from '0'.
pub proof fn digits_spell_place_by_place(s: Seq<char>, c: char)
    requires
        '0' <= c <= '9',
    ensures
        digits_value(Seq::empty()) == 0,
        digits_value(s.push(c)) == digits_value(s) * 10 + (c as int - '0' as int),
        is_digit(c),
        all_digits(s) <==> all_digits(s.push(c)),
{
    let t = s.push(c);
    assert(t.drop_last() =~= s);
    if all_digits(t) {
        assert forall|i: int| 0 <= i < s.len() implies is_digit(#[trigger] s[i]) by {
            assert(t[i] == s[i]);
        }
    }
}

} // verus!
