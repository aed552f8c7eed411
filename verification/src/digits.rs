//! Numbers in words.

use vstd::prelude::*;
use vstd::string::StringExecFns;

verus! {

/// A digit.
pub open spec fn digit_text(n: int) -> Seq<char> {
    if n == 0 {
        "0"@
    } else if n == 1 {
        "1"@
    } else if n == 2 {
        "2"@
    } else if n == 3 {
        "3"@
    } else if n == 4 {
        "4"@
    } else if n == 5 {
        "5"@
    } else if n == 6 {
        "6"@
    } else if n == 7 {
        "7"@
    } else if n == 8 {
        "8"@
    } else {
        "9"@
    }
}

/// A number in digits.
pub open spec fn decimal(n: nat) -> Seq<char>
    decreases n,
{
    if n < 10 {
        digit_text(n as int)
    } else {
        decimal(n / 10) + digit_text(n as int % 10)
    }
}

/// The number that digits write.
pub open spec fn number(s: Seq<char>) -> int
    decreases s.len(),
{
    if s.len() == 0 {
        0
    } else {
        10 * number(s.drop_last()) + (s.last() as int - 0x30)
    }
}

proof fn lemma_digit(n: int)
    requires
        0 <= n <= 9,
    ensures
        digit_text(n).len() == 1,
        digit_text(n)[0] as int == 0x30 + n,
{
    reveal_strlit("0");
    reveal_strlit("1");
    reveal_strlit("2");
    reveal_strlit("3");
    reveal_strlit("4");
    reveal_strlit("5");
    reveal_strlit("6");
    reveal_strlit("7");
    reveal_strlit("8");
    reveal_strlit("9");
}

/// A number is what its digits write; only that of zero begins with a zero.
pub proof fn law_digits_write_the_number(n: nat)
    ensures
        number(decimal(n)) == n,
        decimal(n).len() > 0,
        n > 0 ==> decimal(n)[0] != '0',
    decreases n,
{
    let s = decimal(n);
    if n < 10 {
        lemma_digit(n as int);
        assert(s.drop_last() =~= Seq::<char>::empty());
        assert(number(s.drop_last()) == 0);
    } else {
        law_digits_write_the_number(n / 10);
        lemma_digit(n as int % 10);
        assert(s.drop_last() =~= decimal(n / 10));
        assert(s[0] == decimal(n / 10)[0]);
    }
}

fn digit_of(n: u64) -> (r: &'static str)
    requires
        n <= 9,
    ensures
        r@ == digit_text(n as int),
{
    match n {
        0 => "0",
        1 => "1",
        2 => "2",
        3 => "3",
        4 => "4",
        5 => "5",
        6 => "6",
        7 => "7",
        8 => "8",
        _ => "9",
    }
}

/// Appends a number in digits.
pub(crate) fn push_decimal(out: &mut String, n: u64)
    ensures
        final(out)@ == old(out)@ + decimal(n as nat),
    decreases n,
{
    let ghost before = out@;
    if n < 10 {
        out.append(digit_of(n));
    } else {
        push_decimal(out, n / 10);
        out.append(digit_of(n % 10));
        assert((before + decimal((n / 10) as nat)) + digit_text(n as int % 10) =~= before + (decimal(
            (n / 10) as nat,
        ) + digit_text(n as int % 10)));
    }
}

} // verus!
