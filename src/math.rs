//! Counting and writing the decimal digits of a number.
use vstd::prelude::*;
use vstd::string::*;

verus! {

/// The number of decimal digits needed to print `n` without leading zeroes.
/// Zero needs none: the value equals `ceil(log10(n + 1))`.
pub open spec fn digit_count(n: nat) -> nat
    decreases n,
{
    if n == 0 {
        0
    } else {
        1 + digit_count(n / 10)
    }
}

/// A number below `10^k` has at most `k` digits, and a number of at least
/// `10^(k-1)` has at least `k`: digit counts are monotone.
pub proof fn lemma_digit_count_monotone(a: nat, b: nat)
    requires
        a <= b,
    ensures
        digit_count(a) <= digit_count(b),
    decreases b,
{
    if a != 0 {
        lemma_digit_count_monotone(a / 10, b / 10);
    }
}

/// Returns the amount of digits of a number, for example `12345 => 5` and `0 => 0`.
pub fn count_digits_without_leading_zeroes(number: u64) -> (r: u64)
    ensures
        r == digit_count(number as nat),
{
    proof {
        lemma_digit_count_bound(number as nat);
    }
    let mut n: u64 = number;
    let mut count: u64 = 0;
    while n > 0
        invariant
            count + digit_count(n as nat) == digit_count(number as nat),
            digit_count(number as nat) <= 20,
        decreases n,
    {
        n = n / 10;
        count = count + 1;
    }
    count
}

/// A value that fits into 64 bits has at most twenty digits.
proof fn lemma_digit_count_bound(n: nat)
    requires
        n <= u64::MAX,
    ensures
        digit_count(n) <= 20,
{
    lemma_digit_count_monotone(n, u64::MAX as nat);
    reveal_with_fuel(digit_count, 21);
    assert(digit_count(u64::MAX as nat) == 20);
}

/// The character of a decimal digit `d < 10`.
pub open spec fn digit_char(d: nat) -> char {
    ((48 + d) as u8) as char
}

/// The decimal representation of `n`, without leading zeroes; zero is `0`.
pub open spec fn decimal(n: nat) -> Seq<char>
    decreases n,
{
    if n < 10 {
        seq![digit_char(n)]
    } else {
        decimal(n / 10).push(digit_char(n % 10))
    }
}

/// `k` zero characters.
pub open spec fn zeroes(k: nat) -> Seq<char> {
    Seq::new(k, |i: int| '0')
}

/// The text of one decimal digit.
fn digit_str(d: u64) -> (r: &'static str)
    requires
        d < 10,
    ensures
        r@ == seq![digit_char(d as nat)],
{
    match d {
        0 => {
            proof {
                reveal_strlit("0");
            }
            "0"
        },
        1 => {
            proof {
                reveal_strlit("1");
            }
            "1"
        },
        2 => {
            proof {
                reveal_strlit("2");
            }
            "2"
        },
        3 => {
            proof {
                reveal_strlit("3");
            }
            "3"
        },
        4 => {
            proof {
                reveal_strlit("4");
            }
            "4"
        },
        5 => {
            proof {
                reveal_strlit("5");
            }
            "5"
        },
        6 => {
            proof {
                reveal_strlit("6");
            }
            "6"
        },
        7 => {
            proof {
                reveal_strlit("7");
            }
            "7"
        },
        8 => {
            proof {
                reveal_strlit("8");
            }
            "8"
        },
        _ => {
            proof {
                reveal_strlit("9");
            }
            "9"
        },
    }
}

/// Writes `n` in decimal, without leading zeroes.
pub fn decimal_string(n: u64) -> (r: String)
    ensures
        r@ == decimal(n as nat),
    decreases n,
{
    if n < 10 {
        String::from_str(digit_str(n))
    } else {
        let mut s = decimal_string(n / 10);
        s.append(digit_str(n % 10));
        s
    }
}

/// Appends `k` zero characters to `s`.
pub fn push_zeroes(s: &mut String, k: u64)
    ensures
        final(s)@ == old(s)@ + zeroes(k as nat),
{
    let mut i: u64 = 0;
    while i < k
        invariant
            i <= k,
            s@ == old(s)@ + zeroes(i as nat),
        decreases k - i,
    {
        proof {
            reveal_strlit("0");
        }
        s.append("0");
        i = i + 1;
        assert(s@ =~= old(s)@ + zeroes(i as nat));
    }
}

} // verus!
