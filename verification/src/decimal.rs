//! Positions as decimal text: writing them and reading them back.
use crate::pieces::{holds, lemma_find};
use crate::text::{lemma_char_at, lemma_ascii_run, lemma_codes, lemma_encode_len};
use vstd::prelude::*;
use vstd::string::*;
use vstd::utf8::*;

verus! {

/// The character for the digit `d`.
pub open spec fn digit(d: nat) -> char
    recommends
        d < 10,
{
    ((48 + d) as u8) as char
}

/// Whether `c` is one of `0` to `9`.
pub open spec fn is_digit(c: char) -> bool {
    48 <= c as u32 <= 57
}

/// Whether `s` is made of digits only.
pub open spec fn all_digits(s: Seq<char>) -> bool {
    forall|i: int| 0 <= i < s.len() ==> is_digit(#[trigger] s[i])
}

/// The number `n` in decimal, without sign or leading zeros.
pub open spec fn decimal(n: nat) -> Seq<char>
    decreases n,
{
    if n < 10 {
        seq![digit(n)]
    } else {
        decimal(n / 10).push(digit(n % 10))
    }
}

/// The number that a sequence of digits stands for. Leading zeros count
/// for nothing, and no digits at all stand for zero.
pub open spec fn value(s: Seq<char>) -> nat
    decreases s.len(),
{
    if s.len() == 0 {
        0
    } else {
        (value(s.drop_last()) * 10 + (s.last() as u32 - 48)) as nat
    }
}

/// The digits of a number's text: the text without a leading `+`.
pub open spec fn unsigned(s: Seq<char>) -> Seq<char> {
    if s.len() > 0 && s[0] == '+' {
        s.drop_first()
    } else {
        s
    }
}

/// The number that the text `s` stands for, where it is one that is not
/// above `max`: an optional `+`, then one digit or more. Any other text,
/// and a number above `max`, stands for nothing.
pub open spec fn number(s: Seq<char>, max: nat) -> Option<nat> {
    let digits = unsigned(s);
    if digits.len() > 0 && all_digits(digits) && value(digits) <= max {
        Some(value(digits))
    } else {
        None
    }
}

/// A digit's character is a digit, and stands for it.
pub proof fn lemma_digit(d: nat)
    requires
        d < 10,
    ensures
        is_digit(digit(d)),
        digit(d) as u32 == 48 + d,
{
}

/// The decimal text of a number is made of digits and stands for the number.
pub proof fn lemma_decimal(n: nat)
    ensures
        decimal(n).len() > 0,
        all_digits(decimal(n)),
        value(decimal(n)) == n,
    decreases n,
{
    if n < 10 {
        lemma_digit(n);
        assert(decimal(n).drop_last() =~= Seq::<char>::empty());
        assert(value(decimal(n).drop_last()) == 0);
        assert(decimal(n).last() == digit(n));
    } else {
        lemma_decimal(n / 10);
        lemma_digit(n % 10);
        assert(decimal(n).drop_last() =~= decimal(n / 10));
        assert(decimal(n).last() == digit(n % 10));
        assert forall|i: int| 0 <= i < decimal(n).len() implies is_digit(
            #[trigger] decimal(n)[i],
        ) by {
            if i < decimal(n).len() - 1 {
                assert(decimal(n)[i] == decimal(n / 10)[i]);
            }
        }
    }
}

/// Read back, the decimal text of a number is that number, unless it is
/// above the limit.
pub proof fn lemma_number_decimal(n: nat, max: nat)
    ensures
        number(decimal(n), max) == if n <= max {
            Some(n)
        } else {
            None
        },
{
    lemma_decimal(n);
    let s = decimal(n);
    assert(is_digit(s[0]));
    lemma_codes(s[0], '+');
}

/// A text of digits holds nothing but digits.
pub proof fn lemma_digits_lack(s: Seq<char>, c: char)
    requires
        all_digits(s),
        !is_digit(c),
    ensures
        !holds(s, c),
{
    lemma_find(s, c);
}

/// The digits read so far never stand for more than all of them.
pub proof fn lemma_value_grows(s: Seq<char>, k: int)
    requires
        0 <= k <= s.len(),
        all_digits(s),
    ensures
        value(s.take(k)) <= value(s),
    decreases s.len() - k,
{
    if k == s.len() {
        assert(s.take(k) =~= s);
    } else {
        lemma_value_grows(s, k + 1);
        assert(s.take(k + 1).drop_last() =~= s.take(k));
        assert(is_digit(s[k]));
        assert(s.take(k + 1).last() == s[k]);
    }
}

/// The text of one digit.
fn digit_text(d: usize) -> (r: &'static str)
    requires
        d < 10,
    ensures
        r@ == seq![digit(d as nat)],
{
    proof {
        reveal_strlit("0");
        reveal_strlit("1");
        reveal_strlit("2");
        reveal_strlit("3");
        reveal_strlit("4");
        reveal_strlit("5");
        reveal_strlit("6");
        reveal_strlit("7");
        reveal_strlit("8");
        reveal_strlit("9");
    }
    let r = match d {
        0 => "0",
        1 => "1",
        2 => "2",
        3 => "3",
        4 => "4",
        5 => "5",
        6 => "6",
        7 => "7",
        8 => "8",
        _ => "9",
    };
    assert(r@ =~= seq![digit(d as nat)]);
    r
}

/// Writes `n` in decimal at the end of `out`.
pub fn push_decimal(out: &mut String, n: usize)
    ensures
        final(out)@ == old(out)@ + decimal(n as nat),
    decreases n,
{
    if n >= 10 {
        push_decimal(out, n / 10);
    }
    out.append(digit_text(n % 10));
    assert(out@ =~= old(out)@ + decimal(n as nat));
}

/// Reads `s` as a number that is not above `max`.
pub fn parse_number(s: &str, max: u32) -> (r: Option<u32>)
    ensures
        match number(s@, max as nat) {
            Some(v) => r == Some(v as u32),
            None => r is None,
        },
{
    let b = s.as_bytes();
    let n = b.len();
    let ghost t = s@;
    proof {
        lemma_encode_len(t);
        if n > 0 {
            lemma_char_at(t, 0);
            lemma_codes(t[0], '+');
        }
    }
    let start: usize = if n > 0 && b[0] == 43 {
        1
    } else {
        0
    };
    let ghost digits = unsigned(t);
    assert(digits =~= t.skip(start as int));
    if start == n {
        proof {
            lemma_ascii_run(t, n as int);
        }
        return None;
    }
    let mut i: usize = start;
    let mut acc: u32 = 0;
    while i < n
        invariant
            start <= i <= n,
            n == b@.len(),
            b@ == encode_utf8(t),
            t == s@,
            digits == unsigned(t),
            digits == t.skip(start as int),
            start < n,
            forall|j: int| 0 <= j < i ==> b@[j] < 0x80,
            i <= t.len(),
            all_digits(t.subrange(start as int, i as int)),
            acc == value(t.subrange(start as int, i as int)),
            acc <= max,
        decreases n - i,
    {
        let c = b[i];
        proof {
            lemma_char_at(t, i as int);
        }
        if c < 48 || c > 57 {
            assert(!is_digit(digits[i - start]));
            return None;
        }
        let next: u64 = acc as u64 * 10 + (c - 48) as u64;
        let ghost seen = t.subrange(start as int, i + 1);
        proof {
            assert(seen.drop_last() =~= t.subrange(start as int, i as int));
            assert(seen.last() == t[i as int]);
            assert(all_digits(seen)) by {
                assert forall|j: int| 0 <= j < seen.len() implies is_digit(#[trigger] seen[j]) by {
                    if j < seen.len() - 1 {
                        assert(seen[j] == seen.drop_last()[j]);
                    }
                }
            }
            assert(next == value(seen));
        }
        if next > max as u64 {
            proof {
                if all_digits(digits) {
                    lemma_value_grows(digits, i + 1 - start);
                    assert(digits.take(i + 1 - start) =~= seen);
                }
            }
            return None;
        }
        acc = next as u32;
        i += 1;
    }
    proof {
        lemma_ascii_run(t, n as int);
        assert(t.len() == n);
        assert(t.subrange(start as int, n as int) =~= digits);
    }
    Some(acc)
}

} // verus!
