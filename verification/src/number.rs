//! Decimal numerals.
use vstd::prelude::*;

use crate::text::to_chars;

verus! {

/// The character of the digit `d`.
pub open spec fn digit_char(d: nat) -> char {
    (48 + d) as char
}

/// The decimal numeral of `n`, without leading zeros.
pub open spec fn dec_of(n: nat) -> Seq<char>
    decreases n,
{
    if n < 10 {
        seq![digit_char(n)]
    } else {
        dec_of(n / 10).push(digit_char(n % 10))
    }
}

/// The decimal numeral of `n`, with a minus sign where it is negative.
pub open spec fn signed_dec_of(n: int) -> Seq<char> {
    if n < 0 {
        seq!['-'] + dec_of((-n) as nat)
    } else {
        dec_of(n as nat)
    }
}

fn push_dec(s: &mut String, n: u64)
    ensures
        final(s)@ == old(s)@ + dec_of(n as nat),
    decreases n,
{
    if n >= 10 {
        push_dec(s, n / 10);
    }
    let d: u8 = 48 + (n % 10) as u8;
    s.push(d as char);
    proof {
        assert(s@ =~= old(s)@ + dec_of(n as nat));
    }
}

/// The decimal numeral of `n`.
pub fn dec_u64(n: u64) -> (s: String)
    ensures
        s@ == dec_of(n as nat),
{
    let mut s: String = String::new();
    push_dec(&mut s, n);
    proof {
        assert(s@ =~= dec_of(n as nat));
    }
    s
}

/// The decimal numeral of `n`.
pub fn dec_i64(n: i64) -> (s: String)
    ensures
        s@ == signed_dec_of(n as int),
{
    if n >= 0 {
        return dec_u64(n as u64);
    }
    let mut s: String = String::new();
    s.push('-');
    let m: u64 = ((-1) - n) as u64 + 1;
    push_dec(&mut s, m);
    proof {
        assert(m == -n);
        assert(s@ =~= seq!['-'] + dec_of(m as nat));
    }
    s
}

/// Whether `c` is one of `0` to `9`.
pub open spec fn is_digit(c: char) -> bool {
    48 <= c as u32 <= 57
}

/// The number that a digit stands for.
pub open spec fn digit_value(c: char) -> nat {
    (c as u32 - 48) as nat
}

/// Whether `s` holds digits only.
pub open spec fn all_digits(s: Seq<char>) -> bool {
    forall|i: int| 0 <= i < s.len() ==> is_digit(#[trigger] s[i])
}

/// The number that a row of digits stands for.
pub open spec fn number_of(s: Seq<char>) -> nat
    decreases s.len(),
{
    if s.len() == 0 {
        0
    } else {
        number_of(s.drop_last()) * 10 + digit_value(s.last())
    }
}

/// The number written in `s`: digits, at least one, and nothing else.
pub open spec fn unsigned_of(s: Seq<char>) -> Option<nat> {
    if s.len() > 0 && all_digits(s) {
        Some(number_of(s))
    } else {
        None
    }
}

/// The `i64` written in `s`: an optional `+` or `-`, then digits; none where it does
/// not fit.
pub open spec fn i64_of(s: Seq<char>) -> Option<i64> {
    if s.len() > 0 && s[0] == '-' {
        match unsigned_of(s.drop_first()) {
            Some(n) if -n >= i64::MIN => Some((-n) as i64),
            _ => None,
        }
    } else {
        let digits = if s.len() > 0 && s[0] == '+' {
            s.drop_first()
        } else {
            s
        };
        match unsigned_of(digits) {
            Some(n) if n <= i64::MAX => Some(n as i64),
            _ => None,
        }
    }
}

/// The `u32` written in `s`: digits without a sign; none where it does not fit.
pub open spec fn u32_of(s: Seq<char>) -> Option<u32> {
    match unsigned_of(s) {
        Some(n) if n <= u32::MAX => Some(n as u32),
        _ => None,
    }
}

/// The number written in `v[i..]` if it is at most `max`.
fn parse_digits(v: &Vec<char>, i: usize, max: u64) -> (n: Option<u64>)
    requires
        i <= v@.len(),
        max <= 0x8000_0000_0000_0000,
    ensures
        match unsigned_of(v@.skip(i as int)) {
            Some(m) => if m <= max {
                n == Some(m as u64)
            } else {
                n is None
            },
            None => n is None,
        },
{
    let ghost d = v@.skip(i as int);
    if i == v.len() {
        return None;
    }
    let mut n: u64 = 0;
    let mut over = false;
    let mut k: usize = i;
    proof {
        assert(d.take(0) =~= Seq::<char>::empty());
    }
    while k < v.len()
        invariant
            i <= k <= v@.len(),
            d == v@.skip(i as int),
            max <= 0x8000_0000_0000_0000,
            forall|j: int| 0 <= j < k - i ==> is_digit(d[j]),
            !over ==> n == number_of(d.take(k - i)) && n <= max,
            over ==> number_of(d.take(k - i)) > max,
        decreases v@.len() - k,
    {
        let c: char = v[k];
        let code: u32 = c as u32;
        if code < 48 || code > 57 {
            proof {
                assert(!is_digit(d[k - i]));
            }
            return None;
        }
        proof {
            assert(d.take(k - i + 1).drop_last() =~= d.take(k - i));
            assert(d.take(k - i + 1).last() == c);
        }
        if !over {
            let m: u128 = (n as u128) * 10 + (code - 48) as u128;
            if m > max as u128 {
                over = true;
            } else {
                n = m as u64;
            }
        }
        k = k + 1;
    }
    proof {
        assert(d.take(k - i) =~= d);
    }
    if over {
        None
    } else {
        Some(n)
    }
}

/// The `i64` written in `s`.
pub fn parse_i64(s: &str) -> (n: Option<i64>)
    ensures
        n == i64_of(s@),
{
    let v = to_chars(s);
    proof {
        assert(v@.skip(0) =~= v@);
        assert(v@.len() > 0 ==> v@.skip(1) =~= v@.drop_first());
    }
    if v.len() > 0 && v[0] == '-' {
        match parse_digits(&v, 1, 0x8000_0000_0000_0000) {
            Some(m) => {
                if m == 0x8000_0000_0000_0000 {
                    Some(i64::MIN)
                } else {
                    Some(-(m as i64))
                }
            },
            None => None,
        }
    } else {
        let start: usize = if v.len() > 0 && v[0] == '+' {
            1
        } else {
            0
        };
        match parse_digits(&v, start, 0x7fff_ffff_ffff_ffff) {
            Some(m) => Some(m as i64),
            None => None,
        }
    }
}

/// The `u32` written in `s`, without a sign.
pub fn parse_u32(s: &str) -> (n: Option<u32>)
    ensures
        n == u32_of(s@),
{
    let v = to_chars(s);
    proof {
        assert(v@.skip(0) =~= v@);
    }
    match parse_digits(&v, 0, 0xffff_ffff) {
        Some(m) => Some(m as u32),
        None => None,
    }
}

proof fn lemma_dec_reads_back(n: nat)
    ensures
        all_digits(dec_of(n)),
        dec_of(n).len() > 0,
        number_of(dec_of(n)) == n,
    decreases n,
{
    if n < 10 {
        reveal_with_fuel(number_of, 2);
        assert(dec_of(n).drop_last() =~= Seq::<char>::empty());
    } else {
        lemma_dec_reads_back(n / 10);
        assert(dec_of(n).drop_last() =~= dec_of(n / 10));
    }
}

/// A numeral reads back as the number that it was written for.
pub proof fn law_numeral_round_trip(n: i64)
    ensures
        i64_of(signed_dec_of(n as int)) == Some(n),
{
    if n < 0 {
        lemma_dec_reads_back((-n) as nat);
        let s = signed_dec_of(n as int);
        assert(s[0] == '-');
        assert(s.drop_first() =~= dec_of((-n) as nat));
    } else {
        lemma_dec_reads_back(n as nat);
        let s = signed_dec_of(n as int);
        assert(is_digit(s[0]));
    }
}

/// The numeral of a number is made of digits and reads back as that number, with any
/// number of zeros before it too.
pub proof fn law_unsigned_numeral_round_trip(n: u32, zeros: Seq<char>)
    requires
        forall|i: int| 0 <= i < zeros.len() ==> #[trigger] zeros[i] == '0',
    ensures
        all_digits(dec_of(n as nat)),
        dec_of(n as nat).len() > 0,
        u32_of(zeros + dec_of(n as nat)) == Some(n),
{
    let d = dec_of(n as nat);
    lemma_dec_reads_back(n as nat);
    lemma_zeros_lead(zeros, d);
    assert forall|i: int| 0 <= i < (zeros + d).len() implies is_digit(#[trigger] (zeros + d)[i]) by {
        if i < zeros.len() {
            assert(zeros[i] == '0');
        } else {
            assert(is_digit(d[i - zeros.len()]));
        }
    }
}

proof fn lemma_zeros_lead(zeros: Seq<char>, s: Seq<char>)
    requires
        forall|i: int| 0 <= i < zeros.len() ==> #[trigger] zeros[i] == '0',
    ensures
        number_of(zeros + s) == number_of(s),
    decreases zeros.len() + s.len(),
{
    let t = zeros + s;
    if s.len() > 0 {
        assert(t.drop_last() =~= zeros + s.drop_last());
        lemma_zeros_lead(zeros, s.drop_last());
    } else if zeros.len() > 0 {
        assert(t.drop_last() =~= zeros.drop_last() + s);
        lemma_zeros_lead(zeros.drop_last(), s);
        assert(t.last() == zeros[zeros.len() - 1]);
    } else {
        assert(t =~= s);
    }
}

/// Nothing but digits is a number: a text that reads as one is digits, at least one,
/// behind a sign at most; and without any sign where no sign is allowed.
pub proof fn law_only_digits_are_numbers(s: Seq<char>)
    ensures
        u32_of(s) is Some ==> s.len() > 0 && all_digits(s),
        i64_of(s) is Some ==> s.len() > 0 && ((s[0] == '-' || s[0] == '+') && s.len() > 1
            && all_digits(s.drop_first()) || all_digits(s)),
        all_digits(s) && s.len() > 0 && s.len() <= 9 ==> u32_of(s) is Some && i64_of(s) is Some,
{
    if all_digits(s) && s.len() > 0 && s.len() <= 9 {
        assert(is_digit(s[0]));
        lemma_number_is_bounded(s, 9);
    }
}

proof fn lemma_number_is_bounded(s: Seq<char>, n: nat)
    requires
        all_digits(s),
        s.len() <= n <= 9,
    ensures
        n == 0 ==> number_of(s) == 0,
        number_of(s) < 1_000_000_000,
        n <= 8 ==> number_of(s) < 100_000_000,
        n <= 7 ==> number_of(s) < 10_000_000,
        n <= 6 ==> number_of(s) < 1_000_000,
        n <= 5 ==> number_of(s) < 100_000,
        n <= 4 ==> number_of(s) < 10_000,
        n <= 3 ==> number_of(s) < 1_000,
        n <= 2 ==> number_of(s) < 100,
        n <= 1 ==> number_of(s) < 10,
    decreases n,
{
    if s.len() > 0 {
        let t = s.drop_last();
        assert(is_digit(s[s.len() - 1]));
        assert forall|i: int| 0 <= i < t.len() implies is_digit(#[trigger] t[i]) by {
            assert(is_digit(s[i]));
        }
        lemma_number_is_bounded(t, (n - 1) as nat);
    }
}

/// A plus sign may stand before a number, and changes nothing; a number that does not fit
/// is none.
pub proof fn law_numbers_are_read_whole(n: nat)
    ensures
        n <= i64::MAX ==> i64_of(dec_of(n)) == Some(n as i64) && i64_of(seq!['+'] + dec_of(n))
            == Some(n as i64),
        n <= i64::MAX ==> i64_of(seq!['-'] + dec_of(n)) == Some((-n) as i64),
        n > i64::MAX ==> i64_of(dec_of(n)) is None && i64_of(seq!['+'] + dec_of(n)) is None,
        n > i64::MAX + 1 ==> i64_of(seq!['-'] + dec_of(n)) is None,
        n > u32::MAX ==> u32_of(dec_of(n)) is None,
        u32_of(seq!['+'] + dec_of(n)) is None,
        u32_of(seq!['-'] + dec_of(n)) is None,
{
    lemma_dec_reads_back(n);
    let d = dec_of(n);
    assert(is_digit(d[0]));
    assert((seq!['+'] + d).drop_first() =~= d);
    assert((seq!['-'] + d).drop_first() =~= d);
    assert((seq!['+'] + d)[0] == '+');
    assert((seq!['-'] + d)[0] == '-');
    assert(!is_digit((seq!['+'] + d)[0]));
    assert(!is_digit((seq!['-'] + d)[0]));
}

} // verus!
