//! Whole numbers in decimal notation.
use vstd::prelude::*;

use crate::text;

verus! {

pub open spec fn is_digit(c: char) -> bool {
    '0' <= c <= '9'
}

/// Whether a text is one or more digits.
pub open spec fn all_digits(s: Seq<char>) -> bool {
    &&& s.len() > 0
    &&& forall|i: int| 0 <= i < s.len() ==> is_digit(#[trigger] s[i])
}

/// The number that a series of digits stands for.
pub open spec fn value(s: Seq<char>) -> int
    decreases s.len(),
{
    if s.len() == 0 {
        0
    } else {
        10 * value(s.drop_last()) + (s.last() as int - '0' as int)
    }
}

/// The number that digits stand for, `None` where the text is anything else.
pub open spec fn digits_read(s: Seq<char>) -> Option<int> {
    if all_digits(s) {
        Some(value(s))
    } else {
        None
    }
}

/// The number that digits, perhaps with a plus sign before them, stand for.
pub open spec fn unsigned_read(s: Seq<char>) -> Option<int> {
    if s.len() > 0 && s[0] == '+' {
        digits_read(s.drop_first())
    } else {
        digits_read(s)
    }
}

/// The number that digits, perhaps with a sign before them, stand for.
pub open spec fn signed_read(s: Seq<char>) -> Option<int> {
    if s.len() > 0 && s[0] == '-' {
        match digits_read(s.drop_first()) {
            Some(n) => Some(-n),
            None => None,
        }
    } else {
        unsigned_read(s)
    }
}

/// The number as a `u64`, `None` where the text is not a number or does not fit.
pub open spec fn u64_read(s: Seq<char>) -> Option<u64> {
    match unsigned_read(s) {
        Some(n) => if n <= u64::MAX {
            Some(n as u64)
        } else {
            None
        },
        None => None,
    }
}

/// The number as an `i64`, `None` where the text is not a number or does not fit.
pub open spec fn i64_read(s: Seq<char>) -> Option<i64> {
    match signed_read(s) {
        Some(n) => if i64::MIN <= n <= i64::MAX {
            Some(n as i64)
        } else {
            None
        },
        None => None,
    }
}

/// The number as a `usize`, `None` where the text is not a number or does not fit.
pub open spec fn usize_read(s: Seq<char>) -> Option<usize> {
    match unsigned_read(s) {
        Some(n) => if n <= usize::MAX {
            Some(n as usize)
        } else {
            None
        },
        None => None,
    }
}

/// The number in digits, without zeros in front.
pub open spec fn digits(n: nat) -> Seq<char>
    decreases n,
{
    if n < 10 {
        seq![('0' as int + n) as char]
    } else {
        digits(n / 10).push(('0' as int + n % 10) as char)
    }
}

/// The number in decimal notation.
pub open spec fn decimal(n: int) -> Seq<char> {
    if n < 0 {
        seq!['-'] + digits((-n) as nat)
    } else {
        digits(n as nat)
    }
}

/// Digits stand for no number below zero, and more digits for no smaller number.
proof fn lemma_value_grows(s: Seq<char>, n: int)
    requires
        all_digits(s),
        0 <= n <= s.len(),
    ensures
        0 <= value(s.take(n)) <= value(s),
    decreases s.len(),
{
    let front = s.drop_last();
    assert(is_digit(s.last()));
    if front.len() == 0 {
        assert(value(front) == 0);
        assert(s.take(0) =~= front);
        assert(s.take(1) =~= s);
    } else {
        assert(all_digits(front)) by {
            assert forall|i: int| 0 <= i < front.len() implies is_digit(#[trigger] front[i]) by {
                assert(front[i] == s[i]);
            }
        }
        if n == s.len() {
            lemma_value_grows(front, front.len() as int);
            assert(front.take(front.len() as int) =~= front);
            assert(s.take(n) =~= s);
        } else {
            lemma_value_grows(front, n);
            assert(s.take(n) =~= front.take(n));
        }
    }
}

/// Reads digits, from place `from` on, as a number of at most `u64::MAX`.
fn read_digits(chars: &Vec<char>, from: usize) -> (n: Option<u64>)
    requires
        from <= chars@.len(),
    ensures
        ({
            let s = chars@.skip(from as int);
            n == match digits_read(s) {
                Some(n) => if n <= u64::MAX {
                    Some(n as u64)
                } else {
                    None
                },
                None => None,
            }
        }),
{
    let ghost s = chars@.skip(from as int);
    if from == chars.len() {
        return None;
    }
    let mut n: u64 = 0;
    let mut i = from;
    assert(s.take(0) =~= Seq::empty());
    while i < chars.len()
        invariant
            from <= i <= chars@.len(),
            s == chars@.skip(from as int),
            n == value(s.take(i - from)),
            forall|j: int| 0 <= j < i - from ==> is_digit(#[trigger] s[j]),
        decreases chars@.len() - i,
    {
        let c = chars[i];
        assert(c == s[i - from]);
        if !('0' <= c && c <= '9') {
            return None;
        }
        let d = (c as u8 - '0' as u8) as u64;
        let ghost next = s.take(i - from + 1);
        proof {
            assert(next.drop_last() =~= s.take(i - from));
            assert(next.last() == c);
            assert(value(next) == 10 * n + d);
        }
        if n > (u64::MAX - d) / 10 {
            proof {
                if all_digits(s) {
                    lemma_value_grows(s, i - from + 1);
                }
            }
            return None;
        }
        n = n * 10 + d;
        i = i + 1;
    }
    assert(s.take(i - from) =~= s);
    Some(n)
}

/// Reads a number without a minus sign.
pub(crate) fn read_u64(s: &str) -> (n: Option<u64>)
    ensures
        n == u64_read(s@),
{
    let chars = text::characters(s);
    if chars.len() > 0 && chars[0] == '+' {
        assert(chars@.skip(1) =~= chars@.drop_first());
        read_digits(&chars, 1)
    } else {
        assert(chars@.skip(0) =~= chars@);
        read_digits(&chars, 0)
    }
}

/// Reads a length.
pub(crate) fn read_usize(s: &str) -> (n: Option<usize>)
    ensures
        n == usize_read(s@),
{
    proof {
        lemma_not_negative(s@);
    }
    match read_u64(s) {
        Some(n) => if n <= usize::MAX as u64 {
            Some(n as usize)
        } else {
            None
        },
        None => None,
    }
}

/// A number without a minus sign is not below zero.
pub proof fn lemma_not_negative(s: Seq<char>)
    ensures
        unsigned_read(s) matches Some(n) ==> n >= 0,
{
    let digits = if s.len() > 0 && s[0] == '+' {
        s.drop_first()
    } else {
        s
    };
    if all_digits(digits) {
        lemma_value_grows(digits, 0);
    }
}

/// Reads a number.
pub(crate) fn read_i64(s: &str) -> (n: Option<i64>)
    ensures
        n == i64_read(s@),
{
    let chars = text::characters(s);
    if chars.len() > 0 && chars[0] == '-' {
        proof {
            assert(chars@.skip(1) =~= chars@.drop_first());
            if all_digits(chars@.skip(1)) {
                lemma_value_grows(chars@.skip(1), 0);
            }
        }
        match read_digits(&chars, 1) {
            Some(n) => if n <= 0x8000_0000_0000_0000 {
                Some((-(n as i128)) as i64)
            } else {
                None
            },
            None => None,
        }
    } else {
        let from: usize = if chars.len() > 0 && chars[0] == '+' {
            1
        } else {
            0
        };
        proof {
            assert(chars@.skip(0) =~= chars@);
            assert(chars.len() > 0 ==> chars@.skip(1) =~= chars@.drop_first());
            if all_digits(chars@.skip(from as int)) {
                lemma_value_grows(chars@.skip(from as int), 0);
            }
        }
        match read_digits(&chars, from) {
            Some(n) => if n <= 0x7fff_ffff_ffff_ffff {
                Some(n as i64)
            } else {
                None
            },
            None => None,
        }
    }
}

/// Writes a number at the end of a text.
pub(crate) fn write_u64(out: &mut String, n: u64)
    ensures
        final(out)@ == old(out)@ + decimal(n as int),
    decreases n,
{
    if n >= 10 {
        write_u64(out, n / 10);
    }
    out.push(('0' as u8 + (n % 10) as u8) as char);
    assert(out@ =~= old(out)@ + decimal(n as int));
}

/// Writes a number at the end of a text.
pub(crate) fn write_i64(out: &mut String, n: i64)
    ensures
        final(out)@ == old(out)@ + decimal(n as int),
{
    if n < 0 {
        out.push('-');
        write_u64(out, (-(n as i128)) as u64);
        assert(out@ =~= old(out)@ + decimal(n as int));
    } else {
        write_u64(out, n as u64);
    }
}

/// What is written in digits is one or more digits that stand for the number.
pub proof fn lemma_digits(n: nat)
    ensures
        all_digits(digits(n)),
        value(digits(n)) == n,
    decreases n,
{
    if n >= 10 {
        lemma_digits(n / 10);
        let s = digits(n);
        assert(s.drop_last() =~= digits(n / 10));
        assert forall|i: int| 0 <= i < s.len() implies is_digit(#[trigger] s[i]) by {
            if i < s.len() - 1 {
                assert(s[i] == digits(n / 10)[i]);
            }
        }
    } else {
        let s = digits(n);
        assert(s.drop_last() =~= Seq::empty());
        assert(value(s.drop_last()) == 0);
    }
}

/// A written number is made of digits, with a minus sign at most.
pub proof fn lemma_decimal_chars(n: int)
    ensures
        decimal(n).len() > 0,
        is_digit(decimal(n).last()),
        n >= 0 ==> is_digit(decimal(n)[0]),
        forall|i: int|
            0 <= i < decimal(n).len() ==> {
                ||| is_digit(#[trigger] decimal(n)[i])
                ||| decimal(n)[i] == '-'
            },
{
    let size: nat = if n < 0 {
        (-n) as nat
    } else {
        n as nat
    };
    lemma_digits(size);
    let digits = digits(size);
    assert(is_digit(digits[0]));
    assert(is_digit(digits[digits.len() - 1]));
    if n < 0 {
        assert forall|i: int| 0 < i < decimal(n).len() implies is_digit(
            #[trigger] decimal(n)[i],
        ) by {
            assert(decimal(n)[i] == digits[i - 1]);
        }
    }
}

/// Reading gives back the number that was written.
pub proof fn written_numbers_are_read_back(a: u64, b: i64)
    ensures
        u64_read(decimal(a as int)) == Some(a),
        i64_read(decimal(b as int)) == Some(b),
{
    lemma_digits(a as nat);
    let s = decimal(a as int);
    assert(is_digit(s[0]));
    if b < 0 {
        lemma_digits((-b) as nat);
        assert(decimal(b as int).drop_first() =~= digits((-b) as nat));
    } else {
        lemma_digits(b as nat);
        assert(is_digit(decimal(b as int)[0]));
    }
}

/// Capitals in place of small letters leave digits as they are.
proof fn lemma_capitals_value(s: Seq<char>)
    ensures
        digits_read(text::capitals(s)) == digits_read(s),
{
    let up = text::capitals(s);
    if all_digits(s) {
        assert forall|i: int| 0 <= i < s.len() implies #[trigger] up[i] == s[i] by {
            assert(is_digit(s[i]));
        }
        assert(up =~= s);
    } else if s.len() > 0 {
        let i = choose|i: int| 0 <= i < s.len() && !is_digit(#[trigger] s[i]);
        assert(!is_digit(up[i]));
    }
}

/// Capitals in place of small letters do not matter to a number.
pub proof fn lemma_capitals_read(s: Seq<char>)
    ensures
        u64_read(text::capitals(s)) == u64_read(s),
        i64_read(text::capitals(s)) == i64_read(s),
{
    lemma_capitals_value(s);
    if s.len() > 0 {
        lemma_capitals_value(s.drop_first());
        assert(text::capitals(s).drop_first() =~= text::capitals(s.drop_first()));
    }
}

} // verus!
