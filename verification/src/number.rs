//! Decimal numbers.

use crate::text::chars_of;
use vstd::prelude::*;

verus! {

/// Whether `c` is one of `0` to `9`.
pub open spec fn is_digit(c: char) -> bool {
    '0' <= c && c <= '9'
}

/// The value of a digit.
pub open spec fn digit_value(c: char) -> int {
    c as int - '0' as int
}

/// The digit of a value below ten.
pub open spec fn digit(d: int) -> char {
    (('0' as u8 + d) as u8) as char
}

/// The decimal digits of `n`, without leading zeros.
pub open spec fn decimal(n: nat) -> Seq<char>
    decreases n,
{
    if n < 10 {
        seq![digit(n as int)]
    } else {
        decimal(n / 10).push(digit((n % 10) as int))
    }
}

/// `n` in decimal, with a minus sign when it is negative.
pub open spec fn signed_decimal(n: int) -> Seq<char> {
    if n < 0 {
        seq!['-'] + decimal((-n) as nat)
    } else {
        decimal(n as nat)
    }
}

/// The number that a sequence of digits denotes.
pub open spec fn digits_value(s: Seq<char>) -> int
    decreases s.len(),
{
    if s.len() == 0 {
        0
    } else {
        digits_value(s.drop_last()) * 10 + digit_value(s.last())
    }
}

/// What follows the sign, where there is one.
pub open spec fn unsigned_part(s: Seq<char>) -> Seq<char> {
    if s.len() > 0 && (s[0] == '-' || s[0] == '+') {
        s.skip(1)
    } else {
        s
    }
}

/// The 64 bit number that `s` denotes: an optional sign, then one or more digits.
pub open spec fn number(s: Seq<char>) -> Option<int> {
    let body = unsigned_part(s);
    let value = if s.len() > 0 && s[0] == '-' {
        -digits_value(body)
    } else {
        digits_value(body)
    };
    if body.len() > 0 && (forall|i: int| 0 <= i < body.len() ==> is_digit(#[trigger] body[i]))
        && i64::MIN <= value <= i64::MAX {
        Some(value)
    } else {
        None
    }
}

/// The view of an optional number.
pub open spec fn as_int(n: Option<i64>) -> Option<int> {
    match n {
        Some(v) => Some(v as int),
        None => None,
    }
}

/// `n` in decimal.
pub fn decimal_text(n: u64) -> (r: String)
    ensures
        r@ == decimal(n as nat),
        r@.len() > 0,
        r@.last() as int == '0' as int + n % 10,
        r@.drop_last() == if n < 10 {
            Seq::<char>::empty()
        } else {
            decimal((n / 10) as nat)
        },
    decreases n,
{
    if n < 10 {
        let mut r = String::new();
        r.push(('0' as u8 + n as u8) as char);
        assert(r@ =~= decimal(n as nat));
        r
    } else {
        let mut r = decimal_text(n / 10);
        r.push(('0' as u8 + (n % 10) as u8) as char);
        r
    }
}

/// `n` in decimal, with a minus sign when it is negative.
pub fn signed_decimal_text(n: i64) -> (r: String)
    ensures
        r@ == signed_decimal(n as int),
{
    if n < 0 {
        let mut r = String::new();
        r.push('-');
        r.append(decimal_text((-(n as i128)) as u64).as_str());
        assert(r@ =~= signed_decimal(n as int));
        r
    } else {
        decimal_text(n as u64)
    }
}

/// The number that a text denotes, where it denotes one.
pub fn parse_number(s: &str) -> (r: Option<i64>)
    ensures
        as_int(r) == number(s@),
{
    let chars = chars_of(s);
    let negative = chars.len() > 0 && chars[0] == '-';
    let start: usize = if chars.len() > 0 && (chars[0] == '-' || chars[0] == '+') {
        1
    } else {
        0
    };
    let ghost body = unsigned_part(s@);
    assert(body =~= chars@.skip(start as int));
    if start == chars.len() {
        return None;
    }
    let mut value: i128 = 0;
    let mut too_large = false;
    for i in start..chars.len()
        invariant
            start <= 1,
            start <= chars@.len(),
            body == chars@.skip(start as int),
            body == unsigned_part(s@),
            forall|k: int| 0 <= k < i - start ==> is_digit(#[trigger] body[k]),
            0 <= value <= 0x8000_0000_0000_0000,
            !too_large ==> value == digits_value(body.take(i - start)),
            too_large ==> digits_value(body.take(i - start)) > 0x8000_0000_0000_0000,
    {
        let c = chars[i];
        assert(body[i - start] == c);
        if !('0' <= c && c <= '9') {
            return None;
        }
        proof {
            let upto = body.take(i - start + 1);
            assert(upto.drop_last() =~= body.take(i - start));
            assert(upto.last() == c);
        }
        if !too_large {
            let next: i128 = value * 10 + (c as u8 - '0' as u8) as i128;
            if next > 0x8000_0000_0000_0000 {
                too_large = true;
            } else {
                value = next;
            }
        }
    }
    assert(body.take(body.len() as int) =~= body);
    if too_large {
        return None;
    }
    if negative {
        Some((-value) as i64)
    } else if value <= i64::MAX as i128 {
        Some(value as i64)
    } else {
        None
    }
}

/// Ten to the power of `width`.
spec fn ten_to(width: nat) -> nat
    decreases width,
{
    if width == 0 {
        1
    } else {
        10 * ten_to((width - 1) as nat)
    }
}

/// A number below a power of ten has no more digits than that, and they are all digits.
proof fn lemma_decimal_width(n: nat, width: nat)
    requires
        n < ten_to(width),
        width > 0,
    ensures
        0 < decimal(n).len() <= width,
        forall|i: int| 0 <= i < decimal(n).len() ==> is_digit(#[trigger] decimal(n)[i]),
    decreases width,
{
    if n >= 10 {
        assert(width > 1) by {
            reveal_with_fuel(ten_to, 2);
        }
        lemma_decimal_width(n / 10, (width - 1) as nat);
    }
}

/// A 64 bit number has at most 20 digits.
pub proof fn lemma_decimal_of_u64(n: nat)
    requires
        n <= u64::MAX,
    ensures
        0 < decimal(n).len() <= 20,
        forall|i: int| 0 <= i < decimal(n).len() ==> is_digit(#[trigger] decimal(n)[i]),
{
    reveal_with_fuel(ten_to, 21);
    lemma_decimal_width(n, 20);
}

/// The digits of a number denote it.
pub proof fn lemma_decimal_value(n: nat)
    ensures
        digits_value(decimal(n)) == n,
        decimal(n).len() > 0,
        forall|i: int| 0 <= i < decimal(n).len() ==> is_digit(#[trigger] decimal(n)[i]),
    decreases n,
{
    if n < 10 {
        reveal_with_fuel(digits_value, 2);
        assert(decimal(n).drop_last() =~= seq![]);
    } else {
        lemma_decimal_value(n / 10);
        assert(decimal(n).drop_last() =~= decimal(n / 10));
    }
}

/// A zero in front does not change what digits denote.
pub proof fn lemma_leading_zero(s: Seq<char>)
    ensures
        digits_value(seq!['0'] + s) == digits_value(s),
    decreases s.len(),
{
    let t = seq!['0'] + s;
    if s.len() == 0 {
        reveal_with_fuel(digits_value, 2);
        assert(t.drop_last() =~= seq![]);
    } else {
        lemma_leading_zero(s.drop_last());
        assert(t.drop_last() =~= seq!['0'] + s.drop_last());
        assert(t.last() == s.last());
    }
}

/// The last digit of a number is its remainder by ten, and those before it are the digits of its
/// tenth, where that is not zero.
pub proof fn lemma_decimal_digits(n: nat)
    ensures
        decimal(n).len() > 0,
        decimal(n).last() as int == '0' as int + n % 10,
        decimal(n).drop_last() == if n < 10 {
            Seq::<char>::empty()
        } else {
            decimal(n / 10)
        },
{
    if n < 10 {
        assert(decimal(n).drop_last() =~= Seq::<char>::empty());
    } else {
        assert(decimal(n).drop_last() =~= decimal(n / 10));
    }
}

/// A negative number is written with a minus sign before the digits of its opposite.
pub proof fn lemma_signed_digits(n: int)
    ensures
        n >= 0 ==> signed_decimal(n) == decimal(n as nat),
        n < 0 ==> signed_decimal(n) == seq!['-'] + decimal((-n) as nat),
{
}

/// One more digit multiplies what digits denote by ten and adds its own value.
pub proof fn lemma_one_more_digit(s: Seq<char>, c: char)
    ensures
        digits_value(Seq::<char>::empty()) == 0,
        digits_value(s.push(c)) == 10 * digits_value(s) + (c as int - '0' as int),
{
    assert(s.push(c).drop_last() =~= s);
}

/// What is read as a number: one or more digits, with a sign before them or without, that denote
/// a 64 bit number; and nothing else.
pub proof fn lemma_number_is(s: Seq<char>)
    requires
        s.len() > 0,
        forall|i: int| 0 <= i < s.len() ==> '0' <= #[trigger] s[i] && s[i] <= '9',
    ensures
        number(s) == if digits_value(s) <= i64::MAX {
            Some(digits_value(s))
        } else {
            None
        },
        number(seq!['+'] + s) == number(s),
        number(seq!['-'] + s) == if -digits_value(s) >= i64::MIN {
            Some(-digits_value(s))
        } else {
            None
        },
        number(Seq::<char>::empty()) is None,
        number(seq!['+']) is None,
        number(seq!['-']) is None,
        forall|other: Seq<char>, i: int|
            1 <= i < other.len() && !('0' <= #[trigger] other[i] && other[i] <= '9') ==> number(
                other,
            ) is None,
        forall|other: Seq<char>|
            other.len() > 0 && !('0' <= other[0] && other[0] <= '9') && other[0] != '+' && other[0]
                != '-' ==> #[trigger] number(other) is None,
{
    lemma_digits_not_negative(s);
    assert(unsigned_part(s) =~= s);
    assert((seq!['+'] + s).skip(1) =~= s);
    assert((seq!['-'] + s).skip(1) =~= s);
    assert(unsigned_part(seq!['+']) =~= Seq::<char>::empty());
    assert(unsigned_part(seq!['-']) =~= Seq::<char>::empty());
    assert forall|other: Seq<char>, i: int|
        1 <= i < other.len() && !('0' <= #[trigger] other[i] && other[i] <= '9') implies number(
        other,
    ) is None by {
        let body = unsigned_part(other);
        if other[0] == '-' || other[0] == '+' {
            assert(body[i - 1] == other[i]);
        } else {
            assert(body[i] == other[i]);
        }
    }
    assert forall|other: Seq<char>|
        other.len() > 0 && !('0' <= other[0] && other[0] <= '9') && other[0] != '+' && other[0]
            != '-' implies #[trigger] number(other) is None by {
        assert(unsigned_part(other)[0] == other[0]);
    }
}

/// Digits denote no negative number.
proof fn lemma_digits_not_negative(s: Seq<char>)
    requires
        forall|i: int| 0 <= i < s.len() ==> '0' <= #[trigger] s[i] && s[i] <= '9',
    ensures
        digits_value(s) >= 0,
    decreases s.len(),
{
    if s.len() > 0 {
        assert forall|i: int| 0 <= i < s.drop_last().len() implies '0'
            <= #[trigger] s.drop_last()[i] && s.drop_last()[i] <= '9' by {
            assert(s.drop_last()[i] == s[i]);
        }
        lemma_digits_not_negative(s.drop_last());
        assert('0' <= s[s.len() - 1]);
    }
}

} // verus!
