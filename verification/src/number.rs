//! Numbers as decimal text.
use vstd::prelude::*;
use crate::text::chars_of;

verus! {

/// The decimal digit of a number below ten.
pub open spec fn digit(d: nat) -> char {
    (48 + d) as char
}

/// A number in decimal, without leading zeros.
pub open spec fn decimal(n: nat) -> Seq<char>
    decreases n,
{
    if n < 10 {
        seq![digit(n)]
    } else {
        decimal(n / 10).push(digit(n % 10))
    }
}

/// Whether the text is one or more decimal digits.
pub open spec fn all_digits(s: Seq<char>) -> bool {
    s.len() > 0 && forall|i: int| 0 <= i < s.len() ==> '0' <= #[trigger] s[i] <= '9'
}

/// The number that decimal digits stand for.
pub open spec fn digits_value(s: Seq<char>) -> int
    decreases s.len(),
{
    if s.len() == 0 {
        0
    } else {
        digits_value(s.drop_last()) * 10 + (s.last() as int - 48)
    }
}

/// The digits of a decimal number that may begin with a sign.
pub open spec fn unsigned_part(s: Seq<char>) -> Seq<char> {
    if s.len() > 0 && (s[0] == '-' || s[0] == '+') {
        s.skip(1)
    } else {
        s
    }
}

/// The signed number that a text stands for: an optional sign, then digits.
/// None where the text is anything else, or where the number does not fit
/// in 64 bits.
pub open spec fn signed_value(s: Seq<char>) -> Option<int> {
    let magnitude = digits_value(unsigned_part(s));
    let value = if s.len() > 0 && s[0] == '-' {
        -magnitude
    } else {
        magnitude
    };
    if all_digits(unsigned_part(s)) && i64::MIN <= value <= i64::MAX {
        Some(value)
    } else {
        None
    }
}

/// The signed number that a text stands for.
pub fn parse_i64(s: &str) -> (r: Option<i64>)
    ensures
        match r {
            Some(n) => signed_value(s@) == Some(n as int),
            None => signed_value(s@) is None,
        },
{
    let x: Vec<char> = chars_of(s);
    let signed: bool = x.len() > 0 && (x[0] == '-' || x[0] == '+');
    let negative: bool = x.len() > 0 && x[0] == '-';
    let start: usize = if signed {
        1
    } else {
        0
    };
    let ghost body = unsigned_part(s@);
    assert(body =~= s@.skip(start as int));
    if x.len() == start {
        return None;
    }
    let limit: u128 = 0x8000_0000_0000_0000;
    let mut value: u128 = 0;
    let mut small: bool = true;
    let mut i: usize = start;
    assert(body.take(0) =~= Seq::empty());
    while i < x.len()
        invariant
            start <= i <= x.len(),
            start <= 1,
            x@ == s@,
            body == s@.skip(start as int),
            body == unsigned_part(s@),
            limit == 0x8000_0000_0000_0000,
            value <= limit,
            forall|k: int| 0 <= k < i - start ==> '0' <= #[trigger] body[k] <= '9',
            small ==> value == digits_value(body.take(i - start)),
            !small ==> i > start && digits_value(body.take(i - start)) > limit,
        decreases x.len() - i,
    {
        let c: char = x[i];
        assert(body[i - start] == c);
        if c < '0' || c > '9' {
            return None;
        }
        proof {
            assert(body.take(i - start + 1).drop_last() =~= body.take(i - start));
            assert(digits_value(body.take(i - start + 1)) == digits_value(body.take(i - start)) * 10
                + (c as int - 48));
        }
        if small {
            let next: u128 = value * 10 + (c as u128 - 48);
            if next > limit {
                small = false;
            } else {
                value = next;
            }
        }
        i += 1;
    }
    assert(body.take(i - start) =~= body);
    assert(all_digits(body));
    if !small {
        return None;
    }
    if negative {
        if value == limit {
            Some(i64::MIN)
        } else {
            Some(-(value as i64))
        }
    } else if value == limit {
        None
    } else {
        Some(value as i64)
    }
}

/// The decimal digit of a number below ten.
fn digit_text(d: u64) -> (r: &'static str)
    requires
        d < 10,
    ensures
        r@ == seq![digit(d as nat)],
{
    proof {
        reveal_strlit("0");
        reveal_strlit("1");
        reveal_strlit("2");
        reveal_strlit("3");
        reveal_strlit("4");
        reveal_strlit("5");
        reveal_strlit("6");
        reveal_strlit("7");
        reveal_strlit("8");
        reveal_strlit("9");
    }
    if d == 0 {
        "0"
    } else if d == 1 {
        "1"
    } else if d == 2 {
        "2"
    } else if d == 3 {
        "3"
    } else if d == 4 {
        "4"
    } else if d == 5 {
        "5"
    } else if d == 6 {
        "6"
    } else if d == 7 {
        "7"
    } else if d == 8 {
        "8"
    } else {
        "9"
    }
}

/// A number in decimal.
pub fn decimal_text(n: u64) -> (r: String)
    ensures
        r@ == decimal(n as nat),
    decreases n,
{
    if n < 10 {
        let mut r: String = String::new();
        r.append(digit_text(n));
        assert(r@ =~= decimal(n as nat));
        r
    } else {
        let mut r: String = decimal_text(n / 10);
        r.append(digit_text(n % 10));
        assert(r@ =~= decimal(n as nat));
        r
    }
}

} // verus!
