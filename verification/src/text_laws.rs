//! What holds of texts and numbers: how taking a text apart, searching it and
//! reading it as a number relate to the parts that it is put together from.
use crate::number::{all_digits, decimal, digit, digits_value, signed_value, unsigned_part};
use crate::text::{
    after, before, joined, lemma_occurrence, lemma_occurrence_at, lemma_position_at, occurrence,
    occurs, occurs_at, pieces, position, replaced, slices, texts,
};
use vstd::arithmetic::power::pow;
use vstd::prelude::*;

verus! {

/// A text is parted at its first separator: what stands in front of it holds no
/// separator, and what stands behind it may be any text.
pub proof fn law_parting_at_separator(front: Seq<char>, c: char, back: Seq<char>)
    requires
        forall|j: int| 0 <= j < front.len() ==> front[j] != c,
    ensures
        position(front + seq![c] + back, c) == front.len(),
        before(front + seq![c] + back, c) == front,
        after(front + seq![c] + back, c) == back,
        position(front, c) == front.len(),
        before(front, c) == front,
{
    let s = front + seq![c] + back;
    assert forall|j: int| 0 <= j < front.len() implies s[j] != c by {
        assert(s[j] == front[j]);
    }
    assert(s[front.len() as int] == c);
    lemma_position_at(s, c, front.len() as int);
    assert(before(s, c) =~= front);
    assert(after(s, c) =~= back);
    lemma_position_at(front, c, front.len() as int);
    assert(before(front, c) =~= front);
}

/// The pieces of a text are what stands in front of its first separator and the
/// pieces of what stands behind it; a text without a separator is one piece.
pub proof fn law_pieces_at_separator(front: Seq<char>, c: char, back: Seq<char>)
    requires
        forall|j: int| 0 <= j < front.len() ==> front[j] != c,
    ensures
        pieces(front + seq![c] + back, c) == seq![front] + pieces(back, c),
        pieces(front, c) == seq![front],
{
    law_parting_at_separator(front, c, back);
}

/// Joining two lists in one go is joining each and then both; a list of one part
/// is that part.
pub proof fn law_joining_in_steps(
    left: Seq<Seq<char>>,
    right: Seq<Seq<char>>,
    part: Seq<char>,
    sep: Seq<char>,
)
    ensures
        joined(Seq::empty(), sep) == Seq::<char>::empty(),
        joined(seq![part], sep) == part,
        left.len() > 0 && right.len() > 0 ==> joined(left + right, sep) == joined(left, sep) + sep
            + joined(right, sep),
    decreases left.len(),
{
    if left.len() > 0 && right.len() > 0 {
        let all = left + right;
        if left.len() == 1 {
            assert(all.drop_first() =~= right);
            assert(joined(all, sep) =~= left[0] + sep + joined(right, sep));
        } else {
            law_joining_in_steps(left.drop_first(), right, part, sep);
            assert(all.drop_first() =~= left.drop_first() + right);
            assert(joined(all, sep) =~= joined(left, sep) + sep + joined(right, sep));
        }
    }
}

/// A text holds another where it is put together with it, and only there.
pub proof fn law_occurs(front: Seq<char>, pat: Seq<char>, back: Seq<char>, s: Seq<char>)
    ensures
        occurs_at(front + pat + back, pat, front.len() as int),
        occurs(front + pat + back, pat),
        occurs(s, pat) ==> exists|i: int|
            0 <= i <= s.len() - pat.len() && s == #[trigger] s.take(i) + pat + s.skip(
                i + pat.len(),
            ),
{
    let whole = front + pat + back;
    assert(whole.subrange(front.len() as int, front.len() as int + pat.len()) =~= pat);
    assert(occurs_at(whole, pat, front.len() as int));
    if occurs(s, pat) {
        let i = choose|i: int| occurs_at(s, pat, i);
        assert(s =~= s.take(i) + s.subrange(i, i + pat.len()) + s.skip(i + pat.len()));
        assert(s == s.take(i) + pat + s.skip(i + pat.len()));
    }
}

/// The first occurrence of a text is where it stands and none stands before.
pub proof fn law_first_occurrence(front: Seq<char>, pat: Seq<char>, back: Seq<char>)
    requires
        forall|j: int|
            0 <= j < front.len() ==> !pat.is_prefix_of(#[trigger] (front + pat + back).skip(j)),
    ensures
        occurrence(front + pat + back, pat, 0) == Some(front.len() as int),
{
    let whole = front + pat + back;
    law_occurs(front, pat, back, whole);
    assert forall|j: int| 0 <= j < front.len() implies !occurs_at(whole, pat, j) by {
        if occurs_at(whole, pat, j) {
            assert(whole.skip(j).subrange(0, pat.len() as int) =~= pat);
            assert(pat.is_prefix_of(whole.skip(j)));
        }
    }
    lemma_occurrence_at(whole, pat, 0, front.len() as int);
}

/// A text in which another begins nowhere does not hold it, and stays as it is
/// when the other is replaced.
pub proof fn law_absent_texts(s: Seq<char>, pat: Seq<char>, to: Seq<char>)
    requires
        forall|j: int| 0 <= j <= s.len() ==> !pat.is_prefix_of(#[trigger] s.skip(j)),
    ensures
        !occurs(s, pat),
        occurrence(s, pat, 0) is None,
        replaced(s, pat, to) == s,
{
    lemma_occurrence(s, pat, 0);
    assert forall|j: int| !occurs_at(s, pat, j) by {
        if occurs_at(s, pat, j) {
            assert(s.skip(j).subrange(0, pat.len() as int) =~= pat);
            assert(pat.is_prefix_of(s.skip(j)));
        }
    }
}

/// Replacing replaces the first occurrence, keeps what stands in front of it and
/// goes on behind it.
pub proof fn law_replacing(front: Seq<char>, pat: Seq<char>, back: Seq<char>, to: Seq<char>)
    requires
        pat.len() > 0,
        forall|j: int|
            0 <= j < front.len() ==> !pat.is_prefix_of(#[trigger] (front + pat + back).skip(j)),
    ensures
        replaced(front + pat + back, pat, to) == front + to + replaced(back, pat, to),
{
    law_first_occurrence(front, pat, back);
    let whole = front + pat + back;
    assert(whole.take(front.len() as int) =~= front);
    assert(whole.skip(front.len() as int + pat.len()) =~= back);
}

/// The texts of a list of strings are those of its strings, in their order.
pub proof fn law_texts(parts: Seq<String>, words: Seq<&str>, i: int)
    ensures
        texts(parts).len() == parts.len(),
        0 <= i < parts.len() ==> texts(parts)[i] == parts[i]@,
        slices(words).len() == words.len(),
        0 <= i < words.len() ==> slices(words)[i] == words[i]@,
{
}

/// Whether every character is a decimal digit.
pub open spec fn are_digits(s: Seq<char>) -> bool {
    forall|i: int| 0 <= i < s.len() ==> '0' <= #[trigger] s[i] && s[i] <= '9'
}

/// Digits in front count for as many powers of ten as there are digits behind
/// them; one digit counts for itself.
pub proof fn law_digits_by_place(front: Seq<char>, back: Seq<char>, d: int)
    requires
        0 <= d < 10,
    ensures
        digits_value(front + back) == digits_value(front) * pow(10, back.len()) + digits_value(
            back,
        ),
        digits_value(seq![(48 + d) as char]) == d,
        digits_value(Seq::empty()) == 0,
    decreases back.len(),
{
    let one = seq![(48 + d) as char];
    assert(one.drop_last() =~= Seq::empty());
    assert(digits_value(Seq::empty()) == 0);
    if back.len() == 0 {
        assert(front + back =~= front);
        assert(back =~= Seq::empty());
        vstd::arithmetic::power::lemma_pow0(10);
    } else {
        let all = front + back;
        let less = back.drop_last();
        law_digits_by_place(front, less, d);
        assert(all.drop_last() =~= front + less);
        assert(all.last() == back.last());
        let x = digits_value(front);
        let p = pow(10, less.len());
        vstd::arithmetic::power::lemma_pow_adds(10, less.len(), 1);
        vstd::arithmetic::power::lemma_pow1(10);
        assert(pow(10, back.len()) == p * 10);
        assert((x * p) * 10 == x * (p * 10)) by (nonlinear_arith);
    }
}

/// Digits stand for a number that is not negative.
proof fn lemma_digits_value(s: Seq<char>)
    requires
        are_digits(s),
    ensures
        digits_value(s) >= 0,
    decreases s.len(),
{
    if s.len() > 0 {
        let less = s.drop_last();
        assert forall|i: int| 0 <= i < less.len() implies '0' <= #[trigger] less[i] && less[i]
            <= '9' by {
            assert(less[i] == s[i]);
        }
        lemma_digits_value(less);
        assert(s[s.len() - 1] >= '0');
    }
}

/// A number in decimal is made of digits, stands for the number, and begins with
/// a zero only where it is zero.
pub proof fn law_decimal(n: nat)
    ensures
        decimal(n).len() > 0,
        are_digits(decimal(n)),
        digits_value(decimal(n)) == n,
        n > 0 ==> decimal(n)[0] != '0',
        n == 0 ==> decimal(n) == seq!['0'],
    decreases n,
{
    if n < 10 {
        law_digits_by_place(Seq::empty(), Seq::empty(), n as int);
        assert(digit(n) == (48 + n) as char);
    } else {
        let q = n / 10;
        law_decimal(q);
        let s = decimal(n);
        assert(s.drop_last() =~= decimal(q));
        assert(s.last() == digit(n % 10));
        assert(s[0] == decimal(q)[0]);
        assert forall|i: int| 0 <= i < s.len() implies '0' <= #[trigger] s[i] && s[i] <= '9' by {
            if i < decimal(q).len() {
                assert(s[i] == decimal(q)[i]);
            }
        }
    }
}

/// Digits are read as their number, with a plus sign too, and with a minus sign
/// as its opposite, where that fits in 64 bits.
pub proof fn law_signed_numbers(digits: Seq<char>)
    requires
        digits.len() > 0,
        are_digits(digits),
    ensures
        signed_value(digits) == if digits_value(digits) < 0x8000_0000_0000_0000 {
            Some(digits_value(digits))
        } else {
            None
        },
        signed_value(seq!['+'] + digits) == if digits_value(digits) < 0x8000_0000_0000_0000 {
            Some(digits_value(digits))
        } else {
            None
        },
        signed_value(seq!['-'] + digits) == if digits_value(digits) <= 0x8000_0000_0000_0000 {
            Some(-digits_value(digits))
        } else {
            None
        },
{
    lemma_digits_value(digits);
    assert((seq!['+'] + digits).skip(1) =~= digits);
    assert((seq!['-'] + digits).skip(1) =~= digits);
    assert('0' <= digits[0]);
    assert(unsigned_part(digits) == digits);
    assert(all_digits(digits));
}

/// Only digits, with or without a sign in front, are read as a number.
pub proof fn law_only_numbers_are_read(s: Seq<char>)
    requires
        signed_value(s) is Some,
    ensures
        s.len() > 0,
        ({
            ||| are_digits(s)
            ||| (s[0] == '+' || s[0] == '-') && s.len() > 1 && are_digits(s.skip(1))
        }),
{
    assert(all_digits(unsigned_part(s)));
}

} // verus!
