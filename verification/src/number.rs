//! Natural numbers of any size, as they are read from decimal digits.

use crate::text;
use vstd::prelude::*;

verus! {

/// The characters are decimal digits.
pub open spec fn all_digits(chars: Seq<char>) -> bool {
    forall|i: int| 0 <= i < chars.len() ==> '0' <= #[trigger] chars[i] <= '9'
}

/// The number that decimal digits stand for.
pub open spec fn value(digits: Seq<char>) -> nat
    decreases digits.len(),
{
    if digits.len() == 0 {
        0
    } else {
        (value(digits.drop_last()) * 10 + (digits.last() as int - '0' as int)) as nat
    }
}

/// The number that a text is in decimal, with or without leading zeros.
pub open spec fn number(text: Seq<char>) -> Option<nat> {
    if text.len() > 0 && all_digits(text) {
        Some(value(text))
    } else {
        None
    }
}

/// The characters are decimal digits, of which the first is not zero.
spec fn normal(digits: Seq<char>) -> bool {
    all_digits(digits) && (digits.len() > 0 ==> digits[0] != '0')
}

/// A natural number, as its digits without leading zeros.
pub struct Number {
    digits: Vec<char>,
}

impl View for Number {
    type V = nat;

    closed spec fn view(&self) -> nat {
        value(self.digits@)
    }
}

impl Number {
    #[verifier::type_invariant]
    spec fn inv(self) -> bool {
        normal(self.digits@)
    }

    /// The number zero.
    pub fn zero() -> (zero: Number)
        ensures
            zero@ == 0,
    {
        Number { digits: Vec::new() }
    }

    /// Reads the characters of `text` from `from` up to `to` as a number.
    pub fn parse(text: &str, from: usize, to: usize) -> (parsed: Option<Number>)
        requires
            from <= to <= text@.len(),
        ensures
            parsed is Some <==> number(text@.subrange(from as int, to as int)) is Some,
            parsed matches Some(p) ==> number(text@.subrange(from as int, to as int)) == Some(p@),
    {
        let ghost part = text@.subrange(from as int, to as int);
        if from == to {
            return None;
        }
        let mut digits: Vec<char> = Vec::new();
        let mut i: usize = from;
        while i < to
            invariant
                from <= i <= to <= text@.len(),
                part == text@.subrange(from as int, to as int),
                normal(digits@),
                all_digits(part.take(i - from)),
                value(digits@) == value(part.take(i - from)),
            decreases to - i,
        {
            let c = text.get_char(i);
            assert(c == part[i - from]);
            if c < '0' || c > '9' {
                return None;
            }
            let ghost longer = part.take(i + 1 - from);
            let ghost before = digits@;
            proof {
                assert(longer.drop_last() =~= part.take(i - from));
                assert(longer.last() == c);
            }
            if digits.len() > 0 || c != '0' {
                digits.push(c);
                assert(digits@.drop_last() =~= before);
            }
            i += 1;
        }
        assert(part.take(to - from) =~= part);
        Some(Number { digits })
    }

    /// Whether the number is less than `other`.
    pub fn less(&self, other: &Number) -> (r: bool)
        ensures
            r == (self@ < other@),
    {
        proof {
            use_type_invariant(self);
            use_type_invariant(other);
        }
        let ghost a = self.digits@;
        let ghost b = other.digits@;
        if self.digits.len() != other.digits.len() {
            proof {
                if a.len() < b.len() {
                    lemma_shorter(a, b);
                } else {
                    lemma_shorter(b, a);
                }
            }
            return self.digits.len() < other.digits.len();
        }
        let mut i: usize = 0;
        while i < self.digits.len()
            invariant
                a == self.digits@,
                b == other.digits@,
                i <= a.len() == b.len(),
                all_digits(a),
                all_digits(b),
                forall|k: int| 0 <= k < i ==> a[k] == b[k],
            decreases a.len() - i,
        {
            if self.digits[i] != other.digits[i] {
                proof {
                    if a[i as int] < b[i as int] {
                        lemma_first_difference(a, b, i as int);
                    } else {
                        lemma_first_difference(b, a, i as int);
                    }
                }
                return self.digits[i] < other.digits[i];
            }
            i += 1;
        }
        assert(a =~= b);
        false
    }
}

/// Of two numbers without leading zeros, the one with fewer digits is the smaller.
proof fn lemma_shorter(a: Seq<char>, b: Seq<char>)
    requires
        normal(a),
        normal(b),
        a.len() < b.len(),
    ensures
        value(a) < value(b),
    decreases b.len(),
{
    if a.len() > 0 {
        lemma_shorter(a.drop_last(), b.drop_last());
    } else if b.len() > 1 {
        lemma_shorter(a, b.drop_last());
    }
}

/// Of two numbers with equally many digits, the one with the smaller digit at the first place
/// where they differ is the smaller.
proof fn lemma_first_difference(a: Seq<char>, b: Seq<char>, place: int)
    requires
        all_digits(a),
        all_digits(b),
        0 <= place < a.len(),
        a.len() == b.len(),
        forall|k: int| 0 <= k < place ==> a[k] == b[k],
        a[place] < b[place],
    ensures
        value(a) < value(b),
    decreases a.len(),
{
    if place == a.len() - 1 {
        assert(a.drop_last() =~= b.drop_last());
    } else {
        lemma_first_difference(a.drop_last(), b.drop_last(), place);
    }
}

/// A number is read back from its decimal form.
pub proof fn law_decimal_reads_back(n: nat)
    ensures
        number(text::decimal(n)) == Some(n),
    decreases n,
{
    text::lemma_decimal_digits(n);
    if n >= 10 {
        law_decimal_reads_back(n / 10);
        text::lemma_decimal_digits(n / 10);
        assert(text::decimal(n).drop_last() =~= text::decimal(n / 10));
    } else {
        assert(text::decimal(n).drop_last() =~= Seq::<char>::empty());
        assert(value(Seq::<char>::empty()) == 0);
    }
}

/// A digit behind others gives ten times their number and the digit, and no digits give zero.
pub proof fn law_value_by_digits(digits: Seq<char>, c: char)
    requires
        '0' <= c <= '9',
    ensures
        value(Seq::empty()) == 0,
        value(digits.push(c)) == 10 * value(digits) + (c as nat - '0' as nat),
{
    assert(digits.push(c).drop_last() =~= digits);
}

/// A text is a number exactly where it consists of digits, of which there is one at least.
pub proof fn law_numbers_are_digits(text: Seq<char>)
    ensures
        number(text) is Some <==> text.len() > 0 && forall|i: int|
            0 <= i < text.len() ==> '0' <= #[trigger] text[i] <= '9',
        number(text) matches Some(n) ==> n == value(text),
{
}

/// Zeros before a number do not change it.
pub proof fn law_leading_zeros_do_not_count(digits: Seq<char>)
    ensures
        value(seq!['0'] + digits) == value(digits),
    decreases digits.len(),
{
    let longer = seq!['0'] + digits;
    if digits.len() == 0 {
        assert(longer.drop_last() =~= Seq::<char>::empty());
        reveal_with_fuel(value, 2);
    } else {
        assert(longer.drop_last() =~= seq!['0'] + digits.drop_last());
        law_leading_zeros_do_not_count(digits.drop_last());
    }
}

} // verus!
