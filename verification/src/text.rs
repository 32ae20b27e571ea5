//! Decimal numbers, prefixes and byte order of strings.

use vstd::prelude::*;
use vstd::relations::*;
use vstd::utf8::*;

verus! {

/// The decimal digit for `d`.
pub open spec fn digit(d: nat) -> char {
    if d == 0 {
        '0'
    } else if d == 1 {
        '1'
    } else if d == 2 {
        '2'
    } else if d == 3 {
        '3'
    } else if d == 4 {
        '4'
    } else if d == 5 {
        '5'
    } else if d == 6 {
        '6'
    } else if d == 7 {
        '7'
    } else if d == 8 {
        '8'
    } else {
        '9'
    }
}

/// `n` in decimal, without leading zeros.
pub open spec fn decimal(n: nat) -> Seq<char>
    decreases n,
{
    if n < 10 {
        seq![digit(n)]
    } else {
        decimal(n / 10).push(digit(n % 10))
    }
}

/// The contents of a sequence of strings.
pub open spec fn texts(strings: Seq<String>) -> Seq<Seq<char>> {
    strings.map_values(|s: String| s@)
}

/// The number of bytes of a text.
pub open spec fn byte_len(text: Seq<char>) -> nat {
    encode_utf8(text).len()
}

/// Lexicographic order of byte strings.
pub open spec fn bytes_le(a: Seq<u8>, b: Seq<u8>) -> bool
    decreases a.len(),
{
    if a.len() == 0 {
        true
    } else if b.len() == 0 {
        false
    } else if a[0] == b[0] {
        bytes_le(a.drop_first(), b.drop_first())
    } else {
        a[0] < b[0]
    }
}

/// The order of two strings: lexicographic, by the bytes of their UTF-8 encoding.
pub open spec fn text_le(a: Seq<char>, b: Seq<char>) -> bool {
    bytes_le(encode_utf8(a), encode_utf8(b))
}

/// [`text_le`] as an order to sort by.
pub open spec fn text_order() -> spec_fn(Seq<char>, Seq<char>) -> bool {
    |a: Seq<char>, b: Seq<char>| text_le(a, b)
}

/// Appends the decimal digit for `d`.
fn push_digit(out: &mut String, d: u8)
    requires
        d < 10,
    ensures
        final(out)@ == old(out)@.push(digit(d as nat)),
{
    let ghost before = out@;
    let text = match d {
        0 => "0",
        1 => "1",
        2 => "2",
        3 => "3",
        4 => "4",
        5 => "5",
        6 => "6",
        7 => "7",
        8 => "8",
        _ => "9",
    };
    proof {
        reveal_strlit("0");
        reveal_strlit("1");
        reveal_strlit("2");
        reveal_strlit("3");
        reveal_strlit("4");
        reveal_strlit("5");
        reveal_strlit("6");
        reveal_strlit("7");
        reveal_strlit("8");
        reveal_strlit("9");
        assert(text@ == seq![digit(d as nat)]);
    }
    out.append(text);
    assert(out@ == before.push(digit(d as nat)));
}

/// Appends `n` in decimal.
pub fn push_decimal(out: &mut String, n: u128)
    ensures
        final(out)@ == old(out)@ + decimal(n as nat),
    decreases n,
{
    let ghost before = out@;
    if n >= 10 {
        push_decimal(out, n / 10);
    }
    push_digit(out, (n % 10) as u8);
    assert(out@ == before + decimal(n as nat));
}

/// Whether `text` starts with `prefix`.
pub fn starts_with(text: &str, prefix: &str) -> (r: bool)
    ensures
        r == prefix@.is_prefix_of(text@),
{
    let n: usize = prefix.unicode_len();
    if text.unicode_len() < n {
        return false;
    }
    let mut i: usize = 0;
    while i < n
        invariant
            i <= n == prefix@.len() <= text@.len(),
            forall|k: int| 0 <= k < i ==> text@[k] == prefix@[k],
        decreases n - i,
    {
        if text.get_char(i) != prefix.get_char(i) {
            assert(text@.subrange(0, n as int)[i as int] != prefix@[i as int]);
            return false;
        }
        i += 1;
    }
    assert(prefix@ =~= text@.subrange(0, n as int));
    true
}

/// Whether two strings are equal.
pub fn same_text(a: &str, b: &str) -> (same: bool)
    ensures
        same == (a@ == b@),
{
    let x = a.as_bytes();
    let y = b.as_bytes();
    if x.len() != y.len() {
        return false;
    }
    let mut i: usize = 0;
    while i < x.len()
        invariant
            i <= x@.len() == y@.len(),
            x@ == encode_utf8(a@),
            y@ == encode_utf8(b@),
            forall|k: int| 0 <= k < i ==> x@[k] == y@[k],
        decreases x@.len() - i,
    {
        if x[i] != y[i] {
            return false;
        }
        i += 1;
    }
    proof {
        assert(x@ =~= y@);
        encode_utf8_decode_utf8(a@);
        encode_utf8_decode_utf8(b@);
    }
    true
}

/// Whether `a` comes before `b`, or is equal to it, in the order of [`text_le`].
pub fn le_text(a: &str, b: &str) -> (r: bool)
    ensures
        r == text_le(a@, b@),
{
    let x = a.as_bytes();
    let y = b.as_bytes();
    let mut i: usize = 0;
    assert(x@.skip(0) =~= x@ && y@.skip(0) =~= y@);
    while i < x.len()
        invariant
            i <= x@.len(),
            i <= y@.len(),
            x@ == encode_utf8(a@),
            y@ == encode_utf8(b@),
            bytes_le(x@, y@) == bytes_le(x@.skip(i as int), y@.skip(i as int)),
        decreases x@.len() - i,
    {
        if i >= y.len() {
            return false;
        }
        if x[i] != y[i] {
            return x[i] < y[i];
        }
        assert(x@.skip(i as int).drop_first() =~= x@.skip(i + 1));
        assert(y@.skip(i as int).drop_first() =~= y@.skip(i + 1));
        i += 1;
    }
    true
}

pub proof fn lemma_bytes_le_total(a: Seq<u8>, b: Seq<u8>)
    ensures
        bytes_le(a, b) || bytes_le(b, a),
    decreases a.len(),
{
    if a.len() > 0 && b.len() > 0 && a[0] == b[0] {
        lemma_bytes_le_total(a.drop_first(), b.drop_first());
    }
}

pub proof fn lemma_bytes_le_antisymmetric(a: Seq<u8>, b: Seq<u8>)
    requires
        bytes_le(a, b),
        bytes_le(b, a),
    ensures
        a == b,
    decreases a.len(),
{
    if a.len() > 0 && b.len() > 0 {
        lemma_bytes_le_antisymmetric(a.drop_first(), b.drop_first());
        assert(a =~= seq![a[0]] + a.drop_first());
        assert(b =~= seq![b[0]] + b.drop_first());
    } else {
        assert(a =~= b);
    }
}

pub proof fn lemma_bytes_le_transitive(a: Seq<u8>, b: Seq<u8>, c: Seq<u8>)
    requires
        bytes_le(a, b),
        bytes_le(b, c),
    ensures
        bytes_le(a, c),
    decreases a.len(),
{
    if a.len() > 0 && a[0] == b[0] && b[0] == c[0] {
        lemma_bytes_le_transitive(a.drop_first(), b.drop_first(), c.drop_first());
    }
}

/// [`text_le`] is a total order.
pub proof fn lemma_text_order_total()
    ensures
        total_ordering(text_order()),
{
    let leq = text_order();
    assert forall|a: Seq<char>| #[trigger] leq(a, a) by {
        lemma_bytes_le_total(encode_utf8(a), encode_utf8(a));
    }
    assert forall|a: Seq<char>, b: Seq<char>|
        #[trigger] leq(a, b) && #[trigger] leq(b, a) implies a == b by {
        lemma_bytes_le_antisymmetric(encode_utf8(a), encode_utf8(b));
        encode_utf8_decode_utf8(a);
        encode_utf8_decode_utf8(b);
    }
    assert forall|a: Seq<char>, b: Seq<char>, c: Seq<char>|
        #[trigger] leq(a, b) && #[trigger] leq(b, c) implies leq(a, c) by {
        lemma_bytes_le_transitive(encode_utf8(a), encode_utf8(b), encode_utf8(c));
    }
    assert forall|a: Seq<char>, b: Seq<char>| #[trigger] leq(a, b) || #[trigger] leq(b, a) by {
        lemma_bytes_le_total(encode_utf8(a), encode_utf8(b));
    }
}

/// Two numbers with the same decimal form are the same number.
pub proof fn lemma_decimal_injective(a: nat, b: nat)
    requires
        decimal(a) == decimal(b),
    ensures
        a == b,
    decreases a,
{
    lemma_decimal_digits(a / 10);
    lemma_decimal_digits(b / 10);
    assert(decimal(a).last() == digit(a % 10));
    assert(decimal(b).last() == digit(b % 10));
    if a >= 10 && b >= 10 {
        assert(decimal(a).drop_last() =~= decimal(a / 10));
        assert(decimal(b).drop_last() =~= decimal(b / 10));
        lemma_decimal_injective(a / 10, b / 10);
    }
}

/// The decimal form of a number consists of digits.
pub proof fn lemma_decimal_digits(n: nat)
    ensures
        decimal(n).len() > 0,
        forall|i: int| 0 <= i < decimal(n).len() ==> '0' <= #[trigger] decimal(n)[i] <= '9',
    decreases n,
{
    if n >= 10 {
        lemma_decimal_digits(n / 10);
    }
}

/// The decimal form of a number of one digit is that digit, and a digit behind the decimal form of
/// another number gives that of ten times the number and the digit.
pub proof fn law_decimal_by_digits(n: nat, d: nat)
    requires
        d < 10,
    ensures
        decimal(d) == seq![(('0' as nat) + d) as char],
        n > 0 ==> decimal(10 * n + d) == decimal(n).push((('0' as nat) + d) as char),
{
    assert((10 * n + d) / 10 == n && (10 * n + d) % 10 == d);
}

/// No decimal form but that of zero begins with a zero.
pub proof fn law_decimal_has_no_leading_zero(n: nat)
    requires
        n > 0,
    ensures
        decimal(n).len() > 0,
        decimal(n)[0] != '0',
    decreases n,
{
    if n >= 10 {
        law_decimal_has_no_leading_zero(n / 10);
    }
}

/// A text comes before another one, or is equal to it, where its bytes begin that of the other, or
/// where its byte is the smaller at the first place where they differ.
pub proof fn law_text_order_by_bytes(a: Seq<char>, b: Seq<char>)
    ensures
        text_le(a, b) <==> (encode_utf8(a).is_prefix_of(encode_utf8(b)) || exists|place: int|
            {
                &&& 0 <= place < encode_utf8(a).len()
                &&& place < encode_utf8(b).len()
                &&& encode_utf8(a).take(place) == encode_utf8(b).take(place)
                &&& #[trigger] encode_utf8(a)[place] < encode_utf8(b)[place]
            }),
{
    lemma_bytes_le_by_place(encode_utf8(a), encode_utf8(b));
}

proof fn lemma_bytes_le_by_place(a: Seq<u8>, b: Seq<u8>)
    ensures
        bytes_le(a, b) <==> (a.is_prefix_of(b) || exists|place: int|
            {
                &&& 0 <= place < a.len()
                &&& place < b.len()
                &&& a.take(place) == b.take(place)
                &&& #[trigger] a[place] < b[place]
            }),
    decreases a.len(),
{
    if a.len() == 0 {
        assert(a =~= b.subrange(0, 0));
    } else if b.len() > 0 && a[0] == b[0] {
        let x = a.drop_first();
        let y = b.drop_first();
        lemma_bytes_le_by_place(x, y);
        if x.is_prefix_of(y) {
            assert(forall|k: int| 0 < k < a.len() ==> #[trigger] a[k] == x[k - 1]);
            assert forall|k: int| 0 < k < a.len() implies #[trigger] a[k] == b[k] by {
                assert(y.subrange(0, x.len() as int)[k - 1] == y[k - 1]);
            }
            assert(a =~= b.subrange(0, a.len() as int));
        }
        if a.is_prefix_of(b) {
            assert forall|k: int| 0 <= k < x.len() implies x[k] == #[trigger] y[k] by {
                assert(b.subrange(0, a.len() as int)[k + 1] == b[k + 1]);
            }
            assert(x =~= y.subrange(0, x.len() as int));
        }
        if exists|place: int|
            0 <= place < x.len() && place < y.len() && x.take(place) == y.take(place)
                && #[trigger] x[place] < y[place] {
            let place = choose|place: int|
                0 <= place < x.len() && place < y.len() && x.take(place) == y.take(place)
                    && #[trigger] x[place] < y[place];
            assert forall|k: int| 0 <= k < place + 1 implies #[trigger] a[k] == b[k] by {
                if k > 0 {
                    assert(x.take(place)[k - 1] == y.take(place)[k - 1]);
                }
            }
            assert(a.take(place + 1) =~= b.take(place + 1));
            assert(a[place + 1] < b[place + 1]);
        }
        if exists|place: int|
            0 <= place < a.len() && place < b.len() && a.take(place) == b.take(place)
                && #[trigger] a[place] < b[place] {
            let place = choose|place: int|
                0 <= place < a.len() && place < b.len() && a.take(place) == b.take(place)
                    && #[trigger] a[place] < b[place];
            assert forall|k: int| 0 <= k < place - 1 implies #[trigger] x[k] == y[k] by {
                assert(a.take(place)[k + 1] == b.take(place)[k + 1]);
            }
            assert(x.take(place - 1) =~= y.take(place - 1));
            assert(x[place - 1] < y[place - 1]);
        }
    } else if b.len() > 0 {
        if a.is_prefix_of(b) {
            assert(b.subrange(0, a.len() as int)[0] == b[0]);
        }
        if a[0] < b[0] {
            assert(a.take(0) =~= b.take(0));
        }
        if exists|place: int|
            0 <= place < a.len() && place < b.len() && a.take(place) == b.take(place)
                && #[trigger] a[place] < b[place] {
            let place = choose|place: int|
                0 <= place < a.len() && place < b.len() && a.take(place) == b.take(place)
                    && #[trigger] a[place] < b[place];
            if place > 0 {
                assert(a.take(place)[0] == b.take(place)[0]);
            }
        }
    }
}

/// The size of a text is that of its UTF-8 encoding, and the texts of strings are theirs one by
/// one.
pub proof fn law_sizes_and_texts(text: Seq<char>, strings: Seq<String>, i: int)
    requires
        0 <= i < strings.len(),
    ensures
        byte_len(text) == encode_utf8(text).len(),
        texts(strings).len() == strings.len(),
        texts(strings)[i] == strings[i]@,
{
}

} // verus!
