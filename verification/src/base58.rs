//! Base58, the text in which peer identifiers are shown to people.

use vstd::prelude::*;
#[allow(unused_imports)]
use vstd::arithmetic::power::{lemma_pow_adds, lemma_pow_increases, pow};

verus! {

/// The character of a digit in the Bitcoin alphabet: the decimal digits from 1 on, the capital
/// letters without I and O, and the small letters without l.
pub open spec fn base58_digit(d: int) -> char {
    if d < 9 {
        (49 + d) as char
    } else if d < 17 {
        (65 + (d - 9)) as char
    } else if d < 22 {
        (74 + (d - 17)) as char
    } else if d < 33 {
        (80 + (d - 22)) as char
    } else if d < 44 {
        (97 + (d - 33)) as char
    } else {
        (109 + (d - 44)) as char
    }
}

/// A number in base 58, the most significant digit first and not zero; no digits for zero.
pub open spec fn base58_number(n: nat) -> Seq<char>
    decreases n,
{
    if n == 0 {
        Seq::empty()
    } else {
        base58_number(n / 58).push(base58_digit((n % 58) as int))
    }
}

/// The number that bytes stand for, the most significant byte first.
pub open spec fn bytes_value(data: Seq<u8>) -> nat
    decreases data.len(),
{
    if data.len() == 0 {
        0
    } else {
        256 * bytes_value(data.drop_last()) + data.last() as nat
    }
}

/// Bytes in Base58: one digit zero for each zero byte at the start, then the number that the
/// bytes stand for.
pub open spec fn base58_text(data: Seq<u8>) -> Seq<char>
    decreases data.len(),
{
    if data.len() > 0 && data[0] == 0 {
        seq![base58_digit(0)] + base58_text(data.skip(1))
    } else {
        base58_number(bytes_value(data))
    }
}

/// Calls `bs58::encode(..).into_string()`. Claimed: the text is the bytes in Base58, in the
/// Bitcoin alphabet.
#[verifier::external_body]
pub(crate) fn base58_encode(data: &[u8]) -> (text: String)
    ensures
        text@ == base58_text(data@),
{
    bs58::encode(data).into_string()
}

/// Whether a character is a digit.
pub open spec fn is_base58_digit(c: char) -> bool {
    exists|d: int| 0 <= d < 58 && c == #[trigger] base58_digit(d)
}

/// Different digits have different characters, and none of them is one that is easily mistaken
/// for another.
pub proof fn law_base58_digits_told_apart(d: int, e: int)
    requires
        0 <= d < 58,
        0 <= e < 58,
    ensures
        base58_digit(d) == base58_digit(e) <==> d == e,
        base58_digit(d) != '0',
        base58_digit(d) != 'O',
        base58_digit(d) != 'I',
        base58_digit(d) != 'l',
{
}

/// A number is written in digits, the first of which is not zero.
proof fn lemma_number_digits(n: nat)
    ensures
        forall|i: int|
            0 <= i < base58_number(n).len() ==> is_base58_digit(#[trigger] base58_number(n)[i]),
        n > 0 ==> base58_number(n).len() > 0 && base58_number(n)[0] != base58_digit(0),
    decreases n,
{
    if n > 0 {
        lemma_number_digits(n / 58);
        let d = (n % 58) as int;
        let high = base58_number(n / 58);
        let all = base58_number(n);
        assert(all == high.push(base58_digit(d)));
        assert(is_base58_digit(base58_digit(d)));
        assert forall|i: int| 0 <= i < all.len() implies is_base58_digit(#[trigger] all[i]) by {
            if i < high.len() {
                assert(all[i] == high[i]);
            }
        }
        if n / 58 == 0 {
            assert(d == n);
            law_base58_digits_told_apart(d, 0);
        } else {
            assert(all[0] == high[0]);
        }
    }
}

/// The text consists of digits.
pub proof fn law_base58_text_has_digits_only(data: Seq<u8>)
    ensures
        forall|i: int|
            0 <= i < base58_text(data).len() ==> is_base58_digit(#[trigger] base58_text(data)[i]),
    decreases data.len(),
{
    if data.len() > 0 && data[0] == 0 {
        law_base58_text_has_digits_only(data.skip(1));
        let rest = base58_text(data.skip(1));
        assert forall|i: int| 0 <= i < base58_text(data).len() implies is_base58_digit(
            #[trigger] base58_text(data)[i],
        ) by {
            if i == 0 {
                assert(base58_text(data)[i] == base58_digit(0));
            } else {
                assert(base58_text(data)[i] == rest[i - 1]);
            }
        }
    } else {
        lemma_number_digits(bytes_value(data));
    }
}

/// How large the number is that bytes stand for.
proof fn lemma_value_bounds(data: Seq<u8>)
    ensures
        bytes_value(data) < pow(256, data.len()),
        data.len() > 0 && data[0] > 0 ==> bytes_value(data) >= pow(256, (data.len() - 1) as nat),
    decreases data.len(),
{
    reveal(pow);
    if data.len() > 0 {
        let t = data.drop_last();
        lemma_value_bounds(t);
        if data.len() > 1 {
            assert(t[0] == data[0]);
        }
    }
}

/// A number below a power of 58 has no more digits than the exponent says.
proof fn lemma_number_short(n: nat, d: nat)
    requires
        n < pow(58, d),
    ensures
        base58_number(n).len() <= d,
    decreases n,
{
    reveal(pow);
    if n > 0 {
        assert(d > 0);
        lemma_number_short(n / 58, (d - 1) as nat);
    }
}

/// A number not below a power of 58 has more digits than the exponent says.
proof fn lemma_number_long(n: nat, d: nat)
    requires
        n >= pow(58, d),
    ensures
        base58_number(n).len() > d,
    decreases d,
{
    reveal(pow);
    if d > 0 {
        lemma_number_long(n / 58, (d - 1) as nat);
    }
    assert(n > 0) by {
        lemma_pow_at_least(58, d);
    }
}

/// Powers are positive.
proof fn lemma_pow_at_least(b: int, d: nat)
    requires
        b >= 1,
    ensures
        pow(b, d) >= 1,
    decreases d,
{
    reveal(pow);
    if d > 0 {
        lemma_pow_at_least(b, (d - 1) as nat);
        let p = pow(b, (d - 1) as nat);
        assert(b * p >= 1) by (nonlinear_arith)
            requires
                b >= 1,
                p >= 1,
        ;
    }
}

/// Powers of 58 are no greater than those of 256.
proof fn lemma_pow_ordered(d: nat)
    ensures
        pow(58, d) <= pow(256, d),
    decreases d,
{
    reveal(pow);
    if d > 0 {
        lemma_pow_ordered((d - 1) as nat);
        lemma_pow_at_least(58, (d - 1) as nat);
    }
}

/// The text is at least as long as the bytes, and no longer than `d`, if the bytes cannot stand
/// for a number that has more than `d` digits.
pub proof fn law_base58_length(data: Seq<u8>, d: nat)
    requires
        pow(256, data.len()) <= pow(58, d),
    ensures
        data.len() <= base58_text(data).len() <= d,
    decreases data.len(),
{
    reveal(pow);
    if data.len() > 0 && data[0] == 0 {
        lemma_pow_at_least(256, (data.len() - 1) as nat);
        assert(d > 0);
        lemma_pow_at_least(58, (d - 1) as nat);
        law_base58_length(data.skip(1), (d - 1) as nat);
    } else {
        lemma_value_bounds(data);
        lemma_number_short(bytes_value(data), d);
        if data.len() > 0 {
            let k = (data.len() - 1) as nat;
            lemma_pow_ordered(k);
            lemma_number_long(bytes_value(data), k);
        }
    }
}

/// 32 bytes stand for no number that has more than 44 digits.
pub proof fn lemma_32_bytes_fit_44_digits()
    ensures
        pow(256, 32) <= pow(58, 44),
{
    assert(pow(256, 8) == 18446744073709551616) by {
        reveal_with_fuel(pow, 9);
    }
    assert(pow(58, 11) == 24986644000165537792) by {
        reveal_with_fuel(pow, 12);
    }
    let x = pow(256, 8);
    let y = pow(58, 11);
    lemma_pow_adds(256, 8, 8);
    lemma_pow_adds(256, 16, 16);
    lemma_pow_adds(58, 11, 11);
    lemma_pow_adds(58, 22, 22);
    assert(x * x <= y * y) by (nonlinear_arith)
        requires
            0 <= x <= y,
    ;
    let x2 = x * x;
    let y2 = y * y;
    assert(0 <= x2) by (nonlinear_arith)
        requires
            x2 == x * x,
    ;
    assert(x2 * x2 <= y2 * y2) by (nonlinear_arith)
        requires
            0 <= x2 <= y2,
    ;
}

/// Digits determine the number.
proof fn lemma_number_injective(m: nat, n: nat)
    requires
        base58_number(m) == base58_number(n),
    ensures
        m == n,
    decreases m,
{
    lemma_number_digits(m);
    lemma_number_digits(n);
    if m > 0 && n > 0 {
        let a = base58_number(m / 58);
        let b = base58_number(n / 58);
        assert(base58_number(m).last() == base58_digit((m % 58) as int));
        assert(base58_number(n).last() == base58_digit((n % 58) as int));
        law_base58_digits_told_apart((m % 58) as int, (n % 58) as int);
        assert(base58_number(m).drop_last() =~= a);
        assert(base58_number(n).drop_last() =~= b);
        lemma_number_injective(m / 58, n / 58);
    }
}

/// As many bytes that stand for the same number are the same bytes.
proof fn lemma_value_injective(a: Seq<u8>, b: Seq<u8>)
    requires
        a.len() == b.len(),
        bytes_value(a) == bytes_value(b),
    ensures
        a == b,
    decreases a.len(),
{
    if a.len() > 0 {
        lemma_value_injective(a.drop_last(), b.drop_last());
        assert(a =~= a.drop_last().push(a.last()));
        assert(b =~= b.drop_last().push(b.last()));
    } else {
        assert(a =~= b);
    }
}

/// The text of bytes that do not start with a zero byte does not start with the digit zero.
proof fn lemma_text_start(data: Seq<u8>)
    requires
        data.len() == 0 || data[0] > 0,
    ensures
        base58_text(data).len() == 0 || base58_text(data)[0] != base58_digit(0),
{
    lemma_number_digits(bytes_value(data));
    if bytes_value(data) == 0 {
        assert(base58_text(data).len() == 0);
    }
}

/// Different bytes have different texts.
pub proof fn law_base58_injective(a: Seq<u8>, b: Seq<u8>)
    requires
        base58_text(a) == base58_text(b),
    ensures
        a == b,
    decreases a.len(),
{
    let za = a.len() > 0 && a[0] == 0;
    let zb = b.len() > 0 && b[0] == 0;
    if za && zb {
        let ta = base58_text(a.skip(1));
        let tb = base58_text(b.skip(1));
        assert(base58_text(a).skip(1) =~= ta);
        assert(base58_text(b).skip(1) =~= tb);
        law_base58_injective(a.skip(1), b.skip(1));
        assert(a =~= seq![0u8] + a.skip(1));
        assert(b =~= seq![0u8] + b.skip(1));
    } else if za {
        lemma_text_start(b);
        assert(base58_text(a)[0] == base58_digit(0));
    } else if zb {
        lemma_text_start(a);
        assert(base58_text(b)[0] == base58_digit(0));
    } else {
        lemma_number_injective(bytes_value(a), bytes_value(b));
        lemma_value_bounds(a);
        lemma_value_bounds(b);
        if a.len() < b.len() {
            lemma_pow_increases(256, a.len(), (b.len() - 1) as nat);
        }
        if b.len() < a.len() {
            lemma_pow_increases(256, b.len(), (a.len() - 1) as nat);
        }
        lemma_value_injective(a, b);
    }
}

} // verus!
