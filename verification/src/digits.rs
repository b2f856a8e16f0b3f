//! What written numbers stand for, digit by digit.
use crate::number::{
    all_digits, digits_end, in_small, integer, is_digit, is_float, is_number, lemma_digits_end,
    small, unsigned, value,
};
use crate::roundtrip::{lemma_decimal, lemma_digit_run};
use crate::text::{decimal, signed};
use vstd::arithmetic::power::pow;
use vstd::prelude::*;

verus! {

/// Every character is one of the ten digits.
pub open spec fn is_run(s: Seq<char>) -> bool {
    forall|k: int| 0 <= k < s.len() ==> 48 <= #[trigger] s[k] as u32 <= 57
}

/// No sign, a plus or a minus.
pub open spec fn is_sign(s: Seq<char>) -> bool {
    s == Seq::<char>::empty() || s == seq!['+'] || s == seq!['-']
}

proof fn lemma_run_is_digits(s: Seq<char>)
    ensures
        is_run(s) <==> all_digits(s),
{
    if is_run(s) {
        assert forall|k: int| 0 <= k < s.len() implies is_digit(#[trigger] s[k]) by {
            assert(48 <= s[k] as u32 <= 57);
        }
    }
    if all_digits(s) {
        assert forall|k: int| 0 <= k < s.len() implies 48 <= #[trigger] s[k] as u32 <= 57 by {
            assert(is_digit(s[k]));
        }
    }
}

/// Dividing by ten and then by a power of ten is dividing by the next power.
proof fn lemma_next_power(n: int, i: nat)
    requires
        n >= 0,
    ensures
        pow(10, i) > 0,
        pow(10, i + 1) == 10 * pow(10, i),
        (n / 10) / pow(10, i) == n / pow(10, i + 1),
{
    vstd::arithmetic::power::lemma_pow_positive(10, i);
    vstd::arithmetic::power::lemma_pow1(10);
    vstd::arithmetic::power::lemma_pow_adds(10, 1, i);
    vstd::arithmetic::div_mod::lemma_div_denominator(n, 10, pow(10, i));
}

/// The digit at the `i`-th place from the right says how often the `i`-th power of ten is in a
/// number, and there are no more places than the number needs.
pub proof fn law_decimal_places(n: nat, i: nat)
    ensures
        i < decimal(n).len() ==> decimal(n)[decimal(n).len() - 1 - i] as u32 == 48 + (
        n as int / pow(10, i)) % 10,
        n < pow(10, decimal(n).len()),
        decimal(n).len() >= 1,
        decimal(n).len() > 1 ==> pow(10, (decimal(n).len() - 1) as nat) <= n,
    decreases n,
{
    let s = decimal(n);
    vstd::arithmetic::power::lemma_pow0(10);
    vstd::arithmetic::power::lemma_pow1(10);
    if n >= 10 {
        let t = decimal(n / 10);
        let j = (i - 1) as nat;
        assert(s == t.push(crate::text::digit(n % 10)));
        if i > 0 {
            law_decimal_places(n / 10, j);
            lemma_next_power(n as int, j);
        } else {
            law_decimal_places(n / 10, 0);
        }
        lemma_next_power(n as int, t.len());
        lemma_next_power(n as int, (t.len() - 1) as nat);
    }
}

/// The digit at the `i`-th place from the right says how often the `i`-th power of ten is in the
/// number that digits stand for.
pub proof fn law_value_places(s: Seq<char>, i: nat)
    requires
        is_run(s),
    ensures
        i < s.len() ==> (value(s) as int / pow(10, i)) % 10 == s[s.len() - 1 - i] as u32
            - 48,
        value(s) < pow(10, s.len()),
    decreases s.len(),
{
    vstd::arithmetic::power::lemma_pow0(10);
    if s.len() > 0 {
        let t = s.drop_last();
        assert(is_run(t));
        assert(48 <= s[s.len() - 1] as u32 <= 57);
        let j = (i - 1) as nat;
        lemma_next_power(value(s) as int, t.len());
        assert(value(s) / 10 == value(t));
        if i > 0 {
            law_value_places(t, j);
            lemma_next_power(value(s) as int, j);
            if i < s.len() {
                assert(t[t.len() - 1 - j] == s[s.len() - 1 - i]);
            }
        } else {
            law_value_places(t, 0);
        }
    }
}

/// A number that is written down reads back as itself, with a plus before it too.
pub proof fn law_written_integer_reads_back(n: int)
    requires
        i64::MIN <= n <= i64::MAX,
    ensures
        integer(signed(n)) == Some(n),
        n >= 0 ==> integer(seq!['+'] + decimal(n as nat)) == Some(n),
{
    let d = decimal(if n < 0 {
        (-n) as nat
    } else {
        n as nat
    });
    lemma_decimal(if n < 0 {
        (-n) as nat
    } else {
        n as nat
    });
    lemma_run_is_digits(d);
    if n < 0 {
        law_signed_digits_are_integers(seq!['-'], d);
    } else {
        law_signed_digits_are_integers(seq!['+'], d);
        law_signed_digits_are_integers(Seq::empty(), d);
        assert(Seq::<char>::empty() + d =~= d);
    }
}

/// A sign or none, and then digits, stand for the number that the digits give, below zero after a
/// minus, unless that needs more than 64 bits.
pub proof fn law_signed_digits_are_integers(sign: Seq<char>, digits: Seq<char>)
    requires
        is_sign(sign),
        is_run(digits),
        digits.len() > 0,
    ensures
        ({
            let n = if sign == seq!['-'] {
                -(value(digits) as int)
            } else {
                value(digits) as int
            };
            integer(sign + digits) == (if -0x8000_0000_0000_0000 <= n <= 0x7fff_ffff_ffff_ffff {
                Some(n)
            } else {
                None
            })
        }),
{
    let s = sign + digits;
    lemma_run_is_digits(digits);
    assert(48 <= digits[0] as u32 <= 57);
    if sign.len() == 0 {
        assert(s =~= digits);
        assert(unsigned(s) == digits);
    } else {
        assert(s[0] == sign[0]);
        assert(s.drop_first() =~= digits);
    }
}

/// Nothing but a sign or none, and then digits, stands for an integer.
pub proof fn law_integers_are_signed_digits(s: Seq<char>) -> (r: (Seq<char>, Seq<char>))
    requires
        integer(s) is Some,
    ensures
        s == r.0 + r.1,
        is_sign(r.0),
        is_run(r.1),
        r.1.len() > 0,
{
    let digits = unsigned(s);
    lemma_run_is_digits(digits);
    if s[0] == '-' || s[0] == '+' {
        assert(s =~= seq![s[0]] + digits);
        (seq![s[0]], digits)
    } else {
        assert(s =~= Seq::<char>::empty() + digits);
        (Seq::empty(), digits)
    }
}

/// The parts of a written floating point number.
#[verifier::ext_equal]
pub struct FloatParts {
    pub sign: Seq<char>,
    pub whole: Seq<char>,
    /// What stands behind the point, where there is a point.
    pub fraction: Option<Seq<char>>,
    /// The letter, the sign and the digits of the exponent, where there is one.
    pub exponent: Option<(char, Seq<char>, Seq<char>)>,
}

/// The parts fit: only digits where digits belong, at least one of them before or behind the
/// point, and at least one in an exponent.
pub open spec fn fits(p: FloatParts) -> bool {
    &&& is_sign(p.sign)
    &&& is_run(p.whole)
    &&& match p.fraction {
        Some(f) => is_run(f) && p.whole.len() + f.len() > 0,
        None => p.whole.len() > 0,
    }
    &&& match p.exponent {
        Some((c, sign, digits)) => (c == 'e' || c == 'E') && is_sign(sign) && is_run(digits)
            && digits.len() > 0,
        None => true,
    }
}

/// What stands behind the digits before the point.
pub open spec fn tail_text(p: FloatParts) -> Seq<char> {
    (match p.fraction {
        Some(f) => seq!['.'] + f,
        None => Seq::empty(),
    }) + (match p.exponent {
        Some((c, sign, digits)) => seq![c] + sign + digits,
        None => Seq::empty(),
    })
}

/// The parts put together.
pub open spec fn float_text(p: FloatParts) -> Seq<char> {
    p.sign + (p.whole + tail_text(p))
}

/// The same letter, where the first one may be large.
pub open spec fn same_letter(a: char, b: char) -> bool {
    a == b || (65 <= a as u32 <= 90 && b as u32 == a as u32 + 32)
}

/// The same letters, where those of the first text may be large.
pub open spec fn same_letters(s: Seq<char>, word: Seq<char>) -> bool {
    s.len() == word.len() && forall|k: int|
        0 <= k < s.len() ==> #[trigger] same_letter(s[k], word[k])
}

proof fn lemma_run_end(s: Seq<char>, i: int, j: int)
    requires
        0 <= i <= j <= s.len(),
        forall|k: int| i <= k < j ==> 48 <= #[trigger] s[k] as u32 <= 57,
        j < s.len() ==> !(48 <= s[j] as u32 <= 57),
    ensures
        digits_end(s, i) == j,
    decreases j - i,
{
    if i < j {
        assert(48 <= s[i] as u32 <= 57);
        lemma_run_end(s, i + 1, j);
    }
}

/// What is behind a sign.
proof fn lemma_unsigned(sign: Seq<char>, rest: Seq<char>)
    requires
        is_sign(sign),
        rest.len() > 0 ==> rest[0] != '+' && rest[0] != '-',
    ensures
        unsigned(sign + rest) == rest,
{
    let s = sign + rest;
    if sign.len() == 0 {
        assert(s =~= rest);
    } else {
        assert(s[0] == sign[0]);
        assert(s.drop_first() =~= rest);
    }
}

/// An exponent that begins at a place and goes to the end.
proof fn lemma_exponent(s: Seq<char>, i: int, c: char, sign: Seq<char>, digits: Seq<char>)
    requires
        0 <= i <= s.len(),
        s.skip(i) == seq![c] + sign + digits,
        c == 'e' || c == 'E',
        is_sign(sign),
        is_run(digits),
        digits.len() > 0,
    ensures
        crate::number::exponent_or_end(s, i),
        !(48 <= s[i] as u32 <= 57),
        s[i] != '.',
{
    let t = s.skip(i);
    let x = seq![c] + sign + digits;
    assert(x.len() == 1 + sign.len() + digits.len());
    assert(sign.len() > 0 ==> sign.len() == 1);
    assert(x[0] == c);
    assert(t == x);
    assert(t[0] == c && s[i] == c);
    let from = i + 1 + sign.len();
    assert forall|k: int| from <= k < s.len() implies 48 <= #[trigger] s[k] as u32 <= 57 by {
        assert(t[k - i] == digits[k - from]);
    }
    assert(s.len() == from + digits.len());
    if sign.len() > 0 {
        assert(x[1] == sign[0]);
        assert(t[1] == s[i + 1]);
    } else {
        assert(x[1] == digits[0]);
        assert(t[1] == s[i + 1]);
        assert(48 <= digits[0] as u32 <= 57);
    }
    lemma_run_end(s, from, s.len() as int);
}

/// Whatever is put together of parts that fit reads as a floating point number.
pub proof fn law_fitting_parts_make_a_float(p: FloatParts)
    requires
        fits(p),
    ensures
        is_float(float_text(p)),
{
    let tail = tail_text(p);
    let rest = p.whole + tail;
    let w = p.whole.len() as int;
    let e = match p.exponent {
        Some((c, sign, digits)) => seq![c] + sign + digits,
        None => Seq::empty(),
    };
    assert(forall|k: int| 0 <= k < w ==> rest[k] == #[trigger] p.whole[k]);
    match p.fraction {
        Some(f) => {
            assert(tail[0] == '.' && rest[w] == '.');
            let end = w + 1 + f.len();
            assert(rest.skip(end) =~= e);
            assert forall|k: int| w + 1 <= k < end implies 48 <= #[trigger] rest[k] as u32 <= 57 by {
                assert(rest[k] == tail[k - w]);
                assert(tail[k - w] == f[k - w - 1]);
            }
            match p.exponent {
                Some((c, sign, digits)) => {
                    lemma_exponent(rest, end, c, sign, digits);
                },
                None => {},
            }
            assert forall|k: int| 0 <= k < w implies 48 <= #[trigger] rest[k] as u32 <= 57 by {
                assert(48 <= p.whole[k] as u32 <= 57);
            }
            lemma_run_end(rest, 0, w);
            lemma_run_end(rest, w + 1, end);
        },
        None => {
            assert(rest.skip(w) =~= e);
            match p.exponent {
                Some((c, sign, digits)) => {
                    lemma_exponent(rest, w, c, sign, digits);
                },
                None => {},
            }
            assert forall|k: int| 0 <= k < w implies 48 <= #[trigger] rest[k] as u32 <= 57 by {
                assert(48 <= p.whole[k] as u32 <= 57);
            }
            lemma_run_end(rest, 0, w);
        },
    }
    assert(is_number(rest));
    assert(rest[0] != '+' && rest[0] != '-') by {
        if w > 0 {
            assert(48 <= p.whole[0] as u32 <= 57);
        }
    }
    lemma_unsigned(p.sign, rest);
}

proof fn lemma_small_letter(a: char, b: char)
    requires
        97 <= b as u32 <= 122,
    ensures
        small(a) == b <==> same_letter(a, b),
{
}

proof fn lemma_small(s: Seq<char>, word: Seq<char>)
    requires
        forall|k: int| 0 <= k < word.len() ==> 97 <= #[trigger] word[k] as u32 <= 122,
    ensures
        in_small(s) == word <==> same_letters(s, word),
{
    if in_small(s) == word {
        assert forall|k: int| 0 <= k < s.len() implies #[trigger] same_letter(s[k], word[k]) by {
            assert(in_small(s)[k] == small(s[k]));
            lemma_small_letter(s[k], word[k]);
        }
    }
    if same_letters(s, word) {
        assert forall|k: int| 0 <= k < s.len() implies #[trigger] in_small(s)[k] == word[k] by {
            assert(same_letter(s[k], word[k]));
            lemma_small_letter(s[k], word[k]);
        }
        assert(in_small(s) =~= word);
    }
}

proof fn lemma_float_words(s: Seq<char>)
    ensures
        in_small(s) == "inf"@ <==> same_letters(s, "inf"@),
        in_small(s) == "infinity"@ <==> same_letters(s, "infinity"@),
        in_small(s) == "nan"@ <==> same_letters(s, "nan"@),
        same_letters(s, "inf"@) || same_letters(s, "infinity"@) || same_letters(s, "nan"@)
            ==> s.len() > 0 && s[0] != '+' && s[0] != '-',
{
    reveal_strlit("inf");
    reveal_strlit("infinity");
    reveal_strlit("nan");
    lemma_small(s, "inf"@);
    lemma_small(s, "infinity"@);
    lemma_small(s, "nan"@);
    if same_letters(s, "inf"@) {
        assert(same_letter(s[0], "inf"@[0]));
    }
    if same_letters(s, "infinity"@) {
        assert(same_letter(s[0], "infinity"@[0]));
    }
    if same_letters(s, "nan"@) {
        assert(same_letter(s[0], "nan"@[0]));
    }
}

/// The words for infinity and for no number read as floating point numbers, behind a sign or
/// none, in large letters or small ones.
pub proof fn law_words_make_a_float(sign: Seq<char>, word: Seq<char>)
    requires
        is_sign(sign),
        same_letters(word, "inf"@) || same_letters(word, "infinity"@) || same_letters(word, "nan"@),
    ensures
        is_float(sign + word),
{
    lemma_float_words(word);
    lemma_unsigned(sign, word);
}

/// The exponent at a place, or none where the text ends there.
proof fn lemma_exponent_parts(s: Seq<char>, i: int) -> (r: Option<(char, Seq<char>, Seq<char>)>)
    requires
        0 <= i <= s.len(),
        crate::number::exponent_or_end(s, i),
    ensures
        match r {
            Some((c, sign, digits)) => (c == 'e' || c == 'E') && is_sign(sign) && is_run(digits)
                && digits.len() > 0 && s.skip(i) == seq![c] + sign + digits,
            None => i == s.len(),
        },
{
    if i == s.len() {
        None
    } else {
        let from = if i + 1 < s.len() && (s[i + 1] == '+' || s[i + 1] == '-') {
            i + 2
        } else {
            i + 1
        };
        let digits = s.skip(from);
        let sign = s.subrange(i + 1, from);
        assert forall|k: int| 0 <= k < digits.len() implies 48 <= #[trigger] digits[k] as u32 <= 57 by {
            lemma_digit_run(s, from, from + k);
        }
        assert(is_sign(sign)) by {
            if from == i + 2 {
                assert(sign =~= seq![s[i + 1]]);
            } else {
                assert(sign =~= Seq::<char>::empty());
            }
        }
        assert(s.skip(i) =~= seq![s[i]] + sign + digits);
        Some((s[i], sign, digits))
    }
}

/// The parts behind the sign.
proof fn lemma_number_parts(sign: Seq<char>, rest: Seq<char>) -> (p: FloatParts)
    requires
        is_sign(sign),
        is_number(rest),
    ensures
        fits(p),
        p.sign == sign,
        rest == p.whole + tail_text(p),
{
    let w = digits_end(rest, 0);
    lemma_digits_end(rest, 0);
    let whole = rest.take(w);
    assert forall|k: int| 0 <= k < w implies 48 <= #[trigger] whole[k] as u32 <= 57 by {
        lemma_digit_run(rest, 0, k);
    }
    if w < rest.len() && rest[w] == '.' {
        let end = digits_end(rest, w + 1);
        lemma_digits_end(rest, w + 1);
        let f = rest.subrange(w + 1, end);
        assert forall|k: int| 0 <= k < f.len() implies 48 <= #[trigger] f[k] as u32 <= 57 by {
            lemma_digit_run(rest, w + 1, w + 1 + k);
        }
        let exponent = lemma_exponent_parts(rest, end);
        let p = FloatParts { sign, whole, fraction: Some(f), exponent };
        let t = tail_text(p);
        assert(t == (seq!['.'] + f) + rest.skip(end)) by {
            if exponent is None {
                assert(rest.skip(end) =~= Seq::<char>::empty());
            }
        }
        assert(rest =~= whole + t);
        p
    } else {
        let exponent = lemma_exponent_parts(rest, w);
        let p = FloatParts { sign, whole, fraction: None, exponent };
        let t = tail_text(p);
        assert(t =~= rest.skip(w)) by {
            if exponent is None {
                assert(rest.skip(w) =~= Seq::<char>::empty());
            }
        }
        assert(rest =~= whole + t);
        p
    }
}

/// A floating point number is nothing but parts that fit, put together, or one of the words behind
/// a sign or none.
pub proof fn law_floats_have_fitting_parts(s: Seq<char>) -> (p: FloatParts)
    requires
        is_float(s),
    ensures
        (fits(p) && s == float_text(p)) || (is_sign(p.sign) && s == p.sign + p.whole && (
        same_letters(p.whole, "inf"@) || same_letters(p.whole, "infinity"@) || same_letters(
            p.whole,
            "nan"@,
        ))),
{
    let rest = unsigned(s);
    let sign = if s.len() > 0 && (s[0] == '-' || s[0] == '+') {
        seq![s[0]]
    } else {
        Seq::empty()
    };
    assert(s =~= sign + rest);
    lemma_float_words(rest);
    if !is_number(rest) {
        FloatParts { sign, whole: rest, fraction: None, exponent: None }
    } else {
        lemma_number_parts(sign, rest)
    }
}

} // verus!
