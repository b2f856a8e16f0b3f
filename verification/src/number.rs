//! Numbers as they are written in text: integers and floating point literals.
use crate::text::chars_of;
use vstd::prelude::*;

verus! {

/// The decimal digits.
pub open spec fn is_digit(c: char) -> bool {
    48 <= c as u32 <= 57
}

/// Whether every character is a digit.
pub open spec fn all_digits(s: Seq<char>) -> bool {
    forall|k: int| 0 <= k < s.len() ==> is_digit(#[trigger] s[k])
}

/// The number that digits stand for.
pub open spec fn value(digits: Seq<char>) -> nat
    decreases digits.len(),
{
    if digits.len() == 0 {
        0
    } else {
        value(digits.drop_last()) * 10 + (digits.last() as u32 - 48) as nat
    }
}

/// What follows an optional sign.
pub open spec fn unsigned(s: Seq<char>) -> Seq<char> {
    if s.len() > 0 && (s[0] == '-' || s[0] == '+') {
        s.drop_first()
    } else {
        s
    }
}

/// The 64 bit integer that a text stands for: an optional sign and at least one digit. A text of
/// another form, or a number that does not fit, stands for none.
pub open spec fn integer(s: Seq<char>) -> Option<int> {
    let digits = unsigned(s);
    let n = if s.len() > 0 && s[0] == '-' {
        -(value(digits) as int)
    } else {
        value(digits) as int
    };
    if digits.len() > 0 && all_digits(digits) && i64::MIN <= n <= i64::MAX {
        Some(n)
    } else {
        None
    }
}

/// Reads a 64 bit integer.
pub fn parse_integer(s: &[char]) -> (r: Option<i64>)
    ensures
        match r {
            Some(n) => integer(s@) == Some(n as int),
            None => integer(s@) is None,
        },
{
    let negative = s.len() > 0 && s[0] == '-';
    let first: usize = if s.len() > 0 && (s[0] == '-' || s[0] == '+') {
        1
    } else {
        0
    };
    let ghost digits = unsigned(s@);
    assert(digits =~= s@.skip(first as int));
    if s.len() == first {
        return None;
    }
    let mut n: i128 = 0;
    let mut over = false;
    let mut i: usize = first;
    while i < s.len()
        invariant
            first <= i <= s@.len(),
            digits == s@.skip(first as int),
            digits == unsigned(s@),
            forall|k: int| 0 <= k < i - first ==> is_digit(#[trigger] digits[k]),
            over ==> value(digits.take(i - first)) > 0x8000_0000_0000_0000,
            !over ==> 0 <= n <= 0x8000_0000_0000_0000 && n == value(digits.take(i - first)),
        decreases s@.len() - i,
    {
        let c: u32 = s[i] as u32;
        assert(digits[i - first] == s@[i as int]);
        if c < 48 || c > 57 {
            assert(!is_digit(digits[i - first]));
            return None;
        }
        proof {
            let next = digits.take(i + 1 - first);
            assert(next.drop_last() =~= digits.take(i - first));
            assert(next.last() == s@[i as int]);
        }
        if !over {
            n = n * 10 + (c - 48) as i128;
            over = n > 0x8000_0000_0000_0000;
        }
        i += 1;
    }
    assert(digits.take(i - first) =~= digits);
    if over {
        return None;
    }
    if negative {
        Some((-n) as i64)
    } else if n < 0x8000_0000_0000_0000 {
        Some(n as i64)
    } else {
        None
    }
}

/// Where the digits from a place on end.
pub open spec fn digits_end(s: Seq<char>, i: int) -> int
    decreases s.len() - i,
{
    if 0 <= i < s.len() && is_digit(s[i]) {
        digits_end(s, i + 1)
    } else {
        i
    }
}

/// Whether a text ends at a place, or goes on there with an exponent up to its end.
pub open spec fn exponent_or_end(s: Seq<char>, i: int) -> bool {
    i == s.len() || {
        let from = if i + 1 < s.len() && (s[i + 1] == '+' || s[i + 1] == '-') {
            i + 2
        } else {
            i + 1
        };
        (s[i] == 'e' || s[i] == 'E') && from < s.len() && digits_end(s, from) == s.len()
    }
}

/// Digits with at most one point among or beside them, at least one digit, and then maybe an
/// exponent.
pub open spec fn is_number(s: Seq<char>) -> bool {
    let whole = digits_end(s, 0);
    if whole < s.len() && s[whole] == '.' {
        let end = digits_end(s, whole + 1);
        (whole > 0 || end > whole + 1) && exponent_or_end(s, end)
    } else {
        whole > 0 && exponent_or_end(s, whole)
    }
}

/// A letter in its small form.
pub open spec fn small(c: char) -> char {
    if 65 <= c as u32 <= 90 {
        (c as u32 + 32) as char
    } else {
        c
    }
}

/// A text with its letters in their small form.
pub open spec fn in_small(s: Seq<char>) -> Seq<char> {
    Seq::new(s.len(), |k: int| small(s[k]))
}

/// The texts that stand for a 64 bit floating point number: an optional sign, then a number or
/// one of the words for infinity and for no number.
pub open spec fn is_float(s: Seq<char>) -> bool {
    let rest = unsigned(s);
    in_small(rest) == "inf"@ || in_small(rest) == "infinity"@ || in_small(rest) == "nan"@
        || is_number(rest)
}

pub proof fn lemma_digits_end(s: Seq<char>, i: int)
    requires
        0 <= i <= s.len(),
    ensures
        i <= digits_end(s, i) <= s.len(),
    decreases s.len() - i,
{
    if i < s.len() && is_digit(s[i]) {
        lemma_digits_end(s, i + 1);
    }
}

fn skip_digits(s: &[char], from: usize) -> (end: usize)
    requires
        from <= s@.len(),
    ensures
        end == digits_end(s@, from as int),
        from <= end <= s@.len(),
{
    let mut i: usize = from;
    while i < s.len() && s[i] as u32 >= 48 && s[i] as u32 <= 57
        invariant
            from <= i <= s@.len(),
            digits_end(s@, i as int) == digits_end(s@, from as int),
        decreases s@.len() - i,
    {
        i += 1;
    }
    i
}

fn ends_as_number(s: &[char], i: usize) -> (r: bool)
    requires
        i <= s@.len(),
    ensures
        r == exponent_or_end(s@, i as int),
{
    if i == s.len() {
        return true;
    }
    if s[i] != 'e' && s[i] != 'E' {
        return false;
    }
    let mut from: usize = i + 1;
    if from < s.len() && (s[from] == '+' || s[from] == '-') {
        from += 1;
    }
    from < s.len() && skip_digits(s, from) == s.len()
}

fn reads_as_number(s: &[char]) -> (r: bool)
    ensures
        r == is_number(s@),
{
    let whole = skip_digits(s, 0);
    if whole < s.len() && s[whole] == '.' {
        let end = skip_digits(s, whole + 1);
        (whole > 0 || end > whole + 1) && ends_as_number(s, end)
    } else {
        whole > 0 && ends_as_number(s, whole)
    }
}

fn is_word_in_small(s: &[char], from: usize, word: &str) -> (r: bool)
    requires
        from <= s@.len(),
    ensures
        r == (in_small(s@.skip(from as int)) == word@),
{
    let w = chars_of(word);
    let ghost mine = in_small(s@.skip(from as int));
    if w.len() != s.len() - from {
        return false;
    }
    let mut i: usize = 0;
    while i < w.len()
        invariant
            from <= s@.len() <= usize::MAX,
            i <= w@.len(),
            w@ == word@,
            w@.len() == s@.len() - from,
            mine == in_small(s@.skip(from as int)),
            forall|k: int| 0 <= k < i ==> mine[k] == w@[k],
        decreases w@.len() - i,
    {
        let c = s[from + i];
        let n: u32 = c as u32;
        let low = if 65 <= n && n <= 90 {
            (n as u8 + 32) as char
        } else {
            c
        };
        assert(low == small(c));
        assert(mine[i as int] == low);
        if low != w[i] {
            return false;
        }
        i += 1;
    }
    assert(mine =~= w@);
    true
}

/// Whether a text stands for a 64 bit floating point number.
pub fn reads_as_float(s: &[char]) -> (r: bool)
    ensures
        r == is_float(s@),
{
    let first: usize = if s.len() > 0 && (s[0] == '-' || s[0] == '+') {
        1
    } else {
        0
    };
    assert(unsigned(s@) =~= s@.skip(first as int));
    if is_word_in_small(s, first, "inf") || is_word_in_small(s, first, "infinity")
        || is_word_in_small(s, first, "nan") {
        return true;
    }
    let rest = vstd::slice::slice_subrange(s, first, s.len());
    assert(rest@ =~= s@.skip(first as int));
    reads_as_number(rest)
}

} // verus!
