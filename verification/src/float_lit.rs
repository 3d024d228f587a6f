//! The syntax of floating-point literals that `f64::from_str` accepts, as its
//! documentation gives it (the letters of `inf`, `infinity` and `nan`, and the
//! exponent marker, in either case):
//! `Float ::= Sign? ('inf' | 'infinity' | 'nan' | Number)`,
//! `Number ::= (Digit+ | Digit+ '.' Digit* | Digit* '.' Digit+) Exp?`,
//! `Exp ::= 'e' Sign? Digit+`, `Sign ::= [+-]`, `Digit ::= [0-9]`.
use vstd::prelude::*;
use crate::text::{is_digit, is_ascii_digit, slice};

verus! {

pub open spec fn is_sign(c: char) -> bool {
    c == '+' || c == '-'
}

/// The length of an optional leading sign.
pub open spec fn sign_len(s: Seq<char>) -> int {
    if s.len() > 0 && is_sign(s[0]) {
        1
    } else {
        0
    }
}

/// The upper-case form of the letters that the grammar uses.
pub open spec fn upper(c: char) -> char {
    if c == 'i' {
        'I'
    } else if c == 'n' {
        'N'
    } else if c == 'f' {
        'F'
    } else if c == 't' {
        'T'
    } else if c == 'y' {
        'Y'
    } else if c == 'a' {
        'A'
    } else if c == 'e' {
        'E'
    } else {
        c
    }
}

/// `s` spells the lower-case word `w`, each letter in either case.
pub open spec fn is_word(s: Seq<char>, w: Seq<char>) -> bool {
    s.len() == w.len() && forall|i: int| 0 <= i < s.len() ==> (s[i] == w[i] || s[i] == upper(w[i]))
}

pub open spec fn is_exp_char(c: char) -> bool {
    c == 'e' || c == 'E'
}

/// Digits and at most one dot, with at least one digit.
pub open spec fn is_mantissa(m: Seq<char>) -> bool {
    &&& forall|i: int| 0 <= i < m.len() ==> is_digit(m[i]) || m[i] == '.'
    &&& exists|i: int| 0 <= i < m.len() && is_digit(m[i])
    &&& forall|i: int, j: int| 0 <= i < j < m.len() ==> !(m[i] == '.' && m[j] == '.')
}

/// An optional sign followed by one or more digits.
pub open spec fn is_exponent(x: Seq<char>) -> bool {
    let d = x.subrange(sign_len(x), x.len() as int);
    d.len() > 0 && forall|i: int| 0 <= i < d.len() ==> is_digit(d[i])
}

/// A decimal number with an optional exponent.
pub open spec fn is_decimal(b: Seq<char>) -> bool {
    ||| (forall|i: int| 0 <= i < b.len() ==> !is_exp_char(b[i])) && is_mantissa(b)
    ||| exists|k: int|
        0 <= k < b.len() && is_exp_char(b[k]) && is_mantissa(b.subrange(0, k)) && is_exponent(
            b.subrange(k + 1, b.len() as int),
        )
}

/// `s` is a literal that `f64::from_str` accepts.
pub open spec fn is_float_text(s: Seq<char>) -> bool {
    let b = s.subrange(sign_len(s), s.len() as int);
    ||| is_word(b, seq!['i', 'n', 'f'])
    ||| is_word(b, seq!['i', 'n', 'f', 'i', 'n', 'i', 't', 'y'])
    ||| is_word(b, seq!['n', 'a', 'n'])
    ||| is_decimal(b)
}

fn upper_of(c: char) -> (r: char)
    ensures
        r == upper(c),
{
    if c == 'i' {
        'I'
    } else if c == 'n' {
        'N'
    } else if c == 'f' {
        'F'
    } else if c == 't' {
        'T'
    } else if c == 'y' {
        'Y'
    } else if c == 'a' {
        'A'
    } else if c == 'e' {
        'E'
    } else {
        c
    }
}

fn word_matches(b: &Vec<char>, w: &Vec<char>) -> (r: bool)
    ensures
        r == is_word(b@, w@),
{
    if b.len() != w.len() {
        return false;
    }
    let mut i: usize = 0;
    while i < b.len()
        invariant
            i <= b.len() == w.len(),
            forall|k: int| 0 <= k < i ==> (b@[k] == w@[k] || b@[k] == upper(w@[k])),
        decreases b.len() - i,
    {
        if !(b[i] == w[i] || b[i] == upper_of(w[i])) {
            return false;
        }
        i = i + 1;
    }
    true
}

fn mantissa_ok(b: &Vec<char>, hi: usize) -> (r: bool)
    requires
        hi <= b.len(),
    ensures
        r == is_mantissa(b@.subrange(0, hi as int)),
{
    let ghost m = b@.subrange(0, hi as int);
    let mut i: usize = 0;
    let mut digit = false;
    let mut dot = false;
    while i < hi
        invariant
            i <= hi <= b.len(),
            m == b@.subrange(0, hi as int),
            forall|k: int| 0 <= k < i ==> is_digit(m[k]) || m[k] == '.',
            digit == exists|k: int| 0 <= k < i && is_digit(m[k]),
            dot == exists|k: int| 0 <= k < i && m[k] == '.',
            forall|k: int, j: int| 0 <= k < j < i ==> !(m[k] == '.' && m[j] == '.'),
        decreases hi - i,
    {
        let c = b[i];
        assert(m[i as int] == c);
        if is_ascii_digit(c) {
            digit = true;
        } else if c == '.' {
            if dot {
                proof {
                    let k = choose|k: int| 0 <= k < i && m[k] == '.';
                    assert(m[k] == '.' && m[i as int] == '.' && k < i);
                }
                return false;
            }
            dot = true;
        } else {
            assert(!(is_digit(m[i as int]) || m[i as int] == '.'));
            return false;
        }
        i = i + 1;
    }
    digit
}

fn exponent_ok(b: &Vec<char>, lo: usize) -> (r: bool)
    requires
        lo <= b.len(),
    ensures
        r == is_exponent(b@.subrange(lo as int, b.len() as int)),
{
    let ghost x = b@.subrange(lo as int, b.len() as int);
    let mut i = lo;
    if i < b.len() && (b[i] == '+' || b[i] == '-') {
        i = i + 1;
    }
    assert(i == lo + sign_len(x));
    let ghost d = x.subrange(sign_len(x), x.len() as int);
    if i == b.len() {
        return false;
    }
    let start = i;
    while i < b.len()
        invariant
            lo <= start <= i <= b.len(),
            start == lo + sign_len(x),
            x == b@.subrange(lo as int, b.len() as int),
            d == x.subrange(sign_len(x), x.len() as int),
            forall|k: int| 0 <= k < i - start ==> is_digit(d[k]),
        decreases b.len() - i,
    {
        if !is_ascii_digit(b[i]) {
            assert(!is_digit(d[i - start]));
            return false;
        }
        i = i + 1;
    }
    true
}

proof fn lemma_subrange_of_subrange(s: Seq<char>, a: int, b: int)
    requires
        0 <= a <= b <= s.len(),
    ensures
        s.subrange(0, b).subrange(0, a) == s.subrange(0, a),
{
    assert(s.subrange(0, b).subrange(0, a) =~= s.subrange(0, a));
}

fn decimal_ok(b: &Vec<char>) -> (r: bool)
    ensures
        r == is_decimal(b@),
{
    let mut k: usize = 0;
    while k < b.len() && !(b[k] == 'e' || b[k] == 'E')
        invariant
            k <= b.len(),
            forall|i: int| 0 <= i < k ==> !is_exp_char(b@[i]),
        decreases b.len() - k,
    {
        k = k + 1;
    }
    assert(b@.subrange(0, b.len() as int) =~= b@);
    if k == b.len() {
        let r = mantissa_ok(b, k);
        proof {
            if is_decimal(b@) && !r {
                let j = choose|j: int|
                    0 <= j < b@.len() && is_exp_char(b@[j]) && is_mantissa(b@.subrange(0, j))
                        && is_exponent(b@.subrange(j + 1, b@.len() as int));
                assert(!is_exp_char(b@[j]));
            }
        }
        r
    } else {
        let m = mantissa_ok(b, k);
        let e = exponent_ok(b, k + 1);
        proof {
            if m && e {
                assert(is_exp_char(b@[k as int]));
            }
            if is_decimal(b@) && !(m && e) {
                if forall|i: int| 0 <= i < b@.len() ==> !is_exp_char(b@[i]) {
                    assert(!is_exp_char(b@[k as int]));
                }
                let j = choose|j: int|
                    0 <= j < b@.len() && is_exp_char(b@[j]) && is_mantissa(b@.subrange(0, j))
                        && is_exponent(b@.subrange(j + 1, b@.len() as int));
                if j < k {
                    assert(!is_exp_char(b@[j]));
                }
                if j > k {
                    assert(b@.subrange(0, j)[k as int] == b@[k as int]);
                }
            }
        }
        m && e
    }
}

/// Whether `v` is a literal that `f64::from_str` accepts.
pub fn is_float_literal(v: &Vec<char>) -> (r: bool)
    ensures
        r == is_float_text(v@),
{
    let lo: usize = if v.len() > 0 && (v[0] == '+' || v[0] == '-') {
        1
    } else {
        0
    };
    let b = slice(v, lo, v.len());
    let inf = vec!['i', 'n', 'f'];
    let infinity = vec!['i', 'n', 'f', 'i', 'n', 'i', 't', 'y'];
    let nan = vec!['n', 'a', 'n'];
    assert(inf@ =~= seq!['i', 'n', 'f']);
    assert(infinity@ =~= seq!['i', 'n', 'f', 'i', 'n', 'i', 't', 'y']);
    assert(nan@ =~= seq!['n', 'a', 'n']);
    word_matches(&b, &inf) || word_matches(&b, &infinity) || word_matches(&b, &nan) || decimal_ok(&b)
}

} // verus!
