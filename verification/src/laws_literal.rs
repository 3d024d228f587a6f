//! Properties of the literals that a range accepts as bounds.
use vstd::prelude::*;
use crate::float_lit::{is_decimal, is_exponent, is_float_text, is_mantissa, is_word, sign_len};
use crate::text::is_digit;

verus! {

/// All characters of `d` are decimal digits.
pub open spec fn all_digits(d: Seq<char>) -> bool {
    forall|i: int| 0 <= i < d.len() ==> is_digit(#[trigger] d[i])
}

/// Decimal numbers are literals: digits, digits with a fraction, a fraction
/// alone, each with an optional sign, and digits with an exponent.
pub proof fn law_decimal_literals(d1: Seq<char>, d2: Seq<char>)
    requires
        d1.len() > 0,
        all_digits(d1),
        all_digits(d2),
    ensures
        is_float_text(d1),
        is_float_text(seq!['-'] + d1),
        is_float_text(seq!['+'] + d1),
        is_float_text(d1 + seq!['.'] + d2),
        is_float_text(seq!['-'] + d1 + seq!['.'] + d2),
        is_float_text(seq!['.'] + d1),
        d2.len() > 0 ==> is_float_text(d1 + seq!['e'] + d2),
{
    assert(is_digit(d1[0]));
    // plain digits
    assert(is_mantissa(d1));
    assert(d1.subrange(sign_len(d1), d1.len() as int) =~= d1);
    assert(is_decimal(d1));
    let m = seq!['-'] + d1;
    assert(m.subrange(sign_len(m), m.len() as int) =~= d1);
    let p = seq!['+'] + d1;
    assert(p.subrange(sign_len(p), p.len() as int) =~= d1);
    // a fraction
    let f = d1 + seq!['.'] + d2;
    assert(f[0] == d1[0]);
    assert(forall|i: int, j: int| 0 <= i < j < f.len() ==> !(f[i] == '.' && f[j] == '.')) by {
        assert forall|i: int, j: int| 0 <= i < j < f.len() implies !(f[i] == '.' && f[j] == '.') by {
            if i < d1.len() {
                assert(f[i] == d1[i]);
            } else if i == d1.len() {
                assert(f[j] == d2[j - d1.len() - 1]);
            } else {
                assert(f[i] == d2[i - d1.len() - 1]);
            }
        }
    }
    assert(forall|i: int| 0 <= i < f.len() ==> is_digit(f[i]) || f[i] == '.') by {
        assert forall|i: int| 0 <= i < f.len() implies is_digit(f[i]) || f[i] == '.' by {
            if i < d1.len() {
                assert(f[i] == d1[i]);
            } else if i > d1.len() {
                assert(f[i] == d2[i - d1.len() - 1]);
            }
        }
    }
    assert(is_mantissa(f));
    assert(f.subrange(sign_len(f), f.len() as int) =~= f);
    assert(is_decimal(f));
    let mf = seq!['-'] + f;
    assert(seq!['-'] + d1 + seq!['.'] + d2 =~= mf);
    assert(mf.subrange(sign_len(mf), mf.len() as int) =~= f);
    // a fraction alone
    let g = seq!['.'] + d1;
    assert(g[1] == d1[0]);
    assert(forall|i: int, j: int| 0 <= i < j < g.len() ==> !(g[i] == '.' && g[j] == '.')) by {
        assert forall|i: int, j: int| 0 <= i < j < g.len() implies !(g[i] == '.' && g[j] == '.') by {
            assert(g[j] == d1[j - 1]);
        }
    }
    assert(forall|i: int| 0 <= i < g.len() ==> is_digit(g[i]) || g[i] == '.') by {
        assert forall|i: int| 0 <= i < g.len() implies is_digit(g[i]) || g[i] == '.' by {
            if i > 0 {
                assert(g[i] == d1[i - 1]);
            }
        }
    }
    assert(is_mantissa(g));
    assert(g.subrange(sign_len(g), g.len() as int) =~= g);
    assert(is_decimal(g));
    // an exponent
    if d2.len() > 0 {
        let x = d1 + seq!['e'] + d2;
        let k = d1.len() as int;
        assert(x[k] == 'e');
        assert(x.subrange(0, k) =~= d1);
        assert(x.subrange(k + 1, x.len() as int) =~= d2);
        assert(is_digit(d2[0]));
        assert(d2.subrange(sign_len(d2), d2.len() as int) =~= d2);
        assert(is_exponent(d2));
        assert(x.subrange(sign_len(x), x.len() as int) =~= x);
        assert(is_decimal(x));
    }
}

/// The characters a literal can hold: digits, `.`, signs, the exponent
/// marker and the letters of `inf`, `infinity` and `nan`, in either case.
pub open spec fn literal_char(c: char) -> bool {
    ||| is_digit(c)
    ||| c == '.' || c == '+' || c == '-'
    ||| c == 'e' || c == 'E'
    ||| c == 'i' || c == 'n' || c == 'f' || c == 't' || c == 'y' || c == 'a'
    ||| c == 'I' || c == 'N' || c == 'F' || c == 'T' || c == 'Y' || c == 'A'
}

/// A literal is not empty and holds only literal characters: never a space, a
/// comma or a bracket.
pub proof fn law_literal_alphabet(s: Seq<char>)
    ensures
        is_float_text(s) ==> s.len() > 0 && forall|i: int| 0 <= i < s.len() ==> literal_char(#[trigger] s[i]),
{
    if is_float_text(s) {
        let n = sign_len(s);
        let b = s.subrange(n, s.len() as int);
        assert forall|i: int| 0 <= i < s.len() implies literal_char(#[trigger] s[i]) by {
            if i >= n {
                assert(s[i] == b[i - n]);
                let j = i - n;
                if is_word(b, seq!['i', 'n', 'f']) {
                } else if is_word(b, seq!['i', 'n', 'f', 'i', 'n', 'i', 't', 'y']) {
                } else if is_word(b, seq!['n', 'a', 'n']) {
                } else if forall|q: int| 0 <= q < b.len() ==> !crate::float_lit::is_exp_char(b[q]) && is_mantissa(b) {
                    assert(is_mantissa(b));
                } else {
                    let k = choose|k: int|
                        0 <= k < b.len() && crate::float_lit::is_exp_char(b[k]) && is_mantissa(b.subrange(0, k)) && is_exponent(
                            b.subrange(k + 1, b.len() as int),
                        );
                    if j < k {
                        assert(b.subrange(0, k)[j] == b[j]);
                    } else if j > k {
                        let x = b.subrange(k + 1, b.len() as int);
                        let sl = sign_len(x);
                        assert(x[j - k - 1] == b[j]);
                        if j - k - 1 >= sl {
                            assert(x.subrange(sl, x.len() as int)[j - k - 1 - sl] == x[j - k - 1]);
                        }
                    }
                }
            }
        }
        if s.len() == 0 {
            assert(b.len() == 0);
            assert(!is_mantissa(b));
        }
    }
}

} // verus!
