//! Tokenizer of the expression language.
use vstd::prelude::*;
use crate::text::{
    alphabetic, alphanumeric, char_is_whitespace, is_digit, is_alphabetic,
    is_alphanumeric, is_ascii_digit, is_whitespace, chars_of, string_of,
};

verus! {

/// Operator tokens: `+ - * / ** >= <= == > <`.
#[derive(Debug, Clone, Copy, PartialEq, Eq, Structural)]
pub enum OpTok {
    Plus,
    Minus,
    Star,
    Slash,
    Pow,
    Ge,
    Le,
    EqEq,
    Gt,
    Lt,
}

/// A token. A number keeps the text of its literal: the digits and dots that
/// the tokenizer grouped together.
#[derive(Debug, Clone, PartialEq)]
pub enum TokenKind {
    Number(String),
    Id(String),
    Op(OpTok),
    Comma,
    LParen,
    RParen,
    Colon,
    Eof,
}

/// The mathematical value of a token.
pub enum TokenV {
    Number(Seq<char>),
    Id(Seq<char>),
    Op(OpTok),
    Comma,
    LParen,
    RParen,
    Colon,
    Eof,
}

impl View for TokenKind {
    type V = TokenV;

    open spec fn view(&self) -> TokenV {
        match self {
            TokenKind::Number(s) => TokenV::Number(s@),
            TokenKind::Id(s) => TokenV::Id(s@),
            TokenKind::Op(o) => TokenV::Op(*o),
            TokenKind::Comma => TokenV::Comma,
            TokenKind::LParen => TokenV::LParen,
            TokenKind::RParen => TokenV::RParen,
            TokenKind::Colon => TokenV::Colon,
            TokenKind::Eof => TokenV::Eof,
        }
    }
}

/// The values of a sequence of tokens.
pub open spec fn tokens_view(v: Seq<TokenKind>) -> Seq<TokenV> {
    v.map_values(|t: TokenKind| t@)
}

/// A copy of a token.
pub fn clone_token(t: &TokenKind) -> (r: TokenKind)
    ensures
        r@ == t@,
{
    match t {
        TokenKind::Number(s) => TokenKind::Number(s.clone()),
        TokenKind::Id(s) => TokenKind::Id(s.clone()),
        TokenKind::Op(o) => TokenKind::Op(*o),
        TokenKind::Comma => TokenKind::Comma,
        TokenKind::LParen => TokenKind::LParen,
        TokenKind::RParen => TokenKind::RParen,
        TokenKind::Colon => TokenKind::Colon,
        TokenKind::Eof => TokenKind::Eof,
    }
}

/// Characters that make up a number literal.
pub open spec fn is_num_char(c: char) -> bool {
    is_digit(c) || c == '.'
}

/// Characters that continue an identifier.
pub open spec fn is_id_char(c: char) -> bool {
    alphanumeric(c) || c == '_'
}

/// Characters that start an identifier.
pub open spec fn is_id_start(c: char) -> bool {
    alphabetic(c) || c == '_'
}

/// The end of the longest run of characters satisfying `f` that starts at `i`.
pub open spec fn run_end(s: Seq<char>, i: int, f: spec_fn(char) -> bool) -> int
    decreases s.len() - i,
{
    if 0 <= i < s.len() && f(s[i]) {
        run_end(s, i + 1, f)
    } else {
        i
    }
}

pub proof fn lemma_run_end_bounds(s: Seq<char>, i: int, f: spec_fn(char) -> bool)
    requires
        0 <= i <= s.len(),
    ensures
        i <= run_end(s, i, f) <= s.len(),
        forall|k: int| i <= k < run_end(s, i, f) ==> f(#[trigger] s[k]),
    decreases s.len() - i,
{
    if i < s.len() && f(s[i]) {
        lemma_run_end_bounds(s, i + 1, f);
    }
}

/// The operator spelled by two characters, if any: `>= <= == **`.
pub open spec fn two_char_op(a: char, b: char) -> Option<OpTok> {
    if a == '>' && b == '=' {
        Some(OpTok::Ge)
    } else if a == '<' && b == '=' {
        Some(OpTok::Le)
    } else if a == '=' && b == '=' {
        Some(OpTok::EqEq)
    } else if a == '*' && b == '*' {
        Some(OpTok::Pow)
    } else {
        None
    }
}

/// The token spelled by one character, if any; other characters are skipped.
pub open spec fn one_char_token(c: char) -> Option<TokenV> {
    if c == '+' {
        Some(TokenV::Op(OpTok::Plus))
    } else if c == '-' {
        Some(TokenV::Op(OpTok::Minus))
    } else if c == '*' {
        Some(TokenV::Op(OpTok::Star))
    } else if c == '/' {
        Some(TokenV::Op(OpTok::Slash))
    } else if c == '>' {
        Some(TokenV::Op(OpTok::Gt))
    } else if c == '<' {
        Some(TokenV::Op(OpTok::Lt))
    } else if c == '(' {
        Some(TokenV::LParen)
    } else if c == ')' {
        Some(TokenV::RParen)
    } else if c == ',' {
        Some(TokenV::Comma)
    } else if c == ':' {
        Some(TokenV::Colon)
    } else {
        None
    }
}

/// A number starts at `i`: a digit, or a dot followed by a digit.
pub open spec fn number_starts(s: Seq<char>, i: int) -> bool {
    is_digit(s[i]) || (s[i] == '.' && i + 1 < s.len() && is_digit(s[i + 1]))
}

/// The tokens of `s[i..]`, scanning left to right, followed by `Eof`.
/// Whitespace separates tokens; a number is a maximal run of digits and dots;
/// an identifier starts with a letter or `_` and continues with letters,
/// digits or `_`; two-character operators are matched before one-character ones;
/// any other character is skipped.
pub open spec fn scan(s: Seq<char>, i: int) -> Seq<TokenV>
    decreases s.len() - i,
{
    if i < 0 || i >= s.len() {
        seq![TokenV::Eof]
    } else if char_is_whitespace(s[i]) {
        scan(s, i + 1)
    } else if number_starts(s, i) {
        let j = run_end(s, i + 1, |c: char| is_num_char(c));
        proof {
            lemma_run_end_bounds(s, i + 1, |c: char| is_num_char(c));
        }
        seq![TokenV::Number(s.subrange(i, j))] + scan(s, j)
    } else if is_id_start(s[i]) {
        let j = run_end(s, i + 1, |c: char| is_id_char(c));
        proof {
            lemma_run_end_bounds(s, i + 1, |c: char| is_id_char(c));
        }
        seq![TokenV::Id(s.subrange(i, j))] + scan(s, j)
    } else if i + 1 < s.len() && two_char_op(s[i], s[i + 1]) is Some {
        seq![TokenV::Op(two_char_op(s[i], s[i + 1])->0)] + scan(s, i + 2)
    } else if one_char_token(s[i]) is Some {
        seq![one_char_token(s[i])->0] + scan(s, i + 1)
    } else {
        scan(s, i + 1)
    }
}

/// The tokens of a whole input.
pub open spec fn spec_tokenize(s: Seq<char>) -> Seq<TokenV> {
    scan(s, 0)
}

/// The tokens of `chars`, ending with `Eof`.
pub fn tokenize_chars(chars: &Vec<char>) -> (tokens: Vec<TokenKind>)
    ensures
        tokens_view(tokens@) == spec_tokenize(chars@),
{
    let ghost s = chars@;
    let n = chars.len();
    let mut tokens: Vec<TokenKind> = Vec::new();
    let mut i: usize = 0;
    while i < n
        invariant
            n == chars.len(),
            s == chars@,
            i <= n,
            tokens_view(tokens@) + scan(s, i as int) == scan(s, 0),
        decreases n - i,
    {
        let ghost tv0 = tokens_view(tokens@);
        let c = chars[i];
        if is_whitespace(c) {
            i = i + 1;
            continue;
        }
        if is_ascii_digit(c) || (c == '.' && i + 1 < n && is_ascii_digit(chars[i + 1])) {
            let start = i;
            proof {
                lemma_run_end_bounds(s, start + 1, |c: char| is_num_char(c));
            }
            while i < n && (is_ascii_digit(chars[i]) || chars[i] == '.')
                invariant
                    n == chars.len(),
                    s == chars@,
                    start <= i <= n,
                    i == start || run_end(s, i as int, |c: char| is_num_char(c))
                        == run_end(s, start + 1, |c: char| is_num_char(c)),
                decreases n - i,
            {
                i = i + 1;
            }
            assert(i > start);
            let text = string_of(chars, start, i);
            let ghost old_tokens = tokens@;
            tokens.push(TokenKind::Number(text));
            assert(tokens_view(tokens@) =~= tv0.push(TokenV::Number(s.subrange(start as int, i as int))));
            assert(tokens_view(tokens@) + scan(s, i as int) =~= tv0 + scan(s, start as int));
            continue;
        }
        if is_alphabetic(c) || c == '_' {
            let start = i;
            proof {
                lemma_run_end_bounds(s, start + 1, |c: char| is_id_char(c));
            }
            while i < n && (is_alphanumeric(chars[i]) || chars[i] == '_')
                invariant
                    n == chars.len(),
                    s == chars@,
                    start <= i <= n,
                    i == start || run_end(s, i as int, |c: char| is_id_char(c))
                        == run_end(s, start + 1, |c: char| is_id_char(c)),
                    i == start ==> is_id_start(s[start as int]),
                decreases n - i,
            {
                i = i + 1;
            }
            assert(i > start);
            let text = string_of(chars, start, i);
            tokens.push(TokenKind::Id(text));
            assert(tokens_view(tokens@) =~= tv0.push(TokenV::Id(s.subrange(start as int, i as int))));
            assert(tokens_view(tokens@) + scan(s, i as int) =~= tv0 + scan(s, start as int));
            continue;
        }
        if i + 1 < n {
            let d = chars[i + 1];
            let two = if c == '>' && d == '=' {
                Some(OpTok::Ge)
            } else if c == '<' && d == '=' {
                Some(OpTok::Le)
            } else if c == '=' && d == '=' {
                Some(OpTok::EqEq)
            } else if c == '*' && d == '*' {
                Some(OpTok::Pow)
            } else {
                None
            };
            if let Some(op) = two {
                tokens.push(TokenKind::Op(op));
                i = i + 2;
                assert(tokens_view(tokens@) =~= tv0.push(TokenV::Op(op)));
                assert(tokens_view(tokens@) + scan(s, i as int) =~= tv0 + scan(s, (i - 2) as int));
                continue;
            }
        }
        let one = if c == '+' {
            Some(TokenKind::Op(OpTok::Plus))
        } else if c == '-' {
            Some(TokenKind::Op(OpTok::Minus))
        } else if c == '*' {
            Some(TokenKind::Op(OpTok::Star))
        } else if c == '/' {
            Some(TokenKind::Op(OpTok::Slash))
        } else if c == '>' {
            Some(TokenKind::Op(OpTok::Gt))
        } else if c == '<' {
            Some(TokenKind::Op(OpTok::Lt))
        } else if c == '(' {
            Some(TokenKind::LParen)
        } else if c == ')' {
            Some(TokenKind::RParen)
        } else if c == ',' {
            Some(TokenKind::Comma)
        } else if c == ':' {
            Some(TokenKind::Colon)
        } else {
            None
        };
        match one {
            Some(t) => {
                let ghost tv = t@;
                tokens.push(t);
                assert(tokens_view(tokens@) =~= tv0.push(tv));
            },
            None => {},
        }
        i = i + 1;
        assert(tokens_view(tokens@) + scan(s, i as int) =~= tv0 + scan(s, (i - 1) as int));
    }
    tokens.push(TokenKind::Eof);
    assert(tokens_view(tokens@) =~= tokens_view(tokens@.drop_last()).push(TokenV::Eof));
    tokens
}

/// The tokens of `input`, ending with `Eof`.
pub fn tokenize(input: &str) -> (tokens: Vec<TokenKind>)
    ensures
        tokens_view(tokens@) == spec_tokenize(input@),
{
    let chars = chars_of(input);
    tokenize_chars(&chars)
}

} // verus!
