//! Properties of the tokenizer and of the expression parser: which token each
//! character gives, and which tree each operator builds.
use vstd::prelude::*;
use crate::text::{alphanumeric, char_is_whitespace, is_ascii_char, is_ascii_letter, is_digit};
use crate::token::{OpTok, TokenV, run_end, scan, is_num_char, is_id_char};
use crate::ast::{BinOp, Expr};
use crate::parser::{
    ExprErrV, PRes, peek, zero_text, sp_add_rest, sp_expr, sp_mul_div, sp_mul_rest, sp_power,
    sp_primary, sp_unary,
};

verus! {

// ------------------------------------------------------------ tokens

/// Whitespace separates tokens and gives none.
pub proof fn law_scan_whitespace(s: Seq<char>, i: int)
    requires
        0 <= i < s.len(),
        char_is_whitespace(s[i]),
    ensures
        scan(s, i) == scan(s, i + 1),
{
}

/// The token of a punctuation character, with the character after it.
pub open spec fn punct_token(c: char, next: Option<char>) -> Option<(TokenV, int)> {
    if c == '+' {
        Some((TokenV::Op(OpTok::Plus), 1))
    } else if c == '-' {
        Some((TokenV::Op(OpTok::Minus), 1))
    } else if c == '/' {
        Some((TokenV::Op(OpTok::Slash), 1))
    } else if c == '*' {
        if next == Some('*') { Some((TokenV::Op(OpTok::Pow), 2)) } else { Some((TokenV::Op(OpTok::Star), 1)) }
    } else if c == '>' {
        if next == Some('=') { Some((TokenV::Op(OpTok::Ge), 2)) } else { Some((TokenV::Op(OpTok::Gt), 1)) }
    } else if c == '<' {
        if next == Some('=') { Some((TokenV::Op(OpTok::Le), 2)) } else { Some((TokenV::Op(OpTok::Lt), 1)) }
    } else if c == '=' {
        if next == Some('=') { Some((TokenV::Op(OpTok::EqEq), 2)) } else { None }
    } else if c == '(' {
        Some((TokenV::LParen, 1))
    } else if c == ')' {
        Some((TokenV::RParen, 1))
    } else if c == ',' {
        Some((TokenV::Comma, 1))
    } else if c == ':' {
        Some((TokenV::Colon, 1))
    } else {
        None
    }
}

/// The character after position `i`, if any.
pub open spec fn next_char(s: Seq<char>, i: int) -> Option<char> {
    if i + 1 < s.len() { Some(s[i + 1]) } else { None }
}

/// Each operator and punctuation character gives exactly one token naming it:
/// `+ - / ( ) , :` always, `* > <` unless they start `** >= <=`, which give one
/// token for both characters, as `==` does.
pub proof fn law_scan_punctuation(s: Seq<char>, i: int)
    requires
        0 <= i < s.len(),
        punct_token(s[i], next_char(s, i)) is Some,
    ensures
        ({
            let (tok, width) = punct_token(s[i], next_char(s, i))->0;
            scan(s, i) == seq![tok] + scan(s, i + width)
        }),
{
}

proof fn lemma_run_end_at(s: Seq<char>, k: int, j: int, f: spec_fn(char) -> bool)
    requires
        0 <= k <= j <= s.len(),
        forall|m: int| k <= m < j ==> f(#[trigger] s[m]),
        j == s.len() || !f(s[j]),
    ensures
        run_end(s, k, f) == j,
    decreases j - k,
{
    if k < j {
        lemma_run_end_at(s, k + 1, j, f);
    }
}

/// A number is the longest run of digits and dots that starts with a digit (or
/// with a dot before a digit); it gives one token holding that text.
pub proof fn law_scan_number(s: Seq<char>, i: int, j: int)
    requires
        0 <= i < j <= s.len(),
        is_digit(s[i]) || (s[i] == '.' && i + 1 < s.len() && is_digit(s[i + 1])),
        forall|m: int| i <= m < j ==> is_digit(#[trigger] s[m]) || s[m] == '.',
        j == s.len() || !(is_digit(s[j]) || s[j] == '.'),
    ensures
        scan(s, i) == seq![TokenV::Number(s.subrange(i, j))] + scan(s, j),
{
    lemma_run_end_at(s, i + 1, j, |c: char| is_num_char(c));
}

/// An identifier is the longest run of letters, digits and underscores that
/// starts with a letter or an underscore; it gives one token holding that text.
pub proof fn law_scan_identifier(s: Seq<char>, i: int, j: int)
    requires
        0 <= i < j <= s.len(),
        is_ascii_letter(s[i]) || s[i] == '_',
        forall|m: int| i <= m < j ==> is_ascii_letter(#[trigger] s[m]) || is_digit(s[m]) || s[m] == '_',
        j == s.len() || (is_ascii_char(s[j]) && !(is_ascii_letter(s[j]) || is_digit(s[j]) || s[j] == '_')),
    ensures
        scan(s, i) == seq![TokenV::Id(s.subrange(i, j))] + scan(s, j),
{
    assert forall|m: int| i + 1 <= m < j implies is_id_char(#[trigger] s[m]) by {
        assert(is_ascii_letter(s[m]) || is_digit(s[m]) || s[m] == '_');
    }
    if j < s.len() {
        assert(!alphanumeric(s[j]));
    }
    lemma_run_end_at(s, i + 1, j, |c: char| is_id_char(c));
}

// ------------------------------------------------------------ expressions

/// The arithmetic operation an operator token stands for: `+ - * / **`.
pub open spec fn op_meaning(o: OpTok) -> Option<BinOp> {
    match o {
        OpTok::Plus => Some(BinOp::Add),
        OpTok::Minus => Some(BinOp::Sub),
        OpTok::Star => Some(BinOp::Mul),
        OpTok::Slash => Some(BinOp::Div),
        OpTok::Pow => Some(BinOp::Pow),
        _ => None,
    }
}

/// How tightly an arithmetic operator binds: `+ -` loosest, then `* /`, then `**`.
pub open spec fn binding(o: OpTok) -> int {
    match o {
        OpTok::Plus | OpTok::Minus => 1,
        OpTok::Star | OpTok::Slash => 2,
        OpTok::Pow => 3,
        _ => 0,
    }
}

/// A parse that gave `e` and stopped at `q`.
pub open spec fn parsed(e: Expr, q: int) -> PRes<Expr> {
    Ok((e, q))
}

/// The expression of a single-token operand: a number or a variable.
pub open spec fn operand(tok: TokenV) -> Option<Expr> {
    match tok {
        TokenV::Number(n) => Some(Expr::Num(n)),
        TokenV::Id(a) => Some(Expr::Var(a)),
        _ => None,
    }
}

/// A token at which an expression ends.
pub open spec fn closes(tok: TokenV) -> bool {
    tok is Eof || tok is RParen || tok is Comma || tok is Colon
}

/// An operand token followed by a token that is neither `(` nor `**`.
proof fn lemma_operand_power(t: Seq<TokenV>, p: int)
    requires
        0 <= p,
        operand(peek(t, p)) is Some,
        !(peek(t, p + 1) is LParen),
        peek(t, p + 1) != TokenV::Op(OpTok::Pow),
    ensures
        sp_primary(t, p) == parsed(operand(peek(t, p))->0, p + 1),
        sp_unary(t, p) == sp_primary(t, p),
        sp_power(t, p) == sp_primary(t, p),
{
}

/// `x o y` for operands `x`, `y` and an arithmetic operator `o`, followed by a
/// token that ends the expression, is the operation of `o` on `x` and `y`:
/// `+` adds, `-` subtracts, `*` multiplies, `/` divides and `**` raises.
pub proof fn law_binary_operation(t: Seq<TokenV>, p: int, o: OpTok)
    requires
        0 <= p,
        operand(peek(t, p)) is Some,
        peek(t, p + 1) == TokenV::Op(o),
        op_meaning(o) is Some,
        operand(peek(t, p + 2)) is Some,
        closes(peek(t, p + 3)),
    ensures
        sp_expr(t, p) == parsed(
            Expr::Bin(op_meaning(o)->0, Box::new(operand(peek(t, p))->0), Box::new(operand(peek(t, p + 2))->0)),
            p + 3,
        ),
{
    lemma_operand_power(t, p + 2);
    let x = operand(peek(t, p))->0;
    let y = operand(peek(t, p + 2))->0;
    if o == OpTok::Pow {
        assert(sp_power(t, p) == parsed(Expr::Bin(BinOp::Pow, Box::new(x), Box::new(y)), p + 3));
        assert(sp_mul_rest(t, Expr::Bin(BinOp::Pow, Box::new(x), Box::new(y)), p + 3) == parsed(Expr::Bin(BinOp::Pow, Box::new(x), Box::new(y)), p + 3));
    } else {
        lemma_operand_power(t, p);
        if binding(o) == 2 {
            assert(sp_mul_rest(t, Expr::Bin(op_meaning(o)->0, Box::new(x), Box::new(y)), p + 3) == parsed(Expr::Bin(op_meaning(o)->0, Box::new(x), Box::new(y)), p + 3));
            assert(sp_mul_rest(t, x, p + 1) == sp_mul_rest(t, Expr::Bin(op_meaning(o)->0, Box::new(x), Box::new(y)), p + 3));
        } else {
            assert(sp_mul_rest(t, y, p + 3) == parsed(y, p + 3));
            assert(sp_mul_div(t, p + 2) == parsed(y, p + 3));
            assert(sp_add_rest(t, Expr::Bin(op_meaning(o)->0, Box::new(x), Box::new(y)), p + 3) == parsed(Expr::Bin(op_meaning(o)->0, Box::new(x), Box::new(y)), p + 3));
        }
    }
}

/// Whether `x o1 y o2 z` groups as `x o1 (y o2 z)`: when `o2` binds tighter
/// than `o1`, or both are `**`, which groups to the right. Otherwise it groups
/// as `(x o1 y) o2 z`: operators that bind equally group to the left.
pub open spec fn groups_right(o1: OpTok, o2: OpTok) -> bool {
    binding(o1) < binding(o2) || (o1 == OpTok::Pow && o2 == OpTok::Pow)
}

/// `x o1 y o2 z` for operands `x`, `y`, `z` and arithmetic operators `o1`, `o2`,
/// followed by a token that ends the expression: `**` binds tighter than `*`
/// and `/`, which bind tighter than `+` and `-`; `**` groups to the right and
/// the others to the left.
pub proof fn law_precedence(t: Seq<TokenV>, p: int, o1: OpTok, o2: OpTok)
    requires
        0 <= p,
        operand(peek(t, p)) is Some,
        peek(t, p + 1) == TokenV::Op(o1),
        op_meaning(o1) is Some,
        operand(peek(t, p + 2)) is Some,
        peek(t, p + 3) == TokenV::Op(o2),
        op_meaning(o2) is Some,
        operand(peek(t, p + 4)) is Some,
        closes(peek(t, p + 5)),
    ensures
        ({
            let x = operand(peek(t, p))->0;
            let y = operand(peek(t, p + 2))->0;
            let z = operand(peek(t, p + 4))->0;
            let m1 = op_meaning(o1)->0;
            let m2 = op_meaning(o2)->0;
            sp_expr(t, p) == parsed(
                if groups_right(o1, o2) {
                    Expr::Bin(m1, Box::new(x), Box::new(Expr::Bin(m2, Box::new(y), Box::new(z))))
                } else {
                    Expr::Bin(m2, Box::new(Expr::Bin(m1, Box::new(x), Box::new(y))), Box::new(z))
                },
                p + 5,
            )
        }),
{
    let x = operand(peek(t, p))->0;
    let y = operand(peek(t, p + 2))->0;
    let z = operand(peek(t, p + 4))->0;
    let m1 = op_meaning(o1)->0;
    let m2 = op_meaning(o2)->0;
    let xy = Expr::Bin(m1, Box::new(x), Box::new(y));
    let yz = Expr::Bin(m2, Box::new(y), Box::new(z));
    lemma_operand_power(t, p + 4);
    let zr = parsed(z, p + 5);
    assert(sp_mul_rest(t, z, p + 5) == zr);
    assert(sp_mul_div(t, p + 4) == zr);
    if o1 == OpTok::Pow {
        if o2 == OpTok::Pow {
            assert(sp_power(t, p + 2) == parsed(yz, p + 5));
            let e = Expr::Bin(m1, Box::new(x), Box::new(yz));
            assert(sp_power(t, p) == parsed(e, p + 5));
            assert(sp_mul_rest(t, e, p + 5) == parsed(e, p + 5));
            assert(sp_add_rest(t, e, p + 5) == parsed(e, p + 5));
        } else {
            lemma_operand_power(t, p + 2);
            assert(sp_power(t, p) == parsed(xy, p + 3));
            let e = Expr::Bin(m2, Box::new(xy), Box::new(z));
            if binding(o2) == 2 {
                assert(sp_mul_rest(t, e, p + 5) == parsed(e, p + 5));
                assert(sp_mul_rest(t, xy, p + 3) == parsed(e, p + 5));
                assert(sp_add_rest(t, e, p + 5) == parsed(e, p + 5));
            } else {
                assert(sp_mul_rest(t, xy, p + 3) == parsed(xy, p + 3));
                assert(sp_add_rest(t, e, p + 5) == parsed(e, p + 5));
            }
        }
    } else if binding(o1) == 2 {
        lemma_operand_power(t, p);
        if o2 == OpTok::Pow {
            assert(sp_power(t, p + 2) == parsed(yz, p + 5));
            let e = Expr::Bin(m1, Box::new(x), Box::new(yz));
            assert(sp_mul_rest(t, e, p + 5) == parsed(e, p + 5));
            assert(sp_mul_rest(t, x, p + 1) == parsed(e, p + 5));
            assert(sp_add_rest(t, e, p + 5) == parsed(e, p + 5));
        } else {
            lemma_operand_power(t, p + 2);
            let e = Expr::Bin(m2, Box::new(xy), Box::new(z));
            if binding(o2) == 2 {
                assert(sp_mul_rest(t, e, p + 5) == parsed(e, p + 5));
                assert(sp_mul_rest(t, xy, p + 3) == parsed(e, p + 5));
                assert(sp_mul_rest(t, x, p + 1) == parsed(e, p + 5));
                assert(sp_add_rest(t, e, p + 5) == parsed(e, p + 5));
            } else {
                assert(sp_mul_rest(t, xy, p + 3) == parsed(xy, p + 3));
                assert(sp_mul_rest(t, x, p + 1) == parsed(xy, p + 3));
                assert(sp_add_rest(t, e, p + 5) == parsed(e, p + 5));
            }
        }
    } else {
        lemma_operand_power(t, p);
        assert(sp_mul_rest(t, x, p + 1) == parsed(x, p + 1));
        if o2 == OpTok::Pow {
            assert(sp_power(t, p + 2) == parsed(yz, p + 5));
            assert(sp_mul_rest(t, yz, p + 5) == parsed(yz, p + 5));
            let e = Expr::Bin(m1, Box::new(x), Box::new(yz));
            assert(sp_add_rest(t, e, p + 5) == parsed(e, p + 5));
        } else if binding(o2) == 2 {
            lemma_operand_power(t, p + 2);
            assert(sp_mul_rest(t, yz, p + 5) == parsed(yz, p + 5));
            assert(sp_mul_rest(t, y, p + 3) == parsed(yz, p + 5));
            let e = Expr::Bin(m1, Box::new(x), Box::new(yz));
            assert(sp_add_rest(t, e, p + 5) == parsed(e, p + 5));
        } else {
            lemma_operand_power(t, p + 2);
            assert(sp_mul_rest(t, y, p + 3) == parsed(y, p + 3));
            let e = Expr::Bin(m2, Box::new(xy), Box::new(z));
            assert(sp_add_rest(t, e, p + 5) == parsed(e, p + 5));
            assert(sp_add_rest(t, xy, p + 3) == parsed(e, p + 5));
        }
    }
}

/// A leading minus before an operand is read as zero minus the operand.
pub proof fn law_unary_minus(t: Seq<TokenV>, p: int)
    requires
        0 <= p,
        peek(t, p) == TokenV::Op(OpTok::Minus),
        operand(peek(t, p + 1)) is Some,
        closes(peek(t, p + 2)),
    ensures
        sp_expr(t, p) == parsed(
            Expr::Bin(BinOp::Sub, Box::new(Expr::Num(zero_text())), Box::new(operand(peek(t, p + 1))->0)),
            p + 2,
        ),
{
    lemma_operand_power(t, p + 1);
}

/// An expression in parentheses is read as that expression, marked as
/// parenthesised.
pub proof fn law_parenthesised(t: Seq<TokenV>, p: int, e: Expr, q: int)
    requires
        0 <= p,
        peek(t, p) == TokenV::LParen,
        sp_expr(t, p + 1) == parsed(e, q),
        peek(t, q) == TokenV::RParen,
        closes(peek(t, q + 1)),
    ensures
        sp_expr(t, p) == parsed(Expr::Paren(Box::new(e)), q + 1),
{
    crate::parser::lemma_expr_positions(t, p + 1);
    let r = parsed(Expr::Paren(Box::new(e)), q + 1);
    assert(sp_primary(t, p) == r);
    assert(sp_unary(t, p) == r);
    assert(sp_power(t, p) == r);
    assert(sp_mul_rest(t, Expr::Paren(Box::new(e)), q + 1) == r);
    assert(sp_mul_div(t, p) == r);
    assert(sp_add_rest(t, Expr::Paren(Box::new(e)), q + 1) == r);
}

/// A name followed by one parenthesised argument is a call of that name.
pub proof fn law_call(t: Seq<TokenV>, p: int, f: Seq<char>, a: Expr, q: int)
    requires
        0 <= p,
        peek(t, p) == TokenV::Id(f),
        peek(t, p + 1) == TokenV::LParen,
        sp_expr(t, p + 2) == parsed(a, q),
        peek(t, q) == TokenV::RParen,
        closes(peek(t, q + 1)),
    ensures
        sp_expr(t, p) == parsed(Expr::Call(f, seq![a]), q + 1),
{
    crate::parser::lemma_expr_positions(t, p + 2);
    assert(!(peek(t, p + 2) is RParen)) by {
        if peek(t, p + 2) is RParen {
            assert(sp_primary(t, p + 2) matches Err(_));
        }
    }
    let args = crate::parser::sp_args(t, seq![a], q);
    assert(args == Ok::<(Seq<Expr>, int), (ExprErrV, int)>((seq![a], q)));
    let r = parsed(Expr::Call(f, seq![a]), q + 1);
    assert(sp_primary(t, p) == r);
    assert(sp_unary(t, p) == r);
    assert(sp_power(t, p) == r);
    assert(sp_mul_rest(t, Expr::Call(f, seq![a]), q + 1) == r);
    assert(sp_mul_div(t, p) == r);
    assert(sp_add_rest(t, Expr::Call(f, seq![a]), q + 1) == r);
}

} // verus!
