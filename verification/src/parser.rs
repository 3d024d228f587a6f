//! Recursive-descent parser of arithmetic expressions.
//!
//! Grammar, from the loosest binding to the tightest:
//! `expr := add_sub`, `add_sub := mul_div (('+' | '-') mul_div)*`,
//! `mul_div := power (('*' | '/') power)*`, `power := unary ('**' power)?`,
//! `unary := '-' primary | primary`,
//! `primary := number | id | id '(' (expr (',' expr)*)? ')' | '(' expr ')'`.
//! A unary minus is read as `0 - operand`; `**` groups to the right and the
//! other operators to the left.
use vstd::prelude::*;
use crate::ast::{AstNode, BinOp, Expr, args_view, lemma_args_view_push};
use crate::token::{TokenKind, TokenV, OpTok, tokens_view, clone_token, tokenize_chars, spec_tokenize};
use crate::text::{push_char, push_all, push_str, chars_of_string, string_of_all};

verus! {

/// Why an expression could not be parsed.
#[derive(Debug, Clone, PartialEq)]
pub enum ExprError {
    /// A closing parenthesis was expected; the token found instead.
    MissingParen(TokenKind),
    /// A token that cannot start an operand.
    Unexpected(TokenKind),
}

/// The mathematical value of a parse error.
pub enum ExprErrV {
    MissingParen(TokenV),
    Unexpected(TokenV),
}

impl View for ExprError {
    type V = ExprErrV;

    open spec fn view(&self) -> ExprErrV {
        match self {
            ExprError::MissingParen(t) => ExprErrV::MissingParen(t@),
            ExprError::Unexpected(t) => ExprErrV::Unexpected(t@),
        }
    }
}

/// How an operator token is written.
pub open spec fn op_tok_text(o: OpTok) -> Seq<char> {
    match o {
        OpTok::Plus => "+"@,
        OpTok::Minus => "-"@,
        OpTok::Star => "*"@,
        OpTok::Slash => "/"@,
        OpTok::Pow => "**"@,
        OpTok::Ge => ">="@,
        OpTok::Le => "<="@,
        OpTok::EqEq => "=="@,
        OpTok::Gt => ">"@,
        OpTok::Lt => "<"@,
    }
}

/// How a token is shown in an error message: its variant, with an
/// identifier or operator in quotes and a number as it was written.
pub open spec fn token_text(t: TokenV) -> Seq<char> {
    match t {
        TokenV::Number(n) => "Number("@ + n + ")"@,
        TokenV::Id(s) => "Id(\""@ + s + "\")"@,
        TokenV::Op(o) => "Op(\""@ + op_tok_text(o) + "\")"@,
        TokenV::Comma => "Comma"@,
        TokenV::LParen => "LParen"@,
        TokenV::RParen => "RParen"@,
        TokenV::Colon => "Colon"@,
        TokenV::Eof => "Eof"@,
    }
}

/// The message of a parse error.
pub open spec fn error_message(e: ExprErrV) -> Seq<char> {
    match e {
        ExprErrV::MissingParen(t) => "Se esperaba ')', se encontró '"@ + token_text(t) + "'"@,
        ExprErrV::Unexpected(t) => "Token inesperado: "@ + token_text(t),
    }
}

fn push_op_text(out: &mut Vec<char>, o: OpTok)
    ensures
        final(out)@ == old(out)@ + op_tok_text(o),
{
    match o {
        OpTok::Plus => push_str(out, "+"),
        OpTok::Minus => push_str(out, "-"),
        OpTok::Star => push_str(out, "*"),
        OpTok::Slash => push_str(out, "/"),
        OpTok::Pow => push_str(out, "**"),
        OpTok::Ge => push_str(out, ">="),
        OpTok::Le => push_str(out, "<="),
        OpTok::EqEq => push_str(out, "=="),
        OpTok::Gt => push_str(out, ">"),
        OpTok::Lt => push_str(out, "<"),
    }
}

fn push_token_text(out: &mut Vec<char>, t: &TokenKind)
    ensures
        final(out)@ == old(out)@ + token_text(t@),
{
    let ghost start = out@;
    match t {
        TokenKind::Number(n) => {
            push_str(out, "Number(");
            push_all(out, &chars_of_string(n));
            push_str(out, ")");
            assert(out@ =~= start + ("Number("@ + n@ + ")"@));
        },
        TokenKind::Id(n) => {
            push_str(out, "Id(\"");
            push_all(out, &chars_of_string(n));
            push_str(out, "\")");
            assert(out@ =~= start + ("Id(\""@ + n@ + "\")"@));
        },
        TokenKind::Op(o) => {
            push_str(out, "Op(\"");
            push_op_text(out, *o);
            push_str(out, "\")");
            assert(out@ =~= start + ("Op(\""@ + op_tok_text(*o) + "\")"@));
        },
        TokenKind::Comma => push_str(out, "Comma"),
        TokenKind::LParen => push_str(out, "LParen"),
        TokenKind::RParen => push_str(out, "RParen"),
        TokenKind::Colon => push_str(out, "Colon"),
        TokenKind::Eof => push_str(out, "Eof"),
    }
}

impl ExprError {
    /// The message of the error: `Se esperaba ')', se encontró '<token>'` or
    /// `Token inesperado: <token>`.
    pub fn message(&self) -> (r: String)
        ensures
            r@ == error_message(self@),
    {
        let mut out: Vec<char> = Vec::new();
        match self {
            ExprError::MissingParen(t) => {
                push_str(&mut out, "Se esperaba ')', se encontró '");
                push_token_text(&mut out, t);
                push_str(&mut out, "'");
                assert(out@ =~= "Se esperaba ')', se encontró '"@ + token_text(t@) + "'"@);
            },
            ExprError::Unexpected(t) => {
                push_str(&mut out, "Token inesperado: ");
                push_token_text(&mut out, t);
                assert(out@ =~= "Token inesperado: "@ + token_text(t@));
            },
        }
        string_of_all(&out)
    }
}

/// What a parse step yields: a value and the position after it, or an error and
/// the position of the token at which it was found.
pub type PRes<T> = Result<(T, int), (ExprErrV, int)>;

/// The token at position `p`, or `Eof` past the end.
pub open spec fn peek(t: Seq<TokenV>, p: int) -> TokenV {
    if 0 <= p < t.len() {
        t[p]
    } else {
        TokenV::Eof
    }
}

/// A step that succeeded consumed at least one token and stayed within the input;
/// every successful step does (`lemma_expr_positions`), so the alternative in
/// which this fails is never taken.
pub open spec fn advances(t: Seq<TokenV>, p: int, q: int) -> bool {
    p < q <= t.len()
}

pub open spec fn stalled<T>() -> PRes<T> {
    Err((ExprErrV::Unexpected(TokenV::Eof), 0))
}

/// The text of the number that a unary minus subtracts from.
pub open spec fn zero_text() -> Seq<char> {
    seq!['0']
}

pub open spec fn sp_primary(t: Seq<TokenV>, p: int) -> PRes<Expr>
    decreases t.len() - p, 0int,
{
    match peek(t, p) {
        TokenV::Number(n) => Ok((Expr::Num(n), p + 1)),
        TokenV::Id(name) => {
            if peek(t, p + 1) is LParen {
                let r = if peek(t, p + 2) is RParen {
                    Ok((Seq::<Expr>::empty(), p + 2))
                } else {
                    match sp_expr(t, p + 2) {
                        Err(e) => Err(e),
                        Ok((a, q)) => if advances(t, p + 2, q) {
                            sp_args(t, seq![a], q)
                        } else {
                            stalled()
                        },
                    }
                };
                finish_call(t, name, r)
            } else {
                Ok((Expr::Var(name), p + 1))
            }
        },
        TokenV::LParen => match sp_expr(t, p + 1) {
            Err(e) => Err(e),
            Ok((e, q)) => if peek(t, q) is RParen {
                Ok((Expr::Paren(Box::new(e)), q + 1))
            } else {
                Err((ExprErrV::MissingParen(peek(t, q)), q))
            },
        },
        other => Err((ExprErrV::Unexpected(other), p)),
    }
}

/// A call whose arguments have been parsed must end with a closing parenthesis.
pub open spec fn finish_call(t: Seq<TokenV>, name: Seq<char>, r: PRes<Seq<Expr>>) -> PRes<Expr> {
    match r {
        Err(e) => Err(e),
        Ok((args, q)) => if peek(t, q) is RParen {
            Ok((Expr::Call(name, args), q + 1))
        } else {
            Err((ExprErrV::MissingParen(peek(t, q)), q))
        },
    }
}

/// Further arguments of a call, each after a comma, appended to `args`.
pub open spec fn sp_args(t: Seq<TokenV>, args: Seq<Expr>, q: int) -> PRes<Seq<Expr>>
    decreases t.len() - q, 0int,
{
    if peek(t, q) is Comma {
        match sp_expr(t, q + 1) {
            Err(e) => Err(e),
            Ok((a, q2)) => if advances(t, q + 1, q2) {
                sp_args(t, args.push(a), q2)
            } else {
                stalled()
            },
        }
    } else {
        Ok((args, q))
    }
}

pub open spec fn sp_unary(t: Seq<TokenV>, p: int) -> PRes<Expr>
    decreases t.len() - p, 1int,
{
    if peek(t, p) == TokenV::Op(OpTok::Minus) {
        match sp_primary(t, p + 1) {
            Err(e) => Err(e),
            Ok((o, q)) => Ok(
                (Expr::Bin(BinOp::Sub, Box::new(Expr::Num(zero_text())), Box::new(o)), q),
            ),
        }
    } else {
        sp_primary(t, p)
    }
}

pub open spec fn sp_power(t: Seq<TokenV>, p: int) -> PRes<Expr>
    decreases t.len() - p, 2int,
{
    match sp_unary(t, p) {
        Err(e) => Err(e),
        Ok((l, q)) => if peek(t, q) == TokenV::Op(OpTok::Pow) {
            if advances(t, p, q) {
                match sp_power(t, q + 1) {
                    Err(e) => Err(e),
                    Ok((r, q2)) => Ok((Expr::Bin(BinOp::Pow, Box::new(l), Box::new(r)), q2)),
                }
            } else {
                stalled()
            }
        } else {
            Ok((l, q))
        },
    }
}

/// The multiplicative operator at position `q`, if any.
pub open spec fn mul_op(t: Seq<TokenV>, q: int) -> Option<BinOp> {
    if peek(t, q) == TokenV::Op(OpTok::Star) {
        Some(BinOp::Mul)
    } else if peek(t, q) == TokenV::Op(OpTok::Slash) {
        Some(BinOp::Div)
    } else {
        None
    }
}

/// The additive operator at position `q`, if any.
pub open spec fn add_op(t: Seq<TokenV>, q: int) -> Option<BinOp> {
    if peek(t, q) == TokenV::Op(OpTok::Plus) {
        Some(BinOp::Add)
    } else if peek(t, q) == TokenV::Op(OpTok::Minus) {
        Some(BinOp::Sub)
    } else {
        None
    }
}

/// Further factors of a product, folded to the left onto `l`.
pub open spec fn sp_mul_rest(t: Seq<TokenV>, l: Expr, q: int) -> PRes<Expr>
    decreases t.len() - q, 3int,
{
    match mul_op(t, q) {
        None => Ok((l, q)),
        Some(op) => match sp_power(t, q + 1) {
            Err(e) => Err(e),
            Ok((r, q2)) => if advances(t, q + 1, q2) {
                sp_mul_rest(t, Expr::Bin(op, Box::new(l), Box::new(r)), q2)
            } else {
                stalled()
            },
        },
    }
}

pub open spec fn sp_mul_div(t: Seq<TokenV>, p: int) -> PRes<Expr>
    decreases t.len() - p, 4int,
{
    match sp_power(t, p) {
        Err(e) => Err(e),
        Ok((l, q)) => if advances(t, p, q) {
            sp_mul_rest(t, l, q)
        } else {
            stalled()
        },
    }
}

/// Further terms of a sum, folded to the left onto `l`.
pub open spec fn sp_add_rest(t: Seq<TokenV>, l: Expr, q: int) -> PRes<Expr>
    decreases t.len() - q, 5int,
{
    match add_op(t, q) {
        None => Ok((l, q)),
        Some(op) => match sp_mul_div(t, q + 1) {
            Err(e) => Err(e),
            Ok((r, q2)) => if advances(t, q + 1, q2) {
                sp_add_rest(t, Expr::Bin(op, Box::new(l), Box::new(r)), q2)
            } else {
                stalled()
            },
        },
    }
}

pub open spec fn sp_add_sub(t: Seq<TokenV>, p: int) -> PRes<Expr>
    decreases t.len() - p, 6int,
{
    match sp_mul_div(t, p) {
        Err(e) => Err(e),
        Ok((l, q)) => if advances(t, p, q) {
            sp_add_rest(t, l, q)
        } else {
            stalled()
        },
    }
}

/// The expression that starts at position `p` of `t`, and the position after it.
pub open spec fn sp_expr(t: Seq<TokenV>, p: int) -> PRes<Expr>
    decreases t.len() - p, 7int,
{
    sp_add_sub(t, p)
}

/// The expression at the start of the tokens of `s`; tokens after it are ignored.
pub open spec fn spec_parse_dsl(s: Seq<char>) -> Result<Expr, ExprErrV> {
    match sp_expr(spec_tokenize(s), 0) {
        Ok((e, _)) => Ok(e),
        Err((e, _)) => Err(e),
    }
}

/// The error of a failed step, if it failed, was found at a position `q` no
/// earlier than where the step started and, for a start within the input,
/// within the input; and it names the token at `q`.
pub open spec fn fails_at<T>(r: PRes<T>, t: Seq<TokenV>, p: int) -> bool {
    r matches Err((e, q)) ==> {
        &&& p <= q
        &&& p <= t.len() ==> q <= t.len()
        &&& (e == ExprErrV::Unexpected(peek(t, q)) || e == ExprErrV::MissingParen(peek(t, q)))
    }
}

/// A successful primary expression consumed at least one token; a failed one
/// failed at a token at or after its start.
pub proof fn lemma_primary_positions(t: Seq<TokenV>, p: int)
    ensures
        sp_primary(t, p) matches Ok((_, q)) ==> p < q <= t.len(),
        fails_at(sp_primary(t, p), t, p),
    decreases t.len() - p, 0int,
{
    match peek(t, p) {
        TokenV::Id(_) => {
            if peek(t, p + 1) is LParen && !(peek(t, p + 2) is RParen) {
                lemma_expr_positions(t, p + 2);
                if let Ok((a, q)) = sp_expr(t, p + 2) {
                    if advances(t, p + 2, q) {
                        lemma_args_positions(t, seq![a], q);
                    }
                }
            }
        },
        TokenV::LParen => {
            lemma_expr_positions(t, p + 1);
        },
        _ => {},
    }
}

pub proof fn lemma_args_positions(t: Seq<TokenV>, args: Seq<Expr>, q: int)
    requires
        q <= t.len(),
    ensures
        sp_args(t, args, q) matches Ok((_, q2)) ==> q <= q2 <= t.len(),
        fails_at(sp_args(t, args, q), t, q),
    decreases t.len() - q, 0int,
{
    if peek(t, q) is Comma {
        lemma_expr_positions(t, q + 1);
        if let Ok((a, q2)) = sp_expr(t, q + 1) {
            if advances(t, q + 1, q2) {
                lemma_args_positions(t, args.push(a), q2);
            }
        }
    }
}

pub proof fn lemma_unary_positions(t: Seq<TokenV>, p: int)
    ensures
        sp_unary(t, p) matches Ok((_, q)) ==> p < q <= t.len(),
        fails_at(sp_unary(t, p), t, p),
    decreases t.len() - p, 1int,
{
    if peek(t, p) == TokenV::Op(OpTok::Minus) {
        lemma_primary_positions(t, p + 1);
    } else {
        lemma_primary_positions(t, p);
    }
}

pub proof fn lemma_power_positions(t: Seq<TokenV>, p: int)
    ensures
        sp_power(t, p) matches Ok((_, q)) ==> p < q <= t.len(),
        fails_at(sp_power(t, p), t, p),
    decreases t.len() - p, 2int,
{
    lemma_unary_positions(t, p);
    if let Ok((_, q)) = sp_unary(t, p) {
        if peek(t, q) == TokenV::Op(OpTok::Pow) && advances(t, p, q) {
            lemma_power_positions(t, q + 1);
        }
    }
}

pub proof fn lemma_mul_rest_positions(t: Seq<TokenV>, l: Expr, q: int)
    requires
        q <= t.len(),
    ensures
        sp_mul_rest(t, l, q) matches Ok((_, q2)) ==> q <= q2 <= t.len(),
        fails_at(sp_mul_rest(t, l, q), t, q),
    decreases t.len() - q, 3int,
{
    if let Some(op) = mul_op(t, q) {
        lemma_power_positions(t, q + 1);
        if let Ok((r, q2)) = sp_power(t, q + 1) {
            if advances(t, q + 1, q2) {
                lemma_mul_rest_positions(t, Expr::Bin(op, Box::new(l), Box::new(r)), q2);
            }
        }
    }
}

pub proof fn lemma_mul_div_positions(t: Seq<TokenV>, p: int)
    ensures
        sp_mul_div(t, p) matches Ok((_, q)) ==> p < q <= t.len(),
        fails_at(sp_mul_div(t, p), t, p),
    decreases t.len() - p, 4int,
{
    lemma_power_positions(t, p);
    if let Ok((l, q)) = sp_power(t, p) {
        if advances(t, p, q) {
            lemma_mul_rest_positions(t, l, q);
        }
    }
}

pub proof fn lemma_add_rest_positions(t: Seq<TokenV>, l: Expr, q: int)
    requires
        q <= t.len(),
    ensures
        sp_add_rest(t, l, q) matches Ok((_, q2)) ==> q <= q2 <= t.len(),
        fails_at(sp_add_rest(t, l, q), t, q),
    decreases t.len() - q, 5int,
{
    if let Some(op) = add_op(t, q) {
        lemma_mul_div_positions(t, q + 1);
        if let Ok((r, q2)) = sp_mul_div(t, q + 1) {
            if advances(t, q + 1, q2) {
                lemma_add_rest_positions(t, Expr::Bin(op, Box::new(l), Box::new(r)), q2);
            }
        }
    }
}

pub proof fn lemma_add_sub_positions(t: Seq<TokenV>, p: int)
    ensures
        sp_add_sub(t, p) matches Ok((_, q)) ==> p < q <= t.len(),
        fails_at(sp_add_sub(t, p), t, p),
    decreases t.len() - p, 6int,
{
    lemma_mul_div_positions(t, p);
    if let Ok((l, q)) = sp_mul_div(t, p) {
        if advances(t, p, q) {
            lemma_add_rest_positions(t, l, q);
        }
    }
}

/// Every successful step of the parser consumes at least one token and stays
/// within the input, so the alternatives guarded by `advances` are never taken.
pub proof fn lemma_expr_positions(t: Seq<TokenV>, p: int)
    ensures
        sp_expr(t, p) matches Ok((_, q)) ==> p < q <= t.len(),
        fails_at(sp_expr(t, p), t, p),
    decreases t.len() - p, 7int,
{
    lemma_add_sub_positions(t, p);
}

/// The value of an executable parse result.
pub open spec fn pres_view(r: Result<(AstNode, usize), (ExprError, usize)>) -> PRes<Expr> {
    match r {
        Ok((a, q)) => Ok((a@, q as int)),
        Err((e, q)) => Err((e@, q as int)),
    }
}

/// The kind of a token, without its text.
#[derive(PartialEq, Eq, Structural, Clone, Copy)]
enum Kind {
    Number,
    Id,
    Op(OpTok),
    Comma,
    LParen,
    RParen,
    Colon,
    Eof,
}

spec fn kind_of(t: TokenV) -> Kind {
    match t {
        TokenV::Number(_) => Kind::Number,
        TokenV::Id(_) => Kind::Id,
        TokenV::Op(o) => Kind::Op(o),
        TokenV::Comma => Kind::Comma,
        TokenV::LParen => Kind::LParen,
        TokenV::RParen => Kind::RParen,
        TokenV::Colon => Kind::Colon,
        TokenV::Eof => Kind::Eof,
    }
}

fn peek_kind(tokens: &Vec<TokenKind>, pos: usize) -> (k: Kind)
    ensures
        k == kind_of(peek(tokens_view(tokens@), pos as int)),
{
    if pos >= tokens.len() {
        return Kind::Eof;
    }
    match &tokens[pos] {
        TokenKind::Number(_) => Kind::Number,
        TokenKind::Id(_) => Kind::Id,
        TokenKind::Op(o) => Kind::Op(*o),
        TokenKind::Comma => Kind::Comma,
        TokenKind::LParen => Kind::LParen,
        TokenKind::RParen => Kind::RParen,
        TokenKind::Colon => Kind::Colon,
        TokenKind::Eof => Kind::Eof,
    }
}

fn peek_token(tokens: &Vec<TokenKind>, pos: usize) -> (r: TokenKind)
    ensures
        r@ == peek(tokens_view(tokens@), pos as int),
{
    if pos >= tokens.len() {
        return TokenKind::Eof;
    }
    clone_token(&tokens[pos])
}

fn zero_string() -> (r: String)
    ensures
        r@ == zero_text(),
{
    let mut z = String::new();
    push_char(&mut z, '0');
    assert(z@ =~= zero_text());
    z
}

fn parse_primary(tokens: &Vec<TokenKind>, pos: usize) -> (r: Result<(AstNode, usize), (ExprError, usize)>)
    requires
        pos <= tokens.len(),
    ensures
        pres_view(r) == sp_primary(tokens_view(tokens@), pos as int),
        r matches Ok((_, q)) ==> pos < q <= tokens.len(),
    decreases tokens.len() - pos, 0int,
{
    let ghost t = tokens_view(tokens@);
    if pos >= tokens.len() {
        return Err((ExprError::Unexpected(TokenKind::Eof), pos));
    }
    match &tokens[pos] {
        TokenKind::Number(n) => Ok((AstNode::Number(n.clone()), pos + 1)),
        TokenKind::Id(name) => {
            let name = name.clone();
            if peek_kind(tokens, pos + 1) == Kind::LParen {
                let mut args: Vec<AstNode> = Vec::new();
                let mut q: usize = pos + 2;
                let ghost target: PRes<Seq<Expr>> = if peek(t, pos + 2) is RParen {
                    Ok((Seq::<Expr>::empty(), pos + 2))
                } else {
                    match sp_expr(t, pos + 2) {
                        Err(e) => Err(e),
                        Ok((a, q)) => if advances(t, pos + 2, q) {
                            sp_args(t, seq![a], q)
                        } else {
                            stalled()
                        },
                    }
                };
                assert(args_view(args@) =~= Seq::<Expr>::empty());
                if peek_kind(tokens, q) != Kind::RParen {
                    match parse_expr_at(tokens, q) {
                        Err(e) => {
                            return Err(e);
                        },
                        Ok((a, q1)) => {
                            proof {
                                lemma_args_view_push(args@, a);
                            }
                            args.push(a);
                            q = q1;
                        },
                    }
                    assert(args_view(args@) =~= seq![args@[0]@]);
                    loop
                        invariant
                            pos + 2 < q <= tokens.len(),
                            t == tokens_view(tokens@),
                            target == sp_args(t, args_view(args@), q as int),
                            peek(t, pos as int) == TokenV::Id(name@),
                            peek(t, pos + 1) is LParen,
                            !(peek(t, pos + 2) is RParen),
                            sp_primary(t, pos as int) == finish_call(t, name@, target),
                        ensures
                            target == Ok::<(Seq<Expr>, int), (ExprErrV, int)>((args_view(args@), q as int)),
                            pos + 2 < q <= tokens.len(),
                        decreases tokens.len() - q,
                    {
                        if peek_kind(tokens, q) != Kind::Comma {
                            break;
                        }
                        assert(peek(t, q as int) is Comma);
                        match parse_expr_at(tokens, q + 1) {
                            Err(e) => {
                                return Err(e);
                            },
                            Ok((a, q2)) => {
                                proof {
                                    lemma_args_view_push(args@, a);
                                }
                                args.push(a);
                                q = q2;
                            },
                        }
                    }
                }
                if peek_kind(tokens, q) == Kind::RParen {
                    Ok((AstNode::Function { name, args }, q + 1))
                } else {
                    Err((ExprError::MissingParen(peek_token(tokens, q)), q))
                }
            } else {
                Ok((AstNode::Variable(name), pos + 1))
            }
        },
        TokenKind::LParen => {
            match parse_expr_at(tokens, pos + 1) {
                Err(e) => Err(e),
                Ok((e, q)) => {
                    if peek_kind(tokens, q) == Kind::RParen {
                        Ok((AstNode::Parens(Box::new(e)), q + 1))
                    } else {
                        Err((ExprError::MissingParen(peek_token(tokens, q)), q))
                    }
                },
            }
        },
        other => Err((ExprError::Unexpected(clone_token(other)), pos)),
    }
}

fn parse_unary(tokens: &Vec<TokenKind>, pos: usize) -> (r: Result<(AstNode, usize), (ExprError, usize)>)
    requires
        pos <= tokens.len(),
    ensures
        pres_view(r) == sp_unary(tokens_view(tokens@), pos as int),
        r matches Ok((_, q)) ==> pos < q <= tokens.len(),
    decreases tokens.len() - pos, 1int,
{
    if peek_kind(tokens, pos) == Kind::Op(OpTok::Minus) {
        assert(peek(tokens_view(tokens@), pos as int) == TokenV::Op(OpTok::Minus));
        match parse_primary(tokens, pos + 1) {
            Err(e) => Err(e),
            Ok((o, q)) => {
                let zero = AstNode::Number(zero_string());
                assert(zero@ == Expr::Num(zero_text()));
                let node = AstNode::Binary { op: BinOp::Sub, left: Box::new(zero), right: Box::new(o) };
                assert(node@ == Expr::Bin(BinOp::Sub, Box::new(Expr::Num(zero_text())), Box::new(o@)));
                Ok((node, q))
            },
        }
    } else {
        parse_primary(tokens, pos)
    }
}

fn parse_power(tokens: &Vec<TokenKind>, pos: usize) -> (r: Result<(AstNode, usize), (ExprError, usize)>)
    requires
        pos <= tokens.len(),
    ensures
        pres_view(r) == sp_power(tokens_view(tokens@), pos as int),
        r matches Ok((_, q)) ==> pos < q <= tokens.len(),
    decreases tokens.len() - pos, 2int,
{
    match parse_unary(tokens, pos) {
        Err(e) => Err(e),
        Ok((l, q)) => {
            if peek_kind(tokens, q) == Kind::Op(OpTok::Pow) {
                match parse_power(tokens, q + 1) {
                    Err(e) => Err(e),
                    Ok((r, q2)) => Ok(
                        (AstNode::Binary { op: BinOp::Pow, left: Box::new(l), right: Box::new(r) }, q2),
                    ),
                }
            } else {
                Ok((l, q))
            }
        },
    }
}

fn mul_op_at(tokens: &Vec<TokenKind>, q: usize) -> (r: Option<BinOp>)
    ensures
        r == mul_op(tokens_view(tokens@), q as int),
{
    let k = peek_kind(tokens, q);
    if k == Kind::Op(OpTok::Star) {
        Some(BinOp::Mul)
    } else if k == Kind::Op(OpTok::Slash) {
        Some(BinOp::Div)
    } else {
        None
    }
}

fn add_op_at(tokens: &Vec<TokenKind>, q: usize) -> (r: Option<BinOp>)
    ensures
        r == add_op(tokens_view(tokens@), q as int),
{
    let k = peek_kind(tokens, q);
    if k == Kind::Op(OpTok::Plus) {
        Some(BinOp::Add)
    } else if k == Kind::Op(OpTok::Minus) {
        Some(BinOp::Sub)
    } else {
        None
    }
}

fn parse_mul_div(tokens: &Vec<TokenKind>, pos: usize) -> (r: Result<(AstNode, usize), (ExprError, usize)>)
    requires
        pos <= tokens.len(),
    ensures
        pres_view(r) == sp_mul_div(tokens_view(tokens@), pos as int),
        r matches Ok((_, q)) ==> pos < q <= tokens.len(),
    decreases tokens.len() - pos, 4int,
{
    let ghost t = tokens_view(tokens@);
    let (mut left, mut q) = match parse_power(tokens, pos) {
        Err(e) => {
            return Err(e);
        },
        Ok(res) => res,
    };
    loop
        invariant
            pos < q <= tokens.len(),
            t == tokens_view(tokens@),
            sp_mul_div(t, pos as int) == sp_mul_rest(t, left@, q as int),
        ensures
            pos < q <= tokens.len(),
            sp_mul_div(t, pos as int) == Ok::<(Expr, int), (ExprErrV, int)>((left@, q as int)),
        decreases tokens.len() - q,
    {
        let op = match mul_op_at(tokens, q) {
            None => {
                break;
            },
            Some(op) => op,
        };
        match parse_power(tokens, q + 1) {
            Err(e) => {
                return Err(e);
            },
            Ok((r, q2)) => {
                left = AstNode::Binary { op, left: Box::new(left), right: Box::new(r) };
                q = q2;
            },
        }
    }
    Ok((left, q))
}

fn parse_add_sub(tokens: &Vec<TokenKind>, pos: usize) -> (r: Result<(AstNode, usize), (ExprError, usize)>)
    requires
        pos <= tokens.len(),
    ensures
        pres_view(r) == sp_add_sub(tokens_view(tokens@), pos as int),
        r matches Ok((_, q)) ==> pos < q <= tokens.len(),
    decreases tokens.len() - pos, 6int,
{
    let ghost t = tokens_view(tokens@);
    let (mut left, mut q) = match parse_mul_div(tokens, pos) {
        Err(e) => {
            return Err(e);
        },
        Ok(res) => res,
    };
    loop
        invariant
            pos < q <= tokens.len(),
            t == tokens_view(tokens@),
            sp_add_sub(t, pos as int) == sp_add_rest(t, left@, q as int),
        ensures
            pos < q <= tokens.len(),
            sp_add_sub(t, pos as int) == Ok::<(Expr, int), (ExprErrV, int)>((left@, q as int)),
        decreases tokens.len() - q,
    {
        let op = match add_op_at(tokens, q) {
            None => {
                break;
            },
            Some(op) => op,
        };
        match parse_mul_div(tokens, q + 1) {
            Err(e) => {
                return Err(e);
            },
            Ok((r, q2)) => {
                left = AstNode::Binary { op, left: Box::new(left), right: Box::new(r) };
                q = q2;
            },
        }
    }
    Ok((left, q))
}

/// The expression that starts at position `pos`, and the position after it.
pub fn parse_expr_at(tokens: &Vec<TokenKind>, pos: usize) -> (r: Result<(AstNode, usize), (ExprError, usize)>)
    requires
        pos <= tokens.len(),
    ensures
        pres_view(r) == sp_expr(tokens_view(tokens@), pos as int),
        r matches Ok((_, q)) ==> pos < q <= tokens.len(),
    decreases tokens.len() - pos, 7int,
{
    parse_add_sub(tokens, pos)
}

/// A parser over a sequence of tokens, with the position of the next token.
pub struct ExprParser {
    pub tokens: Vec<TokenKind>,
    pub pos: usize,
}

impl ExprParser {
    /// A parser at the start of `tokens`.
    pub fn new(tokens: Vec<TokenKind>) -> (r: Self)
        ensures
            r.tokens@ == tokens@,
            r.pos == 0,
    {
        ExprParser { tokens, pos: 0 }
    }

    /// Parses one expression at the current position. On success the position
    /// moves past it; on failure it rests on the token at which the error was
    /// found.
    pub fn parse_expr(&mut self) -> (r: Result<AstNode, ExprError>)
        ensures
            final(self).tokens@ == old(self).tokens@,
            match sp_expr(tokens_view(old(self).tokens@), old(self).pos as int) {
                Ok((e, q)) => r matches Ok(a) && a@ == e && final(self).pos == q,
                Err((e, q)) => r matches Err(x) && x@ == e && final(self).pos == q,
            },
    {
        if self.pos > self.tokens.len() {
            proof {
                let t = tokens_view(self.tokens@);
                let p = self.pos as int;
                let past = Err::<(Expr, int), (ExprErrV, int)>((ExprErrV::Unexpected(TokenV::Eof), p));
                assert(sp_primary(t, p) == past);
                assert(sp_unary(t, p) == past);
                assert(sp_power(t, p) == past);
                assert(sp_mul_div(t, p) == past);
                assert(sp_add_sub(t, p) == past);
            }
            return Err(ExprError::Unexpected(TokenKind::Eof));
        }
        match parse_expr_at(&self.tokens, self.pos) {
            Ok((a, q)) => {
                self.pos = q;
                Ok(a)
            },
            Err((e, q)) => {
                self.pos = q;
                Err(e)
            },
        }
    }
}

/// Parses the expression at the start of `src`; tokens after it are ignored.
pub fn parse_dsl(src: &Vec<char>) -> (r: Result<AstNode, ExprError>)
    ensures
        match spec_parse_dsl(src@) {
            Ok(e) => r matches Ok(a) && a@ == e,
            Err(e) => r matches Err(x) && x@ == e,
        },
{
    let tokens = tokenize_chars(src);
    let mut parser = ExprParser::new(tokens);
    parser.parse_expr()
}

} // verus!
