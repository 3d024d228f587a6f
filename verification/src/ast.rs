//! Abstract syntax of arithmetic expressions.
use vstd::prelude::*;

verus! {

/// Binary arithmetic operators.
#[derive(Debug, Clone, Copy, PartialEq, Eq, Structural)]
pub enum BinOp {
    Add,
    Sub,
    Mul,
    Div,
    Pow,
}

/// An expression. A number keeps the text of its literal; its value is the
/// decimal number that the text denotes.
#[derive(Debug, PartialEq)]
pub enum AstNode {
    Number(String),
    Variable(String),
    Binary { op: BinOp, left: Box<AstNode>, right: Box<AstNode> },
    Parens(Box<AstNode>),
    Function { name: String, args: Vec<AstNode> },
}

/// The mathematical value of an expression.
pub enum Expr {
    Num(Seq<char>),
    Var(Seq<char>),
    Bin(BinOp, Box<Expr>, Box<Expr>),
    Paren(Box<Expr>),
    Call(Seq<char>, Seq<Expr>),
}

/// The value of an expression tree.
pub open spec fn ast_view(a: AstNode) -> Expr
    decreases a,
{
    match a {
        AstNode::Number(s) => Expr::Num(s@),
        AstNode::Variable(s) => Expr::Var(s@),
        AstNode::Binary { op, left, right } => Expr::Bin(
            op,
            Box::new(ast_view(*left)),
            Box::new(ast_view(*right)),
        ),
        AstNode::Parens(inner) => Expr::Paren(Box::new(ast_view(*inner))),
        AstNode::Function { name, args } => Expr::Call(name@, args_view(args@)),
    }
}

/// The values of a sequence of expression trees.
pub open spec fn args_view(s: Seq<AstNode>) -> Seq<Expr>
    decreases s,
{
    if s.len() == 0 {
        Seq::empty()
    } else {
        args_view(s.subrange(0, s.len() - 1)).push(ast_view(s[s.len() - 1]))
    }
}

impl View for AstNode {
    type V = Expr;

    open spec fn view(&self) -> Expr {
        ast_view(*self)
    }
}

pub proof fn lemma_args_view_push(s: Seq<AstNode>, a: AstNode)
    ensures
        args_view(s.push(a)) == args_view(s).push(a@),
{
    assert(s.push(a).subrange(0, s.len() as int) =~= s);
}

pub proof fn lemma_args_view_index(s: Seq<AstNode>)
    ensures
        args_view(s).len() == s.len(),
        forall|i: int| 0 <= i < s.len() ==> #[trigger] args_view(s)[i] == s[i]@,
    decreases s.len(),
{
    if s.len() > 0 {
        lemma_args_view_index(s.subrange(0, s.len() - 1));
    }
}

impl Clone for AstNode {
    /// A copy of the tree.
    fn clone(&self) -> (r: Self)
        ensures
            r@ == self@,
        decreases self,
    {
        match self {
            AstNode::Number(s) => AstNode::Number(s.clone()),
            AstNode::Variable(s) => AstNode::Variable(s.clone()),
            AstNode::Binary { op, left, right } => {
                let l = (**left).clone();
                let r = (**right).clone();
                AstNode::Binary { op: *op, left: Box::new(l), right: Box::new(r) }
            },
            AstNode::Parens(inner) => AstNode::Parens(Box::new((**inner).clone())),
            AstNode::Function { name, args } => {
                let mut copy: Vec<AstNode> = Vec::new();
                let mut i: usize = 0;
                assert(args_view(copy@) =~= args_view(args@.subrange(0, 0)));
                while i < args.len()
                    invariant
                        i <= args.len(),
                        args_view(copy@) == args_view(args@.subrange(0, i as int)),
                        *self == (AstNode::Function { name: *name, args: *args }),
                    decreases args.len() - i,
                {
                    assert(decreases_to!(*self => self->args));
                    assert(decreases_to!(*args => args@));
                    assert(decreases_to!(args@ => args@[i as int]));
                    let a = args[i].clone();
                    proof {
                        lemma_args_view_push(copy@, a);
                        lemma_args_view_push(args@.subrange(0, i as int), args@[i as int]);
                        assert(args@.subrange(0, i as int).push(args@[i as int]) =~= args@.subrange(0, i + 1));
                    }
                    copy.push(a);
                    i = i + 1;
                }
                assert(args@.subrange(0, args.len() as int) =~= args@);
                AstNode::Function { name: name.clone(), args: copy }
            },
        }
    }
}

} // verus!
