//! Properties of the analyses of a parsed script: which variables an
//! expression reads, which bounds a variable gets, and how a variable list is
//! split into names.
use vstd::prelude::*;
use crate::analysis::{
    args_vars, calc_vars, declared_vars, domains_map, expr_vars, free_vars, stmt_declared_vars,
};
use crate::ast::{BinOp, Expr};
use crate::statement::{
    StmtV, lemma_find_char, line_stmts, pieces_trimmed, spec_domain_vars_range, spec_lines,
    spec_parse_in_stmt, spec_parse_line, spec_parse_script, stmts_of_lines,
};
use crate::text::{char_is_whitespace, find, lemma_find_some, occurs_at, trim, trim_end, trim_start};

verus! {

// ------------------------------------------------------------ variables read

/// A number reads no variable; a variable reads exactly itself.
pub proof fn law_vars_of_leaves(text: Seq<char>, name: Seq<char>)
    ensures
        expr_vars(Expr::Num(text)) =~= Set::<Seq<char>>::empty(),
        expr_vars(Expr::Var(name)) =~= set![name],
{
}

/// Wrapping an expression in parentheses never changes the variables it reads.
pub proof fn law_vars_of_parens(e: Expr)
    ensures
        expr_vars(Expr::Paren(Box::new(e))) == expr_vars(e),
{
}

/// A binary operation reads the variables of both of its operands and no
/// others, whatever the operator.
pub proof fn law_vars_of_binary(op: BinOp, l: Expr, r: Expr)
    ensures
        expr_vars(Expr::Bin(op, Box::new(l), Box::new(r))) == expr_vars(l).union(expr_vars(r)),
        expr_vars(l).subset_of(expr_vars(Expr::Bin(op, Box::new(l), Box::new(r)))),
        expr_vars(r).subset_of(expr_vars(Expr::Bin(op, Box::new(l), Box::new(r)))),
{
}

proof fn lemma_args_vars(args: Seq<Expr>, v: Seq<char>)
    ensures
        args_vars(args).contains(v) <==> exists|k: int| 0 <= k < args.len() && #[trigger] expr_vars(args[k]).contains(v),
    decreases args.len(),
{
    if args.len() > 0 {
        let init = args.subrange(0, args.len() - 1);
        lemma_args_vars(init, v);
        if args_vars(args).contains(v) {
            if !expr_vars(args[args.len() - 1]).contains(v) {
                let k = choose|k: int| 0 <= k < init.len() && #[trigger] expr_vars(init[k]).contains(v);
                assert(init[k] == args[k]);
            }
        } else {
            assert forall|k: int| 0 <= k < args.len() implies !(#[trigger] expr_vars(args[k]).contains(v)) by {
                if k < args.len() - 1 {
                    assert(init[k] == args[k]);
                }
            }
        }
    }
}

/// A call reads exactly the variables that its arguments read; the name of the
/// function is no variable.
pub proof fn law_vars_of_call(f: Seq<char>, args: Seq<Expr>, v: Seq<char>)
    ensures
        expr_vars(Expr::Call(f, args)).contains(v) <==> exists|k: int|
            0 <= k < args.len() && #[trigger] expr_vars(args[k]).contains(v),
{
    lemma_args_vars(args, v);
}

/// A variable that a constraint or an assignment reads is free unless an
/// assignment defines it.
pub proof fn law_read_variables_are_free(sv: Seq<StmtV>, k: int, v: Seq<char>)
    requires
        0 <= k < sv.len(),
        match sv[k] {
            StmtV::Constraint { left, right, .. } => expr_vars(left).contains(v) || expr_vars(right).contains(v),
            StmtV::Assignment { expr, .. } => expr_vars(expr).contains(v),
            StmtV::Domain { variables, .. } => variables.contains(v),
        },
        !calc_vars(sv).contains(v),
    ensures
        free_vars(sv).contains(v),
{
    match sv[k] {
        StmtV::Domain { .. } => {
            assert(stmt_declared_vars(sv[k]).contains(v));
        },
        _ => {
            assert(crate::analysis::stmt_used_vars(sv[k]).contains(v));
        },
    }
}

// ------------------------------------------------------------ domains

/// The bounds that a domain statement gives, if it declares `v`.
pub open spec fn declares(s: StmtV, v: Seq<char>) -> bool {
    s matches StmtV::Domain { variables, .. } && variables.contains(v)
}

/// Every variable that a domain statement lists gets a domain, and the domain
/// of a variable is the bounds of the last statement whose variable list holds it.
pub proof fn law_domain_of_last_declaration(sv: Seq<StmtV>, k: int, v: Seq<char>)
    requires
        0 <= k < sv.len(),
        declares(sv[k], v),
        forall|j: int| k < j < sv.len() ==> !declares(#[trigger] sv[j], v),
    ensures
        domains_map(sv).dom().contains(v),
        sv[k] matches StmtV::Domain { min, max, .. } && domains_map(sv)[v] == (min, max),
    decreases sv.len(),
{
    let init = sv.drop_last();
    if k < sv.len() - 1 {
        assert forall|j: int| k < j < init.len() implies !declares(#[trigger] init[j], v) by {
            assert(init[j] == sv[j]);
        }
        assert(init[k] == sv[k]);
        law_domain_of_last_declaration(init, k, v);
        assert(!declares(sv[sv.len() - 1], v));
    }
}

/// Only variables that a domain statement lists get a domain.
pub proof fn law_domains_are_declared(sv: Seq<StmtV>)
    ensures
        domains_map(sv).dom() =~= declared_vars(sv),
    decreases sv.len(),
{
    if sv.len() > 0 {
        let init = sv.drop_last();
        law_domains_are_declared(init);
        assert forall|n: Seq<char>| declared_vars(sv).contains(n) <==> domains_map(sv).dom().contains(n) by {
            if declared_vars(sv).contains(n) {
                let i = choose|i: int| 0 <= i < sv.len() && #[trigger] stmt_declared_vars(sv[i]).contains(n);
                if i < sv.len() - 1 {
                    assert(init[i] == sv[i]);
                    assert(declared_vars(init).contains(n));
                }
            }
            if domains_map(sv).dom().contains(n) {
                if domains_map(init).dom().contains(n) {
                    let i = choose|i: int| 0 <= i < init.len() && #[trigger] stmt_declared_vars(init[i]).contains(n);
                    assert(init[i] == sv[i]);
                } else {
                    assert(stmt_declared_vars(sv[sv.len() - 1]).contains(n));
                }
            }
        }
    }
}

// ------------------------------------------------------------ variable lists

/// How many times `c` occurs in `s`.
pub open spec fn count_char(s: Seq<char>, c: char) -> nat
    decreases s.len(),
{
    if s.len() == 0 {
        0
    } else {
        (if s[0] == c { 1nat } else { 0nat }) + count_char(s.drop_first(), c)
    }
}

proof fn lemma_count_concat(a: Seq<char>, b: Seq<char>, c: char)
    ensures
        count_char(a + b, c) == count_char(a, c) + count_char(b, c),
    decreases a.len(),
{
    if a.len() == 0 {
        assert(a + b =~= b);
    } else {
        assert((a + b).drop_first() =~= a.drop_first() + b);
        assert((a + b)[0] == a[0]);
        lemma_count_concat(a.drop_first(), b, c);
    }
}

proof fn lemma_count_absent(a: Seq<char>, c: char)
    requires
        !a.contains(c),
    ensures
        count_char(a, c) == 0,
    decreases a.len(),
{
    if a.len() > 0 {
        assert(!a.drop_first().contains(c)) by {
            if a.drop_first().contains(c) {
                let j = choose|j: int| 0 <= j < a.drop_first().len() && a.drop_first()[j] == c;
                assert(a[j + 1] == c);
            }
        }
        assert(a[0] != c) by {
            if a[0] == c {
                assert(a.contains(c));
            }
        }
        lemma_count_absent(a.drop_first(), c);
    }
}

proof fn lemma_trim_start_slice(x: Seq<char>) -> (a: int)
    ensures
        0 <= a <= x.len(),
        trim_start(x) == x.subrange(a, x.len() as int),
    decreases x.len(),
{
    if x.len() > 0 && char_is_whitespace(x[0]) {
        let a = lemma_trim_start_slice(x.drop_first());
        assert(x.drop_first().subrange(a, x.drop_first().len() as int) =~= x.subrange(a + 1, x.len() as int));
        a + 1
    } else {
        assert(x.subrange(0, x.len() as int) =~= x);
        0
    }
}

proof fn lemma_trim_end_slice(x: Seq<char>) -> (b: int)
    ensures
        0 <= b <= x.len(),
        trim_end(x) == x.subrange(0, b),
    decreases x.len(),
{
    if x.len() > 0 && char_is_whitespace(x.last()) {
        let b = lemma_trim_end_slice(x.drop_last());
        assert(x.drop_last().subrange(0, b) =~= x.subrange(0, b));
        b
    } else {
        assert(x.subrange(0, x.len() as int) =~= x);
        x.len() as int
    }
}

/// Trimming a text gives a slice of it.
pub proof fn lemma_trim_is_slice(x: Seq<char>) -> (r: (int, int))
    ensures
        0 <= r.0 <= r.1 <= x.len(),
        trim(x) == x.subrange(r.0, r.1),
{
    let a = lemma_trim_start_slice(x);
    let y = trim_start(x);
    let b = lemma_trim_end_slice(y);
    assert(y.subrange(0, b) =~= x.subrange(a, a + b));
    (a, a + b)
}

/// Trimming keeps only characters of the text.
proof fn lemma_trim_keeps_out(x: Seq<char>, c: char)
    requires
        !x.contains(c),
    ensures
        !trim(x).contains(c),
{
    let a = lemma_trim_start_slice(x);
    let y = trim_start(x);
    let b = lemma_trim_end_slice(y);
    if trim(x).contains(c) {
        let j = choose|j: int| 0 <= j < trim(x).len() && trim(x)[j] == c;
        assert(trim(x)[j] == y[j]);
        assert(y[j] == x[a + j]);
    }
}

proof fn lemma_first_char(s: Seq<char>, c: char, i: int)
    requires
        find(s, seq![c]) == Some(i),
    ensures
        0 <= i < s.len(),
        s[i] == c,
        !s.subrange(0, i).contains(c),
{
    lemma_find_some(s, seq![c]);
    lemma_find_char(s, c);
    if s.subrange(0, i).contains(c) {
        let j = choose|j: int| 0 <= j < i && s.subrange(0, i)[j] == c;
        assert(s.subrange(j, j + 1) =~= seq![c]);
        assert(occurs_at(s, seq![c], j));
    }
}

proof fn lemma_no_char(s: Seq<char>, c: char)
    requires
        find(s, seq![c]) is None,
    ensures
        !s.contains(c),
{
    lemma_find_some(s, seq![c]);
    if s.contains(c) {
        let j = choose|j: int| 0 <= j < s.len() && s[j] == c;
        assert(s.subrange(j, j + 1) =~= seq![c]);
        assert(occurs_at(s, seq![c], j));
    }
}

/// A text split at each occurrence of `c` gives one piece more than there are
/// occurrences of `c`, and no piece holds `c`: every `c` separates two pieces.
pub proof fn law_split_pieces(s: Seq<char>, c: char)
    ensures
        pieces_trimmed(s, c).len() == count_char(s, c) + 1,
        forall|k: int| 0 <= k < pieces_trimmed(s, c).len() ==> !(#[trigger] pieces_trimmed(s, c)[k]).contains(c),
    decreases s.len(),
{
    match find(s, seq![c]) {
        None => {
            lemma_no_char(s, c);
            lemma_count_absent(s, c);
            lemma_trim_keeps_out(s, c);
        },
        Some(i) => {
            lemma_first_char(s, c, i);
            let head = s.subrange(0, i);
            let tail = s.subrange(i + 1, s.len() as int);
            law_split_pieces(tail, c);
            lemma_count_absent(head, c);
            lemma_trim_keeps_out(head, c);
            assert(s =~= head + (seq![c] + tail));
            lemma_count_concat(head, seq![c] + tail, c);
            lemma_count_concat(seq![c], tail, c);
            assert(count_char(seq![c], c) == 1) by {
                assert(seq![c].drop_first() =~= Seq::<char>::empty());
                assert(count_char(Seq::<char>::empty(), c) == 0);
                assert(seq![c][0] == c);
            }
            let ps = pieces_trimmed(s, c);
            let rest = pieces_trimmed(tail, c);
            assert(ps == seq![trim(head)] + rest);
            assert forall|k: int| 0 <= k < ps.len() implies !(#[trigger] ps[k]).contains(c) by {
                if k > 0 {
                    assert(ps[k] == rest[k - 1]);
                }
            }
        },
    }
}

/// The names of a domain statement hold no comma.
pub open spec fn names_without_comma(st: StmtV) -> bool {
    st matches StmtV::Domain { variables, .. } ==> forall|k: int|
        0 <= k < variables.len() ==> !(#[trigger] variables[k]).contains(',')
}

proof fn lemma_vars_range_names(s: Seq<char>, raw: Seq<char>)
    ensures
        spec_domain_vars_range(s, raw) matches Some(st) ==> names_without_comma(st),
{
    if let Some(b) = find(s, seq!['[']) {
        let vars_str = trim(crate::statement::trim_end_commas(trim(s.subrange(0, b))));
        law_split_pieces(vars_str, ',');
    }
}

proof fn lemma_in_stmt_names(line: Seq<char>, raw: Seq<char>)
    ensures
        spec_parse_in_stmt(line, raw) matches Some(st) ==> names_without_comma(st),
{
    if let Some(i) = find(line, crate::statement::in_marker()) {
        law_split_pieces(trim(line.subrange(0, i)), ',');
    }
}

/// The variable list of a domain declaration is split at every comma: no name
/// that a line declares holds a comma.
pub proof fn law_domain_names_are_split(line: Seq<char>)
    ensures
        spec_parse_line(line) matches Some(st) ==> names_without_comma(st),
{
    reveal(spec_parse_line);
    let (label, rest) = crate::statement::spec_extract_label(line);
    lemma_vars_range_names(trim(crate::statement::trim_start_alpha(rest)), line);
    lemma_in_stmt_names(rest, line);
}

proof fn lemma_script_names(ls: Seq<Seq<char>>)
    ensures
        forall|k: int| 0 <= k < stmts_of_lines(ls).len() ==> names_without_comma(#[trigger] stmts_of_lines(ls)[k]),
    decreases ls.len(),
{
    if ls.len() > 0 {
        lemma_script_names(ls.drop_first());
        law_domain_names_are_split(trim(ls[0]));
        let head = line_stmts(ls[0]);
        let rest = stmts_of_lines(ls.drop_first());
        assert forall|k: int| 0 <= k < stmts_of_lines(ls).len() implies names_without_comma(#[trigger] stmts_of_lines(ls)[k]) by {
            if k >= head.len() {
                assert(stmts_of_lines(ls)[k] == rest[k - head.len()]);
            }
        }
    }
}

/// No variable that a script declares with a domain holds a comma.
pub proof fn law_script_domain_names_are_split(script: Seq<char>)
    ensures
        forall|k: int| 0 <= k < spec_parse_script(script).len() ==> names_without_comma(#[trigger] spec_parse_script(script)[k]),
{
    lemma_script_names(spec_lines(script));
}

} // verus!
