//! Properties of the language that relate several functions.
use vstd::prelude::*;
use crate::analysis::{calc_vars, declared_vars, domains_map, free_vars, used_vars, strictly_sorted, lex_lt, lemma_lex_asymmetric, lemma_lex_irreflexive};
use crate::validate::{assign_issues, line_issue, line_issues, spec_issues};
use crate::statement::{
    RelOp, StmtV, is_label_forbidden, is_skipped, line_stmts, rel_op_text, spec_extract_label,
    spec_lines, spec_parse_line, spec_parse_script, spec_rel_op_from, stmts_of_lines, strip_cr,
};
use crate::strategy::{Strategy, spec_strategy_from, strategy_name};
use crate::text::{find, lemma_find_first, lemma_find_some, occurs_at, trim, trim_end, trim_start};
use crate::parser::{ExprErrV, lemma_expr_positions, peek, sp_expr};
use crate::token::{TokenV, scan, spec_tokenize, lemma_run_end_bounds, is_num_char, is_id_char, one_char_token};

verus! {

/// Reading the name of a strategy gives the strategy back.
pub proof fn law_strategy_name_roundtrip(s: Strategy)
    ensures
        spec_strategy_from(strategy_name(s)) == s,
{
    reveal_strlit("minimo_esfuerzo");
    reveal_strlit("maximo_seguridad");
    reveal_strlit("punto_medio");
    reveal_strlit("minimo_varianza");
    assert("minimo_esfuerzo"@[0] != "punto_medio"@[0]);
    assert("maximo_seguridad"@[1] != "minimo_esfuerzo"@[1]);
    assert("minimo_varianza"@[7] != "minimo_esfuerzo"@[7]);
    assert("punto_medio"@.len() != "maximo_seguridad"@.len());
    assert("punto_medio"@[0] != "minimo_varianza"@[0]);
}

/// Reading how a relational operator is written gives the operator back.
pub proof fn law_rel_op_roundtrip(op: RelOp)
    ensures
        spec_rel_op_from(rel_op_text(op)) == Some(op),
{
    let ge = rel_op_text(RelOp::Gte);
    let le = rel_op_text(RelOp::Lte);
    let gt = rel_op_text(RelOp::Gt);
    let lt = rel_op_text(RelOp::Lt);
    let eq = rel_op_text(RelOp::Eq);
    assert(ge[0] != le[0] && ge[0] != eq[0] && le[0] != eq[0]);
    assert(ge.len() != gt.len() && ge.len() != lt.len() && le.len() != gt.len() && le.len() != lt.len());
    assert(gt[0] != lt[0] && gt.len() != eq.len() && lt.len() != eq.len());
}

/// Every variable that a script reads or declares with a domain is either
/// calculated (an assignment defines it) or free, and never both.
pub proof fn law_free_and_calculated_partition(sv: Seq<StmtV>)
    ensures
        free_vars(sv).disjoint(calc_vars(sv)),
        used_vars(sv).subset_of(free_vars(sv).union(calc_vars(sv))),
        declared_vars(sv).subset_of(free_vars(sv).union(calc_vars(sv))),
{
}

proof fn lemma_scan_eof(s: Seq<char>, i: int)
    ensures
        scan(s, i).len() >= 1,
        scan(s, i).last() == TokenV::Eof,
        forall|k: int| 0 <= k < scan(s, i).len() - 1 ==> scan(s, i)[k] != TokenV::Eof,
    decreases s.len() - i,
{
    if i < 0 || i >= s.len() {
    } else if crate::text::char_is_whitespace(s[i]) {
        lemma_scan_eof(s, i + 1);
    } else if crate::token::number_starts(s, i) {
        let f = |c: char| is_num_char(c);
        lemma_run_end_bounds(s, i + 1, f);
        let j = crate::token::run_end(s, i + 1, f);
        lemma_scan_eof(s, j);
        let rest = scan(s, j);
        assert(scan(s, i) == seq![TokenV::Number(s.subrange(i, j))] + rest);
        assert forall|k: int| 0 <= k < scan(s, i).len() - 1 implies scan(s, i)[k] != TokenV::Eof by {
            if k > 0 {
                assert(scan(s, i)[k] == rest[k - 1]);
            }
        }
    } else if crate::token::is_id_start(s[i]) {
        let f = |c: char| is_id_char(c);
        lemma_run_end_bounds(s, i + 1, f);
        let j = crate::token::run_end(s, i + 1, f);
        lemma_scan_eof(s, j);
        let rest = scan(s, j);
        assert(scan(s, i) == seq![TokenV::Id(s.subrange(i, j))] + rest);
        assert forall|k: int| 0 <= k < scan(s, i).len() - 1 implies scan(s, i)[k] != TokenV::Eof by {
            if k > 0 {
                assert(scan(s, i)[k] == rest[k - 1]);
            }
        }
    } else if i + 1 < s.len() && crate::token::two_char_op(s[i], s[i + 1]) is Some {
        lemma_scan_eof(s, i + 2);
        let rest = scan(s, i + 2);
        assert forall|k: int| 0 <= k < scan(s, i).len() - 1 implies scan(s, i)[k] != TokenV::Eof by {
            if k > 0 {
                assert(scan(s, i)[k] == rest[k - 1]);
            }
        }
    } else if one_char_token(s[i]) is Some {
        lemma_scan_eof(s, i + 1);
        let rest = scan(s, i + 1);
        assert forall|k: int| 0 <= k < scan(s, i).len() - 1 implies scan(s, i)[k] != TokenV::Eof by {
            if k > 0 {
                assert(scan(s, i)[k] == rest[k - 1]);
            }
        }
    } else {
        lemma_scan_eof(s, i + 1);
    }
}

/// The tokens of any input end with `Eof`, and `Eof` occurs nowhere else.
pub proof fn law_tokens_end_with_eof(s: Seq<char>)
    ensures
        spec_tokenize(s).len() >= 1,
        spec_tokenize(s).last() == TokenV::Eof,
        forall|k: int| 0 <= k < spec_tokenize(s).len() - 1 ==> spec_tokenize(s)[k] != TokenV::Eof,
{
    lemma_scan_eof(s, 0);
}

/// A parse that fails stops on the token at which the error was found, at or
/// after where it started and within the tokens, and the error names that
/// token; a parse that succeeds ends after at least one token, within the
/// tokens.
pub proof fn law_parse_stops_where_it_fails(t: Seq<TokenV>, p: int)
    requires
        0 <= p <= t.len(),
    ensures
        sp_expr(t, p) matches Err((e, q)) ==> {
            &&& p <= q <= t.len()
            &&& (e == ExprErrV::Unexpected(peek(t, q)) || e == ExprErrV::MissingParen(peek(t, q)))
        },
        sp_expr(t, p) matches Ok((_, q)) ==> p < q <= t.len(),
{
    lemma_expr_positions(t, p);
}

proof fn lemma_occurs_char(s: Seq<char>, c: char, i: int)
    ensures
        occurs_at(s, seq![c], i) <==> (0 <= i < s.len() && s[i] == c),
{
    if 0 <= i < s.len() {
        assert(s.subrange(i, i + 1) =~= seq![s[i]]);
        if occurs_at(s, seq![c], i) {
            assert(s.subrange(i, i + 1)[0] == s[i]);
        }
    }
}

proof fn lemma_stmts_cons(x: Seq<char>, ls: Seq<Seq<char>>)
    ensures
        stmts_of_lines(seq![x] + ls) == line_stmts(x) + stmts_of_lines(ls),
{
    assert((seq![x] + ls).drop_first() =~= ls);
}

proof fn lemma_empty_line()
    ensures
        line_stmts(Seq::empty()) == Seq::<StmtV>::empty(),
{
    assert(trim_start(Seq::<char>::empty()) == Seq::<char>::empty());
    assert(trim_end(Seq::<char>::empty()) == Seq::<char>::empty());
}

proof fn lemma_trim_start_push(s: Seq<char>, c: char)
    ensures
        trim_start(s.push(c)) == if trim_start(s).len() == 0 {
            trim_start(seq![c])
        } else {
            trim_start(s).push(c)
        },
    decreases s.len(),
{
    if s.len() == 0 {
        assert(s.push(c) =~= seq![c]);
    } else if crate::text::char_is_whitespace(s[0]) {
        assert(s.push(c).drop_first() =~= s.drop_first().push(c));
        lemma_trim_start_push(s.drop_first(), c);
    }
}

proof fn lemma_trim_end_push_ws(x: Seq<char>, c: char)
    requires
        crate::text::char_is_whitespace(c),
    ensures
        trim_end(x.push(c)) == trim_end(x),
{
    assert(x.push(c).drop_last() =~= x);
}

/// Dropping a carriage return at the end of a line does not change the line
/// once trimmed, since a carriage return is whitespace.
proof fn lemma_trim_strip_cr(p: Seq<char>)
    ensures
        trim(strip_cr(p)) == trim(p),
        line_stmts(strip_cr(p)) == line_stmts(p),
{
    if p.len() > 0 && p.last() == '\r' {
        let q = p.drop_last();
        assert(p =~= q.push('\r'));
        lemma_trim_start_push(q, '\r');
        if trim_start(q).len() == 0 {
            let one = seq!['\r'];
            assert(one.drop_first() =~= Seq::<char>::empty());
            assert(trim_start(Seq::<char>::empty()) == Seq::<char>::empty());
            assert(trim_start(one) == Seq::<char>::empty());
        } else {
            lemma_trim_end_push_ws(trim_start(q), '\r');
        }
    }
}

proof fn lemma_script_concat(a: Seq<char>, b: Seq<char>)
    ensures
        stmts_of_lines(spec_lines(a + seq!['\n'] + b)) == stmts_of_lines(spec_lines(a)) + stmts_of_lines(
            spec_lines(b),
        ),
    decreases a.len(),
{
    let nl = seq!['\n'];
    let c = a + nl + b;
    lemma_find_some(a, nl);
    match find(a, nl) {
        Some(i) => {
            lemma_occurs_char(a, '\n', i);
            assert(c[i] == '\n');
            lemma_occurs_char(c, '\n', i);
            assert forall|j: int| 0 <= j < i implies !occurs_at(c, nl, j) by {
                lemma_occurs_char(a, '\n', j);
                lemma_occurs_char(c, '\n', j);
                assert(c[j] == a[j]);
            }
            lemma_find_first(c, nl, i);
            let a2 = a.subrange(i + 1, a.len() as int);
            assert(c.subrange(0, i) =~= a.subrange(0, i));
            assert(c.subrange(i + 1, c.len() as int) =~= a2 + nl + b);
            lemma_script_concat(a2, b);
            let first = strip_cr(a.subrange(0, i));
            assert(spec_lines(c) == seq![first] + spec_lines(a2 + nl + b));
            assert(spec_lines(a) == seq![first] + spec_lines(a2));
            lemma_stmts_cons(first, spec_lines(a2 + nl + b));
            lemma_stmts_cons(first, spec_lines(a2));
            assert(line_stmts(first) + (stmts_of_lines(spec_lines(a2)) + stmts_of_lines(spec_lines(b)))
                =~= (line_stmts(first) + stmts_of_lines(spec_lines(a2))) + stmts_of_lines(spec_lines(b)));
        },
        None => {
            let i = a.len() as int;
            lemma_occurs_char(c, '\n', i);
            assert(c[i] == '\n');
            assert forall|j: int| 0 <= j < i implies !occurs_at(c, nl, j) by {
                lemma_occurs_char(a, '\n', j);
                lemma_occurs_char(c, '\n', j);
                assert(c[j] == a[j]);
            }
            lemma_find_first(c, nl, i);
            assert(c.subrange(0, i) =~= a);
            assert(c.subrange(i + 1, c.len() as int) =~= b);
            assert(spec_lines(c) == seq![strip_cr(a)] + spec_lines(b));
            lemma_stmts_cons(strip_cr(a), spec_lines(b));
            lemma_trim_strip_cr(a);
            if a.len() == 0 {
                assert(strip_cr(a) == a);
                assert(a =~= Seq::<char>::empty());
                lemma_empty_line();
                assert(spec_lines(a) == Seq::<Seq<char>>::empty());
                assert(stmts_of_lines(spec_lines(a)) == Seq::<StmtV>::empty());
                assert(Seq::<StmtV>::empty() + stmts_of_lines(spec_lines(b)) =~= stmts_of_lines(spec_lines(b)));
            } else {
                assert(spec_lines(a) == seq![a]);
                lemma_stmts_cons(a, Seq::empty());
                assert(stmts_of_lines(Seq::<Seq<char>>::empty()) == Seq::<StmtV>::empty());
                assert(line_stmts(a) + Seq::<StmtV>::empty() =~= line_stmts(a));
            }
        },
    }
}

/// A script is read line by line: two scripts joined by a line break give the
/// statements of the first followed by those of the second.
pub proof fn law_script_concat(a: Seq<char>, b: Seq<char>)
    ensures
        spec_parse_script(a + seq!['\n'] + b) == spec_parse_script(a) + spec_parse_script(b),
{
    lemma_script_concat(a, b);
}

/// The label of a statement, if it has one.
pub open spec fn stmt_label(st: StmtV) -> Option<Seq<char>> {
    match st {
        StmtV::Assignment { label, .. } => label,
        StmtV::Constraint { label, .. } => label,
        StmtV::Domain { .. } => None,
    }
}

/// The text of the line a statement came from.
pub open spec fn stmt_raw(st: StmtV) -> Seq<char> {
    match st {
        StmtV::Assignment { raw, .. } => raw,
        StmtV::Constraint { raw, .. } => raw,
        StmtV::Domain { raw, .. } => raw,
    }
}

/// A label is non-empty and holds no operator character.
pub open spec fn label_ok(l: Option<Seq<char>>) -> bool {
    l matches Some(t) ==> t.len() > 0 && forall|i: int| 0 <= i < t.len() ==> !is_label_forbidden(t[i])
}

proof fn lemma_line_stmt_props(line: Seq<char>)
    requires
        spec_parse_line(line) is Some,
    ensures
        label_ok(stmt_label(spec_parse_line(line)->0)),
        stmt_raw(spec_parse_line(line)->0) == line,
{
    reveal(spec_parse_line);
    let (label, rest) = spec_extract_label(line);
    assert(label_ok(label));
}

proof fn lemma_stmts_props(ls: Seq<Seq<char>>)
    ensures
        forall|k: int| 0 <= k < stmts_of_lines(ls).len() ==> {
            let st = #[trigger] stmts_of_lines(ls)[k];
            label_ok(stmt_label(st)) && !is_skipped(stmt_raw(st))
        },
    decreases ls.len(),
{
    if ls.len() > 0 {
        lemma_stmts_props(ls.drop_first());
        let t = trim(ls[0]);
        let head = line_stmts(ls[0]);
        if !is_skipped(t) && spec_parse_line(t) is Some {
            lemma_line_stmt_props(t);
        }
        let rest = stmts_of_lines(ls.drop_first());
        assert forall|k: int| 0 <= k < stmts_of_lines(ls).len() implies {
            let st = #[trigger] stmts_of_lines(ls)[k];
            label_ok(stmt_label(st)) && !is_skipped(stmt_raw(st))
        } by {
            if k >= head.len() {
                assert(stmts_of_lines(ls)[k] == rest[k - head.len()]);
            }
        }
    }
}

/// Every statement of a script comes from a line that is neither empty nor a
/// comment, and a label is never empty and never holds an operator character.
pub proof fn law_statement_lines(script: Seq<char>)
    ensures
        forall|k: int| 0 <= k < spec_parse_script(script).len() ==> {
            let st = #[trigger] spec_parse_script(script)[k];
            label_ok(stmt_label(st)) && !is_skipped(stmt_raw(st))
        },
{
    lemma_stmts_props(spec_lines(script));
}


proof fn lemma_no_line_issues(ls: Seq<Seq<char>>)
    requires
        line_issues(ls).len() == 0,
    ensures
        forall|k: int| 0 <= k < ls.len() && !is_skipped(trim(#[trigger] ls[k])) ==> spec_parse_line(trim(ls[k])) is Some,
    decreases ls.len(),
{
    if ls.len() > 0 {
        assert(line_issue(ls[0]).len() == 0);
        lemma_no_line_issues(ls.drop_first());
        assert forall|k: int| 0 <= k < ls.len() && !is_skipped(trim(#[trigger] ls[k])) implies spec_parse_line(trim(ls[k])) is Some by {
            if k > 0 {
                assert(ls[k] == ls.drop_first()[k - 1]);
            }
        }
    }
}

proof fn lemma_no_assign_issues(sv: Seq<StmtV>, d: Set<Seq<char>>)
    requires
        assign_issues(sv, d).len() == 0,
    ensures
        forall|k: int| 0 <= k < sv.len() ==> (#[trigger] sv[k] matches StmtV::Assignment { lhs, .. } ==> !d.contains(lhs)),
    decreases sv.len(),
{
    if sv.len() > 0 {
        lemma_no_assign_issues(sv.drop_first(), d);
        assert forall|k: int| 0 <= k < sv.len() implies (#[trigger] sv[k] matches StmtV::Assignment { lhs, .. } ==> !d.contains(lhs)) by {
            if k > 0 {
                assert(sv[k] == sv.drop_first()[k - 1]);
            }
        }
    }
}

/// A script that validates has a statement on every line that is neither empty
/// nor a comment, and no assignment defines a variable that a domain declares:
/// the calculated variables and the declared ones are apart.
pub proof fn law_valid_script(script: Seq<char>)
    requires
        spec_issues(script).len() == 0,
    ensures
        forall|k: int| 0 <= k < spec_lines(script).len() && !is_skipped(trim(#[trigger] spec_lines(script)[k]))
            ==> spec_parse_line(trim(spec_lines(script)[k])) is Some,
        calc_vars(spec_parse_script(script)).disjoint(domains_map(spec_parse_script(script)).dom()),
{
    let sv = spec_parse_script(script);
    let d = domains_map(sv).dom();
    assert(line_issues(spec_lines(script)).len() == 0);
    assert(assign_issues(sv, d).len() == 0);
    lemma_no_line_issues(spec_lines(script));
    lemma_no_assign_issues(sv, d);
    assert forall|n: Seq<char>| calc_vars(sv).contains(n) implies !d.contains(n) by {
        let k = choose|k: int| 0 <= k < sv.len() && (#[trigger] sv[k] matches StmtV::Assignment { lhs, .. } && lhs == n);
        assert(sv[k] matches StmtV::Assignment { lhs, .. } ==> !d.contains(lhs));
    }
}


/// Two strictly sorted sequences with the same elements are equal: the order
/// in which the free variables come out depends only on which variables are
/// free, not on where the script mentions them.
pub proof fn law_sorted_order_is_determined(a: Seq<Seq<char>>, b: Seq<Seq<char>>)
    requires
        strictly_sorted(a),
        strictly_sorted(b),
        a.to_set() == b.to_set(),
    ensures
        a == b,
    decreases a.len(),
{
    if a.len() == 0 {
        if b.len() > 0 {
            assert(b.to_set().contains(b[0]));
            assert(!a.to_set().contains(b[0]));
        }
        assert(a =~= b);
    } else if b.len() == 0 {
        assert(a.to_set().contains(a[0]));
        assert(!b.to_set().contains(a[0]));
    } else {
        assert(a.to_set().contains(a[0]));
        assert(b.to_set().contains(b[0]));
        let j = choose|j: int| 0 <= j < b.len() && b[j] == a[0];
        let k = choose|k: int| 0 <= k < a.len() && a[k] == b[0];
        if j > 0 {
            assert(lex_lt(b[0], b[j]));
            if k > 0 {
                assert(lex_lt(a[0], a[k]));
                lemma_lex_asymmetric(a[0], b[0]);
            } else {
                lemma_lex_irreflexive(a[0]);
            }
        }
        assert(a[0] == b[0]);
        let a1 = a.drop_first();
        let b1 = b.drop_first();
        assert forall|x: Seq<char>| a1.to_set().contains(x) <==> b1.to_set().contains(x) by {
            if a1.to_set().contains(x) {
                let i = choose|i: int| 0 <= i < a1.len() && a1[i] == x;
                assert(lex_lt(a[0], a[i + 1]));
                assert(a.to_set().contains(x));
                let m = choose|m: int| 0 <= m < b.len() && b[m] == x;
                if m == 0 {
                    lemma_lex_irreflexive(x);
                }
                assert(b1[m - 1] == x);
            }
            if b1.to_set().contains(x) {
                let i = choose|i: int| 0 <= i < b1.len() && b1[i] == x;
                assert(lex_lt(b[0], b[i + 1]));
                assert(b.to_set().contains(x));
                let m = choose|m: int| 0 <= m < a.len() && a[m] == x;
                if m == 0 {
                    lemma_lex_irreflexive(x);
                }
                assert(a1[m - 1] == x);
            }
        }
        assert(a1.to_set() =~= b1.to_set());
        law_sorted_order_is_determined(a1, b1);
        assert(a =~= seq![a[0]] + a1);
        assert(b =~= seq![b[0]] + b1);
    }
}


/// For each statement of a sequence of lines, the index of the line it comes from.
pub open spec fn source_lines(ls: Seq<Seq<char>>) -> Seq<int>
    decreases ls.len(),
{
    if ls.len() == 0 {
        Seq::empty()
    } else {
        let rest = source_lines(ls.drop_first()).map_values(|j: int| j + 1);
        if line_stmts(ls[0]).len() > 0 {
            seq![0int] + rest
        } else {
            rest
        }
    }
}

/// The number of lines that, trimmed, are neither empty nor a comment.
pub open spec fn kept_count(ls: Seq<Seq<char>>) -> nat
    decreases ls.len(),
{
    if ls.len() == 0 {
        0
    } else {
        (if !is_skipped(trim(ls[0])) {
            1nat
        } else {
            0nat
        }) + kept_count(ls.drop_first())
    }
}

proof fn lemma_sources(ls: Seq<Seq<char>>)
    ensures
        source_lines(ls).len() == stmts_of_lines(ls).len(),
        forall|i: int, j: int| 0 <= i < j < source_lines(ls).len() ==> source_lines(ls)[i] < source_lines(ls)[j],
        forall|k: int| 0 <= k < source_lines(ls).len() ==> {
            &&& 0 <= #[trigger] source_lines(ls)[k] < ls.len()
            &&& stmt_raw(stmts_of_lines(ls)[k]) == trim(ls[source_lines(ls)[k]])
        },
        stmts_of_lines(ls).len() <= kept_count(ls),
    decreases ls.len(),
{
    if ls.len() > 0 {
        let tail = ls.drop_first();
        lemma_sources(tail);
        let rs = source_lines(tail);
        let rest = rs.map_values(|j: int| j + 1);
        let t = trim(ls[0]);
        let head = line_stmts(ls[0]);
        let sv = stmts_of_lines(ls);
        let tv = stmts_of_lines(tail);
        assert(sv == head + tv);
        if !is_skipped(t) && spec_parse_line(t) is Some {
            lemma_line_stmt_props(t);
            assert(head.len() == 1);
            let src = seq![0int] + rest;
            assert(source_lines(ls) == src);
            assert forall|k: int| 0 <= k < src.len() implies {
                &&& 0 <= #[trigger] src[k] < ls.len()
                &&& stmt_raw(sv[k]) == trim(ls[src[k]])
            } by {
                if k > 0 {
                    assert(src[k] == rs[k - 1] + 1);
                    assert(sv[k] == tv[k - 1]);
                    assert(ls[src[k]] == tail[rs[k - 1]]);
                }
            }
            assert forall|i: int, j: int| 0 <= i < j < src.len() implies src[i] < src[j] by {
                if i > 0 {
                    assert(src[i] == rs[i - 1] + 1);
                }
                assert(src[j] == rs[j - 1] + 1);
            }
        } else {
            assert(head.len() == 0);
            assert(sv =~= tv);
            assert(source_lines(ls) == rest);
            assert forall|k: int| 0 <= k < rest.len() implies {
                &&& 0 <= #[trigger] rest[k] < ls.len()
                &&& stmt_raw(sv[k]) == trim(ls[rest[k]])
            } by {
                assert(ls[rest[k]] == tail[rs[k]]);
            }
            assert forall|i: int, j: int| 0 <= i < j < rest.len() implies rest[i] < rest[j] by {
                assert(rest[i] == rs[i] + 1);
                assert(rest[j] == rs[j] + 1);
            }
        }
    }
}

/// The statements of a script come from its lines in order, at most one per
/// line, and only from lines that are neither empty nor comments: the k-th
/// statement's text is the trimmed line `source_lines(..)[k]`, those line
/// indices increase, and there are no more statements than such lines.
pub proof fn law_statement_sources(script: Seq<char>)
    ensures
        source_lines(spec_lines(script)).len() == spec_parse_script(script).len(),
        forall|i: int, j: int| 0 <= i < j < spec_parse_script(script).len()
            ==> source_lines(spec_lines(script))[i] < source_lines(spec_lines(script))[j],
        forall|k: int| 0 <= k < spec_parse_script(script).len() ==> {
            &&& 0 <= #[trigger] source_lines(spec_lines(script))[k] < spec_lines(script).len()
            &&& stmt_raw(spec_parse_script(script)[k]) == trim(spec_lines(script)[source_lines(spec_lines(script))[k]])
        },
        spec_parse_script(script).len() <= kept_count(spec_lines(script)),
{
    lemma_sources(spec_lines(script));
}

} // verus!
