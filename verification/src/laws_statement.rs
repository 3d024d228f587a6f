//! Properties of the statement parser: how a relation, a label and a range are
//! read from a line, and which strategy a name selects.
use vstd::prelude::*;
use crate::laws_analysis::lemma_trim_is_slice;
use crate::analysis::{calc_vars, constraints_of, lex_lt};
use crate::float_lit::is_float_text;
use crate::statement::{
    RelOp, StmtV, dominio_text, has_no_rel_char, in_marker, is_identifier, is_label_forbidden,
    is_rel_char, rel_op_text, spec_assign_eq, spec_assignment, spec_extract_label, spec_parse_line,
    spec_parse_range, spec_split_relational, starts_with, try_split, pieces_trimmed,
};
use crate::parser::spec_parse_dsl;
use crate::text::{lowercase, alphabetic};
use crate::statement::{trim_end_commas, trim_start_alpha, spec_parse_script, spec_lines, stmts_of_lines};
use crate::strategy::{Strategy, spec_strategy_from, strategy_name};
use crate::text::{char_is_whitespace, find, lemma_find_first, lemma_find_some, occurs_at, trim, trim_end, trim_start};

verus! {

// ------------------------------------------------------------ relations

/// An occurrence of a pattern made of relational characters in `a + t + b`,
/// where `a` and `b` hold none, lies within `t`.
proof fn lemma_rel_occurrence(a: Seq<char>, t: Seq<char>, b: Seq<char>, p: Seq<char>, i: int)
    requires
        has_no_rel_char(a),
        has_no_rel_char(b),
        p.len() > 0,
        forall|k: int| 0 <= k < p.len() ==> is_rel_char(#[trigger] p[k]),
        occurs_at(a + t + b, p, i),
    ensures
        a.len() <= i,
        i + p.len() <= a.len() + t.len(),
        p == t.subrange(i - a.len(), i - a.len() + p.len()),
{
    let s = a + t + b;
    assert(s.subrange(i, i + p.len())[0] == p[0]);
    assert(s[i] == p[0]);
    if i < a.len() {
        assert(s[i] == a[i]);
    }
    let e = i + p.len() - 1;
    assert(s.subrange(i, i + p.len())[p.len() - 1] == p[p.len() - 1]);
    assert(s[e] == p[p.len() - 1]);
    if e >= a.len() + t.len() {
        assert(s[e] == b[e - a.len() - t.len()]);
    }
    assert(p =~= t.subrange(i - a.len(), i - a.len() + p.len())) by {
        assert forall|k: int| 0 <= k < p.len() implies p[k] == t[i - a.len() + k] by {
            assert(s.subrange(i, i + p.len())[k] == p[k]);
            assert(s[i + k] == t[i - a.len() + k]);
        }
    }
}

proof fn lemma_rel_pattern(op: RelOp)
    ensures
        rel_op_text(op).len() > 0,
        forall|k: int| 0 <= k < rel_op_text(op).len() ==> is_rel_char(#[trigger] rel_op_text(op)[k]),
{
}

/// An operator whose text is not part of `t` is not found in `a + t + b`.
proof fn lemma_rel_absent(a: Seq<char>, t: Seq<char>, b: Seq<char>, op: RelOp)
    requires
        has_no_rel_char(a),
        has_no_rel_char(b),
        forall|k: int| 0 <= k && k + rel_op_text(op).len() <= t.len() ==> #[trigger] t.subrange(k, k + rel_op_text(op).len()) != rel_op_text(op),
    ensures
        try_split(a + t + b, op) is None,
{
    let p = rel_op_text(op);
    lemma_rel_pattern(op);
    lemma_find_some(a + t + b, p);
    if let Some(j) = find(a + t + b, p) {
        lemma_rel_occurrence(a, t, b, p, j);
    }
}

/// A line made of a text, a relational operator and a text, where neither text
/// holds a relational character and neither is blank, is read as that
/// relation between the two texts, trimmed.
pub proof fn law_relation_split(a: Seq<char>, op: RelOp, b: Seq<char>)
    requires
        has_no_rel_char(a),
        has_no_rel_char(b),
        trim(a).len() > 0,
        trim(b).len() > 0,
    ensures
        spec_split_relational(a + rel_op_text(op) + b) == Some((trim(a), op, trim(b))),
{
    let t = rel_op_text(op);
    let s = a + t + b;
    lemma_rel_pattern(op);
    assert(s.subrange(a.len() as int, (a.len() + t.len()) as int) =~= t);
    assert forall|j: int| 0 <= j < a.len() implies !occurs_at(s, t, j) by {
        if occurs_at(s, t, j) {
            lemma_rel_occurrence(a, t, b, t, j);
        }
    }
    lemma_find_first(s, t, a.len() as int);
    assert(s.subrange(0, a.len() as int) =~= a);
    assert(s.subrange((a.len() + t.len()) as int, s.len() as int) =~= b);
    let (x0, x1) = lemma_trim_is_slice(a);
    let (y0, y1) = lemma_trim_is_slice(b);
    assert(has_no_rel_char(trim(a))) by {
        assert forall|i: int| 0 <= i < trim(a).len() implies !is_rel_char(trim(a)[i]) by {
            assert(trim(a)[i] == a[x0 + i]);
        }
    }
    assert(has_no_rel_char(trim(b))) by {
        assert forall|i: int| 0 <= i < trim(b).len() implies !is_rel_char(trim(b)[i]) by {
            assert(trim(b)[i] == b[y0 + i]);
        }
    }
    assert(try_split(s, op) == Some((trim(a), op, trim(b))));
    let ge = rel_op_text(RelOp::Gte);
    let le = rel_op_text(RelOp::Lte);
    let eq = rel_op_text(RelOp::Eq);
    let gt = rel_op_text(RelOp::Gt);
    if op != RelOp::Gte {
        assert forall|k: int| 0 <= k && k + ge.len() <= t.len() implies #[trigger] t.subrange(k, k + ge.len()) != ge by {
            assert(t.subrange(k, k + ge.len())[0] == t[k]);
            assert(t.subrange(k, k + ge.len())[1] == t[k + 1]);
        }
        lemma_rel_absent(a, t, b, RelOp::Gte);
    }
    if op != RelOp::Gte && op != RelOp::Lte {
        assert forall|k: int| 0 <= k && k + le.len() <= t.len() implies #[trigger] t.subrange(k, k + le.len()) != le by {
            assert(t.subrange(k, k + le.len())[0] == t[k]);
            assert(t.subrange(k, k + le.len())[1] == t[k + 1]);
        }
        lemma_rel_absent(a, t, b, RelOp::Lte);
    }
    if op == RelOp::Gt || op == RelOp::Lt {
        assert forall|k: int| 0 <= k && k + eq.len() <= t.len() implies #[trigger] t.subrange(k, k + eq.len()) != eq by {}
        lemma_rel_absent(a, t, b, RelOp::Eq);
    }
    if op == RelOp::Lt {
        assert forall|k: int| 0 <= k && k + gt.len() <= t.len() implies #[trigger] t.subrange(k, k + gt.len()) != gt by {
            assert(t.subrange(k, k + gt.len())[0] == t[k]);
        }
        lemma_rel_absent(a, t, b, RelOp::Gt);
    }
}

/// A relation that is read from a line is really there: its operator occurs in
/// the line, with the two sides, trimmed, before and after it; neither side is
/// blank or holds a relational character.
pub proof fn law_relation_found(line: Seq<char>)
    ensures
        spec_split_relational(line) matches Some((l, op, r)) ==> exists|i: int| {
            &&& #[trigger] occurs_at(line, rel_op_text(op), i)
            &&& l == trim(line.subrange(0, i))
            &&& r == trim(line.subrange(i + rel_op_text(op).len(), line.len() as int))
            &&& l.len() > 0 && r.len() > 0 && has_no_rel_char(l) && has_no_rel_char(r)
        },
{
    if let Some((l, op, r)) = spec_split_relational(line) {
        assert(try_split(line, op) == Some((l, op, r)));
        lemma_find_some(line, rel_op_text(op));
        let i = find(line, rel_op_text(op))->0;
        assert(occurs_at(line, rel_op_text(op), i));
    }
}

// ------------------------------------------------------------ labels

proof fn lemma_occurs_one(s: Seq<char>, c: char, j: int)
    ensures
        occurs_at(s, seq![c], j) <==> (0 <= j < s.len() && s[j] == c),
{
    if 0 <= j < s.len() {
        assert(s.subrange(j, j + 1) =~= seq![s[j]]);
        if occurs_at(s, seq![c], j) {
            assert(s.subrange(j, j + 1)[0] == s[j]);
        }
    }
}

/// A line `label: rest`, whose label is not blank, holds no colon and no
/// operator character, and whose rest does not start with a second colon, has
/// that label, trimmed, and the rest, trimmed.
pub proof fn law_label_read(lab: Seq<char>, rest: Seq<char>)
    requires
        !lab.contains(':'),
        trim(lab).len() > 0,
        forall|i: int| 0 <= i < lab.len() ==> !is_label_forbidden(#[trigger] lab[i]),
        rest.len() == 0 || rest[0] != ':',
    ensures
        spec_extract_label(lab + seq![':'] + rest) == (Some(trim(lab)), trim(rest)),
{
    let line = lab + seq![':'] + rest;
    let n = lab.len() as int;
    lemma_occurs_one(line, ':', n);
    assert forall|j: int| 0 <= j < n implies !occurs_at(line, seq![':'], j) by {
        lemma_occurs_one(line, ':', j);
        assert(line[j] == lab[j]);
        if lab[j] == ':' {
            assert(lab.contains(':'));
        }
    }
    lemma_find_first(line, seq![':'], n);
    assert(line.subrange(0, n) =~= lab);
    assert(line.subrange(n + 1, line.len() as int) =~= rest);
    if n + 1 < line.len() {
        assert(line[n + 1] == rest[0]);
    }
    let (x0, x1) = lemma_trim_is_slice(lab);
    assert forall|i: int| 0 <= i < trim(lab).len() implies !is_label_forbidden(trim(lab)[i]) by {
        assert(trim(lab)[i] == lab[x0 + i]);
    }
}

/// A label that is read comes from the text before the first colon of the
/// line; the rest is the text after it. A line without a label is kept whole.
pub proof fn law_label_found(line: Seq<char>)
    ensures
        spec_extract_label(line) matches (Some(l), r) ==> exists|i: int| {
            &&& 0 <= i < line.len() && #[trigger] line[i] == ':'
            &&& !line.subrange(0, i).contains(':')
            &&& l == trim(line.subrange(0, i))
            &&& r == trim(line.subrange(i + 1, line.len() as int))
        },
        spec_extract_label(line) matches (None, r) ==> r == line,
{
    if let Some(i) = find(line, seq![':']) {
        lemma_find_some(line, seq![':']);
        lemma_occurs_one(line, ':', i);
        if line.subrange(0, i).contains(':') {
            let j = choose|j: int| 0 <= j < i && line.subrange(0, i)[j] == ':';
            lemma_occurs_one(line, ':', j);
        }
    }
}

// ------------------------------------------------------------ ranges

proof fn lemma_trim_unchanged(x: Seq<char>)
    requires
        x.len() > 0,
        !char_is_whitespace(x[0]),
        !char_is_whitespace(x.last()),
    ensures
        trim(x) == x,
{
    assert(trim_start(x) == x);
}

/// `[lo,hi]`, for literals `lo` and `hi` without whitespace and with no comma
/// in `lo`, is the range with those bounds.
pub proof fn law_range_read(lo: Seq<char>, hi: Seq<char>)
    requires
        lo.len() > 0,
        hi.len() > 0,
        forall|i: int| 0 <= i < lo.len() ==> !char_is_whitespace(#[trigger] lo[i]),
        forall|i: int| 0 <= i < hi.len() ==> !char_is_whitespace(#[trigger] hi[i]),
        !lo.contains(','),
        is_float_text(lo),
        is_float_text(hi),
    ensures
        spec_parse_range(seq!['['] + lo + seq![','] + hi + seq![']']) == Some((lo, hi)),
{
    let s = seq!['['] + lo + seq![','] + hi + seq![']'];
    assert(s[0] == '[');
    assert(s.last() == ']');
    lemma_trim_unchanged(s);
    let inner = lo + seq![','] + hi;
    assert(s.subrange(1, s.len() - 1) =~= inner);
    assert(inner[0] == lo[0]);
    assert(inner.last() == hi.last());
    lemma_trim_unchanged(inner);
    let n = lo.len() as int;
    lemma_occurs_one(inner, ',', n);
    assert forall|j: int| 0 <= j < n implies !occurs_at(inner, seq![','], j) by {
        lemma_occurs_one(inner, ',', j);
        assert(inner[j] == lo[j]);
        if lo[j] == ',' {
            assert(lo.contains(','));
        }
    }
    lemma_find_first(inner, seq![','], n);
    assert(inner.subrange(0, n) =~= lo);
    assert(inner.subrange(n + 1, inner.len() as int) =~= hi);
    lemma_trim_unchanged(lo);
    lemma_trim_unchanged(hi);
}

/// The bounds of a range that is read are literals that `f64::from_str` accepts.
pub proof fn law_range_bounds_are_literals(s: Seq<char>)
    ensures
        spec_parse_range(s) matches Some((lo, hi)) ==> is_float_text(lo) && is_float_text(hi),
{
}

// ------------------------------------------------------------ strategies

/// A text that names no strategy selects the midpoint strategy.
pub proof fn law_unknown_strategy(s: Seq<char>)
    requires
        forall|st: Strategy| s != #[trigger] strategy_name(st),
    ensures
        spec_strategy_from(s) == Strategy::PuntoMedio,
{
    assert(s != strategy_name(Strategy::MinimoEsfuerzo));
    assert(s != strategy_name(Strategy::MaximoSeguridad));
    assert(s != strategy_name(Strategy::MinimoVarianza));
}

// ------------------------------------------------------------ statements

/// The calculated variables are exactly the names that assignments define.
pub proof fn law_calculated_are_assigned(sv: Seq<StmtV>, n: Seq<char>)
    ensures
        calc_vars(sv).contains(n) <==> exists|k: int|
            0 <= k < sv.len() && (#[trigger] sv[k] matches StmtV::Assignment { lhs, .. } && lhs == n),
{
}

proof fn lemma_constraints_filter(sv: Seq<StmtV>, f: spec_fn(StmtV) -> bool)
    requires
        forall|st: StmtV| #[trigger] f(st) == (st is Constraint),
    ensures
        constraints_of(sv) == sv.filter(f),
    decreases sv.len(),
{
    reveal_with_fuel(Seq::filter, 2);
    if sv.len() > 0 {
        lemma_constraints_filter(sv.drop_last(), f);
        assert(f(sv.last()) == (sv.last() is Constraint));
    }
}

/// The constraints of a script are its constraint statements, in order: the
/// statements that are constraints, and no others.
pub proof fn law_constraints_in_order(sv: Seq<StmtV>)
    ensures
        constraints_of(sv) == sv.filter(|st: StmtV| st is Constraint),
{
    lemma_constraints_filter(sv, |st: StmtV| st is Constraint);
}

// ------------------------------------------------------------ lines

proof fn lemma_absent_pattern(s: Seq<char>, p: Seq<char>, k: int)
    requires
        0 <= k < p.len(),
        !s.contains(p[k]),
    ensures
        find(s, p) is None,
{
    lemma_find_some(s, p);
    if let Some(j) = find(s, p) {
        assert(s.subrange(j, j + p.len())[k] == p[k]);
        assert(s[j + k] == p[k]);
    }
}

proof fn lemma_no_relation(x: Seq<char>)
    requires
        has_no_rel_char(x),
    ensures
        spec_split_relational(x) is None,
{
    assert forall|op: RelOp| #[trigger] try_split(x, op) is None by {
        let t = rel_op_text(op);
        assert(is_rel_char(t[0]));
        if x.contains(t[0]) {
            let j = choose|j: int| 0 <= j < x.len() && x[j] == t[0];
            assert(!is_rel_char(x[j]));
        }
        lemma_absent_pattern(x, t, 0);
    }
}

/// A line that is neither a domain declaration nor labelled: it does not start
/// with `dominio` in any case, and holds no `[` and no `:`.
pub open spec fn plain_line(line: Seq<char>) -> bool {
    &&& !starts_with(lowercase(line), dominio_text())
    &&& !line.contains('[')
    &&& !line.contains(':')
}

proof fn lemma_plain_line(line: Seq<char>)
    requires
        plain_line(line),
    ensures
        spec_extract_label(line) == (None::<Seq<char>>, line),
        find(line, in_marker()) is None,
{
    lemma_absent_pattern(line, seq![':'], 0);
    lemma_absent_pattern(line, in_marker(), 4);
}

/// `name = expr`: a line whose first `=` follows a name and precedes an
/// expression without relational characters is the assignment of that
/// expression to that name.
pub proof fn law_assignment_line(a: Seq<char>, b: Seq<char>)
    requires
        plain_line(a + seq!['='] + b),
        is_identifier(trim(a)),
        has_no_rel_char(a),
        !a.contains('!'),
        has_no_rel_char(b),
        spec_parse_dsl(trim(b)) is Ok,
    ensures
        spec_parse_line(a + seq!['='] + b) == Some(StmtV::Assignment {
            lhs: trim(a),
            expr: spec_parse_dsl(trim(b))->Ok_0,
            raw: a + seq!['='] + b,
            label: None,
        }),
{
    let line = a + seq!['='] + b;
    let n = a.len() as int;
    lemma_plain_line(line);
    lemma_occurs_one(line, '=', n);
    assert forall|j: int| 0 <= j < n implies !occurs_at(line, seq!['='], j) by {
        lemma_occurs_one(line, '=', j);
        assert(line[j] == a[j]);
    }
    lemma_find_first(line, seq!['='], n);
    if n > 0 {
        assert(line[n - 1] == a[n - 1]);
        assert(a[n - 1] != '!') by {
            if a[n - 1] == '!' {
                assert(a.contains('!'));
            }
        }
    }
    if n + 1 < line.len() {
        assert(line[n + 1] == b[0]);
    }
    assert(spec_assign_eq(line) == Some(n));
    assert(line.subrange(0, n) =~= a);
    assert(line.subrange(n + 1, line.len() as int) =~= b);
    let (y0, y1) = lemma_trim_is_slice(b);
    assert forall|i: int| 0 <= i < trim(b).len() implies !is_rel_char(trim(b)[i]) by {
        assert(trim(b)[i] == b[y0 + i]);
    }
    lemma_no_relation(trim(b));
    reveal(spec_parse_line);
}

/// `left OP right`: a line made of two expressions around a relational operator,
/// with no other relational character, is the constraint that relates them.
pub proof fn law_constraint_line(a: Seq<char>, op: RelOp, b: Seq<char>)
    requires
        plain_line(a + rel_op_text(op) + b),
        has_no_rel_char(a),
        has_no_rel_char(b),
        trim(a).len() > 0,
        trim(b).len() > 0,
        spec_parse_dsl(trim(a)) is Ok,
        spec_parse_dsl(trim(b)) is Ok,
    ensures
        spec_parse_line(a + rel_op_text(op) + b) == Some(StmtV::Constraint {
            left: spec_parse_dsl(trim(a))->Ok_0,
            op,
            right: spec_parse_dsl(trim(b))->Ok_0,
            raw: a + rel_op_text(op) + b,
            label: None,
        }),
{
    let t = rel_op_text(op);
    let line = a + t + b;
    let n = a.len() as int;
    lemma_plain_line(line);
    law_relation_split(a, op, b);
    // no assignment: the first `=` belongs to the operator and is not a lone `=`
    assert forall|j: int| 0 <= j < n implies !occurs_at(line, seq!['='], j) by {
        lemma_occurs_one(line, '=', j);
        assert(line[j] == a[j]);
        assert(!is_rel_char(a[j]));
    }
    if op == RelOp::Gt || op == RelOp::Lt {
        assert(!line.contains('=')) by {
            if line.contains('=') {
                let j = choose|j: int| 0 <= j < line.len() && line[j] == '=';
                if j < n {
                    assert(line[j] == a[j]);
                    assert(!is_rel_char(a[j]));
                } else if j > n {
                    assert(line[j] == b[j - n - 1]);
                    assert(!is_rel_char(b[j - n - 1]));
                } else {
                    assert(line[j] == t[0]);
                }
            }
        }
        lemma_absent_pattern(line, seq!['='], 0);
    } else if op == RelOp::Eq {
        lemma_occurs_one(line, '=', n);
        lemma_find_first(line, seq!['='], n);
        assert(line[n + 1] == t[1]);
    } else {
        lemma_occurs_one(line, '=', n);
        assert(line[n] == t[0]);
        lemma_occurs_one(line, '=', n + 1);
        assert(line[n + 1] == t[1]);
        lemma_find_first(line, seq!['='], n + 1);
    }
    assert(spec_assignment(line, line, None) is None);
    reveal(spec_parse_line);
}

/// The text of a range `[lo,hi]`.
pub open spec fn range_text(lo: Seq<char>, hi: Seq<char>) -> Seq<char> {
    seq!['['] + lo + seq![','] + hi + seq![']']
}

/// Bounds that a range can hold as written: literals without whitespace, with
/// no comma in the lower one.
pub open spec fn plain_bounds(lo: Seq<char>, hi: Seq<char>) -> bool {
    &&& lo.len() > 0 && hi.len() > 0
    &&& forall|i: int| 0 <= i < lo.len() ==> !char_is_whitespace(#[trigger] lo[i])
    &&& forall|i: int| 0 <= i < hi.len() ==> !char_is_whitespace(#[trigger] hi[i])
    &&& !lo.contains(',')
    &&& is_float_text(lo) && is_float_text(hi)
}

/// `V1, V2 in [lo,hi]`: the listed variables, split at commas, get the lower
/// bound `lo` and the upper bound `hi`.
#[verifier::spinoff_prover]
#[verifier::rlimit(40)]
pub proof fn law_in_domain_line(v: Seq<char>, lo: Seq<char>, hi: Seq<char>)
    requires
        plain_bounds(lo, hi),
        !starts_with(lowercase(v + in_marker() + lo + seq![','] + hi + seq![']']), dominio_text()),
        !v.contains('['),
        !(v + lo + hi).contains(':'),
    ensures
        spec_parse_line(v + in_marker() + lo + seq![','] + hi + seq![']']) == Some(StmtV::Domain {
            variables: pieces_trimmed(trim(v), ','),
            min: lo,
            max: hi,
            raw: v + in_marker() + lo + seq![','] + hi + seq![']'],
        }),
{
    let m = in_marker();
    let line = v + m + lo + seq![','] + hi + seq![']'];
    let n = v.len() as int;
    assert(!line.contains(':')) by {
        if line.contains(':') {
            let j = choose|j: int| 0 <= j < line.len() && line[j] == ':';
            let w = v + lo + hi;
            if j < n {
                assert(line[j] == w[j]);
            } else if n + 5 <= j < n + 5 + lo.len() {
                assert(line[j] == w[j - 5]);
            } else if n + 6 + lo.len() <= j < line.len() - 1 {
                assert(line[j] == w[j - 6]);
            }
        }
    }
    lemma_absent_pattern(line, seq![':'], 0);
    assert(line.subrange(n, n + 5) =~= m);
    assert forall|j: int| 0 <= j < n implies !occurs_at(line, m, j) by {
        if occurs_at(line, m, j) {
            assert(line.subrange(j, j + 5)[4] == m[4]);
            assert(line[j + 4] == '[');
            if j + 4 < n {
                assert(line[j + 4] == v[j + 4]);
                assert(v.contains('['));
            } else {
                assert(line[j + 4] == m[j + 4 - n]);
            }
        }
    }
    lemma_find_first(line, m, n);
    assert(line.subrange(0, n) =~= v);
    assert(line.subrange(n + 4, line.len() as int) =~= range_text(lo, hi));
    assert(range_text(lo, hi)[0] == '[');
    assert(range_text(lo, hi).last() == ']');
    lemma_trim_unchanged(range_text(lo, hi));
    law_range_read(lo, hi);
    reveal(spec_parse_line);
}

proof fn lemma_trim_start_concat(v: Seq<char>, r: Seq<char>)
    requires
        trim_start(v).len() > 0,
    ensures
        trim_start(v + r) == trim_start(v) + r,
    decreases v.len(),
{
    if v.len() > 0 && char_is_whitespace(v[0]) {
        assert((v + r).drop_first() =~= v.drop_first() + r);
        lemma_trim_start_concat(v.drop_first(), r);
    } else {
        assert((v + r)[0] == v[0]);
    }
}

proof fn lemma_trim_start_idem(x: Seq<char>)
    ensures
        trim_start(trim_start(x)) == trim_start(x),
        trim_start(x).len() > 0 ==> !char_is_whitespace(trim_start(x)[0]),
    decreases x.len(),
{
    if x.len() > 0 && char_is_whitespace(x[0]) {
        lemma_trim_start_idem(x.drop_first());
    }
}

proof fn lemma_trim_end_last(y: Seq<char>)
    ensures
        trim_end(y).len() > 0 ==> !char_is_whitespace(trim_end(y).last()),
        trim_end(y).len() > 0 ==> trim_end(y)[0] == y[0],
    decreases y.len(),
{
    if y.len() > 0 && char_is_whitespace(y.last()) {
        lemma_trim_end_last(y.drop_last());
    }
}

proof fn lemma_trim_idem(x: Seq<char>)
    ensures
        trim(trim(x)) == trim(x),
        trim(trim_start(x)) == trim(x),
{
    lemma_trim_start_idem(x);
    lemma_trim_end_last(trim_start(x));
    if trim(x).len() > 0 {
        lemma_trim_unchanged(trim(x));
    }
}

proof fn lemma_strip_letters(d: Seq<char>, r: Seq<char>)
    requires
        forall|i: int| 0 <= i < d.len() ==> crate::text::is_ascii_letter(#[trigger] d[i]),
        r.len() > 0,
        r[0] == ' ',
    ensures
        trim_start_alpha(d + r) == r,
    decreases d.len(),
{
    if d.len() > 0 {
        assert((d + r)[0] == d[0]);
        assert(alphabetic(d[0]));
        assert((d + r).drop_first() =~= d.drop_first() + r);
        lemma_strip_letters(d.drop_first(), r);
    } else {
        assert(d + r =~= r);
    }
}

/// `dominio V1, V2 [lo,hi]`: the keyword, then the listed variables (after a
/// space, not ending with a comma), split at commas, get the lower bound `lo`
/// and the upper bound `hi`.
#[verifier::spinoff_prover]
#[verifier::rlimit(40)]
pub proof fn law_dominio_line(v: Seq<char>, lo: Seq<char>, hi: Seq<char>)
    requires
        plain_bounds(lo, hi),
        starts_with(lowercase(dominio_text() + v + range_text(lo, hi)), dominio_text()),
        v.len() > 0 && v[0] == ' ',
        trim(v).len() > 0,
        trim(v).last() != ',',
        !v.contains('['),
        !(v + lo + hi).contains(':'),
    ensures
        spec_parse_line(dominio_text() + v + range_text(lo, hi)) == Some(StmtV::Domain {
            variables: pieces_trimmed(trim(v), ','),
            min: lo,
            max: hi,
            raw: dominio_text() + v + range_text(lo, hi),
        }),
{
    let d = dominio_text();
    let r = range_text(lo, hi);
    let line = d + v + r;
    // no label
    assert(!line.contains(':')) by {
        if line.contains(':') {
            let j = choose|j: int| 0 <= j < line.len() && line[j] == ':';
            let w = v + lo + hi;
            let n = 7 + v.len();
            if 7 <= j < n {
                assert(line[j] == w[j - 7]);
            } else if n + 1 <= j < n + 1 + lo.len() {
                assert(line[j] == w[j - 8]);
            } else if n + 2 + lo.len() <= j < line.len() - 1 {
                assert(line[j] == w[j - 9]);
            } else if j < 7 {
                assert(line[j] == d[j]);
            }
        }
    }
    lemma_absent_pattern(line, seq![':'], 0);
    // the keyword is dropped
    assert(line =~= d + (v + r));
    lemma_strip_letters(d, v + r);
    // leading spaces are dropped, the range ends the text
    lemma_trim_idem(v);
    lemma_trim_start_idem(v);
    lemma_trim_end_last(trim_start(v));
    let w = trim_start(v);
    lemma_trim_start_concat(v, r);
    assert(r.last() == ']');
    assert((w + r).last() == ']');
    assert((w + r)[0] == w[0]);
    lemma_trim_unchanged(w + r);
    let s2 = w + r;
    // the first `[` starts the range
    let b = w.len() as int;
    let (a0, a1) = lemma_trim_start_slice_of(v);
    lemma_occurs_one(s2, '[', b);
    assert(s2[b] == r[0]);
    assert forall|j: int| 0 <= j < b implies !occurs_at(s2, seq!['['], j) by {
        lemma_occurs_one(s2, '[', j);
        assert(s2[j] == w[j]);
        assert(w[j] == v[a0 + j]);
        if v[a0 + j] == '[' {
            assert(v.contains('['));
        }
    }
    lemma_find_first(s2, seq!['['], b);
    assert(s2.subrange(0, b) =~= w);
    assert(s2.subrange(b, s2.len() as int) =~= r);
    // the variable list
    assert(trim(w) == trim(v));
    assert(trim_end_commas(trim(v)) == trim(v));
    assert(r[0] == '[');
    lemma_trim_unchanged(r);
    law_range_read(lo, hi);
    reveal(spec_parse_line);
}

proof fn lemma_trim_start_slice_of(x: Seq<char>) -> (r: (int, int))
    ensures
        0 <= r.0 <= x.len(),
        trim_start(x) == x.subrange(r.0, x.len() as int),
    decreases x.len(),
{
    if x.len() > 0 && char_is_whitespace(x[0]) {
        let (a, _) = lemma_trim_start_slice_of(x.drop_first());
        assert(x.drop_first().subrange(a, x.drop_first().len() as int) =~= x.subrange(a + 1, x.len() as int));
        (a + 1, x.len() as int)
    } else {
        assert(x.subrange(0, x.len() as int) =~= x);
        (0, x.len() as int)
    }
}

/// A statement with its label and its raw text replaced; a domain keeps no label.
pub open spec fn labelled(st: StmtV, label: Seq<char>, raw: Seq<char>) -> StmtV {
    match st {
        StmtV::Assignment { lhs, expr, .. } => StmtV::Assignment { lhs, expr, raw, label: Some(label) },
        StmtV::Constraint { left, op, right, .. } => StmtV::Constraint { left, op, right, raw, label: Some(label) },
        StmtV::Domain { variables, min, max, .. } => StmtV::Domain { variables, min, max, raw },
    }
}

/// `label: rest` reads as `rest` does on its own, with the label attached to
/// an assignment or a constraint, and the whole line as its text.
pub proof fn law_labelled_line(lab: Seq<char>, rest: Seq<char>)
    requires
        !lab.contains(':'),
        trim(lab).len() > 0,
        forall|i: int| 0 <= i < lab.len() ==> !is_label_forbidden(#[trigger] lab[i]),
        !rest.contains(':'),
    ensures
        spec_parse_line(lab + seq![':'] + rest) == (match spec_parse_line(trim(rest)) {
            Some(st) => Some(labelled(st, trim(lab), lab + seq![':'] + rest)),
            None => None::<StmtV>,
        }),
{
    if rest.len() > 0 {
        assert(rest[0] != ':') by {
            if rest[0] == ':' {
                assert(rest.contains(':'));
            }
        }
    }
    law_label_read(lab, rest);
    let t = trim(rest);
    let (a0, a1) = lemma_trim_is_slice(rest);
    assert(!t.contains(':')) by {
        if t.contains(':') {
            let j = choose|j: int| 0 <= j < t.len() && t[j] == ':';
            assert(t[j] == rest[a0 + j]);
        }
    }
    lemma_absent_pattern(t, seq![':'], 0);
    reveal(spec_parse_line);
}

// ------------------------------------------------------------ scripts

/// A script of one line (no line break) holds no statement when the line is
/// blank or, trimmed, starts with `//`; otherwise it holds the statement of
/// the trimmed line, if it is one.
pub proof fn law_one_line_script(line: Seq<char>)
    requires
        !line.contains('\n'),
    ensures
        trim(line).len() == 0 ==> spec_parse_script(line).len() == 0,
        trim(line).len() >= 2 && trim(line)[0] == '/' && trim(line)[1] == '/' ==> spec_parse_script(line).len() == 0,
        trim(line).len() > 0 && !(trim(line).len() >= 2 && trim(line)[0] == '/' && trim(line)[1] == '/')
            ==> spec_parse_script(line) == (match spec_parse_line(trim(line)) {
                Some(st) => seq![st],
                None => Seq::<StmtV>::empty(),
            }),
{
    lemma_absent_pattern(line, seq!['\n'], 0);
    if line.len() > 0 {
        assert(spec_lines(line) == seq![line]);
        assert(seq![line].drop_first() =~= Seq::<Seq<char>>::empty());
        assert(stmts_of_lines(Seq::<Seq<char>>::empty()) == Seq::<StmtV>::empty());
        assert(spec_parse_script(line) =~= crate::statement::line_stmts(line));
    } else {
        assert(trim(line).len() == 0);
    }
}

// ------------------------------------------------------------ order of names

/// Two texts agree up to position `i`, and there `a` ends before `b` does or
/// has a smaller character.
pub open spec fn first_difference(a: Seq<char>, b: Seq<char>, i: int) -> bool {
    &&& 0 <= i <= a.len() && i <= b.len()
    &&& a.subrange(0, i) == b.subrange(0, i)
    &&& (i == a.len() && i < b.len()) || (i < a.len() && i < b.len() && a[i] < b[i])
}

/// The order in which names come out is the lexicographic order of their
/// characters: `a` comes before `b` exactly when, at the first position where
/// they differ, `a` has ended or has the smaller character.
pub proof fn law_lexicographic_order(a: Seq<char>, b: Seq<char>)
    ensures
        lex_lt(a, b) <==> exists|i: int| first_difference(a, b, i),
    decreases a.len(),
{
    if a.len() == 0 {
        if lex_lt(a, b) {
            assert(a.subrange(0, 0) =~= b.subrange(0, 0));
            assert(first_difference(a, b, 0));
        }
    } else if b.len() == 0 {
    } else {
        law_lexicographic_order(a.drop_first(), b.drop_first());
        if lex_lt(a, b) {
            if a[0] < b[0] {
                assert(a.subrange(0, 0) =~= b.subrange(0, 0));
                assert(first_difference(a, b, 0));
            } else {
                let j = choose|j: int| first_difference(a.drop_first(), b.drop_first(), j);
                assert(a.subrange(0, j + 1) =~= seq![a[0]] + a.drop_first().subrange(0, j));
                assert(b.subrange(0, j + 1) =~= seq![b[0]] + b.drop_first().subrange(0, j));
                assert(first_difference(a, b, j + 1));
            }
        }
        if exists|i: int| first_difference(a, b, i) {
            let i = choose|i: int| first_difference(a, b, i);
            if i > 0 {
                assert(a.subrange(0, i)[0] == b.subrange(0, i)[0]);
                assert(a[0] == b[0]);
                assert(a.drop_first().subrange(0, i - 1) =~= a.subrange(0, i).drop_first());
                assert(b.drop_first().subrange(0, i - 1) =~= b.subrange(0, i).drop_first());
                assert(first_difference(a.drop_first(), b.drop_first(), i - 1));
            }
        }
    }
}

} // verus!
