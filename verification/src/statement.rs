//! The line-oriented statement language: comments, assignments, constraints,
//! domain declarations and labels.
use vstd::prelude::*;
use crate::ast::{AstNode, Expr};
use crate::parser::{parse_dsl, spec_parse_dsl};
use crate::float_lit::{is_float_text, is_float_literal};
use crate::text::{
    alphabetic, chars_of, chars_of_string, find, find_char, find_in, is_alphabetic,
    is_alphanumeric, lemma_find_some, occurs_at, slice, lowercase, string_of_all, to_lowercase,
    trim, trim_chars,
};
use crate::token::{is_id_char, is_id_start};

verus! {

/// Relational operator of a constraint.
#[derive(Debug, Clone, Copy, PartialEq, Eq, Structural)]
pub enum RelOp {
    Gte,
    Lte,
    Gt,
    Lt,
    Eq,
}

/// How an operator is written: `>=`, `<=`, `>`, `<`, `==`.
pub open spec fn rel_op_text(op: RelOp) -> Seq<char> {
    match op {
        RelOp::Gte => seq!['>', '='],
        RelOp::Lte => seq!['<', '='],
        RelOp::Gt => seq!['>'],
        RelOp::Lt => seq!['<'],
        RelOp::Eq => seq!['=', '='],
    }
}

/// The operator that `s` spells, if any.
pub open spec fn spec_rel_op_from(s: Seq<char>) -> Option<RelOp> {
    if s == rel_op_text(RelOp::Gte) {
        Some(RelOp::Gte)
    } else if s == rel_op_text(RelOp::Lte) {
        Some(RelOp::Lte)
    } else if s == rel_op_text(RelOp::Gt) {
        Some(RelOp::Gt)
    } else if s == rel_op_text(RelOp::Lt) {
        Some(RelOp::Lt)
    } else if s == rel_op_text(RelOp::Eq) {
        Some(RelOp::Eq)
    } else {
        None
    }
}

fn rel_op_chars(op: RelOp) -> (r: Vec<char>)
    ensures
        r@ == rel_op_text(op),
{
    let r = match op {
        RelOp::Gte => vec!['>', '='],
        RelOp::Lte => vec!['<', '='],
        RelOp::Gt => vec!['>'],
        RelOp::Lt => vec!['<'],
        RelOp::Eq => vec!['=', '='],
    };
    assert(r@ =~= rel_op_text(op));
    r
}

fn chars_eq(a: &Vec<char>, b: &Vec<char>) -> (r: bool)
    ensures
        r == (a@ == b@),
{
    if a.len() != b.len() {
        return false;
    }
    let mut i: usize = 0;
    while i < a.len()
        invariant
            i <= a.len() == b.len(),
            forall|k: int| 0 <= k < i ==> a@[k] == b@[k],
        decreases a.len() - i,
    {
        if a[i] != b[i] {
            return false;
        }
        i = i + 1;
    }
    assert(a@ =~= b@);
    true
}

impl RelOp {
    /// The operator that `s` spells: `>=`, `<=`, `>`, `<` or `==`.
    pub fn from_str(s: &str) -> (r: Option<RelOp>)
        ensures
            r == spec_rel_op_from(s@),
    {
        let v = chars_of(s);
        if chars_eq(&v, &rel_op_chars(RelOp::Gte)) {
            Some(RelOp::Gte)
        } else if chars_eq(&v, &rel_op_chars(RelOp::Lte)) {
            Some(RelOp::Lte)
        } else if chars_eq(&v, &rel_op_chars(RelOp::Gt)) {
            Some(RelOp::Gt)
        } else if chars_eq(&v, &rel_op_chars(RelOp::Lt)) {
            Some(RelOp::Lt)
        } else if chars_eq(&v, &rel_op_chars(RelOp::Eq)) {
            Some(RelOp::Eq)
        } else {
            None
        }
    }
}

/// A statement of the language. The bounds of a domain keep the text of
/// their literals, which `f64::from_str` accepts.
#[derive(Debug, PartialEq)]
pub enum Statement {
    Assignment { lhs: String, expr: AstNode, raw: String, label: Option<String> },
    Constraint { left: AstNode, op: RelOp, right: AstNode, raw: String, label: Option<String> },
    Domain { variables: Vec<String>, min: String, max: String, raw: String },
}

/// The mathematical value of a statement.
pub enum StmtV {
    Assignment { lhs: Seq<char>, expr: Expr, raw: Seq<char>, label: Option<Seq<char>> },
    Constraint {
        left: Expr,
        op: RelOp,
        right: Expr,
        raw: Seq<char>,
        label: Option<Seq<char>>,
    },
    Domain { variables: Seq<Seq<char>>, min: Seq<char>, max: Seq<char>, raw: Seq<char> },
}

impl Clone for Statement {
    /// A copy of the statement.
    fn clone(&self) -> (r: Self)
        ensures
            r@ == self@,
    {
        match self {
            Statement::Assignment { lhs, expr, raw, label } => Statement::Assignment {
                lhs: lhs.clone(),
                expr: expr.clone(),
                raw: raw.clone(),
                label: clone_label(label),
            },
            Statement::Constraint { left, op, right, raw, label } => Statement::Constraint {
                left: left.clone(),
                op: *op,
                right: right.clone(),
                raw: raw.clone(),
                label: clone_label(label),
            },
            Statement::Domain { variables, min, max, raw } => {
                let mut copy: Vec<String> = Vec::new();
                let mut i: usize = 0;
                while i < variables.len()
                    invariant
                        i <= variables.len(),
                        copy@ == variables@.subrange(0, i as int),
                    decreases variables.len() - i,
                {
                    copy.push(variables[i].clone());
                    i = i + 1;
                    assert(copy@ =~= variables@.subrange(0, i as int));
                }
                assert(variables@.subrange(0, variables.len() as int) =~= variables@);
                Statement::Domain { variables: copy, min: min.clone(), max: max.clone(), raw: raw.clone() }
            },
        }
    }
}

pub open spec fn opt_view(o: Option<String>) -> Option<Seq<char>> {
    match o {
        Some(s) => Some(s@),
        None => None,
    }
}

pub open spec fn strings_view(v: Seq<String>) -> Seq<Seq<char>> {
    v.map_values(|s: String| s@)
}

impl View for Statement {
    type V = StmtV;

    open spec fn view(&self) -> StmtV {
        match self {
            Statement::Assignment { lhs, expr, raw, label } => StmtV::Assignment {
                lhs: lhs@,
                expr: expr@,
                raw: raw@,
                label: opt_view(*label),
            },
            Statement::Constraint { left, op, right, raw, label } => StmtV::Constraint {
                left: left@,
                op: *op,
                right: right@,
                raw: raw@,
                label: opt_view(*label),
            },
            Statement::Domain { variables, min, max, raw } => StmtV::Domain {
                variables: strings_view(variables@),
                min: min@,
                max: max@,
                raw: raw@,
            },
        }
    }
}

pub open spec fn stmts_view(v: Seq<Statement>) -> Seq<StmtV> {
    v.map_values(|s: Statement| s@)
}

// ---------------------------------------------------------------- labels

/// Characters that a label cannot contain: `= < > + - * / ( ) [ ]`.
pub open spec fn is_label_forbidden(c: char) -> bool {
    c == '=' || c == '<' || c == '>' || c == '+' || c == '-' || c == '*' || c == '/' || c == '('
        || c == ')' || c == '[' || c == ']'
}

/// A label is the text before the first `:` of a line (unless `::` starts there),
/// trimmed, when it is non-empty and holds no operator character. The result is
/// the label, if any, and the rest of the line (trimmed when a label was found).
pub open spec fn spec_extract_label(line: Seq<char>) -> (Option<Seq<char>>, Seq<char>) {
    match find(line, seq![':']) {
        None => (None, line),
        Some(idx) => if idx + 1 < line.len() && line[idx + 1] == ':' {
            (None, line)
        } else {
            let lab = trim(line.subrange(0, idx));
            let rest = trim(line.subrange(idx + 1, line.len() as int));
            if lab.len() > 0 && (forall|i: int| 0 <= i < lab.len() ==> !is_label_forbidden(lab[i])) {
                (Some(lab), rest)
            } else {
                (None, line)
            }
        },
    }
}

pub proof fn lemma_find_char(s: Seq<char>, c: char)
    ensures
        find(s, seq![c]) matches Some(i) ==> 0 <= i < s.len() && s[i] == c,
{
    if let Some(i) = find(s, seq![c]) {
        lemma_find_some(s, seq![c]);
        assert(s.subrange(i, i + 1)[0] == s[i]);
    }
}

fn no_forbidden(v: &Vec<char>) -> (r: bool)
    ensures
        r == forall|i: int| 0 <= i < v@.len() ==> !is_label_forbidden(v@[i]),
{
    let mut i: usize = 0;
    while i < v.len()
        invariant
            i <= v.len(),
            forall|k: int| 0 <= k < i ==> !is_label_forbidden(v@[k]),
        decreases v.len() - i,
    {
        let c = v[i];
        if c == '=' || c == '<' || c == '>' || c == '+' || c == '-' || c == '*' || c == '/' || c
            == '(' || c == ')' || c == '[' || c == ']' {
            return false;
        }
        i = i + 1;
    }
    true
}

/// Splits a label off the start of a line.
pub fn extract_label(line: &Vec<char>) -> (r: (Option<String>, Vec<char>))
    ensures
        (opt_view(r.0), r.1@) == spec_extract_label(line@),
{
    proof {
        lemma_find_char(line@, ':');
    }
    match find_char(line, ':') {
        None => (None, slice(line, 0, line.len())),
        Some(idx) => {
            assert(find(line@, seq![':']) == Some(idx as int));
            assert(idx < line.len());
            if idx + 1 < line.len() && line[idx + 1] == ':' {
                assert(line@.subrange(0, line@.len() as int) =~= line@);
                return (None, slice(line, 0, line.len()));
            }
            let lab = trim_chars(&slice(line, 0, idx));
            let rest = trim_chars(&slice(line, idx + 1, line.len()));
            if lab.len() > 0 && no_forbidden(&lab) {
                (Some(string_of_all(&lab)), rest)
            } else {
                assert(line@.subrange(0, line@.len() as int) =~= line@);
                (None, slice(line, 0, line.len()))
            }
        },
    }
}

// ---------------------------------------------------------------- relations

pub open spec fn is_rel_char(c: char) -> bool {
    c == '<' || c == '>' || c == '='
}

pub open spec fn has_no_rel_char(s: Seq<char>) -> bool {
    forall|i: int| 0 <= i < s.len() ==> !is_rel_char(s[i])
}

/// Splits `line` at the first occurrence of the operator `op`, when both sides
/// are non-empty after trimming and neither holds a relational character.
pub open spec fn try_split(line: Seq<char>, op: RelOp) -> Option<(Seq<char>, RelOp, Seq<char>)> {
    match find(line, rel_op_text(op)) {
        None => None,
        Some(idx) => {
            let l = trim(line.subrange(0, idx));
            let r = trim(line.subrange(idx + rel_op_text(op).len(), line.len() as int));
            if l.len() > 0 && r.len() > 0 && has_no_rel_char(l) && has_no_rel_char(r) {
                Some((l, op, r))
            } else {
                None
            }
        },
    }
}

/// The two sides and the operator of a relation; the operators are tried in the
/// order `>=`, `<=`, `==`, `>`, `<`.
pub open spec fn spec_split_relational(line: Seq<char>) -> Option<(Seq<char>, RelOp, Seq<char>)> {
    if try_split(line, RelOp::Gte) is Some {
        try_split(line, RelOp::Gte)
    } else if try_split(line, RelOp::Lte) is Some {
        try_split(line, RelOp::Lte)
    } else if try_split(line, RelOp::Eq) is Some {
        try_split(line, RelOp::Eq)
    } else if try_split(line, RelOp::Gt) is Some {
        try_split(line, RelOp::Gt)
    } else {
        try_split(line, RelOp::Lt)
    }
}

fn no_rel_char(v: &Vec<char>) -> (r: bool)
    ensures
        r == has_no_rel_char(v@),
{
    let mut i: usize = 0;
    while i < v.len()
        invariant
            i <= v.len(),
            forall|k: int| 0 <= k < i ==> !is_rel_char(v@[k]),
        decreases v.len() - i,
    {
        if v[i] == '<' || v[i] == '>' || v[i] == '=' {
            return false;
        }
        i = i + 1;
    }
    true
}

fn try_split_exec(line: &Vec<char>, op: RelOp) -> (r: Option<(Vec<char>, RelOp, Vec<char>)>)
    ensures
        match r {
            Some((l, o, rt)) => try_split(line@, op) == Some((l@, o, rt@)),
            None => try_split(line@, op) is None,
        },
{
    let p = rel_op_chars(op);
    proof {
        lemma_find_some(line@, p@);
    }
    match find_in(line, &p) {
        None => None,
        Some(idx) => {
            assert(occurs_at(line@, p@, idx as int));
            assert(idx + p@.len() <= line@.len());
            let plen = p.len();
            assert(idx + plen <= line.len());
            let after = idx + plen;
            let l = trim_chars(&slice(line, 0, idx));
            let rt = trim_chars(&slice(line, after, line.len()));
            if l.len() > 0 && rt.len() > 0 && no_rel_char(&l) && no_rel_char(&rt) {
                Some((l, op, rt))
            } else {
                None
            }
        },
    }
}

/// The two sides and the operator of a relation.
pub fn split_relational(line: &Vec<char>) -> (r: Option<(Vec<char>, RelOp, Vec<char>)>)
    ensures
        match r {
            Some((l, o, rt)) => spec_split_relational(line@) == Some((l@, o, rt@)),
            None => spec_split_relational(line@) is None,
        },
{
    if let Some(x) = try_split_exec(line, RelOp::Gte) {
        return Some(x);
    }
    if let Some(x) = try_split_exec(line, RelOp::Lte) {
        return Some(x);
    }
    if let Some(x) = try_split_exec(line, RelOp::Eq) {
        return Some(x);
    }
    if let Some(x) = try_split_exec(line, RelOp::Gt) {
        return Some(x);
    }
    try_split_exec(line, RelOp::Lt)
}


// ---------------------------------------------------------------- domains

/// The pieces of `s` between occurrences of `c` (`str::split`), each trimmed;
/// an input without `c` is one piece.
pub open spec fn pieces_trimmed(s: Seq<char>, c: char) -> Seq<Seq<char>>
    decreases s.len(),
{
    match find(s, seq![c]) {
        None => seq![trim(s)],
        Some(i) => {
            proof {
                lemma_find_char(s, c);
            }
            seq![trim(s.subrange(0, i))] + pieces_trimmed(s.subrange(i + 1, s.len() as int), c)
        },
    }
}

/// `s` without trailing commas (`str::trim_end_matches(',')`).
pub open spec fn trim_end_commas(s: Seq<char>) -> Seq<char>
    decreases s.len(),
{
    if s.len() > 0 && s.last() == ',' {
        trim_end_commas(s.drop_last())
    } else {
        s
    }
}

/// `s` without its leading alphabetic characters
/// (`str::trim_start_matches(char::is_alphabetic)`).
pub open spec fn trim_start_alpha(s: Seq<char>) -> Seq<char>
    decreases s.len(),
{
    if s.len() > 0 && alphabetic(s[0]) {
        trim_start_alpha(s.drop_first())
    } else {
        s
    }
}

/// The bounds of a range `[min, max]`: after trimming, the text must start with
/// `[` and end with `]`; what lies between is split at its first comma, and both
/// parts, trimmed, must be literals that `f64::from_str` accepts.
pub open spec fn spec_parse_range(s: Seq<char>) -> Option<(Seq<char>, Seq<char>)> {
    let s1 = trim(s);
    if s1.len() >= 1 && s1[0] == '[' && s1.len() >= 2 && s1.last() == ']' {
        let inner = trim(s1.subrange(1, s1.len() - 1));
        match find(inner, seq![',']) {
            None => None,
            Some(i) => {
                let lo = trim(inner.subrange(0, i));
                let hi = trim(inner.subrange(i + 1, inner.len() as int));
                if is_float_text(lo) && is_float_text(hi) {
                    Some((lo, hi))
                } else {
                    None
                }
            },
        }
    } else {
        None
    }
}

/// `V1, V2 [min, max]`: the variables before the first `[` (trailing commas
/// dropped), split at commas, and the range from that `[` on.
pub open spec fn spec_domain_vars_range(s: Seq<char>, raw: Seq<char>) -> Option<StmtV> {
    match find(s, seq!['[']) {
        None => None,
        Some(b) => {
            let vars_str = trim(trim_end_commas(trim(s.subrange(0, b))));
            let range_str = trim(s.subrange(b, s.len() as int));
            match spec_parse_range(range_str) {
                Some((mn, mx)) => Some(
                    StmtV::Domain { variables: pieces_trimmed(vars_str, ','), min: mn, max: mx, raw },
                ),
                None => None,
            }
        },
    }
}

/// `dominio V1, V2 [min, max]`: the leading word is dropped.
pub open spec fn spec_parse_domain_stmt(rest: Seq<char>, raw: Seq<char>) -> Option<StmtV> {
    spec_domain_vars_range(trim(trim_start_alpha(rest)), raw)
}

/// The text ` in [` that introduces a range.
pub open spec fn in_marker() -> Seq<char> {
    seq![' ', 'i', 'n', ' ', '[']
}

/// `V1, V2 in [min, max]`.
pub open spec fn spec_parse_in_stmt(line: Seq<char>, raw: Seq<char>) -> Option<StmtV> {
    match find(line, in_marker()) {
        None => None,
        Some(i) => {
            let vars_str = trim(line.subrange(0, i));
            let range_str = trim(line.subrange(i + 4, line.len() as int));
            match spec_parse_range(range_str) {
                Some((mn, mx)) => Some(
                    StmtV::Domain { variables: pieces_trimmed(vars_str, ','), min: mn, max: mx, raw },
                ),
                None => None,
            }
        },
    }
}

/// The pieces of `s` between commas, each trimmed.
pub fn split_trim(s: &Vec<char>, c: char) -> (r: Vec<String>)
    ensures
        strings_view(r@) == pieces_trimmed(s@, c),
{
    let mut out: Vec<String> = Vec::new();
    let mut rest = slice(s, 0, s.len());
    assert(rest@ =~= s@);
    assert(strings_view(out@) =~= Seq::<Seq<char>>::empty());
    loop
        invariant_except_break
            pieces_trimmed(s@, c) == strings_view(out@) + pieces_trimmed(rest@, c),
        ensures
            pieces_trimmed(s@, c) == strings_view(out@),
        decreases rest.len(),
    {
        proof {
            lemma_find_char(rest@, c);
        }
        match find_char(&rest, c) {
            None => {
                let piece = string_of_all(&trim_chars(&rest));
                let ghost before = strings_view(out@);
                out.push(piece);
                assert(strings_view(out@) =~= before.push(piece@));
                assert(pieces_trimmed(rest@, c) == seq![trim(rest@)]);
                assert(before + seq![trim(rest@)] =~= before.push(piece@));
                break;
            },
            Some(i) => {
                let piece = string_of_all(&trim_chars(&slice(&rest, 0, i)));
                let next = slice(&rest, i + 1, rest.len());
                assert(pieces_trimmed(rest@, c) == seq![piece@] + pieces_trimmed(next@, c));
                let ghost before = strings_view(out@);
                out.push(piece);
                assert(strings_view(out@) =~= before.push(piece@));
                assert(strings_view(out@) + pieces_trimmed(next@, c) =~= before + (seq![piece@] + pieces_trimmed(next@, c)));
                rest = next;
            },
        }
    }
    out
}

/// The bounds of a range `[min, max]`.
pub fn parse_range(s: &Vec<char>) -> (r: Option<(String, String)>)
    ensures
        match spec_parse_range(s@) {
            Some((lo, hi)) => r matches Some((a, b)) && a@ == lo && b@ == hi,
            None => r is None,
        },
{
    let s1 = trim_chars(s);
    let n = s1.len();
    if !(n >= 2 && s1[0] == '[' && s1[n - 1] == ']') {
        return None;
    }
    let inner = trim_chars(&slice(&s1, 1, n - 1));
    proof {
        lemma_find_char(inner@, ',');
    }
    match find_char(&inner, ',') {
        None => None,
        Some(i) => {
            let lo = trim_chars(&slice(&inner, 0, i));
            let hi = trim_chars(&slice(&inner, i + 1, inner.len()));
            if is_float_literal(&lo) && is_float_literal(&hi) {
                Some((string_of_all(&lo), string_of_all(&hi)))
            } else {
                None
            }
        },
    }
}

fn trim_end_commas_exec(v: &Vec<char>) -> (r: Vec<char>)
    ensures
        r@ == trim_end_commas(v@),
{
    let mut j = v.len();
    assert(v@.subrange(0, j as int) =~= v@);
    while j > 0 && v[j - 1] == ','
        invariant
            j <= v.len(),
            trim_end_commas(v@) == trim_end_commas(v@.subrange(0, j as int)),
        decreases j,
    {
        assert(v@.subrange(0, j as int).drop_last() =~= v@.subrange(0, j - 1));
        j = j - 1;
    }
    slice(v, 0, j)
}

fn trim_start_alpha_exec(v: &Vec<char>) -> (r: Vec<char>)
    ensures
        r@ == trim_start_alpha(v@),
{
    let mut i: usize = 0;
    assert(v@.subrange(0, v.len() as int) =~= v@);
    while i < v.len() && is_alphabetic(v[i])
        invariant
            i <= v.len(),
            trim_start_alpha(v@) == trim_start_alpha(v@.subrange(i as int, v.len() as int)),
        decreases v.len() - i,
    {
        assert(v@.subrange(i as int, v.len() as int).drop_first() =~= v@.subrange(i + 1, v.len() as int));
        i = i + 1;
    }
    slice(v, i, v.len())
}

/// The value of an optional statement.
pub open spec fn opt_stmt_view(o: Option<Statement>) -> Option<StmtV> {
    match o {
        Some(s) => Some(s@),
        None => None,
    }
}

/// A domain declaration `V1, V2 [min, max]`.
pub fn parse_domain_vars_range(s: &Vec<char>, raw: &Vec<char>) -> (r: Option<Statement>)
    ensures
        opt_stmt_view(r) == spec_domain_vars_range(s@, raw@),
{
    proof {
        lemma_find_char(s@, '[');
    }
    match find_char(s, '[') {
        None => None,
        Some(b) => {
            let vars_str = trim_chars(&trim_end_commas_exec(&trim_chars(&slice(s, 0, b))));
            let range_str = trim_chars(&slice(s, b, s.len()));
            match parse_range(&range_str) {
                Some((mn, mx)) => {
                    let variables = split_trim(&vars_str, ',');
                    Some(Statement::Domain { variables, min: mn, max: mx, raw: string_of_all(raw) })
                },
                None => None,
            }
        },
    }
}

/// A domain declaration `dominio V1, V2 [min, max]`.
pub fn parse_domain_stmt(rest: &Vec<char>, raw: &Vec<char>) -> (r: Option<Statement>)
    ensures
        opt_stmt_view(r) == spec_parse_domain_stmt(rest@, raw@),
{
    let rest_clean = trim_chars(&trim_start_alpha_exec(rest));
    parse_domain_vars_range(&rest_clean, raw)
}

fn in_marker_chars() -> (r: Vec<char>)
    ensures
        r@ == in_marker(),
{
    let r = vec![' ', 'i', 'n', ' ', '['];
    assert(r@ =~= in_marker());
    r
}

/// A domain declaration `V1, V2 in [min, max]`.
pub fn parse_in_stmt(line: &Vec<char>, raw: &Vec<char>) -> (r: Option<Statement>)
    ensures
        opt_stmt_view(r) == spec_parse_in_stmt(line@, raw@),
{
    let marker = in_marker_chars();
    proof {
        lemma_find_some(line@, marker@);
    }
    match find_in(line, &marker) {
        None => None,
        Some(i) => {
            assert(occurs_at(line@, marker@, i as int));
            assert(i + 5 <= line.len());
            let vars_str = trim_chars(&slice(line, 0, i));
            let range_str = trim_chars(&slice(line, i + 4, line.len()));
            match parse_range(&range_str) {
                Some((mn, mx)) => {
                    let variables = split_trim(&vars_str, ',');
                    Some(Statement::Domain { variables, min: mn, max: mx, raw: string_of_all(raw) })
                },
                None => None,
            }
        },
    }
}


// ---------------------------------------------------------------- lines

/// The keyword of the first form of domain declaration.
pub open spec fn dominio_text() -> Seq<char> {
    seq!['d', 'o', 'm', 'i', 'n', 'i', 'o']
}

pub open spec fn starts_with(s: Seq<char>, p: Seq<char>) -> bool {
    s.len() >= p.len() && s.subrange(0, p.len() as int) == p
}

/// A name: a letter or `_`, then letters, digits or `_`.
pub open spec fn is_identifier(s: Seq<char>) -> bool {
    s.len() > 0 && is_id_start(s[0]) && forall|i: int| 0 <= i < s.len() ==> is_id_char(s[i])
}

/// The position of the `=` of an assignment: the first `=` of the text, when it
/// does not follow `>`, `<` or `!` and is not followed by another `=`.
pub open spec fn spec_assign_eq(rest: Seq<char>) -> Option<int> {
    match find(rest, seq!['=']) {
        None => None,
        Some(i) => if (i == 0 || !(rest[i - 1] == '>' || rest[i - 1] == '<' || rest[i - 1] == '!'))
            && !(i + 1 < rest.len() && rest[i + 1] == '=') {
            Some(i)
        } else {
            None
        },
    }
}

/// `NAME = expr`, where the right side holds no relation and parses.
pub open spec fn spec_assignment(rest: Seq<char>, raw: Seq<char>, label: Option<Seq<char>>) -> Option<StmtV> {
    match spec_assign_eq(rest) {
        None => None,
        Some(i) => {
            let lhs = trim(rest.subrange(0, i));
            let rhs = trim(rest.subrange(i + 1, rest.len() as int));
            if is_identifier(lhs) && spec_split_relational(rhs) is None {
                match spec_parse_dsl(rhs) {
                    Ok(e) => Some(StmtV::Assignment { lhs, expr: e, raw, label }),
                    Err(_) => None,
                }
            } else {
                None
            }
        },
    }
}

/// `expr OP expr`, where both sides parse.
pub open spec fn spec_constraint(rest: Seq<char>, raw: Seq<char>, label: Option<Seq<char>>) -> Option<StmtV> {
    match spec_split_relational(rest) {
        None => None,
        Some((l, op, r)) => match (spec_parse_dsl(l), spec_parse_dsl(r)) {
            (Ok(a), Ok(b)) => Some(StmtV::Constraint { left: a, op, right: b, raw, label }),
            _ => None,
        },
    }
}

/// The statement of a trimmed line, if it is one. After an optional label, a
/// line whose lower-case form starts with `dominio`, or that holds ` in [`, is a
/// domain declaration (or nothing); otherwise it is an assignment if it reads as
/// one, else a constraint if it reads as one. The statement keeps the line as
/// its raw text; the label goes to assignments and constraints.
#[verifier::opaque]
pub open spec fn spec_parse_line(line: Seq<char>) -> Option<StmtV> {
    let (label, rest) = spec_extract_label(line);
    if starts_with(lowercase(rest), dominio_text()) {
        spec_parse_domain_stmt(rest, line)
    } else if find(rest, in_marker()) is Some {
        spec_parse_in_stmt(rest, line)
    } else if spec_assignment(rest, line, label) is Some {
        spec_assignment(rest, line, label)
    } else {
        spec_constraint(rest, line, label)
    }
}

fn dominio_chars() -> (r: Vec<char>)
    ensures
        r@ == dominio_text(),
{
    let r = vec!['d', 'o', 'm', 'i', 'n', 'i', 'o'];
    assert(r@ =~= dominio_text());
    r
}

fn starts_with_dominio(rest: &Vec<char>) -> (r: bool)
    ensures
        r == starts_with(lowercase(rest@), dominio_text()),
{
    let s = string_of_all(rest);
    let lower = to_lowercase(s.as_str());
    let lv = chars_of_string(&lower);
    let kw = dominio_chars();
    if lv.len() < kw.len() {
        return false;
    }
    let head = slice(&lv, 0, kw.len());
    chars_eq(&head, &kw)
}

fn identifier(v: &Vec<char>) -> (r: bool)
    ensures
        r == is_identifier(v@),
{
    if v.len() == 0 {
        return false;
    }
    if !(is_alphabetic(v[0]) || v[0] == '_') {
        return false;
    }
    let mut i: usize = 0;
    while i < v.len()
        invariant
            i <= v.len(),
            forall|k: int| 0 <= k < i ==> is_id_char(v@[k]),
        decreases v.len() - i,
    {
        if !(is_alphanumeric(v[i]) || v[i] == '_') {
            return false;
        }
        i = i + 1;
    }
    true
}

fn assign_eq(rest: &Vec<char>) -> (r: Option<usize>)
    ensures
        match spec_assign_eq(rest@) {
            Some(i) => r == Some(i as usize),
            None => r is None,
        },
{
    proof {
        lemma_find_char(rest@, '=');
    }
    match find_char(rest, '=') {
        None => None,
        Some(i) => {
            assert(find(rest@, seq!['=']) == Some(i as int));
            assert(i < rest.len());
            let before_ok = i == 0 || !(rest[i - 1] == '>' || rest[i - 1] == '<' || rest[i - 1] == '!');
            let after_ok = !(i + 1 < rest.len() && rest[i + 1] == '=');
            if before_ok && after_ok {
                Some(i)
            } else {
                None
            }
        },
    }
}

fn clone_label(l: &Option<String>) -> (r: Option<String>)
    ensures
        opt_view(r) == opt_view(*l),
{
    match l {
        Some(s) => Some(s.clone()),
        None => None,
    }
}

fn parse_assignment(rest: &Vec<char>, raw: &Vec<char>, label: Option<String>) -> (r: Option<Statement>)
    ensures
        opt_stmt_view(r) == spec_assignment(rest@, raw@, opt_view(label)),
{
    proof {
        lemma_find_char(rest@, '=');
    }
    match assign_eq(rest) {
        None => None,
        Some(i) => {
            assert(i < rest.len());
            let lhs = trim_chars(&slice(rest, 0, i));
            let rhs = trim_chars(&slice(rest, i + 1, rest.len()));
            if identifier(&lhs) && split_relational(&rhs).is_none() {
                match parse_dsl(&rhs) {
                    Ok(e) => Some(
                        Statement::Assignment { lhs: string_of_all(&lhs), expr: e, raw: string_of_all(raw), label },
                    ),
                    Err(_) => None,
                }
            } else {
                None
            }
        },
    }
}

fn parse_constraint(rest: &Vec<char>, raw: &Vec<char>, label: Option<String>) -> (r: Option<Statement>)
    ensures
        opt_stmt_view(r) == spec_constraint(rest@, raw@, opt_view(label)),
{
    match split_relational(rest) {
        None => None,
        Some((l, op, rt)) => {
            let a = parse_dsl(&l);
            let b = parse_dsl(&rt);
            match (a, b) {
                (Ok(a), Ok(b)) => Some(
                    Statement::Constraint { left: a, op, right: b, raw: string_of_all(raw), label },
                ),
                _ => None,
            }
        },
    }
}

/// The statement of a trimmed line, if it is one.
pub fn parse_line(line: &Vec<char>) -> (r: Option<Statement>)
    ensures
        opt_stmt_view(r) == spec_parse_line(line@),
{
    reveal(spec_parse_line);
    let (label, rest) = extract_label(line);
    if starts_with_dominio(&rest) {
        return parse_domain_stmt(&rest, line);
    }
    let marker = in_marker_chars();
    if find_in(&rest, &marker).is_some() {
        return parse_in_stmt(&rest, line);
    }
    let assigned = parse_assignment(&rest, line, clone_label(&label));
    if assigned.is_some() {
        return assigned;
    }
    parse_constraint(&rest, line, label)
}

/// `p` without one trailing carriage return.
pub open spec fn strip_cr(p: Seq<char>) -> Seq<char> {
    if p.len() > 0 && p.last() == '\r' {
        p.drop_last()
    } else {
        p
    }
}

/// The lines of `s` (`str::lines`): split at `\n`, a `\r` before it dropped,
/// and no empty line after a final `\n`.
pub open spec fn spec_lines(s: Seq<char>) -> Seq<Seq<char>>
    decreases s.len(),
{
    match find(s, seq!['\n']) {
        None => if s.len() == 0 {
            Seq::empty()
        } else {
            seq![s]
        },
        Some(i) => {
            proof {
                lemma_find_char(s, '\n');
            }
            seq![strip_cr(s.subrange(0, i))] + spec_lines(s.subrange(i + 1, s.len() as int))
        },
    }
}

/// A trimmed line that holds no statement: an empty one, or a comment.
pub open spec fn is_skipped(line: Seq<char>) -> bool {
    line.len() == 0 || (line.len() >= 2 && line[0] == '/' && line[1] == '/')
}

/// The statements of one line of a script: none or one.
pub open spec fn line_stmts(l: Seq<char>) -> Seq<StmtV> {
    let t = trim(l);
    if is_skipped(t) {
        Seq::empty()
    } else {
        match spec_parse_line(t) {
            Some(st) => seq![st],
            None => Seq::empty(),
        }
    }
}

/// The statements of a sequence of lines, in order.
pub open spec fn stmts_of_lines(ls: Seq<Seq<char>>) -> Seq<StmtV>
    decreases ls.len(),
{
    if ls.len() == 0 {
        Seq::empty()
    } else {
        line_stmts(ls[0]) + stmts_of_lines(ls.drop_first())
    }
}

/// The statements of a script: those of its lines, in order.
pub open spec fn spec_parse_script(script: Seq<char>) -> Seq<StmtV> {
    stmts_of_lines(spec_lines(script))
}

fn strip_cr_exec(v: Vec<char>) -> (r: Vec<char>)
    ensures
        r@ == strip_cr(v@),
{
    if v.len() > 0 && v[v.len() - 1] == '\r' {
        slice(&v, 0, v.len() - 1)
    } else {
        v
    }
}

fn add_line(stmts: &mut Vec<Statement>, raw_line: &Vec<char>)
    ensures
        stmts_view(final(stmts)@) == stmts_view(old(stmts)@) + line_stmts(raw_line@),
{
    let ghost before = stmts_view(stmts@);
    let line = trim_chars(raw_line);
    if line.len() == 0 || (line.len() >= 2 && line[0] == '/' && line[1] == '/') {
        assert(before + Seq::<StmtV>::empty() =~= before);
        return;
    }
    match parse_line(&line) {
        Some(st) => {
            let ghost v = st@;
            stmts.push(st);
            assert(stmts_view(stmts@) =~= before + seq![v]);
        },
        None => {
            assert(before + Seq::<StmtV>::empty() =~= before);
        },
    }
}

/// The statements of a script, line by line: empty lines and comment lines
/// (`//`) hold none, and a line that is no statement is left out.
pub fn parse_script(script: &str) -> (r: Vec<Statement>)
    ensures
        stmts_view(r@) == spec_parse_script(script@),
{
    let mut rest = chars_of(script);
    let mut stmts: Vec<Statement> = Vec::new();
    assert(stmts_view(stmts@) =~= Seq::<StmtV>::empty());
    loop
        invariant_except_break
            spec_parse_script(script@) == stmts_view(stmts@) + stmts_of_lines(spec_lines(rest@)),
        ensures
            spec_parse_script(script@) == stmts_view(stmts@),
        decreases rest.len(),
    {
        proof {
            lemma_find_char(rest@, '\n');
        }
        let ghost before = stmts_view(stmts@);
        match find_char(&rest, '\n') {
            None => {
                if rest.len() > 0 {
                    add_line(&mut stmts, &rest);
                    assert(spec_lines(rest@) == seq![rest@]);
                    assert(seq![rest@].drop_first() =~= Seq::<Seq<char>>::empty());
                    assert(stmts_of_lines(Seq::<Seq<char>>::empty()) == Seq::<StmtV>::empty());
                    assert(line_stmts(rest@) + Seq::<StmtV>::empty() =~= line_stmts(rest@));
                    assert(stmts_of_lines(seq![rest@]) == line_stmts(rest@));
                } else {
                    assert(spec_lines(rest@) == Seq::<Seq<char>>::empty());
                    assert(before + Seq::<StmtV>::empty() =~= before);
                }
                break;
            },
            Some(i) => {
                let line = strip_cr_exec(slice(&rest, 0, i));
                let next = slice(&rest, i + 1, rest.len());
                add_line(&mut stmts, &line);
                proof {
                    let ls = seq![line@] + spec_lines(next@);
                    assert(spec_lines(rest@) == ls);
                    assert(ls.drop_first() =~= spec_lines(next@));
                    assert(stmts_of_lines(ls) == line_stmts(line@) + stmts_of_lines(spec_lines(next@)));
                    assert(stmts_view(stmts@) + stmts_of_lines(spec_lines(next@)) =~= before + (line_stmts(line@) + stmts_of_lines(spec_lines(next@))));
                }
                rest = next;
            },
        }
    }
    stmts
}

} // verus!
