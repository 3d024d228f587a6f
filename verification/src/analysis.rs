//! What a parsed script declares and uses: calculated variables, free
//! variables, domains and constraints.
use vstd::prelude::*;
use crate::ast::{AstNode, Expr, args_view, lemma_args_view_index};
use crate::statement::{Statement, StmtV, stmts_view, strings_view};
use crate::text::chars_of_string;

verus! {

// ---------------------------------------------------------------- variables

/// The variables that an expression reads.
pub open spec fn expr_vars(e: Expr) -> Set<Seq<char>>
    decreases e,
{
    match e {
        Expr::Num(_) => Set::empty(),
        Expr::Var(n) => set![n],
        Expr::Bin(_, l, r) => expr_vars(*l).union(expr_vars(*r)),
        Expr::Paren(inner) => expr_vars(*inner),
        Expr::Call(_, args) => args_vars(args),
    }
}

/// The variables that a sequence of expressions reads.
pub open spec fn args_vars(s: Seq<Expr>) -> Set<Seq<char>>
    decreases s,
{
    if s.len() == 0 {
        Set::empty()
    } else {
        args_vars(s.subrange(0, s.len() - 1)).union(expr_vars(s[s.len() - 1]))
    }
}

/// The variables that assignments define.
pub open spec fn calc_vars(sv: Seq<StmtV>) -> Set<Seq<char>> {
    Set::new(|n: Seq<char>| exists|i: int| 0 <= i < sv.len() && (#[trigger] sv[i] matches StmtV::Assignment { lhs, .. } && lhs == n))
}

/// The variables that a statement reads: those of an assignment's expression
/// and of both sides of a constraint.
pub open spec fn stmt_used_vars(s: StmtV) -> Set<Seq<char>> {
    match s {
        StmtV::Assignment { expr, .. } => expr_vars(expr),
        StmtV::Constraint { left, right, .. } => expr_vars(left).union(expr_vars(right)),
        StmtV::Domain { .. } => Set::empty(),
    }
}

/// The variables that a sequence of statements reads.
pub open spec fn used_vars(sv: Seq<StmtV>) -> Set<Seq<char>> {
    Set::new(|n: Seq<char>| exists|i: int| 0 <= i < sv.len() && #[trigger] stmt_used_vars(sv[i]).contains(n))
}

/// The variables that a domain statement declares.
pub open spec fn stmt_declared_vars(s: StmtV) -> Set<Seq<char>> {
    match s {
        StmtV::Domain { variables, .. } => variables.to_set(),
        _ => Set::empty(),
    }
}

/// The variables that the domain statements of a sequence declare.
pub open spec fn declared_vars(sv: Seq<StmtV>) -> Set<Seq<char>> {
    Set::new(|n: Seq<char>| exists|i: int| 0 <= i < sv.len() && #[trigger] stmt_declared_vars(sv[i]).contains(n))
}

/// The variables that a statement reads or declares.
pub open spec fn stmt_named_vars(s: StmtV) -> Set<Seq<char>> {
    stmt_used_vars(s).union(stmt_declared_vars(s))
}

/// The free (decision) variables: those read or declared with a domain, and
/// not defined by an assignment.
pub open spec fn free_vars(sv: Seq<StmtV>) -> Set<Seq<char>> {
    used_vars(sv).union(declared_vars(sv)).difference(calc_vars(sv))
}

/// `a` comes before `b` in lexicographic order of characters.
pub open spec fn lex_lt(a: Seq<char>, b: Seq<char>) -> bool
    decreases a.len(),
{
    if a.len() == 0 {
        b.len() > 0
    } else if b.len() == 0 {
        false
    } else if a[0] < b[0] {
        true
    } else if a[0] == b[0] {
        lex_lt(a.drop_first(), b.drop_first())
    } else {
        false
    }
}

/// Each element comes strictly before the next.
pub open spec fn strictly_sorted(s: Seq<Seq<char>>) -> bool {
    forall|i: int, j: int| 0 <= i < j < s.len() ==> lex_lt(s[i], s[j])
}

pub proof fn lemma_lex_irreflexive(a: Seq<char>)
    ensures
        !lex_lt(a, a),
    decreases a.len(),
{
    if a.len() > 0 {
        lemma_lex_irreflexive(a.drop_first());
    }
}

pub proof fn lemma_lex_total(a: Seq<char>, b: Seq<char>)
    ensures
        a == b || lex_lt(a, b) || lex_lt(b, a),
    decreases a.len(),
{
    if a.len() > 0 && b.len() > 0 && a[0] == b[0] {
        lemma_lex_total(a.drop_first(), b.drop_first());
        if a.drop_first() == b.drop_first() {
            assert(a =~= seq![a[0]] + a.drop_first());
            assert(b =~= seq![b[0]] + b.drop_first());
        }
    }
    if a.len() == 0 && b.len() == 0 {
        assert(a =~= b);
    }
}

pub proof fn lemma_lex_transitive(a: Seq<char>, b: Seq<char>, c: Seq<char>)
    requires
        lex_lt(a, b),
        lex_lt(b, c),
    ensures
        lex_lt(a, c),
    decreases a.len(),
{
    if a.len() > 0 && b.len() > 0 && c.len() > 0 && a[0] == b[0] && b[0] == c[0] {
        lemma_lex_transitive(a.drop_first(), b.drop_first(), c.drop_first());
    }
}

pub proof fn lemma_lex_asymmetric(a: Seq<char>, b: Seq<char>)
    requires
        lex_lt(a, b),
    ensures
        !lex_lt(b, a),
{
    if lex_lt(b, a) {
        lemma_lex_transitive(a, b, a);
        lemma_lex_irreflexive(a);
    }
}

/// `a` comes before `b` in lexicographic order of characters.
pub fn chars_lt(a: &Vec<char>, b: &Vec<char>) -> (r: bool)
    ensures
        r == lex_lt(a@, b@),
{
    let mut i: usize = 0;
    assert(a@.subrange(0, a.len() as int) =~= a@);
    assert(b@.subrange(0, b.len() as int) =~= b@);
    while i < a.len() && i < b.len() && a[i] == b[i]
        invariant
            i <= a.len(),
            i <= b.len(),
            lex_lt(a@, b@) == lex_lt(a@.subrange(i as int, a.len() as int), b@.subrange(i as int, b.len() as int)),
        decreases a.len() - i,
    {
        assert(a@.subrange(i as int, a.len() as int).drop_first() =~= a@.subrange(i + 1, a.len() as int));
        assert(b@.subrange(i as int, b.len() as int).drop_first() =~= b@.subrange(i + 1, b.len() as int));
        i = i + 1;
    }
    let ghost sa = a@.subrange(i as int, a.len() as int);
    let ghost sb = b@.subrange(i as int, b.len() as int);
    if i == a.len() {
        i < b.len()
    } else if i == b.len() {
        false
    } else {
        assert(sa[0] == a@[i as int] && sb[0] == b@[i as int]);
        a[i] < b[i]
    }
}

/// Whether `found` holds a string with the characters of `name`.
pub fn contains_string(found: &Vec<String>, name: &String) -> (r: bool)
    ensures
        r == strings_view(found@).contains(name@),
{
    let mut i: usize = 0;
    while i < found.len()
        invariant
            i <= found.len(),
            forall|k: int| 0 <= k < i ==> found@[k]@ != name@,
        decreases found.len() - i,
    {
        if found[i] == *name {
            assert(strings_view(found@)[i as int] == name@);
            return true;
        }
        i = i + 1;
    }
    assert(!strings_view(found@).contains(name@)) by {
        if strings_view(found@).contains(name@) {
            let k = choose|k: int| 0 <= k < strings_view(found@).len() && strings_view(found@)[k] == name@;
            assert(found@[k]@ == name@);
        }
    }
    false
}

/// Adds `name` to `found` unless it is already there.
fn insert_name(found: &mut Vec<String>, name: &String)
    requires
        strings_view(old(found)@).no_duplicates(),
    ensures
        strings_view(final(found)@).no_duplicates(),
        strings_view(final(found)@).to_set() == strings_view(old(found)@).to_set().insert(name@),
{
    let ghost before = strings_view(found@);
    if !contains_string(found, name) {
        found.push(name.clone());
        assert(strings_view(found@) =~= before.push(name@));
        assert(strings_view(found@).to_set() =~= before.to_set().insert(name@)) by {
            broadcast use vstd::seq_lib::group_seq_properties;
        }
        assert forall|i: int, j: int| 0 <= i < strings_view(found@).len() && 0 <= j < strings_view(found@).len() && i != j
            implies strings_view(found@)[i] != strings_view(found@)[j] by {
            if j == before.len() as int {
                assert(before.contains(before[i]));
            }
            if i == before.len() as int {
                assert(before.contains(before[j]));
            }
        }
    } else {
        assert(before.to_set().insert(name@) =~= before.to_set()) by {
            broadcast use vstd::seq_lib::group_seq_properties;
        }
    }
}

/// Adds the variables that `node` reads to `found`, keeping it free of duplicates.
#[verifier::loop_isolation(false)]
pub fn collect_vars_from_ast(node: &AstNode, found: &mut Vec<String>)
    requires
        strings_view(old(found)@).no_duplicates(),
    ensures
        strings_view(final(found)@).no_duplicates(),
        strings_view(final(found)@).to_set() == strings_view(old(found)@).to_set().union(expr_vars(node@)),
    decreases node,
{
    let ghost before = strings_view(found@).to_set();
    match node {
        AstNode::Variable(name) => {
            insert_name(found, name);
            assert(before.insert(name@) =~= before.union(set![name@]));
        },
        AstNode::Parens(inner) => {
            collect_vars_from_ast(inner, found);
        },
        AstNode::Binary { left, right, .. } => {
            collect_vars_from_ast(left, found);
            collect_vars_from_ast(right, found);
            assert(before.union(expr_vars(left@)).union(expr_vars(right@)) =~= before.union(
                expr_vars(node@),
            ));
        },
        AstNode::Function { args, .. } => {
            let mut i: usize = 0;
            proof {
                lemma_args_view_index(args@);
            }
            assert(args_vars(args_view(args@.subrange(0, 0))) =~= Set::<Seq<char>>::empty());
            assert(before.union(Set::<Seq<char>>::empty()) =~= before);
            while i < args.len()
                invariant
                    i <= args.len(),
                    strings_view(found@).no_duplicates(),
                    strings_view(found@).to_set() == before.union(args_vars(args_view(args@.subrange(0, i as int)))),
                decreases args.len() - i,
            {
                proof {
                    assert(*node is Function);
                    assert(args == (*node)->args);
                    assert(decreases_to!(*node => (*node)->args));
                    assert(decreases_to!(args => args@));
                    assert(decreases_to!(args@ => args@[i as int]));
                }
                collect_vars_from_ast(&args[i], found);
                proof {
                    let s1 = args@.subrange(0, i + 1);
                    assert(s1.subrange(0, i as int) =~= args@.subrange(0, i as int));
                    assert(args_view(s1) == args_view(args@.subrange(0, i as int)).push(args@[i as int]@));
                    let v1 = args_view(s1);
                    let prev_view = args_view(args@.subrange(0, i as int));
                    assert(v1.subrange(0, v1.len() - 1) =~= prev_view);
                    assert(args_vars(v1) == args_vars(args_view(args@.subrange(0, i as int))).union(expr_vars(args@[i as int]@)));
                    assert(strings_view(found@).to_set() =~= before.union(args_vars(v1)));
                }
                i = i + 1;
            }
            assert(args@.subrange(0, args.len() as int) =~= args@);
        },
        AstNode::Number(_) => {
            assert(before.union(Set::<Seq<char>>::empty()) =~= before);
        },
    }
}


/// The variables that assignments define, each once.
pub fn extract_calculated_vars(stmts: &[Statement]) -> (r: Vec<String>)
    ensures
        strings_view(r@).no_duplicates(),
        strings_view(r@).to_set() == calc_vars(stmts_view(stmts@)),
{
    let ghost sv = stmts_view(stmts@);
    let mut found: Vec<String> = Vec::new();
    let mut i: usize = 0;
    while i < stmts.len()
        invariant
            i <= stmts.len(),
            sv == stmts_view(stmts@),
            strings_view(found@).no_duplicates(),
            forall|n: Seq<char>| strings_view(found@).to_set().contains(n) <==> exists|k: int|
                0 <= k < i && (#[trigger] sv[k] matches StmtV::Assignment { lhs, .. } && lhs == n),
        decreases stmts.len() - i,
    {
        let ghost prev = strings_view(found@).to_set();
        if let Statement::Assignment { lhs, .. } = &stmts[i] {
            insert_name(&mut found, lhs);
            assert forall|n: Seq<char>| strings_view(found@).to_set().contains(n) <==> exists|k: int|
                0 <= k < i + 1 && (#[trigger] sv[k] matches StmtV::Assignment { lhs, .. } && lhs == n) by {
                if n == lhs@ {
                    assert(sv[i as int] matches StmtV::Assignment { lhs, .. } && lhs == n);
                }
            }
        } else {
            assert forall|n: Seq<char>| strings_view(found@).to_set().contains(n) <==> exists|k: int|
                0 <= k < i + 1 && (#[trigger] sv[k] matches StmtV::Assignment { lhs, .. } && lhs == n) by {
                if exists|k: int| 0 <= k < i + 1 && (#[trigger] sv[k] matches StmtV::Assignment { lhs, .. } && lhs == n) {
                    let k = choose|k: int| 0 <= k < i + 1 && (#[trigger] sv[k] matches StmtV::Assignment { lhs, .. } && lhs == n);
                    assert(k != i);
                }
            }
        }
        i = i + 1;
    }
    assert(strings_view(found@).to_set() =~= calc_vars(sv));
    found
}

/// Adds the variables that a statement reads or declares to `found`.
fn collect_stmt_vars(st: &Statement, found: &mut Vec<String>)
    requires
        strings_view(old(found)@).no_duplicates(),
    ensures
        strings_view(final(found)@).no_duplicates(),
        strings_view(final(found)@).to_set() == strings_view(old(found)@).to_set().union(stmt_named_vars(st@)),
{
    let ghost before = strings_view(found@).to_set();
    match st {
        Statement::Assignment { expr, .. } => {
            collect_vars_from_ast(expr, found);
            assert(stmt_named_vars(st@) =~= expr_vars(expr@));
        },
        Statement::Constraint { left, right, .. } => {
            collect_vars_from_ast(left, found);
            collect_vars_from_ast(right, found);
            assert(before.union(expr_vars(left@)).union(expr_vars(right@)) =~= before.union(
                stmt_named_vars(st@),
            ));
        },
        Statement::Domain { variables, .. } => {
            let ghost vv = strings_view(variables@);
            let mut j: usize = 0;
            assert(vv.subrange(0, 0).to_set() =~= Set::<Seq<char>>::empty());
            assert(before.union(Set::<Seq<char>>::empty()) =~= before);
            while j < variables.len()
                invariant
                    j <= variables.len(),
                    vv == strings_view(variables@),
                    strings_view(found@).no_duplicates(),
                    strings_view(found@).to_set() == before.union(vv.subrange(0, j as int).to_set()),
                decreases variables.len() - j,
            {
                insert_name(found, &variables[j]);
                assert(vv.subrange(0, j + 1) =~= vv.subrange(0, j as int).push(vv[j as int]));
                assert(vv.subrange(0, j + 1).to_set() =~= vv.subrange(0, j as int).to_set().insert(vv[j as int])) by {
                    broadcast use vstd::seq_lib::group_seq_properties;
                }
                assert(strings_view(found@).to_set() =~= before.union(vv.subrange(0, j + 1).to_set()));
                j = j + 1;
            }
            assert(vv.subrange(0, variables.len() as int) =~= vv);
            assert(before.union(vv.to_set()) =~= before.union(stmt_named_vars(st@)));
        },
    }
}

/// Inserts `x` into a strictly sorted sequence at its place.
fn insert_sorted(out: &mut Vec<String>, x: String)
    requires
        strictly_sorted(strings_view(old(out)@)),
        !strings_view(old(out)@).contains(x@),
    ensures
        strictly_sorted(strings_view(final(out)@)),
        strings_view(final(out)@).to_set() == strings_view(old(out)@).to_set().insert(x@),
{
    let ghost before = strings_view(out@);
    let xc = chars_of_string(&x);
    let mut i: usize = 0;
    loop
        invariant
            i <= out.len(),
            before == strings_view(out@),
            xc@ == x@,
            forall|k: int| 0 <= k < i ==> lex_lt(before[k], x@),
        ensures
            i <= out.len(),
            forall|k: int| 0 <= k < i ==> lex_lt(before[k], x@),
            i < out.len() ==> !lex_lt(before[i as int], x@),
        decreases out.len() - i,
    {
        if i >= out.len() {
            break;
        }
        let c = chars_of_string(&out[i]);
        assert(before[i as int] == out@[i as int]@);
        if !chars_lt(&c, &xc) {
            break;
        }
        i = i + 1;
    }
    proof {
        if i < out.len() {
            lemma_lex_total(before[i as int], x@);
            assert(before[i as int] != x@);
            assert(lex_lt(x@, before[i as int]));
        }
    }
    out.insert(i, x);
    let ghost after = strings_view(out@);
    assert(after =~= before.insert(i as int, x@));
    assert forall|a: int, b: int| 0 <= a < b < after.len() implies lex_lt(after[a], after[b]) by {
        if b == i {
            assert(after[a] == before[a]);
        } else if a == i {
            assert(after[b] == before[b - 1]);
            if b - 1 > i {
                lemma_lex_transitive(x@, before[i as int], before[b - 1]);
            }
        } else if a < i && b > i {
            assert(after[a] == before[a]);
            assert(after[b] == before[b - 1]);
        } else if b < i {
        } else {
            assert(after[a] == before[a - 1]);
            assert(after[b] == before[b - 1]);
        }
    }
    assert(after.to_set() =~= before.to_set().insert(x@)) by {
        assert forall|n: Seq<char>| after.to_set().contains(n) <==> before.to_set().insert(x@).contains(n) by {
            if after.to_set().contains(n) {
                let k = choose|k: int| 0 <= k < after.len() && after[k] == n;
                if k < i {
                    assert(before[k] == n);
                } else if k > i {
                    assert(before[k - 1] == n);
                }
            }
            if before.to_set().contains(n) && n != x@ {
                let k = choose|k: int| 0 <= k < before.len() && before[k] == n;
                if k < i {
                    assert(after[k] == n);
                } else {
                    assert(after[k + 1] == n);
                }
            }
            if n == x@ {
                assert(after[i as int] == n);
            }
        }
    }
}

/// The free variables of a script: those that assignments and constraints read
/// or that domains declare, and that no assignment defines, each once, in
/// lexicographic order.
pub fn extract_free_variables(stmts: &[Statement]) -> (r: Vec<String>)
    ensures
        strictly_sorted(strings_view(r@)),
        strings_view(r@).to_set() == free_vars(stmts_view(stmts@)),
{
    let ghost sv = stmts_view(stmts@);
    let calc = extract_calculated_vars(stmts);
    let mut found: Vec<String> = Vec::new();
    let mut i: usize = 0;
    while i < stmts.len()
        invariant
            i <= stmts.len(),
            sv == stmts_view(stmts@),
            strings_view(found@).no_duplicates(),
            forall|n: Seq<char>| strings_view(found@).to_set().contains(n) <==> exists|k: int|
                0 <= k < i && #[trigger] stmt_named_vars(sv[k]).contains(n),
        decreases stmts.len() - i,
    {
        let ghost prev = strings_view(found@).to_set();
        collect_stmt_vars(&stmts[i], &mut found);
        assert(sv[i as int] == stmts@[i as int]@);
        assert forall|n: Seq<char>| strings_view(found@).to_set().contains(n) <==> exists|k: int|
            0 <= k < i + 1 && #[trigger] stmt_named_vars(sv[k]).contains(n) by {
            if strings_view(found@).to_set().contains(n) && !prev.contains(n) {
                assert(stmt_named_vars(sv[i as int]).contains(n));
            }
            if exists|k: int| 0 <= k < i + 1 && #[trigger] stmt_named_vars(sv[k]).contains(n) {
                let k = choose|k: int| 0 <= k < i + 1 && #[trigger] stmt_named_vars(sv[k]).contains(n);
                if k == i {
                    assert(stmt_named_vars(stmts@[i as int]@).contains(n));
                }
            }
        }
        i = i + 1;
    }
    assert(strings_view(found@).to_set() =~= used_vars(sv).union(declared_vars(sv))) by {
        assert forall|n: Seq<char>| strings_view(found@).to_set().contains(n) <==> used_vars(sv).union(declared_vars(sv)).contains(n) by {
            if strings_view(found@).to_set().contains(n) {
                let k = choose|k: int| 0 <= k < sv.len() && #[trigger] stmt_named_vars(sv[k]).contains(n);
                if stmt_used_vars(sv[k]).contains(n) {
                    assert(used_vars(sv).contains(n));
                } else {
                    assert(declared_vars(sv).contains(n));
                }
            }
            if used_vars(sv).contains(n) {
                let k = choose|k: int| 0 <= k < sv.len() && #[trigger] stmt_used_vars(sv[k]).contains(n);
                assert(stmt_named_vars(sv[k]).contains(n));
            }
            if declared_vars(sv).contains(n) {
                let k = choose|k: int| 0 <= k < sv.len() && #[trigger] stmt_declared_vars(sv[k]).contains(n);
                assert(stmt_named_vars(sv[k]).contains(n));
            }
        }
    }
    let mut out: Vec<String> = Vec::new();
    let mut j: usize = 0;
    while j < found.len()
        invariant
            j <= found.len(),
            strings_view(found@).no_duplicates(),
            strings_view(found@).to_set() == used_vars(sv).union(declared_vars(sv)),
            strings_view(calc@).to_set() == calc_vars(sv),
            strictly_sorted(strings_view(out@)),
            strings_view(out@).to_set() == strings_view(found@.subrange(0, j as int)).to_set().difference(calc_vars(sv)),
        decreases found.len() - j,
    {
        let ghost fv = strings_view(found@);
        assert(strings_view(found@.subrange(0, j + 1)) =~= strings_view(found@.subrange(0, j as int)).push(fv[j as int]));
        proof {
            broadcast use vstd::seq_lib::group_seq_properties;
        }
        if !contains_string(&calc, &found[j]) {
            assert(!strings_view(out@).contains(fv[j as int])) by {
                broadcast use vstd::seq_lib::group_seq_properties;
                if strings_view(out@).contains(fv[j as int]) {
                    assert(strings_view(out@).to_set().contains(fv[j as int]));
                    let k = choose|k: int| 0 <= k < j && strings_view(found@.subrange(0, j as int))[k] == fv[j as int];
                    assert(fv[k] == fv[j as int]);
                }
            }
            insert_sorted(&mut out, found[j].clone());
            assert(strings_view(out@).to_set() =~= strings_view(found@.subrange(0, j + 1)).to_set().difference(calc_vars(sv)));
        } else {
            assert(strings_view(calc@).to_set().contains(fv[j as int]));
            assert(strings_view(out@).to_set() =~= strings_view(found@.subrange(0, j + 1)).to_set().difference(calc_vars(sv)));
        }
        j = j + 1;
    }
    assert(found@.subrange(0, found.len() as int) =~= found@);
    assert(strings_view(out@).to_set() =~= free_vars(sv));
    out
}


// ---------------------------------------------------------------- domains

/// The bounds of each declared variable: the last declaration of a variable
/// gives its bounds.
pub open spec fn domains_map(sv: Seq<StmtV>) -> Map<Seq<char>, (Seq<char>, Seq<char>)>
    decreases sv.len(),
{
    if sv.len() == 0 {
        Map::empty()
    } else {
        let m = domains_map(sv.drop_last());
        match sv.last() {
            StmtV::Domain { variables, min, max, .. } => m.union_prefer_right(
                declared(variables, (min, max)),
            ),
            _ => m,
        }
    }
}

/// Each of `variables` mapped to `bounds`.
pub open spec fn declared(variables: Seq<Seq<char>>, bounds: (Seq<char>, Seq<char>)) -> Map<Seq<char>, (Seq<char>, Seq<char>)> {
    Map::new(|n: Seq<char>| variables.contains(n), |n: Seq<char>| bounds)
}

/// The value of a list of domain entries.
pub open spec fn entries_view(v: Seq<(String, (String, String))>) -> Seq<(Seq<char>, (Seq<char>, Seq<char>))> {
    v.map_values(|e: (String, (String, String))| (e.0@, (e.1.0@, e.1.1@)))
}

/// A list of entries with distinct names that holds exactly the map `m`.
pub open spec fn represents(ev: Seq<(Seq<char>, (Seq<char>, Seq<char>))>, m: Map<Seq<char>, (Seq<char>, Seq<char>)>) -> bool {
    &&& forall|i: int, j: int| 0 <= i < j < ev.len() ==> ev[i].0 != ev[j].0
    &&& forall|n: Seq<char>| m.dom().contains(n) <==> exists|i: int| 0 <= i < ev.len() && #[trigger] ev[i].0 == n
    &&& forall|i: int| 0 <= i < ev.len() ==> m[#[trigger] ev[i].0] == ev[i].1
}

proof fn lemma_declared_step(
    m0: Map<Seq<char>, (Seq<char>, Seq<char>)>,
    vv: Seq<Seq<char>>,
    j: int,
    bounds: (Seq<char>, Seq<char>),
)
    requires
        0 <= j < vv.len(),
    ensures
        m0.union_prefer_right(declared(vv.subrange(0, j), bounds)).insert(vv[j], bounds)
            == m0.union_prefer_right(declared(vv.subrange(0, j + 1), bounds)),
{
    let a = m0.union_prefer_right(declared(vv.subrange(0, j), bounds)).insert(vv[j], bounds);
    let b = m0.union_prefer_right(declared(vv.subrange(0, j + 1), bounds));
    assert forall|n: Seq<char>| vv.subrange(0, j + 1).contains(n) <==> (vv.subrange(0, j).contains(n) || n == vv[j]) by {
        if vv.subrange(0, j + 1).contains(n) {
            let k = choose|k: int| 0 <= k < j + 1 && #[trigger] vv.subrange(0, j + 1)[k] == n;
            if k < j {
                assert(vv.subrange(0, j)[k] == n);
            }
        }
        if vv.subrange(0, j).contains(n) {
            let k = choose|k: int| 0 <= k < j && #[trigger] vv.subrange(0, j)[k] == n;
            assert(vv.subrange(0, j + 1)[k] == n);
        }
        if n == vv[j] {
            assert(vv.subrange(0, j + 1)[j] == n);
        }
    }
    assert forall|n: Seq<char>| a.dom().contains(n) <==> b.dom().contains(n) by {
        assert(declared(vv.subrange(0, j), bounds).dom().contains(n) == vv.subrange(0, j).contains(n));
        assert(declared(vv.subrange(0, j + 1), bounds).dom().contains(n) == vv.subrange(0, j + 1).contains(n));
    }
    assert forall|n: Seq<char>| a.dom().contains(n) implies a[n] == b[n] by {
        assert(declared(vv.subrange(0, j), bounds).dom().contains(n) == vv.subrange(0, j).contains(n));
        assert(declared(vv.subrange(0, j + 1), bounds).dom().contains(n) == vv.subrange(0, j + 1).contains(n));
    }
    assert(a =~= b);
}

fn set_entry(entries: &mut Vec<(String, (String, String))>, name: &String, lo: &String, hi: &String, Ghost(m): Ghost<Map<Seq<char>, (Seq<char>, Seq<char>)>>)
    requires
        represents(entries_view(old(entries)@), m),
    ensures
        represents(entries_view(final(entries)@), m.insert(name@, (lo@, hi@))),
{
    let ghost ev0 = entries_view(entries@);
    let mut i: usize = 0;
    while i < entries.len()
        invariant
            i <= entries.len(),
            ev0 == entries_view(entries@),
            represents(ev0, m),
            forall|k: int| 0 <= k < i ==> ev0[k].0 != name@,
        decreases entries.len() - i,
    {
        if entries[i].0 == *name {
            let e = (entries[i].0.clone(), (lo.clone(), hi.clone()));
            entries.set(i, e);
            let ghost ev = entries_view(entries@);
            assert(ev0[i as int].0 == name@);
            assert(ev =~= ev0.update(i as int, (name@, (lo@, hi@))));
            assert forall|k: int| 0 <= k < ev.len() implies ev[k].0 == ev0[k].0 by {}
            assert forall|n: Seq<char>| m.insert(name@, (lo@, hi@)).dom().contains(n) <==> exists|k: int| 0 <= k < ev.len() && #[trigger] ev[k].0 == n by {
                if m.dom().contains(n) && n != name@ {
                    let k = choose|k: int| 0 <= k < ev0.len() && #[trigger] ev0[k].0 == n;
                    assert(ev[k].0 == n);
                }
                if n == name@ {
                    assert(ev[i as int].0 == n);
                }
                if exists|k: int| 0 <= k < ev.len() && #[trigger] ev[k].0 == n {
                    let k = choose|k: int| 0 <= k < ev.len() && #[trigger] ev[k].0 == n;
                    if k != i {
                        assert(ev0[k].0 == n);
                    }
                }
            }
            assert forall|a: int| 0 <= a < ev.len() implies m.insert(name@, (lo@, hi@))[#[trigger] ev[a].0] == ev[a].1 by {
                if a != i {
                    assert(ev[a] == ev0[a]);
                    assert(ev0[a].0 != ev0[i as int].0);
                }
            }
            return;
        }
        i = i + 1;
    }
    let e = (name.clone(), (lo.clone(), hi.clone()));
    entries.push(e);
    let ghost ev = entries_view(entries@);
    assert(ev =~= ev0.push((name@, (lo@, hi@))));
    assert forall|n: Seq<char>| m.insert(name@, (lo@, hi@)).dom().contains(n) <==> exists|k: int| 0 <= k < ev.len() && #[trigger] ev[k].0 == n by {
        if m.dom().contains(n) && n != name@ {
            let k = choose|k: int| 0 <= k < ev0.len() && #[trigger] ev0[k].0 == n;
            assert(ev[k].0 == n);
        }
        if n == name@ {
            assert(ev[ev0.len() as int].0 == n);
        }
        if exists|k: int| 0 <= k < ev.len() && #[trigger] ev[k].0 == n {
            let k = choose|k: int| 0 <= k < ev.len() && #[trigger] ev[k].0 == n;
            if k < ev0.len() {
                assert(ev0[k].0 == n);
            }
        }
    }
    assert forall|a: int| 0 <= a < ev.len() implies m.insert(name@, (lo@, hi@))[#[trigger] ev[a].0] == ev[a].1 by {
        if a < ev0.len() {
            assert(ev[a] == ev0[a]);
        }
    }
}

/// The bounds of each declared variable, one entry per variable; the last
/// declaration of a variable gives its bounds.
pub fn extract_domains(stmts: &[Statement]) -> (r: Vec<(String, (String, String))>)
    ensures
        represents(entries_view(r@), domains_map(stmts_view(stmts@))),
{
    let ghost sv = stmts_view(stmts@);
    let mut entries: Vec<(String, (String, String))> = Vec::new();
    let mut i: usize = 0;
    assert(domains_map(sv.subrange(0, 0)) =~= Map::empty());
    while i < stmts.len()
        invariant
            i <= stmts.len(),
            sv == stmts_view(stmts@),
            represents(entries_view(entries@), domains_map(sv.subrange(0, i as int))),
        decreases stmts.len() - i,
    {
        let ghost m0 = domains_map(sv.subrange(0, i as int));
        assert(sv.subrange(0, i + 1).drop_last() =~= sv.subrange(0, i as int));
        assert(sv.subrange(0, i + 1).last() == stmts@[i as int]@);
        if let Statement::Domain { variables, min, max, .. } = &stmts[i] {
            let ghost vv = strings_view(variables@);
            let ghost bounds = (min@, max@);
            let mut j: usize = 0;
            assert(m0.union_prefer_right(declared(vv.subrange(0, 0), bounds)) =~= m0);
            while j < variables.len()
                invariant
                    j <= variables.len(),
                    vv == strings_view(variables@),
                    bounds == (min@, max@),
                    represents(entries_view(entries@), m0.union_prefer_right(declared(vv.subrange(0, j as int), bounds))),
                decreases variables.len() - j,
            {
                let ghost mj = m0.union_prefer_right(declared(vv.subrange(0, j as int), bounds));
                set_entry(&mut entries, &variables[j], min, max, Ghost(mj));
                proof {
                    lemma_declared_step(m0, vv, j as int, bounds);
                }
                j = j + 1;
            }
            assert(vv.subrange(0, variables.len() as int) =~= vv);
        }
        i = i + 1;
    }
    assert(sv.subrange(0, stmts.len() as int) =~= sv);
    entries
}

// ---------------------------------------------------------------- constraints

/// The constraints among `sv`, in order.
pub open spec fn constraints_of(sv: Seq<StmtV>) -> Seq<StmtV>
    decreases sv.len(),
{
    if sv.len() == 0 {
        Seq::empty()
    } else if sv.last() is Constraint {
        constraints_of(sv.drop_last()).push(sv.last())
    } else {
        constraints_of(sv.drop_last())
    }
}

/// The constraints of a script, in order.
pub fn extract_constraints(stmts: &[Statement]) -> (r: Vec<&Statement>)
    ensures
        r@.map_values(|s: &Statement| s@) == constraints_of(stmts_view(stmts@)),
{
    let ghost sv = stmts_view(stmts@);
    let mut out: Vec<&Statement> = Vec::new();
    let mut i: usize = 0;
    assert(out@.map_values(|s: &Statement| s@) =~= constraints_of(sv.subrange(0, 0)));
    while i < stmts.len()
        invariant
            i <= stmts.len(),
            sv == stmts_view(stmts@),
            out@.map_values(|s: &Statement| s@) == constraints_of(sv.subrange(0, i as int)),
        decreases stmts.len() - i,
    {
        assert(sv.subrange(0, i + 1).drop_last() =~= sv.subrange(0, i as int));
        assert(sv.subrange(0, i + 1).last() == stmts@[i as int]@);
        let st = &stmts[i];
        if let Statement::Constraint { .. } = st {
            let ghost before = out@.map_values(|s: &Statement| s@);
            out.push(st);
            assert(out@.map_values(|s: &Statement| s@) =~= before.push(st@));
        }
        i = i + 1;
    }
    assert(sv.subrange(0, stmts.len() as int) =~= sv);
    out
}

} // verus!
