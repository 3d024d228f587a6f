//! Checks of a script that need no solving: every line must be a statement,
//! and a variable with a domain (a free variable) must not also be assigned.
use vstd::prelude::*;
use crate::analysis::{domains_map, entries_view, extract_domains, represents};
use crate::statement::{
    Statement, StmtV, is_skipped, parse_line, parse_script, spec_lines, spec_parse_line,
    spec_parse_script, stmts_view,
};
use crate::text::{
    chars_of, chars_of_string, find_char, push_all, push_str, slice, string_of_all, trim, trim_chars,
};
use crate::statement::lemma_find_char;

verus! {

/// A problem found in a script.
#[derive(Debug, Clone, PartialEq)]
pub enum ValidationIssue {
    /// A line that is neither empty, a comment nor a statement (its trimmed text).
    UnrecognizedLine(String),
    /// A variable that an assignment defines although a domain declares it.
    AssignedWithDomain(String),
}

/// The mathematical value of an issue.
pub enum IssueV {
    UnrecognizedLine(Seq<char>),
    AssignedWithDomain(Seq<char>),
}

impl View for ValidationIssue {
    type V = IssueV;

    open spec fn view(&self) -> IssueV {
        match self {
            ValidationIssue::UnrecognizedLine(s) => IssueV::UnrecognizedLine(s@),
            ValidationIssue::AssignedWithDomain(s) => IssueV::AssignedWithDomain(s@),
        }
    }
}

/// The message of an issue: `Línea no reconocida: '<line>'` or
/// `La variable '<name>' tiene dominio y no puede asignarse`.
pub open spec fn issue_message(i: IssueV) -> Seq<char> {
    match i {
        IssueV::UnrecognizedLine(l) => "Línea no reconocida: '"@ + l + "'"@,
        IssueV::AssignedWithDomain(n) => "La variable '"@ + n + "' tiene dominio y no puede asignarse"@,
    }
}

impl ValidationIssue {
    /// The message of the issue, as shown to a user.
    pub fn message(&self) -> (r: String)
        ensures
            r@ == issue_message(self@),
    {
        let mut out: Vec<char> = Vec::new();
        match self {
            ValidationIssue::UnrecognizedLine(l) => {
                push_str(&mut out, "Línea no reconocida: '");
                push_all(&mut out, &chars_of_string(l));
                push_str(&mut out, "'");
                assert(out@ =~= "Línea no reconocida: '"@ + l@ + "'"@);
            },
            ValidationIssue::AssignedWithDomain(n) => {
                push_str(&mut out, "La variable '");
                push_all(&mut out, &chars_of_string(n));
                push_str(&mut out, "' tiene dominio y no puede asignarse");
                assert(out@ =~= "La variable '"@ + n@ + "' tiene dominio y no puede asignarse"@);
            },
        }
        string_of_all(&out)
    }
}

pub open spec fn issues_view(v: Seq<ValidationIssue>) -> Seq<IssueV> {
    v.map_values(|i: ValidationIssue| i@)
}

/// The issue of one line, if it holds text that is no statement.
pub open spec fn line_issue(l: Seq<char>) -> Seq<IssueV> {
    let t = trim(l);
    if !is_skipped(t) && spec_parse_line(t) is None {
        seq![IssueV::UnrecognizedLine(t)]
    } else {
        Seq::empty()
    }
}

/// The unrecognized lines among `ls`, in order.
pub open spec fn line_issues(ls: Seq<Seq<char>>) -> Seq<IssueV>
    decreases ls.len(),
{
    if ls.len() == 0 {
        Seq::empty()
    } else {
        line_issue(ls[0]) + line_issues(ls.drop_first())
    }
}

/// The assignments among `sv` that define a name of `declared`, in order.
pub open spec fn assign_issues(sv: Seq<StmtV>, declared: Set<Seq<char>>) -> Seq<IssueV>
    decreases sv.len(),
{
    if sv.len() == 0 {
        Seq::empty()
    } else {
        let head = match sv[0] {
            StmtV::Assignment { lhs, .. } => if declared.contains(lhs) {
                seq![IssueV::AssignedWithDomain(lhs)]
            } else {
                Seq::empty()
            },
            _ => Seq::empty(),
        };
        head + assign_issues(sv.drop_first(), declared)
    }
}

/// The issues of a script: its unrecognized lines, then its assignments to
/// variables that a domain declares.
pub open spec fn spec_issues(script: Seq<char>) -> Seq<IssueV> {
    let sv = spec_parse_script(script);
    line_issues(spec_lines(script)) + assign_issues(sv, domains_map(sv).dom())
}

fn unrecognized_lines(script: &str) -> (r: Vec<ValidationIssue>)
    ensures
        issues_view(r@) == line_issues(spec_lines(script@)),
{
    let mut rest = chars_of(script);
    let mut out: Vec<ValidationIssue> = Vec::new();
    assert(issues_view(out@) =~= Seq::<IssueV>::empty());
    loop
        invariant_except_break
            line_issues(spec_lines(script@)) == issues_view(out@) + line_issues(spec_lines(rest@)),
        ensures
            line_issues(spec_lines(script@)) == issues_view(out@),
        decreases rest.len(),
    {
        proof {
            lemma_find_char(rest@, '\n');
        }
        let ghost before = issues_view(out@);
        let (line, next, last) = match find_char(&rest, '\n') {
            None => (slice(&rest, 0, rest.len()), Vec::new(), true),
            Some(i) => {
                let l = slice(&rest, 0, i);
                let l = if l.len() > 0 && l[l.len() - 1] == '\r' {
                    slice(&l, 0, l.len() - 1)
                } else {
                    l
                };
                (l, slice(&rest, i + 1, rest.len()), false)
            },
        };
        let t = trim_chars(&line);
        let skipped = t.len() == 0 || (t.len() >= 2 && t[0] == '/' && t[1] == '/');
        let mut added = false;
        if !skipped {
            let parsed = parse_line(&t);
            if parsed.is_none() {
                out.push(ValidationIssue::UnrecognizedLine(string_of_all(&t)));
                added = true;
            }
        }
        proof {
            if added {
                assert(issues_view(out@) =~= before + line_issue(line@));
            } else {
                assert(issues_view(out@) =~= before + line_issue(line@));
            }
        }
        if last {
            proof {
                if rest@.len() > 0 {
                    assert(rest@.subrange(0, rest@.len() as int) =~= rest@);
                    assert(spec_lines(rest@) == seq![rest@]);
                    assert(seq![rest@].drop_first() =~= Seq::<Seq<char>>::empty());
                    assert(line_issues(Seq::<Seq<char>>::empty()) == Seq::<IssueV>::empty());
                    assert(line_issues(seq![rest@]) =~= line_issue(rest@));
                } else {
                    assert(spec_lines(rest@) == Seq::<Seq<char>>::empty());
                    assert(line@ =~= Seq::<char>::empty());
                    assert(trim(line@) =~= Seq::<char>::empty());
                    assert(issues_view(out@) =~= before);
                }
            }
            break;
        }
        proof {
            let ls = seq![line@] + spec_lines(next@);
            assert(spec_lines(rest@) == ls);
            assert(ls.drop_first() =~= spec_lines(next@));
            assert(line_issues(ls) == line_issue(line@) + line_issues(spec_lines(next@)));
            assert(issues_view(out@) + line_issues(spec_lines(next@)) =~= before + (line_issue(line@) + line_issues(spec_lines(next@))));
        }
        rest = next;
    }
    out
}

fn is_declared(entries: &Vec<(String, (String, String))>, name: &String) -> (r: bool)
    ensures
        r == exists|i: int| 0 <= i < entries_view(entries@).len() && #[trigger] entries_view(entries@)[i].0 == name@,
{
    let mut i: usize = 0;
    while i < entries.len()
        invariant
            i <= entries.len(),
            forall|k: int| 0 <= k < i ==> entries_view(entries@)[k].0 != name@,
        decreases entries.len() - i,
    {
        if entries[i].0 == *name {
            assert(entries_view(entries@)[i as int].0 == name@);
            return true;
        }
        i = i + 1;
    }
    false
}

/// Checks a script without solving it: `Ok` when it has no issue, else the
/// issues, the unrecognized lines first, each group in the order of the script.
pub fn validate_dsl(script: &str) -> (r: Result<(), Vec<ValidationIssue>>)
    ensures
        spec_issues(script@).len() == 0 ==> r is Ok,
        spec_issues(script@).len() > 0 ==> (r matches Err(v) && issues_view(v@) == spec_issues(script@)),
{
    let mut issues = unrecognized_lines(script);
    let stmts = parse_script(script);
    let ghost sv = stmts_view(stmts@);
    let entries = extract_domains(&stmts);
    let ghost dom = domains_map(sv).dom();
    let ghost line_part = issues_view(issues@);
    let mut i: usize = 0;
    assert(sv.subrange(0, sv.len() as int) =~= sv);
    assert(issues_view(issues@).subrange(line_part.len() as int, issues_view(issues@).len() as int) =~= Seq::<IssueV>::empty());
    assert(Seq::<IssueV>::empty() + assign_issues(sv, dom) =~= assign_issues(sv, dom));
    assert(issues_view(issues@).subrange(0, line_part.len() as int) =~= line_part);
    while i < stmts.len()
        invariant
            i <= stmts.len(),
            sv == stmts_view(stmts@),
            represents(entries_view(entries@), domains_map(sv)),
            dom == domains_map(sv).dom(),
            assign_issues(sv, dom) == issues_view(issues@).subrange(line_part.len() as int, issues_view(issues@).len() as int) + assign_issues(sv.subrange(i as int, sv.len() as int), dom),
            issues_view(issues@).len() >= line_part.len(),
            issues_view(issues@).subrange(0, line_part.len() as int) == line_part,
        decreases stmts.len() - i,
    {
        let ghost before = issues_view(issues@);
        let ghost tail = sv.subrange(i as int, sv.len() as int);
        assert(tail[0] == stmts@[i as int]@);
        assert(tail.drop_first() =~= sv.subrange(i + 1, sv.len() as int));
        if let Statement::Assignment { lhs, .. } = &stmts[i] {
            if is_declared(&entries, lhs) {
                issues.push(ValidationIssue::AssignedWithDomain(lhs.clone()));
                assert(issues_view(issues@) =~= before.push(IssueV::AssignedWithDomain(lhs@)));
            }
        }
        assert(issues_view(issues@).subrange(0, line_part.len() as int) =~= line_part);
        assert(issues_view(issues@).subrange(line_part.len() as int, issues_view(issues@).len() as int) + assign_issues(sv.subrange(i + 1, sv.len() as int), dom)
            =~= before.subrange(line_part.len() as int, before.len() as int) + assign_issues(tail, dom));
        i = i + 1;
    }
    assert(sv.subrange(stmts.len() as int, sv.len() as int) =~= Seq::<StmtV>::empty());
    assert(issues_view(issues@) =~= line_part + issues_view(issues@).subrange(line_part.len() as int, issues_view(issues@).len() as int));
    if issues.len() == 0 {
        Ok(())
    } else {
        Err(issues)
    }
}

} // verus!
