//! Properties of the checks of a script: when it is accepted, and that each
//! issue it reports is real.
use vstd::prelude::*;
use crate::analysis::{calc_vars, domains_map};
use crate::statement::{StmtV, is_skipped, spec_lines, spec_parse_line, spec_parse_script};
use crate::text::trim;
use crate::validate::{IssueV, assign_issues, line_issue, line_issues, spec_issues};

verus! {

proof fn lemma_clean_lines(ls: Seq<Seq<char>>)
    requires
        forall|k: int| 0 <= k < ls.len() && !is_skipped(trim(#[trigger] ls[k])) ==> spec_parse_line(trim(ls[k])) is Some,
    ensures
        line_issues(ls).len() == 0,
    decreases ls.len(),
{
    if ls.len() > 0 {
        assert forall|k: int| 0 <= k < ls.drop_first().len() && !is_skipped(trim(#[trigger] ls.drop_first()[k])) implies spec_parse_line(trim(ls.drop_first()[k])) is Some by {
            assert(ls.drop_first()[k] == ls[k + 1]);
        }
        lemma_clean_lines(ls.drop_first());
        assert(!is_skipped(trim(ls[0])) ==> spec_parse_line(trim(ls[0])) is Some);
    }
}

proof fn lemma_clean_assignments(sv: Seq<StmtV>, d: Set<Seq<char>>)
    requires
        forall|k: int| 0 <= k < sv.len() ==> (#[trigger] sv[k] matches StmtV::Assignment { lhs, .. } ==> !d.contains(lhs)),
    ensures
        assign_issues(sv, d).len() == 0,
    decreases sv.len(),
{
    if sv.len() > 0 {
        assert forall|k: int| 0 <= k < sv.drop_first().len() implies (#[trigger] sv.drop_first()[k] matches StmtV::Assignment { lhs, .. } ==> !d.contains(lhs)) by {
            assert(sv.drop_first()[k] == sv[k + 1]);
        }
        lemma_clean_assignments(sv.drop_first(), d);
        assert(sv[0] matches StmtV::Assignment { lhs, .. } ==> !d.contains(lhs));
    }
}

/// A script whose every line that is neither empty nor a comment is a
/// statement, and whose assignments define no variable that a domain declares,
/// has no issue.
pub proof fn law_clean_script_validates(script: Seq<char>)
    requires
        forall|k: int| 0 <= k < spec_lines(script).len() && !is_skipped(trim(#[trigger] spec_lines(script)[k]))
            ==> spec_parse_line(trim(spec_lines(script)[k])) is Some,
        calc_vars(spec_parse_script(script)).disjoint(domains_map(spec_parse_script(script)).dom()),
    ensures
        spec_issues(script).len() == 0,
{
    let sv = spec_parse_script(script);
    let d = domains_map(sv).dom();
    lemma_clean_lines(spec_lines(script));
    assert forall|k: int| 0 <= k < sv.len() implies (#[trigger] sv[k] matches StmtV::Assignment { lhs, .. } ==> !d.contains(lhs)) by {
        if let StmtV::Assignment { lhs, .. } = sv[k] {
            assert(calc_vars(sv).contains(lhs));
        }
    }
    lemma_clean_assignments(sv, d);
}

/// An issue is real: an unrecognized line is the trimmed text of a line that is
/// neither empty, a comment nor a statement; a variable reported as assigned
/// with a domain is defined by an assignment and declared by a domain.
pub open spec fn issue_is_real(i: IssueV, ls: Seq<Seq<char>>, sv: Seq<StmtV>, d: Set<Seq<char>>) -> bool {
    match i {
        IssueV::UnrecognizedLine(t) => exists|j: int|
            0 <= j < ls.len() && trim(#[trigger] ls[j]) == t && !is_skipped(t) && spec_parse_line(t) is None,
        IssueV::AssignedWithDomain(n) => calc_vars(sv).contains(n) && d.contains(n),
    }
}

proof fn lemma_line_issues_real(ls: Seq<Seq<char>>, sv: Seq<StmtV>, d: Set<Seq<char>>)
    ensures
        forall|k: int| 0 <= k < line_issues(ls).len() ==> issue_is_real(#[trigger] line_issues(ls)[k], ls, sv, d),
    decreases ls.len(),
{
    if ls.len() > 0 {
        let rest = ls.drop_first();
        lemma_line_issues_real(rest, sv, d);
        let head = line_issue(ls[0]);
        assert forall|k: int| 0 <= k < line_issues(ls).len() implies issue_is_real(#[trigger] line_issues(ls)[k], ls, sv, d) by {
            if k < head.len() {
                assert(line_issues(ls)[k] == head[k]);
                assert(trim(ls[0]) == trim(ls[0]));
            } else {
                let i = line_issues(ls)[k];
                assert(i == line_issues(rest)[k - head.len()]);
                if let IssueV::UnrecognizedLine(t) = i {
                    let j = choose|j: int|
                        0 <= j < rest.len() && trim(#[trigger] rest[j]) == t && !is_skipped(t) && spec_parse_line(t) is None;
                    assert(rest[j] == ls[j + 1]);
                }
            }
        }
    }
}

proof fn lemma_assign_issues_real(part: Seq<StmtV>, ls: Seq<Seq<char>>, sv: Seq<StmtV>, d: Set<Seq<char>>, off: int)
    requires
        0 <= off,
        off + part.len() == sv.len(),
        forall|k: int| 0 <= k < part.len() ==> #[trigger] part[k] == sv[off + k],
    ensures
        forall|k: int| 0 <= k < assign_issues(part, d).len() ==> issue_is_real(#[trigger] assign_issues(part, d)[k], ls, sv, d),
    decreases part.len(),
{
    if part.len() > 0 {
        let rest = part.drop_first();
        assert forall|k: int| 0 <= k < rest.len() implies #[trigger] rest[k] == sv[off + 1 + k] by {
            assert(rest[k] == part[k + 1]);
        }
        lemma_assign_issues_real(rest, ls, sv, d, off + 1);
        assert(part[0] == sv[off]);
        let all = assign_issues(part, d);
        assert forall|k: int| 0 <= k < all.len() implies issue_is_real(#[trigger] all[k], ls, sv, d) by {
            if let StmtV::Assignment { lhs, .. } = part[0] {
                if d.contains(lhs) {
                    if k == 0 {
                        assert(sv[off] matches StmtV::Assignment { lhs: l, .. } && l == lhs);
                        assert(calc_vars(sv).contains(lhs));
                    } else {
                        assert(all[k] == assign_issues(rest, d)[k - 1]);
                    }
                } else {
                    assert(all[k] == assign_issues(rest, d)[k]);
                }
            } else {
                assert(all[k] == assign_issues(rest, d)[k]);
            }
        }
    }
}

/// Every issue that the checks report is real.
pub proof fn law_issues_are_real(script: Seq<char>)
    ensures
        forall|k: int| 0 <= k < spec_issues(script).len() ==> issue_is_real(
            #[trigger] spec_issues(script)[k],
            spec_lines(script),
            spec_parse_script(script),
            domains_map(spec_parse_script(script)).dom(),
        ),
{
    let ls = spec_lines(script);
    let sv = spec_parse_script(script);
    let d = domains_map(sv).dom();
    lemma_line_issues_real(ls, sv, d);
    lemma_assign_issues_real(sv, ls, sv, d, 0);
    let a = line_issues(ls);
    let b = assign_issues(sv, d);
    assert forall|k: int| 0 <= k < spec_issues(script).len() implies issue_is_real(#[trigger] spec_issues(script)[k], ls, sv, d) by {
        if k < a.len() {
            assert(spec_issues(script)[k] == a[k]);
        } else {
            assert(spec_issues(script)[k] == b[k - a.len()]);
        }
    }
}

} // verus!
