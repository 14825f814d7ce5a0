//! The project-wide check made before a rename: an exported symbol renamed
//! to a name that another workspace export already has would collide.

use vstd::prelude::*;

use crate::text::chars_lt;
use crate::workspace::{same_export_edge, FileId, LocatedModuleExport, TextRange};

verus! {

/// A symbol being renamed: its file, its name and where it is declared,
/// and the workspace exports that export it.
pub struct RenameTarget {
    pub file_id: FileId,
    pub name: String,
    pub declaration_range: TextRange,
    pub exports: Vec<LocatedModuleExport>,
}

/// A workspace export that has the new name, with the file and symbol that
/// identify it, if any.
pub struct NamedExport {
    pub export: LocatedModuleExport,
    pub identity: Option<(FileId, u32)>,
}

/// The kinds of issue the project-wide check finds.
#[derive(Clone, Copy, PartialEq, Eq, Debug)]
pub enum RenameIssueKind {
    DuplicateDefinition,
}

/// An issue found before a rename, in the file of the renamed symbol.
pub struct RenameIssue {
    pub file_id: FileId,
    pub kind: RenameIssueKind,
    pub message: String,
    pub range: TextRange,
    pub related_symbol: Option<(FileId, u32)>,
}

/// The model of an issue: file, range, message and related symbol.
pub open spec fn issue_view(i: RenameIssue) -> (u32, TextRange, Seq<char>, Option<(FileId, u32)>) {
    (i.file_id.0, i.range, i.message@, i.related_symbol)
}

/// The models of issues.
pub open spec fn issue_views(is: Seq<RenameIssue>) -> Seq<(u32, TextRange, Seq<char>, Option<(FileId, u32)>)> {
    Seq::new(is.len(), |k: int| issue_view(is[k]))
}

/// The message of a collision.
pub open spec fn collision_message(name: Seq<char>, new_name: Seq<char>) -> Seq<char> {
    "renaming exported symbol `"@ + name + "` to `"@ + new_name + "` would collide with another workspace export"@
}

/// The collisions of one export of a target with the exports named like
/// the new name, in order: none when the export already has the new name,
/// else one for each of those exports that is another export edge.
pub open spec fn export_collisions(
    t: RenameTarget,
    e: LocatedModuleExport,
    new_name: Seq<char>,
    named: Seq<NamedExport>,
) -> Seq<(u32, TextRange, Seq<char>, Option<(FileId, u32)>)>
    decreases named.len(),
{
    if named.len() == 0 || (e.export.exported_name matches Some(n) && n@ == new_name) {
        Seq::empty()
    } else {
        let before = export_collisions(t, e, new_name, named.drop_last());
        let c = named.last();
        if e.file_id == c.export.file_id && e.export.export == c.export.export.export {
            before
        } else {
            before.push((t.file_id.0, t.declaration_range, collision_message(t.name@, new_name), c.identity))
        }
    }
}

/// The collisions of the first `n` exports of a target, in order.
pub open spec fn target_collisions(t: RenameTarget, n: int, new_name: Seq<char>, named: Seq<NamedExport>) -> Seq<
    (u32, TextRange, Seq<char>, Option<(FileId, u32)>),
>
    decreases n,
{
    if n <= 0 {
        Seq::empty()
    } else {
        target_collisions(t, n - 1, new_name, named) + export_collisions(t, t.exports@[n - 1], new_name, named)
    }
}

/// The collisions of all targets, in order.
pub open spec fn all_collisions(ts: Seq<RenameTarget>, new_name: Seq<char>, named: Seq<NamedExport>) -> Seq<
    (u32, TextRange, Seq<char>, Option<(FileId, u32)>),
>
    decreases ts.len(),
{
    if ts.len() == 0 {
        Seq::empty()
    } else {
        all_collisions(ts.drop_last(), new_name, named) + target_collisions(
            ts.last(),
            ts.last().exports@.len() as int,
            new_name,
            named,
        )
    }
}

/// The order of issues: by file, then start, then message.
pub open spec fn issue_lt(
    a: (u32, TextRange, Seq<char>, Option<(FileId, u32)>),
    b: (u32, TextRange, Seq<char>, Option<(FileId, u32)>),
) -> bool {
    ||| a.0 < b.0
    ||| a.0 == b.0 && a.1.start < b.1.start
    ||| a.0 == b.0 && a.1.start == b.1.start && chars_lt(a.2, b.2)
}

/// Whether two issues repeat each other: same file, range and message.
pub open spec fn same_issue(
    a: (u32, TextRange, Seq<char>, Option<(FileId, u32)>),
    b: (u32, TextRange, Seq<char>, Option<(FileId, u32)>),
) -> bool {
    a.0 == b.0 && a.1 == b.1 && a.2 == b.2
}

/// Inserts `x` after every issue that does not come after it.
pub open spec fn insert_issue(
    s: Seq<(u32, TextRange, Seq<char>, Option<(FileId, u32)>)>,
    x: (u32, TextRange, Seq<char>, Option<(FileId, u32)>),
) -> Seq<(u32, TextRange, Seq<char>, Option<(FileId, u32)>)>
    decreases s.len(),
{
    if s.len() > 0 && issue_lt(x, s.last()) {
        insert_issue(s.drop_last(), x).push(s.last())
    } else {
        s.push(x)
    }
}

/// The stable sort of issues by `issue_lt`.
pub open spec fn sorted_issues(s: Seq<(u32, TextRange, Seq<char>, Option<(FileId, u32)>)>) -> Seq<
    (u32, TextRange, Seq<char>, Option<(FileId, u32)>),
>
    decreases s.len(),
{
    if s.len() == 0 {
        s
    } else {
        insert_issue(sorted_issues(s.drop_last()), s.last())
    }
}

/// `s` without each issue that repeats the one kept just before it.
pub open spec fn distinct_issues(s: Seq<(u32, TextRange, Seq<char>, Option<(FileId, u32)>)>) -> Seq<
    (u32, TextRange, Seq<char>, Option<(FileId, u32)>),
>
    decreases s.len(),
{
    if s.len() == 0 {
        s
    } else {
        let d = distinct_issues(s.drop_last());
        if d.len() > 0 && same_issue(s.last(), d.last()) {
            d
        } else {
            d.push(s.last())
        }
    }
}

fn issue_less(a: &RenameIssue, b: &RenameIssue) -> (r: bool)
    ensures
        r == issue_lt(issue_view(*a), issue_view(*b)),
{
    if a.file_id.0 != b.file_id.0 {
        return a.file_id.0 < b.file_id.0;
    }
    if a.range.start != b.range.start {
        return a.range.start < b.range.start;
    }
    crate::text::str_less(a.message.as_str(), b.message.as_str())
}

proof fn lemma_insert_issue_at(
    s: Seq<(u32, TextRange, Seq<char>, Option<(FileId, u32)>)>,
    x: (u32, TextRange, Seq<char>, Option<(FileId, u32)>),
    p: int,
)
    requires
        0 <= p <= s.len(),
        forall|j: int| p <= j < s.len() ==> issue_lt(x, #[trigger] s[j]),
        p == 0 || !issue_lt(x, s[p - 1]),
    ensures
        insert_issue(s, x) == s.insert(p, x),
    decreases s.len(),
{
    if p < s.len() {
        assert(issue_lt(x, s[s.len() - 1]));
        let t = s.drop_last();
        assert(p == 0 || !issue_lt(x, t[p - 1]));
        lemma_insert_issue_at(t, x, p);
        assert(insert_issue(s, x) =~= s.insert(p, x));
    } else {
        assert(insert_issue(s, x) =~= s.insert(p, x));
    }
}

fn insert_sorted_issue(sorted: &mut Vec<RenameIssue>, x: RenameIssue)
    ensures
        issue_views(final(sorted)@) == insert_issue(issue_views(old(sorted)@), issue_view(x)),
{
    let ghost s = issue_views(sorted@);
    let mut p: usize = sorted.len();
    while p > 0 && issue_less(&x, &sorted[p - 1])
        invariant
            p <= sorted.len(),
            s == issue_views(sorted@),
            forall|j: int| p <= j < sorted.len() ==> issue_lt(issue_view(x), #[trigger] s[j]),
        decreases p,
    {
        p -= 1;
    }
    proof {
        lemma_insert_issue_at(s, issue_view(x), p as int);
    }
    sorted.insert(p, x);
    assert(issue_views(sorted@) =~= s.insert(p as int, issue_view(x)));
}

/// Orders issues by file, start and message, keeping the order of those
/// that tie, and drops each one that repeats the one kept just before it.
fn order_issues(issues: Vec<RenameIssue>) -> (r: Vec<RenameIssue>)
    ensures
        issue_views(r@) == distinct_issues(sorted_issues(issue_views(issues@))),
{
    let ghost input = issue_views(issues@);
    let mut rest = issues;
    let mut sorted: Vec<RenameIssue> = Vec::new();
    let ghost mut k: int = 0;
    while rest.len() > 0
        invariant
            0 <= k <= input.len(),
            issue_views(sorted@) == sorted_issues(input.take(k)),
            issue_views(rest@) == input.skip(k),
            k + rest.len() == input.len(),
        decreases rest.len(),
    {
        assert(issue_views(rest@)[0] == input[k]);
        let ghost prev = rest@;
        let x = rest.remove(0);
        proof {
            assert(issue_view(x) == input[k]);
            assert(input.take(k + 1).drop_last() =~= input.take(k));
            assert forall|i: int| 0 <= i < rest.len() implies issue_views(rest@)[i] == input.skip(k + 1)[i] by {
                assert(rest@[i] == prev[i + 1]);
                assert(issue_views(prev)[i + 1] == input.skip(k)[i + 1]);
            }
            assert(issue_views(rest@) =~= input.skip(k + 1));
        }
        insert_sorted_issue(&mut sorted, x);
        proof {
            k = k + 1;
        }
    }
    assert(input.take(k) =~= input);
    let ghost ordered = issue_views(sorted@);
    let mut out: Vec<RenameIssue> = Vec::new();
    let ghost mut m: int = 0;
    while sorted.len() > 0
        invariant
            0 <= m <= ordered.len(),
            issue_views(out@) == distinct_issues(ordered.take(m)),
            issue_views(sorted@) == ordered.skip(m),
            m + sorted.len() == ordered.len(),
        decreases sorted.len(),
    {
        assert(issue_views(sorted@)[0] == ordered[m]);
        let ghost prev = sorted@;
        let x = sorted.remove(0);
        proof {
            assert(issue_view(x) == ordered[m]);
            assert(ordered.take(m + 1).drop_last() =~= ordered.take(m));
            assert forall|i: int| 0 <= i < sorted.len() implies issue_views(sorted@)[i] == ordered.skip(m + 1)[i] by {
                assert(sorted@[i] == prev[i + 1]);
                assert(issue_views(prev)[i + 1] == ordered.skip(m)[i + 1]);
            }
            assert(issue_views(sorted@) =~= ordered.skip(m + 1));
        }
        let repeat = out.len() > 0 && {
            let last = &out[out.len() - 1];
            x.file_id.0 == last.file_id.0 && x.range.start == last.range.start && x.range.end == last.range.end
                && crate::generics::str_eq(x.message.as_str(), last.message.as_str())
        };
        if !repeat {
            let ghost before = issue_views(out@);
            out.push(x);
            assert(issue_views(out@) =~= before.push(ordered[m]));
        }
        proof {
            m = m + 1;
        }
    }
    assert(ordered.take(m) =~= ordered);
    out
}

/// The issues found before renaming the targets to `new_name`: a collision
/// for each export of a target that does not already have the new name and
/// each other export edge that has it, reported at the target's declaration
/// and related to the other export's symbol; ordered by file, start and
/// message, without repeats.
pub fn project_rename_preflight_issues(targets: &[RenameTarget], new_name: &str, named: &[NamedExport]) -> (r: Vec<
    RenameIssue,
>)
    ensures
        issue_views(r@) == distinct_issues(sorted_issues(all_collisions(targets@, new_name@, named@))),
{
    let mut issues: Vec<RenameIssue> = Vec::new();
    let mut ti: usize = 0;
    while ti < targets.len()
        invariant
            0 <= ti <= targets.len(),
            issue_views(issues@) == all_collisions(targets@.take(ti as int), new_name@, named@),
        decreases targets.len() - ti,
    {
        proof {
            assert(targets@.take(ti + 1).drop_last() =~= targets@.take(ti as int));
            assert(targets@.take(ti + 1).last() == targets@[ti as int]);
        }
        let t = &targets[ti];
        let ghost base = issue_views(issues@);
        let mut ei: usize = 0;
        while ei < t.exports.len()
            invariant
                0 <= ei <= t.exports.len(),
                issue_views(issues@) == base + target_collisions(*t, ei as int, new_name@, named@),
            decreases t.exports.len() - ei,
        {
            let e = &t.exports[ei];
            let already = match &e.export.exported_name {
                Some(n) => crate::generics::str_eq(n.as_str(), new_name),
                None => false,
            };
            let ghost mid = issue_views(issues@);
            if !already {
                let mut ci: usize = 0;
                while ci < named.len()
                    invariant
                        0 <= ci <= named.len(),
                        !(e.export.exported_name matches Some(n) && n@ == new_name@),
                        issue_views(issues@) == mid + export_collisions(*t, *e, new_name@, named@.take(ci as int)),
                    decreases named.len() - ci,
                {
                    proof {
                        assert(named@.take(ci + 1).drop_last() =~= named@.take(ci as int));
                        assert(named@.take(ci + 1).last() == named@[ci as int]);
                    }
                    let c = &named[ci];
                    if !same_export_edge(e, &c.export) {
                        let mut message = String::new();
                        message.append("renaming exported symbol `");
                        message.append(t.name.as_str());
                        message.append("` to `");
                        message.append(new_name);
                        message.append("` would collide with another workspace export");
                        let issue = RenameIssue {
                            file_id: t.file_id,
                            kind: RenameIssueKind::DuplicateDefinition,
                            message,
                            range: t.declaration_range,
                            related_symbol: c.identity,
                        };
                        let ghost before = issue_views(issues@);
                        let ghost iv = issue_view(issue);
                        issues.push(issue);
                        assert(issue_views(issues@) =~= before.push(iv));
                    }
                    ci += 1;
                }
                assert(named@.take(ci as int) =~= named@);
            } else {
                assert(export_collisions(*t, *e, new_name@, named@) =~= Seq::empty());
            }
            assert(base + target_collisions(*t, ei + 1, new_name@, named@) =~= (base + target_collisions(
                *t,
                ei as int,
                new_name@,
                named@,
            )) + export_collisions(*t, t.exports@[ei as int], new_name@, named@));
            ei += 1;
        }
        ti += 1;
    }
    assert(targets@.take(ti as int) =~= targets@);
    order_issues(issues)
}

} // verus!
