//! Structural checks of a plan.

use vstd::hash_set::StringHashSet;
use vstd::prelude::*;

use crate::order::joined_holds;
use crate::parser::{only_action, Action, Plan, ResourceChange};
use crate::text::{debug_form, debug_text, decimal, decimal_text, opt_text, owned};

verus! {

#[derive(Debug, Clone, Copy, PartialEq, Eq, Structural)]
pub enum ValidationSeverity {
    Warning,
    Error,
}

#[derive(Debug, Clone)]
pub struct ValidationIssue {
    pub severity: ValidationSeverity,
    pub message: String,
    pub address: Option<String>,
}

/// An issue, by its texts.
pub struct IssueModel {
    pub severity: ValidationSeverity,
    pub message: Seq<char>,
    pub address: Option<Seq<char>>,
}

impl View for ValidationIssue {
    type V = IssueModel;

    open spec fn view(&self) -> IssueModel {
        IssueModel {
            severity: self.severity,
            message: self.message@,
            address: opt_text(self.address),
        }
    }
}

/// Issues, by their texts.
pub open spec fn issue_models(issues: Seq<ValidationIssue>) -> Seq<IssueModel> {
    issues.map_values(|i: ValidationIssue| i@)
}

// ── What the issues are ──────────────────────────────────────────────────────

pub open spec fn errored_issue() -> IssueModel {
    IssueModel {
        severity: ValidationSeverity::Error,
        message: "plan is marked as errored; results may be incomplete"@,
        address: None,
    }
}

pub open spec fn empty_address_issue() -> IssueModel {
    IssueModel {
        severity: ValidationSeverity::Error,
        message: "resource_change has an empty address field"@,
        address: Some(Seq::empty()),
    }
}

pub open spec fn destroy_all_issue(total: nat) -> IssueModel {
    IssueModel {
        severity: ValidationSeverity::Warning,
        message: "all "@ + decimal(total)
            + " resource(s) will be destroyed — verify this is intentional"@,
        address: None,
    }
}

pub open spec fn no_changes_issue() -> IssueModel {
    IssueModel {
        severity: ValidationSeverity::Warning,
        message: "plan contains no resource or output changes"@,
        address: None,
    }
}

pub open spec fn duplicate_issue(address: Seq<char>) -> IssueModel {
    IssueModel {
        severity: ValidationSeverity::Error,
        message: "duplicate resource address "@ + debug_form(address) + " in resource_changes"@,
        address: Some(address),
    }
}

/// An issue for each change without an address.
pub open spec fn empty_address_issues(changes: Seq<ResourceChange>) -> Seq<IssueModel>
    decreases changes.len(),
{
    if changes.len() == 0 {
        Seq::empty()
    } else if changes.last().address@.len() == 0 {
        empty_address_issues(changes.drop_last()).push(empty_address_issue())
    } else {
        empty_address_issues(changes.drop_last())
    }
}

/// There are changes, and each of them deletes and does nothing else.
pub open spec fn destroys_all(changes: Seq<ResourceChange>) -> bool {
    &&& changes.len() > 0
    &&& forall|i: int|
        0 <= i < changes.len() ==> (#[trigger] changes[i]).change.actions@ == seq![Action::Delete]
}

/// No resource changes, no output changes and no drift.
pub open spec fn changes_nothing(plan: Plan) -> bool {
    plan.resource_changes@.len() == 0 && plan.output_changes@.len() == 0
        && plan.resource_drift@.len() == 0
}

/// Some change has the address.
pub open spec fn mentions(changes: Seq<ResourceChange>, address: Seq<char>) -> bool {
    exists|i: int| 0 <= i < changes.len() && (#[trigger] changes[i]).address@ == address
}

/// An issue for each change whose address an earlier one has.
pub open spec fn duplicate_issues(changes: Seq<ResourceChange>) -> Seq<IssueModel>
    decreases changes.len(),
{
    if changes.len() == 0 {
        Seq::empty()
    } else if mentions(changes.drop_last(), changes.last().address@) {
        duplicate_issues(changes.drop_last()).push(duplicate_issue(changes.last().address@))
    } else {
        duplicate_issues(changes.drop_last())
    }
}

/// `s` if the condition holds, nothing otherwise.
pub open spec fn if_so<T>(condition: bool, s: Seq<T>) -> Seq<T> {
    if condition {
        s
    } else {
        Seq::empty()
    }
}

/// The issues of a plan. The checks are independent: all of them are made.
pub open spec fn plan_issues(plan: Plan) -> Seq<IssueModel> {
    let changes = plan.resource_changes@;
    if_so(plan.errored, seq![errored_issue()]) + empty_address_issues(changes) + if_so(
        destroys_all(changes),
        seq![destroy_all_issue(changes.len())],
    ) + if_so(changes_nothing(plan), seq![no_changes_issue()]) + duplicate_issues(changes)
}

// ── Checks ───────────────────────────────────────────────────────────────────

/// Pushing an issue adds its model.
proof fn models_of_push(issues: Seq<ValidationIssue>, issue: ValidationIssue)
    ensures
        issue_models(issues.push(issue)) == issue_models(issues).push(issue@),
{
    assert(issue_models(issues.push(issue)) =~= issue_models(issues).push(issue@));
}

/// Reports each change without an address.
fn check_empty_addresses(changes: &Vec<ResourceChange>, issues: &mut Vec<ValidationIssue>)
    ensures
        issue_models(final(issues)@) == issue_models(old(issues)@) + empty_address_issues(changes@),
{
    let ghost start = issue_models(issues@);
    let mut k: usize = 0;
    assert(changes@.take(0) =~= Seq::empty());
    assert(start =~= start + empty_address_issues(changes@.take(0)));
    while k < changes.len()
        invariant
            k <= changes@.len(),
            start == issue_models(old(issues)@),
            issue_models(issues@) == start + empty_address_issues(changes@.take(k as int)),
        decreases changes@.len() - k,
    {
        let rc = &changes[k];
        let ghost before = issues@;
        assert(changes@.take(k + 1).drop_last() =~= changes@.take(k as int));
        if rc.address.as_str().is_empty() {
            let issue = ValidationIssue {
                severity: ValidationSeverity::Error,
                message: owned("resource_change has an empty address field"),
                address: Some(rc.address.clone()),
            };
            proof {
                assert(issue.address->0@ =~= Seq::empty());
                models_of_push(before, issue);
            }
            issues.push(issue);
        }
        assert(issue_models(issues@) =~= start + empty_address_issues(changes@.take(k + 1)));
        k += 1;
    }
    assert(changes@.take(k as int) =~= changes@);
}

/// The number of changes that delete and do nothing else.
pub open spec fn destroy_count(changes: Seq<ResourceChange>) -> nat
    decreases changes.len(),
{
    if changes.len() == 0 {
        0
    } else if changes.last().change.actions@ == seq![Action::Delete] {
        destroy_count(changes.drop_last()) + 1
    } else {
        destroy_count(changes.drop_last())
    }
}

/// The count is full where each change deletes and does nothing else.
proof fn full_count_destroys_all(changes: Seq<ResourceChange>)
    ensures
        destroy_count(changes) <= changes.len(),
        changes.len() > 0 ==> (destroy_count(changes) == changes.len() <==> destroys_all(changes)),
    decreases changes.len(),
{
    if changes.len() > 0 {
        let few = changes.drop_last();
        full_count_destroys_all(few);
        if destroys_all(changes) {
            assert(changes[changes.len() - 1].change.actions@ == seq![Action::Delete]);
            assert forall|i: int| 0 <= i < few.len() implies (#[trigger] few[i]).change.actions@
                == seq![Action::Delete] by {
                assert(changes[i].change.actions@ == seq![Action::Delete]);
            }
        }
        if destroy_count(changes) == changes.len() {
            assert forall|i: int| 0 <= i < changes.len() implies (
            #[trigger] changes[i]).change.actions@ == seq![Action::Delete] by {
                if i < few.len() {
                    assert(few[i].change.actions@ == seq![Action::Delete]);
                }
            }
        }
    }
}

/// Whether the plan deletes everything and does nothing else.
pub fn is_destroy_all(changes: &Vec<ResourceChange>) -> (all: bool)
    ensures
        all == destroys_all(changes@),
{
    let total = changes.len();
    let mut count: usize = 0;
    let mut k: usize = 0;
    assert(changes@.take(0) =~= Seq::empty());
    while k < changes.len()
        invariant
            k <= changes@.len(),
            count <= k,
            count == destroy_count(changes@.take(k as int)),
        decreases changes@.len() - k,
    {
        assert(changes@.take(k + 1).drop_last() =~= changes@.take(k as int));
        if only_action(changes[k].change.actions.as_slice(), Action::Delete) {
            count += 1;
        }
        k += 1;
    }
    proof {
        assert(changes@.take(k as int) =~= changes@);
        full_count_destroys_all(changes@);
    }
    total > 0 && count == total
}

/// Reports each change whose address an earlier one has.
fn check_duplicates(changes: &Vec<ResourceChange>, issues: &mut Vec<ValidationIssue>)
    ensures
        issue_models(final(issues)@) == issue_models(old(issues)@) + duplicate_issues(changes@),
{
    let ghost start = issue_models(issues@);
    let mut seen = StringHashSet::new();
    let mut k: usize = 0;
    assert(changes@.take(0) =~= Seq::empty());
    assert(start =~= start + duplicate_issues(changes@.take(0)));
    while k < changes.len()
        invariant
            k <= changes@.len(),
            start == issue_models(old(issues)@),
            forall|a: Seq<char>| #[trigger]
                seen@.contains(a) <==> mentions(changes@.take(k as int), a),
            issue_models(issues@) == start + duplicate_issues(changes@.take(k as int)),
        decreases changes@.len() - k,
    {
        let rc = &changes[k];
        let ghost before = issues@;
        let ghost few = changes@.take(k as int);
        let ghost more = changes@.take(k + 1);
        assert(more.drop_last() =~= few);
        if seen.contains(rc.address.as_str()) {
            let mut message = owned("duplicate resource address ");
            message.append(debug_text(rc.address.as_str()).as_str());
            message.append(" in resource_changes");
            let issue = ValidationIssue {
                severity: ValidationSeverity::Error,
                message,
                address: Some(rc.address.clone()),
            };
            proof {
                models_of_push(before, issue);
            }
            issues.push(issue);
        } else {
            seen.insert(rc.address.clone());
        }
        proof {
            assert(more[k as int] == *rc);
            assert forall|a: Seq<char>| #[trigger] seen@.contains(a) <==> mentions(more, a) by {
                if mentions(few, a) {
                    let i = choose|i: int| 0 <= i < few.len() && (#[trigger] few[i]).address@ == a;
                    assert(more[i] == few[i]);
                }
                if mentions(more, a) {
                    let i = choose|i: int|
                        0 <= i < more.len() && (#[trigger] more[i]).address@ == a;
                    if i < k {
                        assert(few[i] == more[i]);
                    }
                }
            }
            assert(issue_models(issues@) =~= start + duplicate_issues(more));
        }
        k += 1;
    }
    assert(changes@.take(k as int) =~= changes@);
}

/// Run all structural checks against a parsed plan.
pub fn validate_plan(plan: &Plan) -> (issues: Vec<ValidationIssue>)
    ensures
        issue_models(issues@) == plan_issues(*plan),
{
    let mut issues: Vec<ValidationIssue> = Vec::new();
    let ghost changes = plan.resource_changes@;
    assert(issue_models(issues@) =~= Seq::empty());
    if plan.errored {
        let issue = ValidationIssue {
            severity: ValidationSeverity::Error,
            message: owned("plan is marked as errored; results may be incomplete"),
            address: None,
        };
        proof {
            models_of_push(issues@, issue);
        }
        issues.push(issue);
    }
    let ghost first = if_so(plan.errored, seq![errored_issue()]);
    assert(issue_models(issues@) =~= first);
    check_empty_addresses(&plan.resource_changes, &mut issues);
    let ghost second = first + empty_address_issues(changes);
    if is_destroy_all(&plan.resource_changes) {
        let mut message = owned("all ");
        message.append(decimal_text(plan.resource_changes.len() as u64).as_str());
        message.append(" resource(s) will be destroyed — verify this is intentional");
        let issue = ValidationIssue {
            severity: ValidationSeverity::Warning,
            message,
            address: None,
        };
        proof {
            models_of_push(issues@, issue);
        }
        issues.push(issue);
    }
    let ghost third = second + if_so(
        destroys_all(changes),
        seq![destroy_all_issue(changes.len())],
    );
    assert(issue_models(issues@) =~= third);
    if plan.resource_changes.len() == 0 && plan.output_changes.len() == 0
        && plan.resource_drift.len() == 0 {
        let issue = ValidationIssue {
            severity: ValidationSeverity::Warning,
            message: owned("plan contains no resource or output changes"),
            address: None,
        };
        proof {
            models_of_push(issues@, issue);
        }
        issues.push(issue);
    }
    assert(issue_models(issues@) =~= third + if_so(
        changes_nothing(*plan),
        seq![no_changes_issue()],
    ));
    check_duplicates(&plan.resource_changes, &mut issues);
    issues
}

// ── What holds of the issues ─────────────────────────────────────────────────

/// The plan passes every structural check.
pub open spec fn is_clean(plan: Plan) -> bool {
    let changes = plan.resource_changes@;
    &&& !plan.errored
    &&& changes.len() > 0 || plan.output_changes@.len() > 0 || plan.resource_drift@.len() > 0
    &&& changes.len() > 0 ==> exists|i: int|
        0 <= i < changes.len() && (#[trigger] changes[i]).change.actions@ != seq![Action::Delete]
    &&& forall|i: int| 0 <= i < changes.len() ==> (#[trigger] changes[i]).address@.len() > 0
    &&& forall|i: int, j: int|
        0 <= i < changes.len() && 0 <= j < changes.len() && (#[trigger] changes[i]).address@ == (
        #[trigger] changes[j]).address@ ==> i == j
}

/// A plan has no issues where it passes every check, and nowhere else.
pub proof fn clean_plans_have_no_issues(plan: Plan)
    ensures
        plan_issues(plan).len() == 0 <==> is_clean(plan),
{
    let changes = plan.resource_changes@;
    no_empty_addresses(changes);
    no_duplicates_found(changes);
}

proof fn no_empty_addresses(changes: Seq<ResourceChange>)
    ensures
        empty_address_issues(changes).len() == 0 <==> forall|i: int|
            0 <= i < changes.len() ==> (#[trigger] changes[i]).address@.len() > 0,
    decreases changes.len(),
{
    if changes.len() > 0 {
        let few = changes.drop_last();
        no_empty_addresses(few);
        assert(changes[changes.len() - 1] == changes.last());
        if empty_address_issues(changes).len() == 0 {
            assert forall|i: int| 0 <= i < changes.len() implies (
            #[trigger] changes[i]).address@.len() > 0 by {
                if i < few.len() {
                    assert(few[i].address@.len() > 0);
                }
            }
        }
        if forall|i: int| 0 <= i < changes.len() ==> (#[trigger] changes[i]).address@.len() > 0 {
            assert forall|i: int| 0 <= i < few.len() implies (#[trigger] few[i]).address@.len()
                > 0 by {
                assert(changes[i].address@.len() > 0);
            }
        }
    }
}

/// No two changes have the same address.
spec fn addresses_differ(changes: Seq<ResourceChange>) -> bool {
    forall|i: int, j: int|
        0 <= i < changes.len() && 0 <= j < changes.len() && (#[trigger] changes[i]).address@ == (
        #[trigger] changes[j]).address@ ==> i == j
}

proof fn no_duplicates_found(changes: Seq<ResourceChange>)
    ensures
        duplicate_issues(changes).len() == 0 <==> addresses_differ(changes),
    decreases changes.len(),
{
    if changes.len() > 0 {
        let few = changes.drop_last();
        let n = few.len() as int;
        no_duplicates_found(few);
        assert forall|i: int| 0 <= i < n implies few[i] == changes[i] by {}
        if mentions(few, changes.last().address@) {
            let i = choose|i: int|
                0 <= i < few.len() && (#[trigger] few[i]).address@ == changes.last().address@;
            assert(changes[i].address@ == changes[n].address@);
        } else {
            if addresses_differ(few) {
                assert forall|i: int, j: int|
                    0 <= i < changes.len() && 0 <= j < changes.len() && (
                    #[trigger] changes[i]).address@ == (
                    #[trigger] changes[j]).address@ implies i == j by {
                    if i < n {
                        assert(few[i] == changes[i]);
                    }
                    if j < n {
                        assert(few[j] == changes[j]);
                    }
                }
            }
            if addresses_differ(changes) {
                assert forall|i: int, j: int|
                    0 <= i < few.len() && 0 <= j < few.len() && (#[trigger] few[i]).address@ == (
                    #[trigger] few[j]).address@ implies i == j by {
                    assert(changes[i].address@ == changes[j].address@);
                }
            }
        }
    }
}

/// The first issue of an errored plan says so.
pub proof fn errored_plans_have_issues(plan: Plan)
    requires
        plan.errored,
    ensures
        plan_issues(plan)[0] == errored_issue(),
        plan_issues(plan)[0].message == "plan is marked as errored; results may be incomplete"@,
{
}

/// Some change has the address, and so has an earlier one.
pub open spec fn comes_again(changes: Seq<ResourceChange>, k: int) -> bool {
    exists|j: int| 0 <= j < k && (#[trigger] changes[j]).address@ == changes[k].address@
}

proof fn empty_address_issues_are(changes: Seq<ResourceChange>, issue: IssueModel)
    ensures
        empty_address_issues(changes).contains(issue) <==> issue == empty_address_issue()
            && exists|k: int|
            0 <= k < changes.len() && (#[trigger] changes[k]).address@.len() == 0,
        empty_address_issues(changes).len() == changes.filter(
            |rc: ResourceChange| rc.address@.len() == 0,
        ).len(),
    decreases changes.len(),
{
    reveal(Seq::filter);
    if changes.len() > 0 {
        let few = changes.drop_last();
        let before = empty_address_issues(few);
        empty_address_issues_are(few, issue);
        assert(changes[changes.len() - 1] == changes.last());
        if before.contains(issue) {
            let k = choose|k: int| 0 <= k < few.len() && (#[trigger] few[k]).address@.len() == 0;
            assert(changes[k] == few[k]);
            let i = before.index_of(issue);
            assert(before.push(empty_address_issue())[i] == issue);
        }
        if issue == empty_address_issue() && exists|k: int|
            0 <= k < changes.len() && (#[trigger] changes[k]).address@.len() == 0 {
            let k = choose|k: int|
                0 <= k < changes.len() && (#[trigger] changes[k]).address@.len() == 0;
            if k < few.len() {
                assert(few[k] == changes[k]);
            } else {
                assert(before.push(issue)[before.len() as int] == issue);
            }
        }
    }
}

proof fn duplicate_issues_are(changes: Seq<ResourceChange>, issue: IssueModel)
    ensures
        duplicate_issues(changes).contains(issue) <==> exists|k: int|
            0 <= k < changes.len() && #[trigger] comes_again(changes, k) && issue
                == duplicate_issue(changes[k].address@),
    decreases changes.len(),
{
    if changes.len() > 0 {
        let few = changes.drop_last();
        let n = few.len() as int;
        let a = changes.last().address@;
        let before = duplicate_issues(few);
        duplicate_issues_are(few, issue);
        assert(forall|k: int| 0 <= k < n ==> few[k] == changes[k]);
        assert(forall|k: int|
            0 <= k < n ==> (#[trigger] comes_again(changes, k) <==> comes_again(few, k)));
        assert(comes_again(changes, n) <==> mentions(few, a)) by {
            if comes_again(changes, n) {
                let j = choose|j: int|
                    0 <= j < n && (#[trigger] changes[j]).address@ == changes[n].address@;
                assert(few[j].address@ == a);
            }
            if mentions(few, a) {
                let j = choose|j: int| 0 <= j < few.len() && (#[trigger] few[j]).address@ == a;
                assert(changes[j].address@ == changes[n].address@);
            }
        }
        if before.contains(issue) {
            let k = choose|k: int|
                0 <= k < few.len() && #[trigger] comes_again(few, k) && issue == duplicate_issue(
                    few[k].address@,
                );
            assert(comes_again(changes, k));
            let i = before.index_of(issue);
            assert(before.push(duplicate_issue(a))[i] == issue);
        }
        if exists|k: int|
            0 <= k < changes.len() && #[trigger] comes_again(changes, k) && issue
                == duplicate_issue(changes[k].address@) {
            let k = choose|k: int|
                0 <= k < changes.len() && #[trigger] comes_again(changes, k) && issue
                    == duplicate_issue(changes[k].address@);
            if k < n {
                assert(comes_again(few, k));
            } else {
                assert(before.push(issue)[before.len() as int] == issue);
            }
        }
    }
}

/// The places of the changes whose address came before.
pub open spec fn repeats(changes: Seq<ResourceChange>) -> Set<int> {
    Set::new(|k: int| 0 <= k < changes.len() && comes_again(changes, k))
}

proof fn duplicate_issues_count(changes: Seq<ResourceChange>)
    ensures
        repeats(changes).finite(),
        duplicate_issues(changes).len() == repeats(changes).len(),
    decreases changes.len(),
{
    if changes.len() == 0 {
        assert(repeats(changes) =~= Set::empty());
    } else {
        let few = changes.drop_last();
        let n = few.len() as int;
        let a = changes.last().address@;
        duplicate_issues_count(few);
        assert(forall|k: int| 0 <= k < n ==> few[k] == changes[k]);
        assert(forall|k: int|
            0 <= k < n ==> (#[trigger] comes_again(changes, k) <==> comes_again(few, k)));
        if mentions(few, a) {
            let j = choose|j: int| 0 <= j < few.len() && (#[trigger] few[j]).address@ == a;
            assert(changes[j].address@ == changes[n].address@);
            assert(comes_again(changes, n));
            assert(repeats(changes) =~= repeats(few).insert(n));
        } else {
            if comes_again(changes, n) {
                let j = choose|j: int|
                    0 <= j < n && (#[trigger] changes[j]).address@ == changes[n].address@;
                assert(few[j].address@ == a);
            }
            assert(repeats(changes) =~= repeats(few));
        }
    }
}

/// Each issue has its reason in the plan, and each reason its issue: an error for a plan that is
/// marked as errored, an error for a change without an address, a warning for changes that delete
/// everything, a warning for a plan without resource changes, output changes and drift, and an error
/// for an address that comes again. Nothing else is an issue.
pub proof fn each_issue_has_its_reason(plan: Plan, issue: IssueModel)
    ensures
        plan_issues(plan).contains(issue) <==> {
            let changes = plan.resource_changes@;
            ||| {
                &&& plan.errored
                &&& issue.severity == ValidationSeverity::Error
                &&& issue.message == "plan is marked as errored; results may be incomplete"@
                &&& issue.address is None
            }
            ||| {
                &&& exists|k: int|
                    0 <= k < changes.len() && (#[trigger] changes[k]).address@.len() == 0
                &&& issue.severity == ValidationSeverity::Error
                &&& issue.message == "resource_change has an empty address field"@
                &&& issue.address == Some(Seq::<char>::empty())
            }
            ||| {
                &&& changes.len() > 0
                &&& forall|k: int|
                    0 <= k < changes.len() ==> (#[trigger] changes[k]).change.actions@ == seq![
                        Action::Delete,
                    ]
                &&& issue.severity == ValidationSeverity::Warning
                &&& issue.message == "all "@ + decimal(changes.len())
                    + " resource(s) will be destroyed — verify this is intentional"@
                &&& issue.address is None
            }
            ||| {
                &&& plan.resource_changes@.len() == 0
                &&& plan.output_changes@.len() == 0
                &&& plan.resource_drift@.len() == 0
                &&& issue.severity == ValidationSeverity::Warning
                &&& issue.message == "plan contains no resource or output changes"@
                &&& issue.address is None
            }
            ||| {
                &&& issue.address is Some
                &&& exists|k: int|
                    0 <= k < changes.len() && #[trigger] comes_again(changes, k)
                        && changes[k].address@ == issue.address->0
                &&& issue.severity == ValidationSeverity::Error
                &&& issue.message == "duplicate resource address "@ + debug_form(issue.address->0)
                    + " in resource_changes"@
            }
        },
{
    let changes = plan.resource_changes@;
    let a = if_so(plan.errored, seq![errored_issue()]);
    let b = empty_address_issues(changes);
    let c = if_so(destroys_all(changes), seq![destroy_all_issue(changes.len())]);
    let d = if_so(changes_nothing(plan), seq![no_changes_issue()]);
    let e = duplicate_issues(changes);
    joined_holds(a + b + c + d, e, issue);
    joined_holds(a + b + c, d, issue);
    joined_holds(a + b, c, issue);
    joined_holds(a, b, issue);
    empty_address_issues_are(changes, issue);
    duplicate_issues_are(changes, issue);
    one_holds(errored_issue(), issue);
    one_holds(destroy_all_issue(changes.len()), issue);
    one_holds(no_changes_issue(), issue);
    if issue.address is Some && exists|k: int|
        0 <= k < changes.len() && #[trigger] comes_again(changes, k) && changes[k].address@
            == issue.address->0 {
        let k = choose|k: int|
            0 <= k < changes.len() && #[trigger] comes_again(changes, k) && changes[k].address@
                == issue.address->0;
        assert(duplicate_issue(changes[k].address@).address == issue.address);
    }
}

/// There are as many issues as reasons: one for an errored plan, one for each change without an
/// address, one if everything is deleted, one if nothing changes, and one for each change whose
/// address came before.
pub proof fn issues_are_as_many_as_reasons(plan: Plan)
    ensures
        ({
            let changes = plan.resource_changes@;
            let deletes = |rc: ResourceChange| rc.change.actions@ == seq![Action::Delete];
            plan_issues(plan).len() == (if plan.errored {
                1int
            } else {
                0
            }) + changes.filter(|rc: ResourceChange| rc.address@.len() == 0).len() + (if changes.len()
                > 0 && changes.all(deletes) {
                1int
            } else {
                0
            }) + (if changes.len() == 0 && plan.output_changes@.len() == 0
                && plan.resource_drift@.len() == 0 {
                1int
            } else {
                0
            }) + repeats(changes).len()
        }),
{
    let changes = plan.resource_changes@;
    empty_address_issues_are(changes, errored_issue());
    duplicate_issues_count(changes);
    let deletes = |rc: ResourceChange| rc.change.actions@ == seq![Action::Delete];
    if changes.all(deletes) {
        assert forall|i: int| 0 <= i < changes.len() implies (#[trigger] changes[i]).change.actions@
            == seq![Action::Delete] by {
            assert(deletes(changes[i]));
        }
    }
}

proof fn one_holds<T>(a: T, x: T)
    ensures
        seq![a].contains(x) <==> x == a,
{
    assert(seq![a][0] == a);
}

/// Issues come in order: that of an errored plan, those of changes without an address, that of
/// changes that delete everything, that of a plan without changes, and those of addresses that come
/// again, in the order in which they do.
pub proof fn issues_come_in_order(plan: Plan)
    ensures
        ({
            let changes = plan.resource_changes@;
            let deletes = |rc: ResourceChange| rc.change.actions@ == seq![Action::Delete];
            let a: Seq<IssueModel> = if plan.errored {
                seq![
                    IssueModel {
                        severity: ValidationSeverity::Error,
                        message: "plan is marked as errored; results may be incomplete"@,
                        address: None,
                    },
                ]
            } else {
                Seq::empty()
            };
            let b = changes.filter(|rc: ResourceChange| rc.address@.len() == 0).map_values(
                |rc: ResourceChange|
                    IssueModel {
                        severity: ValidationSeverity::Error,
                        message: "resource_change has an empty address field"@,
                        address: Some(rc.address@),
                    },
            );
            let c: Seq<IssueModel> = if changes.len() > 0 && changes.all(deletes) {
                seq![
                    IssueModel {
                        severity: ValidationSeverity::Warning,
                        message: "all "@ + decimal(changes.len())
                            + " resource(s) will be destroyed — verify this is intentional"@,
                        address: None,
                    },
                ]
            } else {
                Seq::empty()
            };
            let d: Seq<IssueModel> = if changes.len() == 0 && plan.output_changes@.len() == 0
                && plan.resource_drift@.len() == 0 {
                seq![
                    IssueModel {
                        severity: ValidationSeverity::Warning,
                        message: "plan contains no resource or output changes"@,
                        address: None,
                    },
                ]
            } else {
                Seq::empty()
            };
            let e = Seq::new(changes.len(), |k: int| k).filter(
                |k: int| comes_again(changes, k),
            ).map_values(
                |k: int|
                    IssueModel {
                        severity: ValidationSeverity::Error,
                        message: "duplicate resource address "@ + debug_form(changes[k].address@)
                            + " in resource_changes"@,
                        address: Some(changes[k].address@),
                    },
            );
            plan_issues(plan) == a + b + c + d + e
        }),
{
    let changes = plan.resource_changes@;
    let deletes = |rc: ResourceChange| rc.change.actions@ == seq![Action::Delete];
    if changes.all(deletes) {
        assert forall|i: int| 0 <= i < changes.len() implies (#[trigger] changes[i]).change.actions@
            == seq![Action::Delete] by {
            assert(deletes(changes[i]));
        }
    }
    empty_addresses_in_order(changes);
    repeats_in_order(changes, changes.len());
    assert(changes.take(changes.len() as int) =~= changes);
}

proof fn empty_addresses_in_order(changes: Seq<ResourceChange>)
    ensures
        empty_address_issues(changes) == changes.filter(
            |rc: ResourceChange| rc.address@.len() == 0,
        ).map_values(
            |rc: ResourceChange|
                IssueModel {
                    severity: ValidationSeverity::Error,
                    message: "resource_change has an empty address field"@,
                    address: Some(rc.address@),
                },
        ),
    decreases changes.len(),
{
    reveal(Seq::filter);
    let issue = |rc: ResourceChange|
        IssueModel {
            severity: ValidationSeverity::Error,
            message: "resource_change has an empty address field"@,
            address: Some(rc.address@),
        };
    let blank = |rc: ResourceChange| rc.address@.len() == 0;
    if changes.len() > 0 {
        let few = changes.drop_last();
        let rc = changes.last();
        empty_addresses_in_order(few);
        if rc.address@.len() == 0 {
            assert(rc.address@ =~= Seq::empty());
            assert(few.filter(blank).push(rc).map_values(issue) =~= few.filter(blank).map_values(
                issue,
            ).push(issue(rc)));
        }
    } else {
        assert(changes.filter(blank).map_values(issue) =~= Seq::empty());
    }
}

proof fn repeats_in_order(changes: Seq<ResourceChange>, n: nat)
    requires
        n <= changes.len(),
    ensures
        duplicate_issues(changes.take(n as int)) == Seq::new(n, |k: int| k).filter(
            |k: int| comes_again(changes, k),
        ).map_values(
            |k: int|
                IssueModel {
                    severity: ValidationSeverity::Error,
                    message: "duplicate resource address "@ + debug_form(changes[k].address@)
                        + " in resource_changes"@,
                    address: Some(changes[k].address@),
                },
        ),
    decreases n,
{
    reveal(Seq::filter);
    let issue = |k: int|
        IssueModel {
            severity: ValidationSeverity::Error,
            message: "duplicate resource address "@ + debug_form(changes[k].address@)
                + " in resource_changes"@,
            address: Some(changes[k].address@),
        };
    let again = |k: int| comes_again(changes, k);
    let all = Seq::new(n, |k: int| k);
    if n > 0 {
        let k = n - 1;
        let few = Seq::new(k as nat, |k: int| k);
        let here = changes.take(n as int);
        let before = changes.take(k);
        repeats_in_order(changes, k as nat);
        assert(all.drop_last() =~= few);
        assert(here.drop_last() =~= before);
        assert(here.last() == changes[k]);
        assert(mentions(before, changes[k].address@) <==> comes_again(changes, k)) by {
            if comes_again(changes, k) {
                let j = choose|j: int|
                    0 <= j < k && (#[trigger] changes[j]).address@ == changes[k].address@;
                assert(before[j].address@ == changes[k].address@);
            }
            if mentions(before, changes[k].address@) {
                let j = choose|j: int|
                    0 <= j < before.len() && (#[trigger] before[j]).address@
                        == changes[k].address@;
                assert(changes[j].address@ == changes[k].address@);
            }
        }
        if comes_again(changes, k) {
            assert(few.filter(again).push(k).map_values(issue) =~= few.filter(again).map_values(
                issue,
            ).push(issue(k)));
        }
    } else {
        assert(changes.take(0) =~= Seq::empty());
        assert(all.filter(again).map_values(issue) =~= Seq::empty());
    }
}

} // verus!
