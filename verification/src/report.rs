//! What the commands report: the lines for a reader, the JSON for a script, the exit code.

use serde_json::Value;
use vstd::prelude::*;

use crate::blueprint::{cycle_told, graph_fits, is_hit, plan_graph, reduced_graph};
use crate::dot::dot_text;
use crate::drift::{
    detect_drift, drift_addresses, drift_at, drift_tells_what_the_plan_holds, existed,
    is_drift_entry, is_drift_of, is_expected, is_touched, DriftEntry, DriftKind,
};
use crate::graph::ImpactGraph;
use crate::impact::{hits_are_walks, is_dependency_walk};
use crate::json::{
    json_bool, json_content, json_contents, json_list, json_number, json_object, json_optional,
    json_text, json_text_list, members_of_push, pretty, pretty_form, text_list, text_or_null,
    JsonModel,
};
use crate::order::{is_sorted, same_texts, sort_texts, text_le};
use crate::parser::Plan;
use crate::paths::{acyclic, on_cycle};
use crate::text::{characters, decimal, decimal_text, opt_text, owned, texts};
use crate::tree::plans_have_graphs;
use crate::validation::{
    clean_plans_have_no_issues, is_clean, issue_models, plan_issues, validate_plan, IssueModel,
    ValidationIssue, ValidationSeverity,
};

verus! {

// ── Colors ───────────────────────────────────────────────────────────────────

/// What switches a terminal's colors.
#[derive(Debug, Clone, Copy)]
pub struct Colors {
    pub red: &'static str,
    pub yellow: &'static str,
    pub green: &'static str,
    pub bold: &'static str,
    pub reset: &'static str,
}

/// Color codes for a terminal; empty texts otherwise, so that logs stay readable.
pub fn colors(terminal: bool) -> (c: Colors)
    ensures
        terminal ==> c.red@ == "\x1b[31m"@ && c.yellow@ == "\x1b[33m"@ && c.green@ == "\x1b[32m"@
            && c.bold@ == "\x1b[1m"@ && c.reset@ == "\x1b[0m"@,
        !terminal ==> c.red@.len() == 0 && c.yellow@.len() == 0 && c.green@.len() == 0
            && c.bold@.len() == 0 && c.reset@.len() == 0,
{
    if terminal {
        Colors {
            red: "\x1b[31m",
            yellow: "\x1b[33m",
            green: "\x1b[32m",
            bold: "\x1b[1m",
            reset: "\x1b[0m",
        }
    } else {
        proof {
            reveal_strlit("");
        }
        Colors { red: "", yellow: "", green: "", bold: "", reset: "" }
    }
}

/// The lines for an error: what happened, and below it each cause, indented.
pub open spec fn error_text(c: Colors, message: Seq<char>, causes: Seq<Seq<char>>) -> Seq<
    Seq<char>,
> {
    seq![c.red@ + "error:"@ + c.reset@ + " "@ + message] + causes.map_values(
        |cause: Seq<char>| "       "@ + cause,
    )
}

/// The lines for an error.
pub fn error_lines(c: &Colors, message: &str, causes: &Vec<String>) -> (lines: Vec<String>)
    ensures
        texts(lines@) == error_text(*c, message@, texts(causes@)),
{
    let mut first = owned(c.red);
    first.append("error:");
    first.append(c.reset);
    first.append(" ");
    first.append(message);
    let mut lines: Vec<String> = Vec::new();
    lines.push(first);
    let ghost all = error_text(*c, message@, texts(causes@));
    let mut k: usize = 0;
    while k < causes.len()
        invariant
            k <= causes@.len(),
            all == error_text(*c, message@, texts(causes@)),
            lines@.len() == k + 1,
            forall|i: int| 0 <= i < k + 1 ==> (#[trigger] lines@[i])@ == all[i],
        decreases causes@.len() - k,
    {
        let mut line = owned("       ");
        line.append(causes[k].as_str());
        lines.push(line);
        k += 1;
    }
    assert(texts(lines@) =~= all);
    lines
}

// ── Check ────────────────────────────────────────────────────────────────────

/// A resource that differs, and how.
#[derive(Debug, Clone)]
pub struct DriftNote {
    pub address: String,
    pub kind: DriftKind,
}

/// A note, by its address.
pub struct NoteModel {
    pub address: Seq<char>,
    pub kind: DriftKind,
}

impl View for DriftNote {
    type V = NoteModel;

    open spec fn view(&self) -> NoteModel {
        NoteModel { address: self.address@, kind: self.kind }
    }
}

/// Notes, by their addresses.
pub open spec fn note_models(notes: Seq<DriftNote>) -> Seq<NoteModel> {
    notes.map_values(|n: DriftNote| n@)
}

/// The entries that tell of a difference, in order.
pub open spec fn differences(entries: Seq<DriftEntry>) -> Seq<NoteModel>
    decreases entries.len(),
{
    if entries.len() == 0 {
        Seq::empty()
    } else {
        let before = differences(entries.drop_last());
        let e = entries.last();
        if e.drift_kind != DriftKind::Unchanged {
            before.push(NoteModel { address: e.address@, kind: e.drift_kind })
        } else {
            before
        }
    }
}

/// The entries that tell of a difference, in order.
pub fn notable_drift(entries: &Vec<DriftEntry>) -> (notes: Vec<DriftNote>)
    ensures
        note_models(notes@) == differences(entries@),
{
    let mut notes: Vec<DriftNote> = Vec::new();
    let mut k: usize = 0;
    assert(entries@.take(0) =~= Seq::empty());
    assert(note_models(notes@) =~= Seq::empty());
    while k < entries.len()
        invariant
            k <= entries@.len(),
            note_models(notes@) == differences(entries@.take(k as int)),
        decreases entries@.len() - k,
    {
        let ghost before = note_models(notes@);
        let entry = &entries[k];
        assert(entries@.take(k + 1).drop_last() =~= entries@.take(k as int));
        if entry.drift_kind != DriftKind::Unchanged {
            let note = DriftNote { address: entry.address.clone(), kind: entry.drift_kind };
            let ghost model = note@;
            notes.push(note);
            assert(note_models(notes@) =~= before.push(model));
        }
        k += 1;
    }
    assert(entries@.take(k as int) =~= entries@);
    notes
}

/// The notes tell of every resource that differs, once, and of no other.
pub open spec fn is_drift_report(plan: Plan, notes: Seq<NoteModel>) -> bool {
    &&& forall|a: Seq<char>, kind: DriftKind| #[trigger]
        notes.contains(NoteModel { address: a, kind }) <==> drift_at(plan, a) == Some(kind) && kind
            != DriftKind::Unchanged
    &&& forall|i: int, j: int|
        0 <= i < notes.len() && 0 <= j < notes.len() && (#[trigger] notes[i]).address == (
        #[trigger] notes[j]).address ==> i == j
}

/// What the differences are, by their entries.
proof fn differences_are(entries: Seq<DriftEntry>, n: NoteModel)
    ensures
        differences(entries).contains(n) <==> n.kind != DriftKind::Unchanged && exists|i: int|
            0 <= i < entries.len() && (#[trigger] entries[i]).address@ == n.address
                && entries[i].drift_kind == n.kind,
    decreases entries.len(),
{
    if entries.len() > 0 {
        let few = entries.drop_last();
        let e = entries.last();
        let before = differences(few);
        let last = NoteModel { address: e.address@, kind: e.drift_kind };
        differences_are(few, n);
        assert(entries[entries.len() - 1] == e);
        if before.contains(n) {
            let i = before.index_of(n);
            assert(before.push(last)[i] == n);
            let j = choose|j: int|
                0 <= j < few.len() && (#[trigger] few[j]).address@ == n.address
                    && few[j].drift_kind == n.kind;
            assert(entries[j] == few[j]);
        }
        assert(before.push(last)[before.len() as int] == last);
        if n.kind != DriftKind::Unchanged && exists|i: int|
            0 <= i < entries.len() && (#[trigger] entries[i]).address@ == n.address
                && entries[i].drift_kind == n.kind {
            let i = choose|i: int|
                0 <= i < entries.len() && (#[trigger] entries[i]).address@ == n.address
                    && entries[i].drift_kind == n.kind;
            if i < few.len() {
                assert(few[i] == entries[i]);
            } else {
                assert(n == last);
            }
        }
    }
}

/// No address is noted twice.
proof fn differences_differ(entries: Seq<DriftEntry>)
    requires
        drift_addresses(entries).no_duplicates(),
    ensures
        forall|i: int, j: int|
            0 <= i < differences(entries).len() && 0 <= j < differences(entries).len() && (
            #[trigger] differences(entries)[i]).address == (
            #[trigger] differences(entries)[j]).address ==> i == j,
    decreases entries.len(),
{
    if entries.len() > 0 {
        let few = entries.drop_last();
        let before = differences(few);
        let n = few.len() as int;
        assert(drift_addresses(few) =~= drift_addresses(entries).drop_last());
        differences_differ(few);
        let last = entries.last().address@;
        assert forall|i: int| 0 <= i < before.len() implies (#[trigger] before[i]).address
            != last by {
            differences_are(few, before[i]);
            assert(before.contains(before[i]));
            let j = choose|j: int|
                0 <= j < few.len() && (#[trigger] few[j]).address@ == before[i].address
                    && few[j].drift_kind == before[i].kind;
            assert(drift_addresses(entries)[j] == few[j].address@);
            assert(drift_addresses(entries)[n] == last);
        }
    }
}

/// The differences among all entries of a plan are the plan's drift report.
proof fn differences_are_report(plan: Plan, entries: Seq<DriftEntry>)
    requires
        is_drift_of(plan, entries),
    ensures
        is_drift_report(plan, differences(entries)),
{
    let notes = differences(entries);
    assert forall|a: Seq<char>, kind: DriftKind| #[trigger]
        notes.contains(NoteModel { address: a, kind }) <==> drift_at(plan, a) == Some(kind) && kind
            != DriftKind::Unchanged by {
        differences_are(entries, NoteModel { address: a, kind });
        if notes.contains(NoteModel { address: a, kind }) {
            let i = choose|i: int|
                0 <= i < entries.len() && (#[trigger] entries[i]).address@ == a
                    && entries[i].drift_kind == kind;
            assert(is_drift_entry(plan, entries[i]));
        }
        if drift_at(plan, a) == Some(kind) {
            assert(drift_addresses(entries).contains(a));
            let i = drift_addresses(entries).index_of(a);
            assert(is_drift_entry(plan, entries[i]));
            assert(entries[i].address@ == a);
        }
    }
    differences_differ(entries);
}

/// What a check found: structural issues, a node on a dependency cycle, resources that differ.
#[derive(Debug)]
pub struct CheckReport {
    pub issues: Vec<ValidationIssue>,
    pub cycle: Option<String>,
    pub drift: Vec<DriftNote>,
}

impl CheckReport {
    /// There are issues, or a cycle.
    pub open spec fn flawed(self) -> bool {
        self.issues@.len() > 0 || self.cycle is Some
    }

    /// Whether there are issues, or a cycle. Drift alone is none.
    pub fn has_issues(&self) -> (flawed: bool)
        ensures
            flawed == self.flawed(),
    {
        self.issues.len() > 0 || self.cycle.is_some()
    }

    /// The exit code: 2 where issues or a cycle were found, 0 otherwise.
    pub fn exit_code(&self) -> (code: i32)
        ensures
            code == (if self.flawed() {
                2i32
            } else {
                0i32
            }),
    {
        if self.has_issues() {
            2
        } else {
            0
        }
    }
}

/// The report tells the plan's issues, a cycle of its graph if there is one, and its drift.
pub open spec fn is_check_of(plan: Plan, report: CheckReport) -> bool {
    let g = plan_graph(plan);
    &&& issue_models(report.issues@) == plan_issues(plan)
    &&& match report.cycle {
        None => acyclic(g.links()),
        Some(address) => exists|x: int|
            0 <= x < g.nodes.len() && #[trigger] on_cycle(g.links(), x) && g.nodes[x].address
                == address@,
    }
    &&& opt_text(report.cycle) == cycle_told(g)
    &&& is_drift_report(plan, note_models(report.drift@))
}

/// Check a plan: structural issues, dependency cycles and drift. Nothing comes back where the
/// plan's graph would outgrow 32-bit numbers.
pub fn check_plan(plan: &Plan) -> (report: Option<CheckReport>)
    ensures
        report is Some <==> graph_fits(*plan),
        report matches Some(r) ==> is_check_of(*plan, r),
{
    let issues = validate_plan(plan);
    let entries = detect_drift(plan);
    let drift = notable_drift(&entries);
    proof {
        differences_are_report(*plan, entries@);
    }
    match ImpactGraph::try_build(plan) {
        None => None,
        Some(graph) => {
            let cycle = match graph.topological_order() {
                Ok(_) => None,
                Err(e) => Some(e.node_address),
            };
            Some(CheckReport { issues, cycle, drift })
        },
    }
}

/// A check passes where the plan is clean and its graph has no cycle, and nowhere else.
pub proof fn clean_plans_pass(plan: Plan, report: CheckReport)
    requires
        is_check_of(plan, report),
    ensures
        !report.flawed() <==> is_clean(plan) && acyclic(plan_graph(plan).links()),
{
    clean_plans_have_no_issues(plan);
    assert(issue_models(report.issues@).len() == report.issues@.len());
}

/// Drift changes no exit code: reports that differ in their drift alone are flawed alike.
pub proof fn drift_is_no_flaw(a: CheckReport, b: CheckReport)
    requires
        a.issues == b.issues,
        a.cycle == b.cycle,
    ensures
        a.flawed() == b.flawed(),
{
}

// ── Check, for a reader ──────────────────────────────────────────────────────

/// The lines of a check: those for the error stream, and those for the output.
#[derive(Debug)]
pub struct CheckLines {
    pub errors: Vec<String>,
    pub output: Vec<String>,
}

pub open spec fn cycle_text(c: Colors, address: Seq<char>) -> Seq<char> {
    c.red@ + c.bold@ + " Cycle detected:"@ + c.reset@ + " "@ + address
}

pub open spec fn issue_text(c: Colors, issue: IssueModel) -> Seq<char> {
    let mark = match issue.severity {
        ValidationSeverity::Error => c.red@ + "✗"@,
        ValidationSeverity::Warning => c.yellow@ + "⚠"@,
    };
    let place = match issue.address {
        Some(a) => " ("@ + a + ")"@,
        None => Seq::empty(),
    };
    mark + " "@ + issue.message + place + c.reset@
}

pub open spec fn drift_title(count: nat) -> Seq<char> {
    "\nDrift detected ("@ + decimal(count) + " resource(s)):"@
}

/// `n` blanks.
pub open spec fn blanks(n: nat) -> Seq<char> {
    Seq::new(n, |i: int| ' ')
}

/// The length of the longest address.
pub open spec fn widest(notes: Seq<NoteModel>) -> nat
    decreases notes.len(),
{
    if notes.len() == 0 {
        0
    } else {
        let before = widest(notes.drop_last());
        if notes.last().address.len() > before {
            notes.last().address.len()
        } else {
            before
        }
    }
}

/// What is said of a resource that was modified or removed.
pub open spec fn drift_reason(kind: DriftKind) -> Option<Seq<char>> {
    match kind {
        DriftKind::Modified => Some("(modified outside Terraform)"@),
        DriftKind::Removed => Some("(removed outside Terraform)"@),
        DriftKind::Added => None,
        DriftKind::Unchanged => None,
    }
}

/// The line for a difference: a mark, the address, and what is said of it, in a column behind the
/// longest address.
pub open spec fn drift_text(c: Colors, width: nat, note: NoteModel) -> Seq<char> {
    let mark = match note.kind {
        DriftKind::Added => c.green@ + "+"@,
        DriftKind::Removed => c.red@ + "-"@,
        DriftKind::Modified => c.yellow@ + "~"@,
        DriftKind::Unchanged => c.reset@ + " "@,
    };
    let line = "  "@ + mark + " "@ + note.address + c.reset@;
    match drift_reason(note.kind) {
        Some(reason) => line + "  "@ + blanks(
            if width > note.address.len() {
                (width - note.address.len()) as nat
            } else {
                0
            },
        ) + reason,
        None => line,
    }
}

pub open spec fn all_clear_text(c: Colors) -> Seq<char> {
    c.green@ + "✓ No issues found. Plan is safe to apply."@ + c.reset@
}

/// A line for the cycle if there is one, and a line for each issue.
pub open spec fn check_errors(
    c: Colors,
    cycle: Option<Seq<char>>,
    issues: Seq<IssueModel>,
) -> Seq<Seq<char>> {
    (match cycle {
        Some(a) => seq![cycle_text(c, a)],
        None => Seq::empty(),
    }) + issues.map_values(|i: IssueModel| issue_text(c, i))
}

/// A title and a line for each difference; the all-clear where nothing at all was found.
pub open spec fn check_output(c: Colors, flawed: bool, notes: Seq<NoteModel>) -> Seq<Seq<char>> {
    if notes.len() > 0 {
        seq![drift_title(notes.len())] + notes.map_values(
            |n: NoteModel| drift_text(c, widest(notes), n),
        )
    } else if !flawed {
        seq![all_clear_text(c)]
    } else {
        Seq::empty()
    }
}

fn issue_line(c: &Colors, issue: &ValidationIssue) -> (line: String)
    ensures
        line@ == issue_text(*c, issue@),
{
    let mut line = String::new();
    match issue.severity {
        ValidationSeverity::Error => {
            line.append(c.red);
            line.append("✗");
        },
        ValidationSeverity::Warning => {
            line.append(c.yellow);
            line.append("⚠");
        },
    }
    line.append(" ");
    line.append(issue.message.as_str());
    if let Some(address) = &issue.address {
        line.append(" (");
        line.append(address.as_str());
        line.append(")");
    }
    line.append(c.reset);
    assert(line@ =~= issue_text(*c, issue@));
    line
}

fn drift_line(c: &Colors, width: usize, note: &DriftNote) -> (line: String)
    ensures
        line@ == drift_text(*c, width as nat, note@),
{
    let mut line = owned("  ");
    match note.kind {
        DriftKind::Added => {
            line.append(c.green);
            line.append("+");
        },
        DriftKind::Removed => {
            line.append(c.red);
            line.append("-");
        },
        DriftKind::Modified => {
            line.append(c.yellow);
            line.append("~");
        },
        DriftKind::Unchanged => {
            line.append(c.reset);
            line.append(" ");
        },
    }
    line.append(" ");
    line.append(note.address.as_str());
    line.append(c.reset);
    let ghost start = line@;
    let reason = match note.kind {
        DriftKind::Modified => "(modified outside Terraform)",
        DriftKind::Removed => "(removed outside Terraform)",
        _ => {
            assert(line@ =~= drift_text(*c, width as nat, note@));
            return line;
        },
    };
    let length = characters(note.address.as_str()).len();
    line.append("  ");
    let mut k: usize = length;
    assert(line@ =~= start + "  "@ + blanks(0));
    while k < width
        invariant
            length <= k,
            k <= width || k == length,
            line@ == start + "  "@ + blanks((k - length) as nat),
        decreases width - k,
    {
        line.push(' ');
        k += 1;
        assert(line@ =~= start + "  "@ + blanks((k - length) as nat));
    }
    line.append(reason);
    assert(line@ =~= drift_text(*c, width as nat, note@));
    line
}

/// The length of the longest address.
fn widest_address(notes: &Vec<DriftNote>) -> (width: usize)
    ensures
        width == widest(note_models(notes@)),
{
    let ghost all = note_models(notes@);
    let mut width: usize = 0;
    let mut k: usize = 0;
    assert(all.take(0) =~= Seq::empty());
    while k < notes.len()
        invariant
            k <= notes@.len(),
            all == note_models(notes@),
            width == widest(all.take(k as int)),
        decreases notes@.len() - k,
    {
        let length = characters(notes[k].address.as_str()).len();
        assert(all.take(k + 1).drop_last() =~= all.take(k as int));
        assert(all.take(k + 1).last().address.len() == length);
        if length > width {
            width = length;
        }
        k += 1;
    }
    assert(all.take(k as int) =~= all);
    width
}

/// The lines of a check.
pub fn check_lines(report: &CheckReport, c: &Colors) -> (lines: CheckLines)
    ensures
        texts(lines.errors@) == check_errors(
            *c,
            opt_text(report.cycle),
            issue_models(report.issues@),
        ),
        texts(lines.output@) == check_output(*c, report.flawed(), note_models(report.drift@)),
{
    let mut errors: Vec<String> = Vec::new();
    if let Some(address) = &report.cycle {
        let mut line = owned(c.red);
        line.append(c.bold);
        line.append(" Cycle detected:");
        line.append(c.reset);
        line.append(" ");
        line.append(address.as_str());
        errors.push(line);
    }
    let ghost first = errors@.len();
    let ghost all = check_errors(*c, opt_text(report.cycle), issue_models(report.issues@));
    let mut k: usize = 0;
    while k < report.issues.len()
        invariant
            k <= report.issues@.len(),
            all == check_errors(*c, opt_text(report.cycle), issue_models(report.issues@)),
            first == (if report.cycle is Some {
                1nat
            } else {
                0nat
            }),
            errors@.len() == first + k,
            forall|i: int| 0 <= i < first + k ==> (#[trigger] errors@[i])@ == all[i],
        decreases report.issues@.len() - k,
    {
        let line = issue_line(c, &report.issues[k]);
        assert(line@ == all[first + k]);
        errors.push(line);
        k += 1;
    }
    assert(texts(errors@) =~= all);
    let mut output: Vec<String> = Vec::new();
    let ghost shown = check_output(*c, report.flawed(), note_models(report.drift@));
    if report.drift.len() > 0 {
        let mut title = owned("\nDrift detected (");
        title.append(decimal_text(report.drift.len() as u64).as_str());
        title.append(" resource(s)):");
        output.push(title);
        let width = widest_address(&report.drift);
        let mut k: usize = 0;
        while k < report.drift.len()
            invariant
                k <= report.drift@.len(),
                report.drift@.len() > 0,
                width == widest(note_models(report.drift@)),
                shown == check_output(*c, report.flawed(), note_models(report.drift@)),
                output@.len() == k + 1,
                forall|i: int| 0 <= i < k + 1 ==> (#[trigger] output@[i])@ == shown[i],
            decreases report.drift@.len() - k,
        {
            let line = drift_line(c, width, &report.drift[k]);
            assert(line@ == shown[k + 1]);
            output.push(line);
            k += 1;
        }
    } else if !report.has_issues() {
        let mut line = owned(c.green);
        line.append("✓ No issues found. Plan is safe to apply.");
        line.append(c.reset);
        output.push(line);
    }
    assert(texts(output@) =~= shown);
    CheckLines { errors, output }
}

// ── Two checks ───────────────────────────────────────────────────────────────

/// The same lines, up to their order.
pub open spec fn same_lines(a: Seq<Seq<char>>, b: Seq<Seq<char>>) -> bool {
    a.len() == b.len() && forall|line: Seq<char>| #[trigger] a.contains(line) <==> b.contains(line)
}

/// The width is that of some note, and no note exceeds it.
proof fn widest_is(notes: Seq<NoteModel>)
    ensures
        forall|i: int| 0 <= i < notes.len() ==> (#[trigger] notes[i]).address.len() <= widest(notes),
        notes.len() > 0 ==> exists|i: int|
            0 <= i < notes.len() && (#[trigger] notes[i]).address.len() == widest(notes),
    decreases notes.len(),
{
    if notes.len() > 0 {
        let few = notes.drop_last();
        widest_is(few);
        assert forall|i: int| 0 <= i < notes.len() implies (#[trigger] notes[i]).address.len()
            <= widest(notes) by {
            if i < few.len() {
                assert(few[i] == notes[i]);
            }
        }
        if notes.last().address.len() > widest(few) || few.len() == 0 {
            assert(notes[notes.len() - 1].address.len() == widest(notes));
        } else {
            let i = choose|i: int|
                0 <= i < few.len() && (#[trigger] few[i]).address.len() == widest(few);
            assert(notes[i].address.len() == widest(notes));
        }
    }
}

/// Notes with the same members have the same width.
proof fn widths_agree(a: Seq<NoteModel>, b: Seq<NoteModel>)
    requires
        forall|n: NoteModel| #[trigger] a.contains(n) ==> b.contains(n),
    ensures
        widest(a) <= widest(b),
{
    widest_is(a);
    widest_is(b);
    if a.len() > 0 {
        let i = choose|i: int| 0 <= i < a.len() && (#[trigger] a[i]).address.len() == widest(a);
        assert(a.contains(a[i]));
        let j = b.index_of(a[i]);
        assert(b[j].address.len() <= widest(b));
    }
}

/// Drift reports of one plan hold the same notes, equally often.
pub(crate) proof fn drift_reports_agree(plan: Plan, a: Seq<NoteModel>, b: Seq<NoteModel>)
    requires
        is_drift_report(plan, a),
        is_drift_report(plan, b),
    ensures
        forall|n: NoteModel| #[trigger] a.contains(n) <==> b.contains(n),
        a.to_multiset() == b.to_multiset(),
        a.len() == b.len(),
{
    assert forall|n: NoteModel| #[trigger] a.contains(n) <==> b.contains(n) by {
        let m = NoteModel { address: n.address, kind: n.kind };
        assert(a.contains(m) <==> b.contains(m));
    }
    a.to_multiset_ensures();
    b.to_multiset_ensures();
    assert(a.no_duplicates());
    assert(b.no_duplicates());
    a.lemma_multiset_has_no_duplicates();
    b.lemma_multiset_has_no_duplicates();
    assert(a.to_multiset() =~= b.to_multiset()) by {
        assert forall|n: NoteModel| a.to_multiset().count(n) == b.to_multiset().count(n) by {
            assert(a.contains(n) <==> a.to_multiset().count(n) > 0);
            assert(b.contains(n) <==> b.to_multiset().count(n) > 0);
            assert(a.to_multiset().contains(n) ==> a.to_multiset().count(n) == 1);
            assert(b.to_multiset().contains(n) ==> b.to_multiset().count(n) == 1);
        }
    }
}

/// A line of the one output is a line of the other.
pub(crate) proof fn output_lines_carry_over(
    c: Colors,
    flawed: bool,
    a: Seq<NoteModel>,
    b: Seq<NoteModel>,
    line: Seq<char>,
)
    requires
        forall|n: NoteModel| #[trigger] a.contains(n) <==> b.contains(n),
        a.len() == b.len(),
        check_output(c, flawed, a).contains(line),
    ensures
        check_output(c, flawed, b).contains(line),
{
    let x = check_output(c, flawed, a);
    let y = check_output(c, flawed, b);
    widths_agree(a, b);
    widths_agree(b, a);
    let i = x.index_of(line);
    if a.len() > 0 && i > 0 {
        assert(a.contains(a[i - 1]));
        let j = b.index_of(a[i - 1]);
        assert(x[i] == drift_text(c, widest(a), a[i - 1]));
        assert(y[j + 1] == drift_text(c, widest(b), b[j]));
    } else {
        assert(y[i] == line);
    }
}

/// Two checks of one plan agree: on the issues, on the cycle and the node of it that is told, on
/// whether the plan is flawed, on the drift up to its order, and so on the lines up to the order of
/// the drift. Nothing else, such as a tool that was detected, has a say.
pub proof fn checks_agree(plan: Plan, a: CheckReport, b: CheckReport, c: Colors)
    requires
        is_check_of(plan, a),
        is_check_of(plan, b),
    ensures
        issue_models(a.issues@) == issue_models(b.issues@),
        opt_text(a.cycle) == opt_text(b.cycle),
        check_errors(c, opt_text(a.cycle), issue_models(a.issues@)) == check_errors(
            c,
            opt_text(b.cycle),
            issue_models(b.issues@),
        ),
        a.flawed() == b.flawed(),
        note_models(a.drift@).to_multiset() == note_models(b.drift@).to_multiset(),
        same_lines(
            check_output(c, a.flawed(), note_models(a.drift@)),
            check_output(c, b.flawed(), note_models(b.drift@)),
        ),
{
    let x = note_models(a.drift@);
    let y = note_models(b.drift@);
    assert(issue_models(a.issues@).len() == a.issues@.len());
    assert(issue_models(b.issues@).len() == b.issues@.len());
    drift_reports_agree(plan, x, y);
    let p = check_output(c, a.flawed(), x);
    let q = check_output(c, b.flawed(), y);
    assert forall|line: Seq<char>| #[trigger] p.contains(line) <==> q.contains(line) by {
        if p.contains(line) {
            output_lines_carry_over(c, a.flawed(), x, y, line);
        }
        if q.contains(line) {
            output_lines_carry_over(c, b.flawed(), y, x, line);
        }
    }
}

// ── Check, for a script ──────────────────────────────────────────────────────

pub open spec fn severity_word(severity: ValidationSeverity) -> Seq<char> {
    match severity {
        ValidationSeverity::Error => "error"@,
        ValidationSeverity::Warning => "warning"@,
    }
}

pub open spec fn drift_word(kind: DriftKind) -> Seq<char> {
    match kind {
        DriftKind::Added => "added"@,
        DriftKind::Removed => "removed"@,
        DriftKind::Modified => "modified"@,
        DriftKind::Unchanged => "unchanged"@,
    }
}

pub open spec fn issue_json(issue: IssueModel) -> JsonModel {
    JsonModel::Object(
        Map::empty().insert("severity"@, JsonModel::Text(severity_word(issue.severity))).insert(
            "message"@,
            JsonModel::Text(issue.message),
        ).insert("address"@, text_or_null(issue.address)),
    )
}

pub open spec fn note_json(note: NoteModel) -> JsonModel {
    JsonModel::Object(
        Map::empty().insert("address"@, JsonModel::Text(note.address)).insert(
            "kind"@,
            JsonModel::Text(drift_word(note.kind)),
        ),
    )
}

/// The check as JSON.
pub open spec fn check_json_model(
    flawed: bool,
    cycle: Option<Seq<char>>,
    issues: Seq<IssueModel>,
    notes: Seq<NoteModel>,
) -> JsonModel {
    JsonModel::Object(
        Map::empty().insert("valid"@, JsonModel::Bool(!flawed)).insert(
            "cycle"@,
            text_or_null(cycle),
        ).insert(
            "issues"@,
            JsonModel::List(issues.map_values(|i: IssueModel| issue_json(i))),
        ).insert("drift"@, JsonModel::List(notes.map_values(|n: NoteModel| note_json(n)))),
    )
}

fn issue_value(issue: &ValidationIssue) -> (v: Value)
    ensures
        json_content(v) == issue_json(issue@),
{
    let severity = match issue.severity {
        ValidationSeverity::Error => "error",
        ValidationSeverity::Warning => "warning",
    };
    let mut fields: Vec<(String, Value)> = Vec::new();
    fields.push((owned("severity"), json_text(severity)));
    fields.push((owned("message"), json_text(issue.message.as_str())));
    fields.push((owned("address"), json_optional(&issue.address)));
    proof {
        reveal_strlit("severity");
        reveal_strlit("message");
        reveal_strlit("address");
        assert("message"@[0] != "address"@[0]);
        assert("severity"@.len() == 8);
        let none: Seq<(String, Value)> = Seq::empty();
        members_of_push(none, fields@[0]);
        members_of_push(none.push(fields@[0]), fields@[1]);
        members_of_push(none.push(fields@[0]).push(fields@[1]), fields@[2]);
        assert(fields@ =~= none.push(fields@[0]).push(fields@[1]).push(fields@[2]));
    }
    json_object(fields)
}

fn note_value(note: &DriftNote) -> (v: Value)
    ensures
        json_content(v) == note_json(note@),
{
    let kind = match note.kind {
        DriftKind::Added => "added",
        DriftKind::Removed => "removed",
        DriftKind::Modified => "modified",
        DriftKind::Unchanged => "unchanged",
    };
    let mut fields: Vec<(String, Value)> = Vec::new();
    fields.push((owned("address"), json_text(note.address.as_str())));
    fields.push((owned("kind"), json_text(kind)));
    proof {
        reveal_strlit("address");
        reveal_strlit("kind");
        assert("address"@.len() != "kind"@.len());
        let none: Seq<(String, Value)> = Seq::empty();
        members_of_push(none, fields@[0]);
        members_of_push(none.push(fields@[0]), fields@[1]);
        assert(fields@ =~= none.push(fields@[0]).push(fields@[1]));
    }
    json_object(fields)
}

/// The check as a JSON text.
pub fn check_json(report: &CheckReport) -> (text: String)
    ensures
        Some(text@) == pretty_form(
            check_json_model(
                report.flawed(),
                opt_text(report.cycle),
                issue_models(report.issues@),
                note_models(report.drift@),
            ),
        ),
{
    let mut issues: Vec<Value> = Vec::new();
    let ghost all_issues = issue_models(report.issues@).map_values(|i: IssueModel| issue_json(i));
    let mut k: usize = 0;
    while k < report.issues.len()
        invariant
            k <= report.issues@.len(),
            all_issues == issue_models(report.issues@).map_values(|i: IssueModel| issue_json(i)),
            issues@.len() == k,
            forall|i: int| 0 <= i < k ==> json_content(#[trigger] issues@[i]) == all_issues[i],
        decreases report.issues@.len() - k,
    {
        issues.push(issue_value(&report.issues[k]));
        k += 1;
    }
    assert(json_contents(issues@) =~= all_issues);
    let mut drift: Vec<Value> = Vec::new();
    let ghost all_notes = note_models(report.drift@).map_values(|n: NoteModel| note_json(n));
    let mut k: usize = 0;
    while k < report.drift.len()
        invariant
            k <= report.drift@.len(),
            all_notes == note_models(report.drift@).map_values(|n: NoteModel| note_json(n)),
            drift@.len() == k,
            forall|i: int| 0 <= i < k ==> json_content(#[trigger] drift@[i]) == all_notes[i],
        decreases report.drift@.len() - k,
    {
        drift.push(note_value(&report.drift[k]));
        k += 1;
    }
    assert(json_contents(drift@) =~= all_notes);
    let mut fields: Vec<(String, Value)> = Vec::new();
    fields.push((owned("valid"), json_bool(!report.has_issues())));
    fields.push((owned("cycle"), json_optional(&report.cycle)));
    fields.push((owned("issues"), json_list(issues)));
    fields.push((owned("drift"), json_list(drift)));
    proof {
        reveal_strlit("valid");
        reveal_strlit("cycle");
        reveal_strlit("issues");
        reveal_strlit("drift");
        assert("valid"@[0] != "cycle"@[0]);
        assert("valid"@[0] != "drift"@[0]);
        assert("cycle"@[0] != "drift"@[0]);
        assert("issues"@.len() == 6);
        let none: Seq<(String, Value)> = Seq::empty();
        let one = none.push(fields@[0]);
        let two = one.push(fields@[1]);
        let three = two.push(fields@[2]);
        members_of_push(none, fields@[0]);
        members_of_push(one, fields@[1]);
        members_of_push(two, fields@[2]);
        members_of_push(three, fields@[3]);
        assert(fields@ =~= three.push(fields@[3]));
    }
    pretty(&json_object(fields)).unwrap()
}

// ── Blast radius ─────────────────────────────────────────────────────────────

/// The addresses that a change of `target` hits in the plan, sorted and each once.
pub open spec fn is_blast_of(plan: Plan, target: Seq<char>, affected: Seq<Seq<char>>) -> bool {
    &&& is_sorted(affected)
    &&& affected.no_duplicates()
    &&& forall|a: Seq<char>| #[trigger]
        affected.contains(a) <==> is_hit(plan_graph(plan), target, a)
}

/// The addresses that a change of `target` hits, sorted. Nothing comes back where the plan's graph
/// would outgrow 32-bit numbers.
pub fn blast_plan(plan: &Plan, target: &str) -> (affected: Option<Vec<String>>)
    ensures
        affected is Some <==> graph_fits(*plan),
        affected matches Some(list) ==> is_blast_of(*plan, target@, texts(list@)),
{
    match ImpactGraph::try_build(plan) {
        None => None,
        Some(graph) => Some(sorted_blast(&graph, target)),
    }
}

/// The addresses that a change of `target` hits in the graph, sorted.
pub fn sorted_blast(graph: &ImpactGraph, target: &str) -> (affected: Vec<String>)
    requires
        graph.wf(),
    ensures
        is_sorted(texts(affected@)),
        texts(affected@).no_duplicates(),
        forall|a: Seq<char>| #[trigger]
            texts(affected@).contains(a) <==> is_hit(graph@, target@, a),
{
    let hit = graph.blast_radius(target);
    let ghost found = texts(hit@);
    let affected = sort_texts(hit);
    proof {
        same_texts(found, texts(affected@));
    }
    affected
}

/// The blast radius for a reader.
pub open spec fn blast_text(c: Colors, target: Seq<char>, affected: Seq<Seq<char>>) -> Seq<
    Seq<char>,
> {
    if affected.len() == 0 {
        seq!["No other resources depend on "@ + target + "."@]
    } else {
        seq![
            "Blast radius of "@ + c.bold@ + target + c.reset@ + " ("@ + c.yellow@ + decimal(
                affected.len(),
            ) + c.reset@ + " resource(s) affected):\n"@,
        ] + affected.map_values(|a: Seq<char>| "  "@ + a)
    }
}

/// The blast radius for a reader.
pub fn blast_lines(c: &Colors, target: &str, affected: &Vec<String>) -> (lines: Vec<String>)
    ensures
        texts(lines@) == blast_text(*c, target@, texts(affected@)),
{
    let mut lines: Vec<String> = Vec::new();
    let ghost all = blast_text(*c, target@, texts(affected@));
    if affected.len() == 0 {
        let mut line = owned("No other resources depend on ");
        line.append(target);
        line.append(".");
        lines.push(line);
    } else {
        let mut title = owned("Blast radius of ");
        title.append(c.bold);
        title.append(target);
        title.append(c.reset);
        title.append(" (");
        title.append(c.yellow);
        title.append(decimal_text(affected.len() as u64).as_str());
        title.append(c.reset);
        title.append(" resource(s) affected):\n");
        lines.push(title);
        let mut k: usize = 0;
        while k < affected.len()
            invariant
                k <= affected@.len(),
                affected@.len() > 0,
                all == blast_text(*c, target@, texts(affected@)),
                lines@.len() == k + 1,
                forall|i: int| 0 <= i < k + 1 ==> (#[trigger] lines@[i])@ == all[i],
            decreases affected@.len() - k,
        {
            let mut line = owned("  ");
            line.append(affected[k].as_str());
            assert(line@ == all[k + 1]);
            lines.push(line);
            k += 1;
        }
    }
    assert(texts(lines@) =~= all);
    lines
}

/// The blast radius as JSON.
pub open spec fn blast_json_model(target: Seq<char>, affected: Seq<Seq<char>>) -> JsonModel {
    JsonModel::Object(
        Map::empty().insert("source"@, JsonModel::Text(target)).insert(
            "affected_count"@,
            JsonModel::Number(affected.len()),
        ).insert("affected"@, text_list(affected)),
    )
}

/// The blast radius as a JSON text.
pub fn blast_json(target: &str, affected: &Vec<String>) -> (text: String)
    ensures
        Some(text@) == pretty_form(blast_json_model(target@, texts(affected@))),
{
    let mut fields: Vec<(String, Value)> = Vec::new();
    fields.push((owned("source"), json_text(target)));
    fields.push((owned("affected_count"), json_number(affected.len() as u64)));
    fields.push((owned("affected"), json_text_list(affected)));
    proof {
        reveal_strlit("source");
        reveal_strlit("affected_count");
        reveal_strlit("affected");
        assert("source"@.len() == 6 && "affected_count"@.len() == 14 && "affected"@.len() == 8);
        let none: Seq<(String, Value)> = Seq::empty();
        let one = none.push(fields@[0]);
        let two = one.push(fields@[1]);
        members_of_push(none, fields@[0]);
        members_of_push(one, fields@[1]);
        members_of_push(two, fields@[2]);
        assert(fields@ =~= two.push(fields@[2]));
        assert(texts(affected@).len() == affected@.len());
    }
    pretty(&json_object(fields)).unwrap()
}

// ── Graph ────────────────────────────────────────────────────────────────────

/// The plan's graph in DOT format, reduced unless `no_reduce`. Nothing comes back where the graph
/// would outgrow 32-bit numbers.
pub fn plan_dot(plan: &Plan, no_reduce: bool) -> (dot: Option<String>)
    ensures
        dot is Some <==> graph_fits(*plan),
        dot matches Some(text) ==> text@ == dot_text(
            if no_reduce {
                plan_graph(*plan)
            } else {
                reduced_graph(plan_graph(*plan))
            },
        ),
{
    match ImpactGraph::try_build(plan) {
        None => None,
        Some(built) => {
            let mut graph = built;
            if !no_reduce {
                graph.transitive_reduce();
            }
            Some(graph.to_dot())
        },
    }
}

// ── What the reports show ────────────────────────────────────────────────────

/// An error is told on one line, and each of its causes on a line below it, in order.
pub proof fn errors_tell_each_cause(
    c: Colors,
    message: Seq<char>,
    causes: Seq<Seq<char>>,
    k: int,
)
    ensures
        error_text(c, message, causes).len() == 1 + causes.len(),
        error_text(c, message, causes)[0] == c.red@ + "error:"@ + c.reset@ + " "@ + message,
        0 <= k < causes.len() ==> error_text(c, message, causes)[1 + k] == "       "@ + causes[k],
{
}

/// A check tells the cycle first, if there is one, then each issue on a line of its own, in order:
/// errors with a red cross, warnings with a yellow sign, then the message, then the address in
/// brackets if there is one.
pub proof fn checks_tell_each_issue(
    c: Colors,
    cycle: Option<Seq<char>>,
    issues: Seq<IssueModel>,
    k: int,
)
    requires
        0 <= k < issues.len(),
    ensures
        cycle is None ==> check_errors(c, cycle, issues).len() == issues.len(),
        cycle is Some ==> check_errors(c, cycle, issues).len() == 1 + issues.len(),
        cycle is Some ==> check_errors(c, cycle, issues)[0] == c.red@ + c.bold@
            + " Cycle detected:"@ + c.reset@ + " "@ + cycle->0,
        ({
            let line = check_errors(c, cycle, issues)[if cycle is Some {
                k + 1
            } else {
                k
            }];
            let i = issues[k];
            &&& i.severity == ValidationSeverity::Error && i.address is None ==> line == c.red@
                + "✗"@ + " "@ + i.message + c.reset@
            &&& i.severity == ValidationSeverity::Warning && i.address is None ==> line == c.yellow@
                + "⚠"@ + " "@ + i.message + c.reset@
            &&& i.severity == ValidationSeverity::Error && i.address is Some ==> line == c.red@
                + "✗"@ + " "@ + i.message + " ("@ + i.address->0 + ")"@ + c.reset@
            &&& i.severity == ValidationSeverity::Warning && i.address is Some ==> line == c.yellow@
                + "⚠"@ + " "@ + i.message + " ("@ + i.address->0 + ")"@ + c.reset@
        }),
{
    let i = issues[k];
    let line = issue_text(c, i);
    let mark = match i.severity {
        ValidationSeverity::Error => c.red@ + "✗"@,
        ValidationSeverity::Warning => c.yellow@ + "⚠"@,
    };
    if i.address is Some {
        assert(line =~= mark + " "@ + i.message + " ("@ + i.address->0 + ")"@ + c.reset@);
    } else {
        assert(line =~= mark + " "@ + i.message + c.reset@);
    }
    assert(check_errors(c, cycle, issues)[if cycle is Some {
        k + 1
    } else {
        k
    }] == line);
}

/// Drift is told under a title that counts it, each resource on a line of its own, in order: a green
/// plus for what was added, a red minus for what was removed, a yellow tilde for what was modified.
/// What was removed or modified is said to be so, in a column behind the longest address; so these
/// remarks start at the same place.
pub proof fn checks_tell_each_drift(c: Colors, flawed: bool, notes: Seq<NoteModel>, k: int)
    requires
        0 <= k < notes.len(),
    ensures
        check_output(c, flawed, notes).len() == 1 + notes.len(),
        check_output(c, flawed, notes)[0] == "\nDrift detected ("@ + decimal(notes.len())
            + " resource(s)):"@,
        ({
            let n = notes[k];
            let line = check_output(c, flawed, notes)[1 + k];
            &&& n.kind == DriftKind::Added ==> line == "  "@ + c.green@ + "+"@ + " "@ + n.address
                + c.reset@
            &&& n.kind == DriftKind::Removed ==> {
                &&& ("  "@ + c.red@ + "-"@ + " "@ + n.address + c.reset@).is_prefix_of(line)
                &&& "(removed outside Terraform)"@.is_suffix_of(line)
            }
            &&& n.kind == DriftKind::Modified ==> {
                &&& ("  "@ + c.yellow@ + "~"@ + " "@ + n.address + c.reset@).is_prefix_of(line)
                &&& "(modified outside Terraform)"@.is_suffix_of(line)
            }
        }),
        forall|j: int|
            0 <= j < notes.len() && (#[trigger] notes[j]).kind == notes[k].kind && notes[k].kind
                != DriftKind::Added && notes[k].kind != DriftKind::Unchanged ==> check_output(
                c,
                flawed,
                notes,
            )[1 + j].len() == check_output(c, flawed, notes)[1 + k].len(),
        (notes[k].kind == DriftKind::Removed || notes[k].kind == DriftKind::Modified) && (forall|
            j: int,
        |
            0 <= j < notes.len() ==> (#[trigger] notes[j]).address.len() <= notes[k].address.len())
            ==> check_output(c, flawed, notes)[1 + k] == "  "@ + (if notes[k].kind
            == DriftKind::Removed {
            c.red@ + "-"@
        } else {
            c.yellow@ + "~"@
        }) + " "@ + notes[k].address + c.reset@ + "  "@ + (if notes[k].kind == DriftKind::Removed {
            "(removed outside Terraform)"@
        } else {
            "(modified outside Terraform)"@
        }),
{
    let n = notes[k];
    let width = widest(notes);
    let out = check_output(c, flawed, notes);
    widest_is(notes);
    assert(out[1 + k] == drift_text(c, width, n));
    assert(n.address.len() <= width);
    let gap = blanks((width - n.address.len()) as nat);
    if n.kind == DriftKind::Removed {
        let start = "  "@ + (c.red@ + "-"@) + " "@ + n.address + c.reset@;
        assert(out[1 + k] =~= start + "  "@ + gap + "(removed outside Terraform)"@);
        assert(start =~= "  "@ + c.red@ + "-"@ + " "@ + n.address + c.reset@);
    }
    if n.kind == DriftKind::Modified {
        let start = "  "@ + (c.yellow@ + "~"@) + " "@ + n.address + c.reset@;
        assert(out[1 + k] =~= start + "  "@ + gap + "(modified outside Terraform)"@);
        assert(start =~= "  "@ + c.yellow@ + "~"@ + " "@ + n.address + c.reset@);
    }
    if n.kind == DriftKind::Added {
        assert(out[1 + k] =~= "  "@ + c.green@ + "+"@ + " "@ + n.address + c.reset@);
    }
    assert forall|j: int|
        0 <= j < notes.len() && (#[trigger] notes[j]).kind == n.kind && n.kind != DriftKind::Added
            && n.kind != DriftKind::Unchanged implies out[1 + j].len() == out[1 + k].len() by {
        assert(out[1 + j] == drift_text(c, width, notes[j]));
        assert(notes[j].address.len() <= width);
    }
    if forall|j: int|
        0 <= j < notes.len() ==> (#[trigger] notes[j]).address.len() <= n.address.len() {
        let j = choose|j: int| 0 <= j < notes.len() && (#[trigger] notes[j]).address.len() == width;
        assert(width == n.address.len());
        assert(gap =~= Seq::empty());
    }
}

/// Without drift, a check that found nothing gives the all-clear, and one that found something says
/// nothing more.
pub proof fn all_clear_means_nothing_found(c: Colors, flawed: bool)
    ensures
        !flawed ==> check_output(c, flawed, Seq::empty()) == seq![
            c.green@ + "✓ No issues found. Plan is safe to apply."@ + c.reset@,
        ],
        flawed ==> check_output(c, flawed, Seq::empty()).len() == 0,
{
}

/// A drift report notes each resource, at whatever depth, that only the planned values have, that
/// only the prior state has, or that both have and a change touches; it notes nothing else.
pub proof fn reports_note_what_differs(plan: Plan, notes: Seq<NoteModel>, a: Seq<char>)
    requires
        is_drift_report(plan, notes),
    ensures
        notes.contains(NoteModel { address: a, kind: DriftKind::Added }) <==> !existed(plan, a)
            && is_expected(plan, a),
        notes.contains(NoteModel { address: a, kind: DriftKind::Removed }) <==> existed(plan, a)
            && !is_expected(plan, a),
        notes.contains(NoteModel { address: a, kind: DriftKind::Modified }) <==> existed(plan, a)
            && is_expected(plan, a) && is_touched(plan, a),
        !notes.contains(NoteModel { address: a, kind: DriftKind::Unchanged }),
        notes.no_duplicates(),
{
    drift_tells_what_the_plan_holds(plan, a);
}

/// A check is flawed exactly where it found an issue or a cycle.
pub proof fn flaws_are_issues_and_cycles(report: CheckReport)
    ensures
        report.flawed() <==> report.issues@.len() > 0 || report.cycle is Some,
{
}

/// The members of an object, by their names.
pub open spec fn members_in(json: JsonModel) -> Map<Seq<char>, JsonModel> {
    match json {
        JsonModel::Object(members) => members,
        _ => Map::empty(),
    }
}

/// The JSON of a check has four members: whether the plan is valid, the cycle or null, an object for
/// each issue with its severity, message and address or null, and an object for each drift with its
/// address and kind.
pub proof fn check_json_tells_all(
    flawed: bool,
    cycle: Option<Seq<char>>,
    issues: Seq<IssueModel>,
    notes: Seq<NoteModel>,
    i: int,
    n: int,
)
    ensures
        ({
            let all = members_in(check_json_model(flawed, cycle, issues, notes));
            &&& all.dom() == set!["valid"@, "cycle"@, "issues"@, "drift"@]
            &&& all["valid"@] == JsonModel::Bool(!flawed)
            &&& cycle is None ==> all["cycle"@] == JsonModel::Null
            &&& cycle is Some ==> all["cycle"@] == JsonModel::Text(cycle->0)
            &&& all["issues"@] matches JsonModel::List(list) && list.len() == issues.len() && (0
                <= i < issues.len() ==> {
                let one = members_in(list[i]);
                &&& one.dom() == set!["severity"@, "message"@, "address"@]
                &&& one["message"@] == JsonModel::Text(issues[i].message)
                &&& issues[i].severity == ValidationSeverity::Error ==> one["severity"@]
                    == JsonModel::Text("error"@)
                &&& issues[i].severity == ValidationSeverity::Warning ==> one["severity"@]
                    == JsonModel::Text("warning"@)
                &&& issues[i].address is None ==> one["address"@] == JsonModel::Null
                &&& issues[i].address is Some ==> one["address"@] == JsonModel::Text(
                    issues[i].address->0,
                )
            })
            &&& all["drift"@] matches JsonModel::List(list) && list.len() == notes.len() && (0 <= n
                < notes.len() ==> {
                let one = members_in(list[n]);
                &&& one.dom() == set!["address"@, "kind"@]
                &&& one["address"@] == JsonModel::Text(notes[n].address)
                &&& notes[n].kind == DriftKind::Added ==> one["kind"@] == JsonModel::Text("added"@)
                &&& notes[n].kind == DriftKind::Removed ==> one["kind"@] == JsonModel::Text(
                    "removed"@,
                )
                &&& notes[n].kind == DriftKind::Modified ==> one["kind"@] == JsonModel::Text(
                    "modified"@,
                )
            })
        }),
{
    reveal_strlit("valid");
    reveal_strlit("cycle");
    reveal_strlit("issues");
    reveal_strlit("drift");
    assert("valid"@[0] != "cycle"@[0]);
    assert("valid"@[0] != "drift"@[0]);
    assert("cycle"@[0] != "drift"@[0]);
    assert("issues"@.len() == 6);
    reveal_strlit("severity");
    reveal_strlit("message");
    reveal_strlit("address");
    reveal_strlit("kind");
    assert("message"@[0] != "address"@[0]);
    assert("severity"@.len() == 8 && "kind"@.len() == 4 && "address"@.len() == 7);
    let all = members_in(check_json_model(flawed, cycle, issues, notes));
    assert(all.dom() =~= set!["valid"@, "cycle"@, "issues"@, "drift"@]);
    if 0 <= i < issues.len() {
        let one = members_in(issue_json(issues[i]));
        assert(one.dom() =~= set!["severity"@, "message"@, "address"@]);
    }
    if 0 <= n < notes.len() {
        let one = members_in(note_json(notes[n]));
        assert(one.dom() =~= set!["address"@, "kind"@]);
    }
}

/// A blast radius is told under a title that names the target and counts what is affected, each
/// address on a line of its own, in order; where nothing is affected, one line says so.
pub proof fn blasts_tell_each_address(
    c: Colors,
    target: Seq<char>,
    affected: Seq<Seq<char>>,
    k: int,
)
    ensures
        affected.len() == 0 ==> blast_text(c, target, affected) == seq![
            "No other resources depend on "@ + target + "."@,
        ],
        affected.len() > 0 ==> {
            &&& blast_text(c, target, affected).len() == 1 + affected.len()
            &&& blast_text(c, target, affected)[0] == "Blast radius of "@ + c.bold@ + target
                + c.reset@ + " ("@ + c.yellow@ + decimal(affected.len()) + c.reset@
                + " resource(s) affected):\n"@
        },
        0 <= k < affected.len() ==> blast_text(c, target, affected)[1 + k] == "  "@ + affected[k],
{
}

/// The JSON of a blast radius has three members: the target, the number of addresses, and the
/// addresses in order.
pub proof fn blast_json_tells_all(target: Seq<char>, affected: Seq<Seq<char>>, k: int)
    ensures
        ({
            let all = members_in(blast_json_model(target, affected));
            &&& all.dom() == set!["source"@, "affected_count"@, "affected"@]
            &&& all["source"@] == JsonModel::Text(target)
            &&& all["affected_count"@] == JsonModel::Number(affected.len())
            &&& all["affected"@] matches JsonModel::List(list) && list.len() == affected.len() && (0
                <= k < affected.len() ==> list[k] == JsonModel::Text(affected[k]))
        }),
{
    reveal_strlit("source");
    reveal_strlit("affected_count");
    reveal_strlit("affected");
    assert("source"@.len() == 6 && "affected_count"@.len() == 14 && "affected"@.len() == 8);
    let all = members_in(blast_json_model(target, affected));
    assert(all.dom() =~= set!["source"@, "affected_count"@, "affected"@]);
}

/// A blast radius lists, each once and none out of order, whatever depends on the target, directly
/// or by way of others, and never the target itself.
pub proof fn blasts_list_what_depends(
    plan: Plan,
    target: Seq<char>,
    affected: Seq<Seq<char>>,
    a: Seq<char>,
)
    requires
        graph_fits(plan),
        is_blast_of(plan, target, affected),
    ensures
        affected.contains(a) <==> a != target && exists|p: Seq<Seq<char>>| #[trigger]
            is_dependency_walk(plan_graph(plan), p) && p[0] == a && p.last() == target && p.len()
                > 1,
        affected.no_duplicates(),
        forall|i: int, j: int|
            0 <= i < j < affected.len() ==> text_le(#[trigger] affected[i], #[trigger] affected[j]),
        !affected.contains(target),
{
    plans_have_graphs(plan);
    hits_are_walks(plan_graph(plan), target, a);
    hits_are_walks(plan_graph(plan), target, target);
}

} // verus!
