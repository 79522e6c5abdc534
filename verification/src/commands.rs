//! What each command does with what was loaded: the text it prints, the lines it warns with, and
//! its exit code.

use vstd::prelude::*;

use crate::blueprint::{cycle_told, graph_fits, plan_graph, reduced_graph};
use crate::digraph::{links_of, Edge};
use crate::dot::{dot_edge, dot_node, dot_text, each_line_is_in_the_text};
use crate::impact::reduction_takes_what_has_a_detour;
use crate::json::pretty_form;
use crate::parser::Plan;
use crate::paths::{acyclic, is_path};
use crate::report::{
    blast_json, blast_json_model, blast_lines, blast_plan, blast_text, check_errors, check_json,
    check_json_model, check_lines, check_output, check_plan, clean_plans_pass, drift_reports_agree,
    error_lines, error_text, is_blast_of, is_drift_report, note_models, output_lines_carry_over,
    plan_dot, same_lines, Colors, NoteModel,
};
use crate::text::{holds, owned, texts};
use crate::tree::plans_have_graphs;
use crate::validation::{is_clean, issue_models, plan_issues};
use crate::version::{version_warnings, warning_lines, BinaryInfo};

verus! {

/// How a command prints its result.
#[derive(Debug, Clone, Copy, PartialEq, Eq, Structural)]
pub enum Format {
    Text,
    Json,
}

/// The colors of the output and of the error stream.
#[derive(Debug, Clone, Copy)]
pub struct Screen {
    pub output: Colors,
    pub errors: Colors,
}

/// What went wrong, and why.
#[derive(Debug, Clone)]
pub struct Failure {
    pub message: String,
    pub causes: Vec<String>,
}

/// What a command ends with: lines for the error stream, the text for the output, the exit code.
#[derive(Debug)]
pub struct Outcome {
    pub errors: Vec<String>,
    pub output: String,
    pub code: i32,
}

/// An outcome, by its texts.
pub struct OutcomeModel {
    pub errors: Seq<Seq<char>>,
    pub output: Seq<char>,
    pub code: int,
}

impl View for Outcome {
    type V = OutcomeModel;

    open spec fn view(&self) -> OutcomeModel {
        OutcomeModel { errors: texts(self.errors@), output: self.output@, code: self.code as int }
    }
}

/// The lines as one text, a line break after each.
pub open spec fn printed(lines: Seq<Seq<char>>) -> Seq<char>
    decreases lines.len(),
{
    if lines.len() == 0 {
        Seq::empty()
    } else {
        printed(lines.drop_last()) + lines.last() + "\n"@
    }
}

/// The lines as one text, a line break after each.
fn print_lines(lines: &Vec<String>) -> (text: String)
    ensures
        text@ == printed(texts(lines@)),
{
    let ghost all = texts(lines@);
    let mut out = String::new();
    let mut k: usize = 0;
    assert(all.take(0) =~= Seq::empty());
    assert(out@ =~= Seq::empty());
    while k < lines.len()
        invariant
            k <= lines@.len(),
            all == texts(lines@),
            out@ == printed(all.take(k as int)),
        decreases lines@.len() - k,
    {
        assert(all.take(k + 1).drop_last() =~= all.take(k as int));
        assert(all.take(k + 1).last() == lines@[k as int]@);
        out.append(lines[k].as_str());
        out.append("\n");
        k += 1;
    }
    assert(all.take(k as int) =~= all);
    out
}

/// A text and a line break.
fn print_line(line: String) -> (text: String)
    ensures
        text@ == printed(seq![line@]),
{
    let mut lines: Vec<String> = Vec::new();
    let ghost model = line@;
    lines.push(line);
    assert(texts(lines@) =~= seq![model]);
    print_lines(&lines)
}

// ── Failure ──────────────────────────────────────────────────────────────────

/// A technical error: it is told on the error stream, nothing is printed, and the exit code is 1.
pub open spec fn failed(screen: Screen, failure: Failure) -> OutcomeModel {
    OutcomeModel {
        errors: error_text(screen.errors, failure.message@, texts(failure.causes@)),
        output: Seq::empty(),
        code: 1,
    }
}

/// The end of a command that failed.
pub fn fail(screen: &Screen, failure: &Failure) -> (outcome: Outcome)
    ensures
        outcome@ == failed(*screen, *failure),
{
    let errors = error_lines(&screen.errors, failure.message.as_str(), &failure.causes);
    let outcome = Outcome { errors, output: String::new(), code: 1 };
    assert(outcome.output@ =~= Seq::empty());
    outcome
}

/// A command that has nothing to print: it tells `notes` on the error stream.
pub open spec fn done(notes: Seq<Seq<char>>) -> OutcomeModel {
    OutcomeModel { errors: notes, output: Seq::empty(), code: 0 }
}

// ── Check ────────────────────────────────────────────────────────────────────

/// The plan has issues, or its graph a cycle.
pub open spec fn plan_flawed(plan: Plan) -> bool {
    plan_issues(plan).len() > 0 || cycle_told(plan_graph(plan)) is Some
}

/// What a check of the plan ends with, for its drift in this order. A detected tool adds a warning
/// and changes nothing else.
pub open spec fn checked(
    plan: Plan,
    detected: Option<BinaryInfo>,
    format: Format,
    screen: Screen,
    notes: Seq<NoteModel>,
) -> OutcomeModel {
    let flawed = plan_flawed(plan);
    let cycle = cycle_told(plan_graph(plan));
    let warnings = version_warnings(plan.format_version@, detected);
    OutcomeModel {
        errors: match format {
            Format::Text => warnings + check_errors(screen.output, cycle, plan_issues(plan)),
            Format::Json => warnings,
        },
        output: printed(
            match format {
                Format::Text => check_output(screen.output, flawed, notes),
                Format::Json => seq![
                    pretty_form(check_json_model(flawed, cycle, plan_issues(plan), notes))->0,
                ],
            },
        ),
        code: if flawed {
            2
        } else {
            0
        },
    }
}

/// The outcome is that of a check of the plan.
pub open spec fn is_checked(
    plan: Plan,
    detected: Option<BinaryInfo>,
    format: Format,
    screen: Screen,
    outcome: OutcomeModel,
) -> bool {
    exists|notes: Seq<NoteModel>| #[trigger]
        is_drift_report(plan, notes) && outcome == checked(plan, detected, format, screen, notes)
}

/// Adds lines to lines.
fn add_lines(lines: &mut Vec<String>, more: Vec<String>)
    ensures
        texts(final(lines)@) == texts(old(lines)@) + texts(more@),
{
    let ghost before = texts(lines@);
    let ghost all = texts(more@);
    let mut more = more;
    lines.append(&mut more);
    assert(texts(lines@) =~= before + all);
}

/// The `check` command. The check passes, with exit code 0, where the plan is clean and its graph
/// has no cycle, and fails with exit code 2 elsewhere; where no plan could be loaded, it fails with
/// exit code 1. Nothing comes back where the plan's graph would outgrow 32-bit numbers.
pub fn check_command(
    loaded: &Result<Plan, Failure>,
    detected: &Option<BinaryInfo>,
    format: Format,
    screen: &Screen,
) -> (outcome: Option<Outcome>)
    ensures
        outcome is None <==> (*loaded matches Ok(plan) && !graph_fits(plan)),
        outcome matches Some(o) ==> match *loaded {
            Err(failure) => o@ == failed(*screen, failure),
            Ok(plan) => {
                &&& is_checked(plan, *detected, format, *screen, o@)
                &&& o.code == (if is_clean(plan) && acyclic(plan_graph(plan).links()) {
                    0i32
                } else {
                    2i32
                })
            },
        },
{
    let plan = match loaded {
        Err(failure) => {
            return Some(fail(screen, failure));
        },
        Ok(plan) => plan,
    };
    let report = match check_plan(plan) {
        None => {
            return None;
        },
        Some(report) => report,
    };
    let ghost notes = note_models(report.drift@);
    proof {
        assert(issue_models(report.issues@).len() == report.issues@.len());
        assert(report.flawed() == plan_flawed(*plan));
        clean_plans_pass(*plan, report);
    }
    let mut errors = warning_lines(plan.format_version.as_str(), detected);
    let code = report.exit_code();
    let output = match format {
        Format::Text => {
            let lines = check_lines(&report, &screen.output);
            add_lines(&mut errors, lines.errors);
            print_lines(&lines.output)
        },
        Format::Json => print_line(check_json(&report)),
    };
    let outcome = Outcome { errors, output, code };
    proof {
        assert(outcome@ == checked(*plan, *detected, format, *screen, notes));
        assert(is_drift_report(*plan, notes));
    }
    Some(outcome)
}

/// Two checks of one plan that differ in the detected tool alone end with the same exit code, and
/// print the same lines, or the same JSON, up to the order of the drift. The tool shows on the error
/// stream only.
pub proof fn detection_changes_no_result(
    plan: Plan,
    detected: Option<BinaryInfo>,
    other: Option<BinaryInfo>,
    format: Format,
    screen: Screen,
    a: OutcomeModel,
    b: OutcomeModel,
)
    requires
        is_checked(plan, detected, format, screen, a),
        is_checked(plan, other, format, screen, b),
    ensures
        a.code == b.code,
        exists|x: Seq<NoteModel>, y: Seq<NoteModel>|
            {
                &&& #[trigger] x.to_multiset() == #[trigger] y.to_multiset()
                &&& a.output == checked(plan, detected, format, screen, x).output
                &&& b.output == checked(plan, detected, format, screen, y).output
                &&& same_lines(
                    check_output(screen.output, plan_flawed(plan), x),
                    check_output(screen.output, plan_flawed(plan), y),
                )
            },
{
    let x = choose|notes: Seq<NoteModel>| #[trigger]
        is_drift_report(plan, notes) && a == checked(plan, detected, format, screen, notes);
    let y = choose|notes: Seq<NoteModel>| #[trigger]
        is_drift_report(plan, notes) && b == checked(plan, other, format, screen, notes);
    drift_reports_agree(plan, x, y);
    let flawed = plan_flawed(plan);
    let p = check_output(screen.output, flawed, x);
    let q = check_output(screen.output, flawed, y);
    assert forall|line: Seq<char>| #[trigger] p.contains(line) <==> q.contains(line) by {
        if p.contains(line) {
            output_lines_carry_over(screen.output, flawed, x, y, line);
        }
        if q.contains(line) {
            output_lines_carry_over(screen.output, flawed, y, x, line);
        }
    }
    assert(x.to_multiset() == y.to_multiset());
}

// ── Blast radius ─────────────────────────────────────────────────────────────

/// What the blast command ends with, where these addresses are affected.
pub open spec fn blasted(
    target: Seq<char>,
    format: Format,
    screen: Screen,
    affected: Seq<Seq<char>>,
) -> OutcomeModel {
    OutcomeModel {
        errors: Seq::empty(),
        output: printed(
            match format {
                Format::Text => blast_text(screen.output, target, affected),
                Format::Json => seq![pretty_form(blast_json_model(target, affected))->0],
            },
        ),
        code: 0,
    }
}

/// The `blast` command. It ends with exit code 0, also where nothing is affected or no node has the
/// address; where no plan could be loaded, it fails. Nothing comes back where the plan's graph would
/// outgrow 32-bit numbers.
pub fn blast_command(
    loaded: &Result<Plan, Failure>,
    target: &str,
    format: Format,
    screen: &Screen,
) -> (outcome: Option<Outcome>)
    ensures
        outcome is None <==> (*loaded matches Ok(plan) && !graph_fits(plan)),
        outcome matches Some(o) ==> match *loaded {
            Err(failure) => o@ == failed(*screen, failure),
            Ok(plan) => exists|affected: Seq<Seq<char>>| #[trigger]
                is_blast_of(plan, target@, affected) && o@ == blasted(
                    target@,
                    format,
                    *screen,
                    affected,
                ),
        },
{
    let plan = match loaded {
        Err(failure) => {
            return Some(fail(screen, failure));
        },
        Ok(plan) => plan,
    };
    let affected = match blast_plan(plan, target) {
        None => {
            return None;
        },
        Some(affected) => affected,
    };
    let output = match format {
        Format::Text => print_lines(&blast_lines(&screen.output, target, &affected)),
        Format::Json => print_line(blast_json(target, &affected)),
    };
    let errors: Vec<String> = Vec::new();
    let outcome = Outcome { errors, output, code: 0 };
    proof {
        assert(texts(errors@) =~= Seq::empty());
        assert(outcome@ == blasted(target@, format, *screen, texts(affected@)));
        assert(is_blast_of(*plan, target@, texts(affected@)));
    }
    Some(outcome)
}

// ── Graph ────────────────────────────────────────────────────────────────────

/// What the graph command does next.
#[derive(Debug)]
pub enum GraphStep {
    /// Render the text and open the picture.
    View { dot: String },
    /// Write the text, and nothing else, to the file.
    Write { dot: String },
    /// Nothing more.
    End { outcome: Outcome },
}

/// The text of the plan's graph, reduced unless `no_reduce`.
pub open spec fn graph_shown(plan: Plan, no_reduce: bool) -> Seq<char> {
    dot_text(
        if no_reduce {
            plan_graph(plan)
        } else {
            reduced_graph(plan_graph(plan))
        },
    )
}

/// The `graph` command. With `view` the graph is rendered, otherwise with a file it is written
/// there, otherwise exactly its text is printed. Where no plan could be loaded, the command fails.
/// Nothing comes back where the plan's graph would outgrow 32-bit numbers.
pub fn graph_command(
    loaded: &Result<Plan, Failure>,
    view: bool,
    to_file: bool,
    no_reduce: bool,
    screen: &Screen,
) -> (step: Option<GraphStep>)
    ensures
        step is None <==> (*loaded matches Ok(plan) && !graph_fits(plan)),
        step matches Some(s) ==> match *loaded {
            Err(failure) => s matches GraphStep::End { outcome } && outcome@ == failed(
                *screen,
                failure,
            ),
            Ok(plan) => if view {
                s matches GraphStep::View { dot } && dot@ == graph_shown(plan, no_reduce)
            } else if to_file {
                s matches GraphStep::Write { dot } && dot@ == graph_shown(plan, no_reduce)
            } else {
                s matches GraphStep::End { outcome } && outcome@ == (OutcomeModel {
                    errors: Seq::empty(),
                    output: graph_shown(plan, no_reduce),
                    code: 0,
                })
            },
        },
{
    let plan = match loaded {
        Err(failure) => {
            return Some(GraphStep::End { outcome: fail(screen, failure) });
        },
        Ok(plan) => plan,
    };
    match plan_dot(plan, no_reduce) {
        None => None,
        Some(dot) => if view {
            Some(GraphStep::View { dot })
        } else if to_file {
            Some(GraphStep::Write { dot })
        } else {
            let errors: Vec<String> = Vec::new();
            assert(texts(errors@) =~= Seq::empty());
            Some(GraphStep::End { outcome: Outcome { errors, output: dot, code: 0 } })
        },
    }
}

/// After the graph was written to a file: the place is told, or the failure.
pub fn after_writing(written: &Result<String, Failure>, screen: &Screen) -> (outcome: Outcome)
    ensures
        outcome@ == (match *written {
            Ok(place) => done(seq!["DOT written to "@ + place@]),
            Err(failure) => failed(*screen, failure),
        }),
{
    after_placing("DOT written to ", written, screen)
}

/// After the graph was rendered: the place is told, or the failure.
pub fn after_viewing(viewed: &Result<String, Failure>, screen: &Screen) -> (outcome: Outcome)
    ensures
        outcome@ == (match *viewed {
            Ok(place) => done(seq!["Graph written to "@ + place@]),
            Err(failure) => failed(*screen, failure),
        }),
{
    after_placing("Graph written to ", viewed, screen)
}

fn after_placing(words: &str, placed: &Result<String, Failure>, screen: &Screen) -> (outcome:
    Outcome)
    ensures
        outcome@ == (match *placed {
            Ok(place) => done(seq![words@ + place@]),
            Err(failure) => failed(*screen, failure),
        }),
{
    match placed {
        Err(failure) => fail(screen, failure),
        Ok(place) => {
            let mut line = owned(words);
            line.append(place.as_str());
            let mut errors: Vec<String> = Vec::new();
            errors.push(line);
            let outcome = Outcome { errors, output: String::new(), code: 0 };
            assert(texts(outcome.errors@) =~= seq![words@ + place@]);
            assert(outcome.output@ =~= Seq::empty());
            outcome
        },
    }
}

// ── View ─────────────────────────────────────────────────────────────────────

/// After the browser has closed: nothing more to say, or the failure.
pub fn after_browsing(browsed: &Result<(), Failure>, screen: &Screen) -> (outcome: Outcome)
    ensures
        outcome@ == (match *browsed {
            Ok(_) => done(Seq::empty()),
            Err(failure) => failed(*screen, failure),
        }),
{
    match browsed {
        Err(failure) => fail(screen, failure),
        Ok(_) => {
            let outcome = Outcome { errors: Vec::new(), output: String::new(), code: 0 };
            assert(texts(outcome.errors@) =~= Seq::empty());
            assert(outcome.output@ =~= Seq::empty());
            outcome
        },
    }
}

// ── What holds of the outcomes ───────────────────────────────────────────────

/// What is printed is each line, in order, with a line break after it, and nothing else.
pub proof fn each_line_is_printed(lines: Seq<Seq<char>>)
    ensures
        printed(lines) == lines.map_values(|l: Seq<char>| l.push('\n')).flatten(),
    decreases lines.len(),
{
    reveal_strlit("\n");
    let ended = lines.map_values(|l: Seq<char>| l.push('\n'));
    ended.lemma_flatten_and_flatten_alt_are_equivalent();
    if lines.len() > 0 {
        let few = lines.drop_last();
        let before = few.map_values(|l: Seq<char>| l.push('\n'));
        before.lemma_flatten_and_flatten_alt_are_equivalent();
        each_line_is_printed(few);
        assert(ended.drop_last() =~= before);
        assert(lines.last() + "\n"@ =~= lines.last().push('\n'));
        assert(printed(lines) =~= printed(few) + lines.last().push('\n'));
    }
}

/// A failure prints nothing, ends with exit code 1, and tells the message and then each cause, in
/// order.
pub proof fn failures_are_told(screen: Screen, failure: Failure, k: int)
    ensures
        failed(screen, failure).code == 1,
        failed(screen, failure).output.len() == 0,
        failed(screen, failure).errors.len() == 1 + failure.causes@.len(),
        failed(screen, failure).errors[0] == screen.errors.red@ + "error:"@ + screen.errors.reset@
            + " "@ + failure.message@,
        0 <= k < failure.causes@.len() ==> failed(screen, failure).errors[1 + k] == "       "@
            + failure.causes@[k]@,
{
}

/// A check warns first. As text, the cycle and the issues follow on the error stream, in the colors
/// of the output; as JSON, nothing follows there, and one JSON text is printed. The exit code does
/// not depend on the format, the screen, the detected tool or the drift: it is 0 or 2, and 0 exactly
/// where there is neither an issue nor a cycle.
pub proof fn checks_end_as_promised(
    plan: Plan,
    detected: Option<BinaryInfo>,
    format: Format,
    screen: Screen,
    notes: Seq<NoteModel>,
)
    ensures
        ({
            let o = checked(plan, detected, format, screen, notes);
            let cycle = cycle_told(plan_graph(plan));
            let issues = plan_issues(plan);
            let warnings = version_warnings(plan.format_version@, detected);
            &&& o.code == 0 <==> issues.len() == 0 && cycle is None
            &&& o.code == 2 <==> issues.len() > 0 || cycle is Some
            &&& warnings.is_prefix_of(o.errors)
            &&& format == Format::Json ==> o.errors == warnings
            &&& format == Format::Json ==> o.output == pretty_form(
                check_json_model(o.code == 2, cycle, issues, notes),
            )->0 + "\n"@
            &&& format == Format::Text ==> o.errors.skip(warnings.len() as int) == check_errors(
                screen.output,
                cycle,
                issues,
            )
            &&& format == Format::Text ==> o.output == check_output(
                screen.output,
                o.code == 2,
                notes,
            ).map_values(|l: Seq<char>| l.push('\n')).flatten()
        }),
{
    let o = checked(plan, detected, format, screen, notes);
    let warnings = version_warnings(plan.format_version@, detected);
    let issues = check_errors(screen.output, cycle_told(plan_graph(plan)), plan_issues(plan));
    assert((warnings + issues).skip(warnings.len() as int) =~= issues);
    each_line_is_printed(check_output(screen.output, plan_flawed(plan), notes));
    let json = pretty_form(
        check_json_model(
            plan_flawed(plan),
            cycle_told(plan_graph(plan)),
            plan_issues(plan),
            notes,
        ),
    )->0;
    one_line_is_printed(json);
}

proof fn one_line_is_printed(line: Seq<char>)
    ensures
        printed(seq![line]) == line + "\n"@,
{
    reveal_with_fuel(printed, 2);
    assert(seq![line].drop_last() =~= Seq::empty());
    assert(seq![line].last() == line);
    assert(printed(seq![line]) =~= line + "\n"@);
}

/// A blast radius ends with exit code 0 and nothing on the error stream, whatever is affected. As
/// JSON, one JSON text is printed.
pub proof fn blasts_end_as_promised(
    target: Seq<char>,
    format: Format,
    screen: Screen,
    affected: Seq<Seq<char>>,
)
    ensures
        blasted(target, format, screen, affected).code == 0,
        blasted(target, format, screen, affected).errors.len() == 0,
        format == Format::Json ==> blasted(target, format, screen, affected).output == pretty_form(
            blast_json_model(target, affected),
        )->0 + "\n"@,
        format == Format::Text ==> blasted(target, format, screen, affected).output == blast_text(
            screen.output,
            target,
            affected,
        ).map_values(|l: Seq<char>| l.push('\n')).flatten(),
{
    each_line_is_printed(blast_text(screen.output, target, affected));
    one_line_is_printed(pretty_form(blast_json_model(target, affected))->0);
}

/// The graph is shown with all its edges on request, and otherwise without those beside which
/// another walk leads the same way. Either way all its nodes are shown.
pub proof fn graphs_are_shown_reduced(plan: Plan, e: Edge, i: int)
    requires
        graph_fits(plan),
        plan_graph(plan).edges.contains(e),
    ensures
        graph_shown(plan, true) == dot_text(plan_graph(plan)),
        graph_shown(plan, false) == dot_text(reduced_graph(plan_graph(plan))),
        holds(graph_shown(plan, true), dot_edge(e)),
        !(exists|p: Seq<int>| #[trigger]
            is_path(links_of(plan_graph(plan).edges), p) && p.len() > 2 && p[0] == e.from && p[1]
                != e.to && p.last() == e.to) ==> holds(graph_shown(plan, false), dot_edge(e)),
        0 <= i < plan_graph(plan).nodes.len() ==> forall|no_reduce: bool| #[trigger]
            holds(
                graph_shown(plan, no_reduce),
                dot_node(
                    i as nat,
                    plan_graph(plan).nodes[i].address,
                    plan_graph(plan).metas[i].actions,
                ),
            ),
{
    plans_have_graphs(plan);
    let g = plan_graph(plan);
    let r = reduced_graph(g);
    reduction_takes_what_has_a_detour(g, e);
    let k = g.edges.index_of(e);
    each_line_is_in_the_text(g, i, k);
    each_line_is_in_the_text(r, i, if r.edges.contains(e) {
        r.edges.index_of(e)
    } else {
        0
    });
}

/// A command that is done prints nothing, tells what there is to tell, and ends with exit code 0.
pub proof fn done_is_no_failure(notes: Seq<Seq<char>>, screen: Screen, failure: Failure)
    ensures
        done(notes).code == 0,
        done(notes).output.len() == 0,
        done(notes).errors == notes,
        done(notes).code != failed(screen, failure).code,
{
}

} // verus!
