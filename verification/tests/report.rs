use eia::drift::DriftKind;
use eia::order::sort_texts;
use eia::parser::{
    Action, ChangeDetails, Plan, PlannedModule, PlannedResource, PlannedValues, ResourceChange,
    State, StateModule, StateResource, StateValues,
};
use eia::report::{
    blast_json, blast_lines, blast_plan, check_json, check_lines, check_plan, colors, error_lines,
    plan_dot, CheckReport, DriftNote,
};
use eia::validation::{ValidationIssue, ValidationSeverity};

fn node(address: &str, depends_on: &[&str]) -> PlannedResource {
    PlannedResource {
        address: address.to_string(),
        module_address: None,
        mode: None,
        resource_type: None,
        name: None,
        index: None,
        provider_name: None,
        schema_version: None,
        values: None,
        sensitive_values: None,
        depends_on: depends_on.iter().map(|d| d.to_string()).collect(),
        tainted: None,
        deposed_key: None,
    }
}

fn before(address: &str) -> StateResource {
    StateResource {
        address: address.to_string(),
        module_address: None,
        mode: None,
        resource_type: None,
        name: None,
        index: None,
        provider_name: None,
        schema_version: None,
        values: None,
        sensitive_values: None,
        depends_on: vec![],
        tainted: None,
        deposed_key: None,
    }
}

fn planned_change(address: &str, actions: &[Action]) -> ResourceChange {
    ResourceChange {
        address: address.to_string(),
        previous_address: None,
        module_address: None,
        mode: None,
        resource_type: None,
        name: None,
        index: None,
        provider_name: None,
        deposed: None,
        action_reason: None,
        change: ChangeDetails {
            actions: actions.to_vec(),
            before: None,
            after: None,
            after_unknown: None,
            before_sensitive: None,
            after_sensitive: None,
            replace_paths: None,
            importing: None,
            generated_config: None,
        },
    }
}

fn plan_with(
    resources: Vec<PlannedResource>,
    prior: Vec<StateResource>,
    resource_changes: Vec<ResourceChange>,
) -> Plan {
    Plan {
        format_version: "1.2".to_string(),
        terraform_version: None,
        variables: vec![],
        resource_changes,
        resource_drift: vec![],
        output_changes: vec![],
        planned_values: Some(PlannedValues {
            root_module: PlannedModule { address: None, resources, child_modules: vec![] },
            outputs: vec![],
        }),
        prior_state: Some(State {
            format_version: None,
            terraform_version: None,
            values: Some(StateValues {
                root_module: StateModule { address: None, resources: prior, child_modules: vec![] },
                outputs: vec![],
            }),
            checks: vec![],
        }),
        configuration: None,
        relevant_attributes: vec![],
        checks: vec![],
        timestamp: None,
        errored: false,
        applyable: None,
        complete: None,
        proposed_unknown: None,
    }
}

fn flawed_report() -> CheckReport {
    CheckReport {
        issues: vec![
            ValidationIssue {
                severity: ValidationSeverity::Error,
                message: "bad".to_string(),
                address: Some("a.b".to_string()),
            },
            ValidationIssue {
                severity: ValidationSeverity::Warning,
                message: "odd".to_string(),
                address: None,
            },
        ],
        cycle: Some("r.x".to_string()),
        drift: vec![
            DriftNote { address: "n.a".to_string(), kind: DriftKind::Added },
            DriftNote { address: "n.r".to_string(), kind: DriftKind::Removed },
            DriftNote { address: "n.m".to_string(), kind: DriftKind::Modified },
        ],
    }
}

// ── Check ────────────────────────────────────────────────────────────────────

#[test]
fn a_clean_plan_passes() {
    let plan = plan_with(
        vec![node("a", &[]), node("b", &["a"])],
        vec![before("a"), before("b")],
        vec![planned_change("a", &[Action::NoOp])],
    );
    let report = check_plan(&plan).unwrap();
    assert!(report.issues.is_empty());
    assert_eq!(report.cycle, None);
    assert!(report.drift.is_empty());
    assert!(!report.has_issues());
    assert_eq!(report.exit_code(), 0);
    let lines = check_lines(&report, &colors(false));
    assert!(lines.errors.is_empty());
    assert_eq!(lines.output, ["✓ No issues found. Plan is safe to apply."]);
    let lines = check_lines(&report, &colors(true));
    assert_eq!(
        lines.output,
        ["\x1b[32m✓ No issues found. Plan is safe to apply.\x1b[0m"]
    );
}

#[test]
fn drift_alone_does_not_fail_a_check() {
    let plan = plan_with(
        vec![node("kept", &[]), node("new", &[])],
        vec![before("kept")],
        vec![planned_change("new", &[Action::Create])],
    );
    let report = check_plan(&plan).unwrap();
    assert_eq!(report.drift.len(), 1);
    assert_eq!(report.drift[0].address, "new");
    assert_eq!(report.drift[0].kind, DriftKind::Added);
    assert_eq!(report.exit_code(), 0);
    let lines = check_lines(&report, &colors(false));
    assert!(lines.errors.is_empty());
    assert_eq!(lines.output, ["\nDrift detected (1 resource(s)):", "  + new"]);
}

#[test]
fn issues_and_cycles_fail_a_check() {
    let mut plan = plan_with(vec![node("a", &[])], vec![before("a")], vec![planned_change(
        "a",
        &[Action::Update],
    )]);
    plan.errored = true;
    let report = check_plan(&plan).unwrap();
    assert!(report.has_issues());
    assert_eq!(report.exit_code(), 2);

    let plan = plan_with(
        vec![node("a", &["b"]), node("b", &["a"])],
        vec![before("a"), before("b")],
        vec![planned_change("a", &[Action::Update])],
    );
    let report = check_plan(&plan).unwrap();
    assert!(report.issues.is_empty());
    let cycle = report.cycle.clone().unwrap();
    assert!(cycle == "a" || cycle == "b");
    assert_eq!(report.exit_code(), 2);
}

#[test]
fn check_lines_in_color() {
    let lines = check_lines(&flawed_report(), &colors(true));
    assert_eq!(
        lines.errors,
        [
            "\x1b[31m\x1b[1m Cycle detected:\x1b[0m r.x",
            "\x1b[31m✗ bad (a.b)\x1b[0m",
            "\x1b[33m⚠ odd\x1b[0m",
        ]
    );
    assert_eq!(
        lines.output,
        [
            "\nDrift detected (3 resource(s)):",
            "  \x1b[32m+ n.a\x1b[0m",
            "  \x1b[31m- n.r\x1b[0m  (removed outside Terraform)",
            "  \x1b[33m~ n.m\x1b[0m  (modified outside Terraform)",
        ]
    );
}

#[test]
fn check_lines_without_color() {
    let lines = check_lines(&flawed_report(), &colors(false));
    assert_eq!(lines.errors, [" Cycle detected: r.x", "✗ bad (a.b)", "⚠ odd"]);
    assert_eq!(
        lines.output,
        [
            "\nDrift detected (3 resource(s)):",
            "  + n.a",
            "  - n.r  (removed outside Terraform)",
            "  ~ n.m  (modified outside Terraform)",
        ]
    );
    let mut silent = flawed_report();
    silent.drift.clear();
    assert!(check_lines(&silent, &colors(false)).output.is_empty());
}

#[test]
fn drift_reasons_stand_in_a_column() {
    let mut report = flawed_report();
    report.drift = vec![
        DriftNote { address: "aws_instance.app_server".to_string(), kind: DriftKind::Modified },
        DriftNote { address: "aws_security_group.bastion".to_string(), kind: DriftKind::Removed },
        DriftNote { address: "é".to_string(), kind: DriftKind::Removed },
    ];
    let lines = check_lines(&report, &colors(false));
    assert_eq!(
        lines.output[1..],
        [
            "  ~ aws_instance.app_server     (modified outside Terraform)",
            "  - aws_security_group.bastion  (removed outside Terraform)",
            "  - é                           (removed outside Terraform)",
        ]
    );
}

#[test]
fn two_checks_of_one_plan_agree() {
    let plan = plan_with(
        vec![node("a", &["b"]), node("b", &["a"]), node("n", &[])],
        vec![before("a"), before("old"), before("older")],
        vec![planned_change("a", &[Action::Update])],
    );
    let one = check_plan(&plan).unwrap();
    let two = check_plan(&plan).unwrap();
    assert_eq!(one.exit_code(), two.exit_code());
    assert!(one.cycle.is_some());
    assert_eq!(one.cycle, two.cycle);
    let output = |r: &CheckReport| {
        let mut lines = check_lines(r, &colors(false)).output;
        lines.sort();
        lines
    };
    assert_eq!(output(&one), output(&two));
    assert_eq!(output(&one).len(), 6);
}

#[test]
fn check_as_json() {
    let text = check_json(&flawed_report());
    let wanted = r#"{
  "cycle": "r.x",
  "drift": [
    {
      "address": "n.a",
      "kind": "added"
    },
    {
      "address": "n.r",
      "kind": "removed"
    },
    {
      "address": "n.m",
      "kind": "modified"
    }
  ],
  "issues": [
    {
      "address": "a.b",
      "message": "bad",
      "severity": "error"
    },
    {
      "address": null,
      "message": "odd",
      "severity": "warning"
    }
  ],
  "valid": false
}"#;
    assert_eq!(text, wanted);
    let clean = CheckReport { issues: vec![], cycle: None, drift: vec![] };
    let wanted = "{\n  \"cycle\": null,\n  \"drift\": [],\n  \"issues\": [],\n  \"valid\": true\n}";
    assert_eq!(check_json(&clean), wanted);
}

// ── Blast radius ─────────────────────────────────────────────────────────────

#[test]
fn blast_is_sorted() {
    let plan = plan_with(
        vec![
            node("vpc", &[]),
            node("zone", &["vpc"]),
            node("app[1]", &["zone"]),
            node("app[0]", &["zone"]),
            node("other", &[]),
        ],
        vec![],
        vec![],
    );
    assert_eq!(blast_plan(&plan, "vpc").unwrap(), ["app[0]", "app[1]", "zone"]);
    assert!(blast_plan(&plan, "other").unwrap().is_empty());
    assert!(blast_plan(&plan, "unknown").unwrap().is_empty());
}

#[test]
fn blast_lines_with_and_without_dependents() {
    let affected = vec!["app".to_string(), "zone".to_string()];
    assert_eq!(
        blast_lines(&colors(false), "vpc", &affected),
        ["Blast radius of vpc (2 resource(s) affected):\n", "  app", "  zone"]
    );
    assert_eq!(
        blast_lines(&colors(true), "vpc", &affected)[0],
        "Blast radius of \x1b[1mvpc\x1b[0m (\x1b[33m2\x1b[0m resource(s) affected):\n"
    );
    assert_eq!(
        blast_lines(&colors(true), "vpc", &vec![]),
        ["No other resources depend on vpc."]
    );
}

#[test]
fn blast_as_json() {
    let affected = vec!["a\"b".to_string(), "zone".to_string()];
    let wanted = r#"{
  "affected": [
    "a\"b",
    "zone"
  ],
  "affected_count": 2,
  "source": "vpc"
}"#;
    assert_eq!(blast_json("vpc", &affected), wanted);
}

#[test]
fn texts_are_sorted_by_character() {
    let list: Vec<String> =
        ["b", "a[10]", "é", "a[2]", "", "a", "Z", "a", "𝄞", "\u{ffff}"]
            .map(String::from)
            .to_vec();
    let mut wanted = list.clone();
    wanted.sort();
    assert_eq!(sort_texts(list), wanted);
    assert_eq!(wanted, ["", "Z", "a", "a", "a[10]", "a[2]", "b", "é", "\u{ffff}", "𝄞"]);
}

// ── Graph ────────────────────────────────────────────────────────────────────

#[test]
fn the_graph_is_reduced_unless_asked_not_to() {
    let plan = plan_with(
        vec![node("a", &["b", "c"]), node("b", &["c"]), node("c", &[])],
        vec![],
        vec![],
    );
    let full = plan_dot(&plan, true).unwrap();
    let reduced = plan_dot(&plan, false).unwrap();
    assert_eq!(full.matches("->").count(), 3);
    assert_eq!(reduced.matches("->").count(), 2);
    assert!(!reduced.contains("n0 -> n2"));
}

// ── Errors ───────────────────────────────────────────────────────────────────

#[test]
fn errors_and_their_causes() {
    let causes = vec!["No such file or directory (os error 2)".to_string()];
    assert_eq!(
        error_lines(&colors(false), "could not open plan file", &causes),
        ["error: could not open plan file", "       No such file or directory (os error 2)"]
    );
    assert_eq!(error_lines(&colors(true), "oops", &vec![]), ["\x1b[31merror:\x1b[0m oops"]);
}
