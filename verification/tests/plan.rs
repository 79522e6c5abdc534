use eia::drift::{detect_drift, DriftEntry, DriftKind};
use eia::parser::{
    collect_planned_resources, collect_state_resources, module_id, Action, ChangeDetails, Plan,
    PlannedModule, PlannedResource, PlannedValues, ResourceChange, State, StateModule,
    StateResource, StateValues,
};
use eia::validation::{validate_plan, ValidationSeverity};
use eia::version::{accept_plan, accept_state};
use serde_json::Value;

fn planned(address: &str, values: Option<Value>) -> PlannedResource {
    PlannedResource {
        address: address.to_string(),
        module_address: None,
        mode: None,
        resource_type: None,
        name: None,
        index: None,
        provider_name: None,
        schema_version: None,
        values,
        sensitive_values: None,
        depends_on: vec![],
        tainted: None,
        deposed_key: None,
    }
}

fn existing(address: &str, values: Option<Value>) -> StateResource {
    StateResource {
        address: address.to_string(),
        module_address: None,
        mode: None,
        resource_type: None,
        name: None,
        index: None,
        provider_name: None,
        schema_version: None,
        values,
        sensitive_values: None,
        depends_on: vec![],
        tainted: None,
        deposed_key: None,
    }
}

fn details(actions: &[Action]) -> ChangeDetails {
    ChangeDetails {
        actions: actions.to_vec(),
        before: None,
        after: None,
        after_unknown: None,
        before_sensitive: None,
        after_sensitive: None,
        replace_paths: None,
        importing: None,
        generated_config: None,
    }
}

fn changing(address: &str, actions: &[Action]) -> ResourceChange {
    ResourceChange {
        address: address.to_string(),
        previous_address: None,
        module_address: None,
        mode: None,
        resource_type: None,
        name: None,
        index: None,
        provider_name: None,
        deposed: None,
        action_reason: None,
        change: details(actions),
    }
}

fn minimal_plan(resource_changes: Vec<ResourceChange>) -> Plan {
    Plan {
        format_version: "1.2".to_string(),
        terraform_version: None,
        variables: vec![],
        resource_changes,
        resource_drift: vec![],
        output_changes: vec![],
        planned_values: None,
        prior_state: None,
        configuration: None,
        relevant_attributes: vec![],
        checks: vec![],
        timestamp: None,
        errored: false,
        applyable: None,
        complete: None,
        proposed_unknown: None,
    }
}

fn state_of(format_version: Option<&str>, values: Option<StateValues>) -> State {
    State {
        format_version: format_version.map(|v| v.to_string()),
        terraform_version: None,
        values,
        checks: vec![],
    }
}

fn planned_module(
    address: Option<&str>,
    resources: Vec<PlannedResource>,
    child_modules: Vec<PlannedModule>,
) -> PlannedModule {
    PlannedModule { address: address.map(|a| a.to_string()), resources, child_modules }
}

fn state_module(resources: Vec<StateResource>, child_modules: Vec<StateModule>) -> StateModule {
    StateModule { address: None, resources, child_modules }
}

// ── Accepted formats ─────────────────────────────────────────────────────────

#[test]
fn rejects_unsupported_plan_version() {
    let mut plan = minimal_plan(vec![]);
    plan.format_version = "2.0".to_string();
    let err = accept_plan(plan).unwrap_err();
    assert!(err.message().contains("unsupported plan format_version"));
}

#[test]
fn state_accepts_version_zero() {
    accept_state(state_of(Some("0.2"), None)).unwrap();
}

#[test]
fn state_accepts_version_one() {
    accept_state(state_of(Some("1.0"), None)).unwrap();
}

#[test]
fn terraform_state_without_format_version() {
    let values = StateValues { root_module: state_module(vec![], vec![]), outputs: vec![] };
    let mut given = state_of(None, Some(values));
    given.terraform_version = Some("1.5.0".to_string());
    let state = accept_state(given).unwrap();
    assert!(state.format_version.is_none());
    assert_eq!(state.terraform_version.as_deref(), Some("1.5.0"));
}

#[test]
fn parse_state_rejects_wrong_version() {
    let err = accept_state(state_of(Some("2.0"), None)).unwrap_err();
    assert!(err.message().contains("unsupported state format_version"));
}

#[test]
fn an_accepted_plan_stays_as_it_is() {
    let plan = accept_plan(minimal_plan(vec![])).unwrap();
    assert_eq!(plan.format_version, "1.2");
    assert!(plan.resource_changes.is_empty());
    assert!(!plan.errored);
}

#[test]
fn a_malformed_version_is_refused_with_its_cause() {
    let mut plan = minimal_plan(vec![]);
    plan.format_version = "x.1".to_string();
    let err = accept_plan(plan).unwrap_err();
    assert_eq!(err.message(), "malformed major version in \"x.1\"");
    assert_eq!(err.cause(), Some("invalid digit found in string"));
    let err = accept_state(state_of(Some(""), None)).unwrap_err();
    assert_eq!(err.message(), "malformed major version in \"\"");
    assert_eq!(err.cause(), Some("cannot parse integer from empty string"));
}

// ── Structural validation ────────────────────────────────────────────────────

#[test]
fn validate_empty_plan_warns() {
    let plan = minimal_plan(vec![]);
    let issues = validate_plan(&plan);
    assert!(issues
        .iter()
        .any(|i| i.severity == ValidationSeverity::Warning
            && i.message.contains("no resource or output changes")));
}

#[test]
fn validate_destroy_all_warns() {
    let plan = minimal_plan(vec![changing("aws_instance.web", &[Action::Delete])]);
    let issues = validate_plan(&plan);
    assert!(issues
        .iter()
        .any(|i| i.severity == ValidationSeverity::Warning
            && i.message.contains("will be destroyed")));
}

#[test]
fn all_checks_are_made_in_order() {
    let mut plan = minimal_plan(vec![
        changing("", &[Action::Delete]),
        changing("a\"b", &[Action::Delete]),
        changing("", &[Action::Delete]),
        changing("a\"b", &[Action::Delete]),
    ]);
    plan.errored = true;
    let issues = validate_plan(&plan);
    let found: Vec<(ValidationSeverity, &str, Option<&str>)> = issues
        .iter()
        .map(|i| (i.severity, i.message.as_str(), i.address.as_deref()))
        .collect();
    let error = ValidationSeverity::Error;
    let warning = ValidationSeverity::Warning;
    assert_eq!(
        found,
        [
            (error, "plan is marked as errored; results may be incomplete", None),
            (error, "resource_change has an empty address field", Some("")),
            (error, "resource_change has an empty address field", Some("")),
            (
                warning,
                "all 4 resource(s) will be destroyed — verify this is intentional",
                None
            ),
            (error, "duplicate resource address \"\" in resource_changes", Some("")),
            (error, "duplicate resource address \"a\\\"b\" in resource_changes", Some("a\"b")),
        ]
    );
}

#[test]
fn a_clean_plan_has_no_issues() {
    let plan = minimal_plan(vec![
        changing("a", &[Action::Delete]),
        changing("b", &[Action::Delete, Action::Create]),
    ]);
    assert!(validate_plan(&plan).is_empty());
}

#[test]
fn drift_alone_is_something_to_report() {
    let mut plan = minimal_plan(vec![]);
    plan.resource_drift = vec![changing("a", &[Action::Update])];
    assert!(validate_plan(&plan).is_empty());
}

// ── Actions and modules ──────────────────────────────────────────────────────

#[test]
fn action_is_noop_and_is_replace() {
    let noop = ChangeDetails {
        actions: vec![Action::NoOp],
        before: None,
        after: None,
        after_unknown: None,
        before_sensitive: None,
        after_sensitive: None,
        replace_paths: None,
        importing: None,
        generated_config: None,
    };
    assert!(noop.is_noop());
    assert!(!noop.is_replace());

    let replace = ChangeDetails {
        actions: vec![Action::Delete, Action::Create],
        ..noop.clone()
    };
    assert!(replace.is_replace());
    assert!(!replace.is_noop());
}

#[test]
fn module_id_returns_root_for_root_module() {
    let module = PlannedModule {
        address: None,
        resources: vec![],
        child_modules: vec![],
    };
    assert_eq!(module_id(&module), "root");
}

#[test]
fn module_id_is_the_address_of_a_child_module() {
    assert_eq!(module_id(&planned_module(Some("module.vpc"), vec![], vec![])), "module.vpc");
}

#[test]
fn action_words() {
    let words: Vec<&str> = [
        Action::NoOp,
        Action::Create,
        Action::Read,
        Action::Update,
        Action::Delete,
        Action::Forget,
    ]
    .iter()
    .map(|a| a.label())
    .collect();
    assert_eq!(words, ["no-op", "create", "read", "update", "delete", "forget"]);
    for (i, a) in words.iter().enumerate() {
        for b in &words[i + 1..] {
            assert_ne!(a, b);
        }
    }
}

#[test]
fn collecting_goes_depth_first_from_the_last_child() {
    let tree = planned_module(
        None,
        vec![planned("r1", None), planned("r2", None)],
        vec![
            planned_module(
                Some("m1"),
                vec![planned("m1.r", None)],
                vec![planned_module(Some("m1.m"), vec![planned("m1.m.r", None)], vec![])],
            ),
            planned_module(Some("m2"), vec![planned("m2.r", None)], vec![]),
        ],
    );
    let found: Vec<&str> =
        collect_planned_resources(&tree).iter().map(|r| r.address.as_str()).collect();
    assert_eq!(found, ["r1", "r2", "m2.r", "m1.r", "m1.m.r"]);

    let tree = state_module(
        vec![existing("r1", None)],
        vec![
            state_module(vec![existing("a", None)], vec![]),
            state_module(vec![existing("b", None)], vec![]),
        ],
    );
    let found: Vec<&str> =
        collect_state_resources(&tree).iter().map(|r| r.address.as_str()).collect();
    assert_eq!(found, ["r1", "b", "a"]);
}

// ── Drift ────────────────────────────────────────────────────────────────────

#[test]
fn drift_tells_every_resource_once() {
    let mut plan = minimal_plan(vec![
        changing("modified", &[Action::Update]),
        changing("replaced", &[Action::Delete, Action::Create]),
        changing("read", &[Action::Read]),
        changing("unplanned", &[Action::Delete]),
    ]);
    plan.prior_state = Some(state_of(
        Some("1.0"),
        Some(StateValues {
            root_module: state_module(
                vec![
                    existing("modified", Some(Value::from("old"))),
                    existing("replaced", None),
                    existing("read", None),
                    existing("removed", Some(Value::from("stale"))),
                    existing("removed", Some(Value::from("gone"))),
                ],
                vec![state_module(vec![existing("same", None)], vec![])],
            ),
            outputs: vec![],
        }),
    ));
    plan.planned_values = Some(PlannedValues {
        root_module: planned_module(
            None,
            vec![
                planned("modified", Some(Value::from("new"))),
                planned("replaced", None),
                planned("read", None),
                planned("same", None),
            ],
            vec![planned_module(
                Some("m"),
                vec![planned("added", Some(Value::from(3u64)))],
                vec![],
            )],
        ),
        outputs: vec![],
    });
    let mut entries: Vec<DriftEntry> = detect_drift(&plan);
    entries.sort_by(|a, b| a.address.cmp(&b.address));
    let kinds: Vec<(&str, DriftKind)> =
        entries.iter().map(|e| (e.address.as_str(), e.drift_kind)).collect();
    assert_eq!(
        kinds,
        [
            ("added", DriftKind::Added),
            ("modified", DriftKind::Modified),
            ("read", DriftKind::Unchanged),
            ("removed", DriftKind::Removed),
            ("replaced", DriftKind::Modified),
            ("same", DriftKind::Unchanged),
        ]
    );
    assert_eq!(entries[0].prior_values, None);
    assert_eq!(entries[0].planned_values, Some(Value::from(3u64)));
    assert_eq!(entries[1].prior_values, Some(Value::from("old")));
    assert_eq!(entries[1].planned_values, Some(Value::from("new")));
    // Of two resources with one address, the last one counts.
    assert_eq!(entries[3].prior_values, Some(Value::from("gone")));
    assert_eq!(entries[3].planned_values, None);
}

#[test]
fn a_plan_without_resources_has_no_drift() {
    assert!(detect_drift(&minimal_plan(vec![changing("a", &[Action::Create])])).is_empty());
}
