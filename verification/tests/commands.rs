use eia::commands::{
    after_browsing, after_viewing, after_writing, blast_command, check_command, graph_command,
    Failure, Format, GraphStep, Screen,
};
use eia::parser::{
    Action, ChangeDetails, Plan, PlannedModule, PlannedResource, PlannedValues, ResourceChange,
};
use eia::report::colors;
use eia::version::BinaryInfo;

fn linked(address: &str, depends_on: &[&str]) -> PlannedResource {
    PlannedResource {
        address: address.to_string(),
        module_address: None,
        mode: None,
        resource_type: None,
        name: None,
        index: None,
        provider_name: None,
        schema_version: None,
        values: None,
        sensitive_values: None,
        depends_on: depends_on.iter().map(|d| d.to_string()).collect(),
        tainted: None,
        deposed_key: None,
    }
}

fn loaded_plan(resources: Vec<PlannedResource>) -> Result<Plan, Failure> {
    Ok(Plan {
        format_version: "1.3".to_string(),
        terraform_version: None,
        variables: vec![],
        resource_changes: vec![ResourceChange {
            address: "a".to_string(),
            previous_address: None,
            module_address: None,
            mode: None,
            resource_type: None,
            name: None,
            index: None,
            provider_name: None,
            deposed: None,
            action_reason: None,
            change: ChangeDetails {
                actions: vec![Action::Update],
                before: None,
                after: None,
                after_unknown: None,
                before_sensitive: None,
                after_sensitive: None,
                replace_paths: None,
                importing: None,
                generated_config: None,
            },
        }],
        resource_drift: vec![],
        output_changes: vec![],
        planned_values: Some(PlannedValues {
            root_module: PlannedModule { address: None, resources, child_modules: vec![] },
            outputs: vec![],
        }),
        prior_state: None,
        configuration: None,
        relevant_attributes: vec![],
        checks: vec![],
        timestamp: None,
        errored: false,
        applyable: None,
        complete: None,
        proposed_unknown: None,
    })
}

fn no_plan() -> Result<Plan, Failure> {
    Err(lost())
}

fn lost() -> Failure {
    Failure { message: "could not open".to_string(), causes: vec!["gone".to_string()] }
}

fn plain_screen() -> Screen {
    Screen { output: colors(false), errors: colors(false) }
}

fn newer_tool() -> Option<BinaryInfo> {
    Some(BinaryInfo { name: "tofu".to_string(), version: "2.0.0".to_string() })
}

#[test]
fn a_check_ends_with_lines_and_a_code() {
    let plan = loaded_plan(vec![linked("a", &[])]);
    let o = check_command(&plan, &None, Format::Text, &plain_screen()).unwrap();
    assert_eq!(o.errors.len(), 1);
    assert!(o.errors[0].starts_with("warning: plan format_version 1.3"));
    assert_eq!(o.output, "\nDrift detected (1 resource(s)):\n  + a\n");
    assert_eq!(o.code, 0);
    let o = check_command(&plan, &None, Format::Json, &plain_screen()).unwrap();
    assert_eq!(o.errors.len(), 1);
    assert!(o.output.starts_with("{\n  \"cycle\": null,"));
    assert!(o.output.ends_with("\"valid\": true\n}\n"));
    assert_eq!(o.code, 0);
}

#[test]
fn a_detected_tool_shows_on_the_error_stream_only() {
    let plan = loaded_plan(vec![linked("a", &["b"]), linked("b", &["c"]), linked("c", &["a"])]);
    for format in [Format::Text, Format::Json] {
        let without = check_command(&plan, &None, format, &plain_screen()).unwrap();
        let with = check_command(&plan, &newer_tool(), format, &plain_screen()).unwrap();
        assert_eq!(with.errors.len(), without.errors.len() + 1);
        assert!(with.errors[1].starts_with("warning: tofu 2.0.0 is newer"));
        assert_eq!(with.errors[2..], without.errors[1..]);
        assert_eq!(with.output, without.output);
        assert_eq!((with.code, without.code), (2, 2));
    }
}

#[test]
fn without_a_plan_a_command_fails() {
    let screen = Screen { output: colors(false), errors: colors(true) };
    let told = ["\u{1b}[31merror:\u{1b}[0m could not open", "       gone"];
    let o = check_command(&no_plan(), &newer_tool(), Format::Json, &screen).unwrap();
    assert_eq!((o.errors, o.output.as_str(), o.code), (told.map(String::from).to_vec(), "", 1));
    let o = blast_command(&no_plan(), "a", Format::Text, &screen).unwrap();
    assert_eq!((o.errors, o.output.as_str(), o.code), (told.map(String::from).to_vec(), "", 1));
    match graph_command(&no_plan(), true, true, true, &screen).unwrap() {
        GraphStep::End { outcome: o } => {
            assert_eq!(
                (o.errors, o.output.as_str(), o.code),
                (told.map(String::from).to_vec(), "", 1)
            );
        }
        _ => panic!("expected a failure"),
    }
}

#[test]
fn blast_ends_with_zero() {
    let plan = loaded_plan(vec![linked("a", &["b"]), linked("b", &[])]);
    let o = blast_command(&plan, "b", Format::Text, &plain_screen()).unwrap();
    assert!(o.errors.is_empty());
    assert_eq!(o.output, "Blast radius of b (1 resource(s) affected):\n\n  a\n");
    assert_eq!(o.code, 0);
    let o = blast_command(&plan, "unknown", Format::Text, &plain_screen()).unwrap();
    assert_eq!(o.output, "No other resources depend on unknown.\n");
    assert_eq!(o.code, 0);
    let o = blast_command(&plan, "b", Format::Json, &plain_screen()).unwrap();
    assert_eq!(
        o.output,
        "{\n  \"affected\": [\n    \"a\"\n  ],\n  \"affected_count\": 1,\n  \"source\": \"b\"\n}\n"
    );
}

#[test]
fn the_graph_goes_where_it_is_asked_to() {
    let plan = loaded_plan(vec![linked("a", &["b", "c"]), linked("b", &["c"]), linked("c", &[])]);
    let text = match graph_command(&plan, false, false, false, &plain_screen()).unwrap() {
        GraphStep::End { outcome } => {
            assert!(outcome.errors.is_empty());
            assert_eq!(outcome.code, 0);
            outcome.output
        }
        _ => panic!("expected the text"),
    };
    assert_eq!(text.matches("->").count(), 2);
    assert!(text.ends_with('}'));
    match graph_command(&plan, false, true, false, &plain_screen()).unwrap() {
        GraphStep::Write { dot } => assert_eq!(dot, text),
        _ => panic!("expected a file"),
    }
    match graph_command(&plan, true, true, true, &plain_screen()).unwrap() {
        GraphStep::View { dot } => assert_eq!(dot.matches("->").count(), 3),
        _ => panic!("expected a picture"),
    }
}

#[test]
fn what_is_told_in_the_end() {
    let o = after_writing(&Ok("x.dot".to_string()), &plain_screen());
    assert_eq!((o.errors, o.output.as_str(), o.code), (
        vec!["DOT written to x.dot".to_string()],
        "",
        0
    ));
    let o = after_viewing(&Ok("x.svg".to_string()), &plain_screen());
    assert_eq!(o.errors, ["Graph written to x.svg"]);
    let o = after_writing(&Err(lost()), &plain_screen());
    assert_eq!(o.errors, ["error: could not open", "       gone"]);
    assert_eq!(o.code, 1);
    let o = after_browsing(&Ok(()), &plain_screen());
    assert!(o.errors.is_empty() && o.output.is_empty() && o.code == 0);
    assert_eq!(after_browsing(&Err(lost()), &plain_screen()).code, 1);
}
