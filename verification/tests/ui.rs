use eia::graph::ImpactGraph;
use eia::parser::{
    Action, ChangeDetails, Plan, PlannedModule, PlannedResource, PlannedValues, ResourceChange,
};
use eia::ui::{
    action_color, action_sigil, details_of, key_command, App, Color, Command, Key, Line, Style,
};

fn planned_node(address: &str, depends_on: &[&str]) -> PlannedResource {
    PlannedResource {
        address: address.to_string(),
        module_address: None,
        mode: None,
        resource_type: None,
        name: None,
        index: None,
        provider_name: None,
        schema_version: None,
        values: None,
        sensitive_values: None,
        depends_on: depends_on.iter().map(|d| d.to_string()).collect(),
        tainted: None,
        deposed_key: None,
    }
}

fn listed_change(address: &str, actions: &[Action]) -> ResourceChange {
    ResourceChange {
        address: address.to_string(),
        previous_address: None,
        module_address: None,
        mode: None,
        resource_type: Some("aws_vpc".to_string()),
        name: None,
        index: None,
        provider_name: None,
        deposed: None,
        action_reason: None,
        change: ChangeDetails {
            actions: actions.to_vec(),
            before: None,
            after: None,
            after_unknown: None,
            before_sensitive: None,
            after_sensitive: None,
            replace_paths: None,
            importing: None,
            generated_config: None,
        },
    }
}

fn browser(changes: Vec<ResourceChange>, drift: Vec<ResourceChange>) -> App {
    let plan = Plan {
        format_version: "1.2".to_string(),
        terraform_version: None,
        variables: vec![],
        resource_changes: changes,
        resource_drift: drift,
        output_changes: vec![],
        planned_values: Some(PlannedValues {
            root_module: PlannedModule {
                address: None,
                resources: vec![
                    planned_node("vpc", &[]),
                    planned_node("web", &["net"]),
                    planned_node("net", &["vpc"]),
                ],
                child_modules: vec![],
            },
            outputs: vec![],
        }),
        prior_state: None,
        configuration: None,
        relevant_attributes: vec![],
        checks: vec![],
        timestamp: None,
        errored: false,
        applyable: None,
        complete: None,
        proposed_unknown: None,
    };
    let graph = ImpactGraph::build(&plan);
    App::new(plan, graph)
}

fn three() -> App {
    browser(
        vec![
            listed_change("vpc", &[Action::Delete, Action::Create]),
            listed_change("net", &[Action::Update]),
            listed_change("web", &[Action::NoOp]),
        ],
        vec![listed_change("old", &[Action::Update])],
    )
}

fn shown(line: &Line) -> Vec<(&str, Option<Color>, bool)> {
    line.spans.iter().map(|s| (s.text.as_str(), s.style.color, s.style.bold)).collect()
}

// ── Selection and keys ───────────────────────────────────────────────────────

#[test]
fn selection_goes_round() {
    let mut app = three();
    assert_eq!(app.selected(), Some(0));
    app.select_prev();
    assert_eq!(app.selected(), Some(2));
    app.select_next();
    assert_eq!(app.selected(), Some(0));
    app.select_next();
    app.select_next();
    assert_eq!(app.selected(), Some(2));
    app.select_next();
    assert_eq!(app.selected(), Some(0));
}

#[test]
fn moving_back_undoes_a_move() {
    let mut app = three();
    for _ in 0..4 {
        let here = app.selected();
        app.select_next();
        app.select_prev();
        assert_eq!(app.selected(), here);
        app.select_prev();
        app.select_next();
        assert_eq!(app.selected(), here);
        app.select_next();
    }
}

#[test]
fn nothing_is_selected_without_changes() {
    let mut app = browser(vec![], vec![]);
    assert_eq!(app.selected(), None);
    app.select_next();
    assert_eq!(app.selected(), None);
    app.select_prev();
    assert_eq!(app.selected(), None);
    assert!(app.detail_lines().is_none());
    assert!(app.list_rows().is_empty());
}

#[test]
fn keys_ask_for_commands() {
    assert_eq!(key_command(Key::Char('q')), Command::Quit);
    assert_eq!(key_command(Key::Escape), Command::Quit);
    assert_eq!(key_command(Key::Up), Command::Previous);
    assert_eq!(key_command(Key::Char('k')), Command::Previous);
    assert_eq!(key_command(Key::Down), Command::Next);
    assert_eq!(key_command(Key::Char('j')), Command::Next);
    assert_eq!(key_command(Key::Char('Q')), Command::Nothing);
    assert_eq!(key_command(Key::Other), Command::Nothing);
}

#[test]
fn only_keys_that_go_down_count() {
    let mut app = three();
    assert!(!app.handle_key(Key::Down, true));
    assert_eq!(app.selected(), Some(1));
    assert!(!app.handle_key(Key::Down, false));
    assert_eq!(app.selected(), Some(1));
    assert!(!app.handle_key(Key::Char('k'), true));
    assert_eq!(app.selected(), Some(0));
    assert!(!app.handle_key(Key::Char('x'), true));
    assert_eq!(app.selected(), Some(0));
    assert!(!app.handle_key(Key::Escape, false));
    assert!(app.handle_key(Key::Escape, true));
    assert_eq!(app.selected(), Some(0));
}

// ── Panels ───────────────────────────────────────────────────────────────────

#[test]
fn header_counts() {
    let lines = three().header_lines();
    assert_eq!(lines.len(), 2);
    assert_eq!(
        shown(&lines[0]),
        [(" eia  Enterprise Impact Analyzer", Some(Color::White), true)]
    );
    assert_eq!(
        shown(&lines[1]),
        [
            ("  ", None, false),
            ("3 resource(s)", Some(Color::White), false),
            ("  ·  ", Some(Color::DarkGray), false),
            ("2 change(s)", Some(Color::Yellow), false),
            ("  ·  ", Some(Color::DarkGray), false),
            ("1 drift(s)", Some(Color::Red), false),
        ]
    );
    let calm = browser(vec![], vec![]).header_lines();
    assert_eq!(shown(&calm[1])[5], ("0 drift(s)", Some(Color::Green), false));
}

#[test]
fn rows_show_sign_and_address() {
    let rows = three().list_rows();
    let rows: Vec<_> = rows.iter().map(shown).collect();
    assert_eq!(
        rows,
        [
            vec![(" ± ", Some(Color::Magenta), false), ("vpc", Some(Color::Magenta), false)],
            vec![(" ~ ", Some(Color::Yellow), false), ("net", Some(Color::Yellow), false)],
            vec![("   ", Some(Color::DarkGray), false), ("web", Some(Color::DarkGray), false)],
        ]
    );
}

#[test]
fn details_show_the_blast_radius() {
    let mut app = three();
    let lines = app.detail_lines().unwrap();
    let lines: Vec<_> = lines.iter().map(shown).collect();
    assert_eq!(
        lines,
        [
            vec![("Address   ", None, true), ("vpc", None, false)],
            vec![("Type      ", None, true), ("aws_vpc", None, false)],
            vec![("Provider  ", None, true), ("—", None, false)],
            vec![
                ("Action    ", None, true),
                ("delete + create", Some(Color::Magenta), true)
            ],
            vec![],
            vec![("Blast radius  (2 affected)", Some(Color::Yellow), true)],
            vec![("  ↳ ", Some(Color::Yellow), false), ("net", None, false)],
            vec![("  ↳ ", Some(Color::Yellow), false), ("web", None, false)],
        ]
    );
    app.select_prev();
    let lines = app.detail_lines().unwrap();
    assert_eq!(
        shown(&lines[5]),
        [("Blast radius  (0 affected)", Some(Color::Green), true)]
    );
    assert_eq!(
        shown(&lines[6]),
        [("  No downstream dependencies.", Some(Color::DarkGray), false)]
    );
    assert_eq!(lines.len(), 7);
}

#[test]
fn details_of_a_change_and_given_addresses() {
    let rc = listed_change("x", &[]);
    let lines = details_of(&rc, &vec!["y".to_string()]);
    assert_eq!(lines.len(), 7);
    assert_eq!(shown(&lines[3])[1], ("", Some(Color::DarkGray), true));
    assert_eq!(shown(&lines[6])[1], ("y", None, false));
    assert_eq!(lines[6].spans[1].style, Style { color: None, bold: false });
}

#[test]
fn colors_and_signs_of_actions() {
    let wanted: [(&[Action], Color, char); 8] = [
        (&[Action::Create], Color::Green, '+'),
        (&[Action::Update], Color::Yellow, '~'),
        (&[Action::Delete], Color::Red, '-'),
        (&[Action::Forget], Color::Red, '-'),
        (&[Action::Create, Action::Delete], Color::Magenta, '±'),
        (&[Action::Read], Color::Cyan, ' '),
        (&[Action::NoOp], Color::DarkGray, ' '),
        (&[], Color::DarkGray, ' '),
    ];
    for (actions, color, sigil) in wanted {
        assert_eq!(action_color(actions), color);
        assert_eq!(action_sigil(actions), sigil);
    }
}
