use eia::digraph::NodeKind;
use eia::graph::ImpactGraph;
use eia::parser::{
    Action, ChangeDetails, Plan, PlannedModule, PlannedOutput, PlannedResource, PlannedValues,
    ResourceChange,
};

fn resource(address: &str, resource_type: &str, depends_on: &[&str]) -> PlannedResource {
    PlannedResource {
        address: address.to_string(),
        module_address: None,
        mode: None,
        resource_type: Some(resource_type.to_string()),
        name: None,
        index: None,
        provider_name: None,
        schema_version: None,
        values: None,
        sensitive_values: None,
        depends_on: depends_on.iter().map(|d| d.to_string()).collect(),
        tainted: None,
        deposed_key: None,
    }
}

fn change(address: &str, actions: &[Action]) -> ResourceChange {
    ResourceChange {
        address: address.to_string(),
        previous_address: None,
        module_address: None,
        mode: None,
        resource_type: None,
        name: None,
        index: None,
        provider_name: None,
        deposed: None,
        action_reason: None,
        change: ChangeDetails {
            actions: actions.to_vec(),
            before: None,
            after: None,
            after_unknown: None,
            before_sensitive: None,
            after_sensitive: None,
            replace_paths: None,
            importing: None,
            generated_config: None,
        },
    }
}

fn module(
    address: Option<&str>,
    resources: Vec<PlannedResource>,
    child_modules: Vec<PlannedModule>,
) -> PlannedModule {
    PlannedModule { address: address.map(|a| a.to_string()), resources, child_modules }
}

fn output() -> PlannedOutput {
    PlannedOutput { sensitive: false, value: None, value_type: None, deprecated: None }
}

fn plan_of(
    planned_values: Option<PlannedValues>,
    resource_changes: Vec<ResourceChange>,
) -> Plan {
    Plan {
        format_version: "1.0".to_string(),
        terraform_version: None,
        variables: vec![],
        resource_changes,
        resource_drift: vec![],
        output_changes: vec![],
        planned_values,
        prior_state: None,
        configuration: None,
        relevant_attributes: vec![],
        checks: vec![],
        timestamp: None,
        errored: false,
        applyable: None,
        complete: None,
        proposed_unknown: None,
    }
}

/// A plan with a flat list of resources (address, type, depends_on), all to be created.
fn flat_plan(resources: &[(&str, &str, &[&str])]) -> Plan {
    let planned = resources.iter().map(|(a, t, d)| resource(a, t, d)).collect();
    let changes = resources.iter().map(|(a, _, _)| change(a, &[Action::Create])).collect();
    plan_of(
        Some(PlannedValues { root_module: module(None, planned, vec![]), outputs: vec![] }),
        changes,
    )
}

fn sorted(mut v: Vec<String>) -> Vec<String> {
    v.sort();
    v
}

#[test]
fn build_nodes_and_edges() {
    let plan = flat_plan(&[
        ("aws_vpc.main", "aws_vpc", &[]),
        ("aws_subnet.pub", "aws_subnet", &["aws_vpc.main"]),
    ]);
    let g = ImpactGraph::build(&plan);

    assert_eq!(g.node_count(), 2);
    assert_eq!(g.edge_count(), 1);
}

#[test]
fn topological_order_respects_dependencies() {
    let plan = flat_plan(&[
        ("aws_vpc.main", "aws_vpc", &[]),
        ("aws_subnet.pub", "aws_subnet", &["aws_vpc.main"]),
        ("aws_instance.web", "aws_instance", &["aws_subnet.pub"]),
    ]);
    let g = ImpactGraph::build(&plan);

    let order = g.topological_order().unwrap();
    let pos = |addr: &str| order.iter().position(|a| a == addr).unwrap();

    assert!(pos("aws_vpc.main") < pos("aws_subnet.pub"));
    assert!(pos("aws_subnet.pub") < pos("aws_instance.web"));
}

#[test]
fn blast_radius_finds_all_dependents() {
    let plan = flat_plan(&[
        ("aws_vpc.main", "aws_vpc", &[]),
        ("aws_subnet.pub", "aws_subnet", &["aws_vpc.main"]),
        ("aws_instance.web", "aws_instance", &["aws_subnet.pub"]),
        ("aws_lb.front", "aws_lb", &["aws_subnet.pub"]),
    ]);
    let g = ImpactGraph::build(&plan);

    let mut radius = g.blast_radius("aws_vpc.main");
    radius.sort();

    assert!(radius.contains(&"aws_subnet.pub".to_string()));
    assert!(radius.contains(&"aws_instance.web".to_string()));
    assert!(radius.contains(&"aws_lb.front".to_string()));
    assert!(!radius.contains(&"aws_vpc.main".to_string()));
}

#[test]
fn blast_radius_of_leaf_is_empty() {
    let plan = flat_plan(&[
        ("aws_vpc.main", "aws_vpc", &[]),
        ("aws_subnet.pub", "aws_subnet", &["aws_vpc.main"]),
    ]);
    let g = ImpactGraph::build(&plan);

    let radius = g.blast_radius("aws_subnet.pub");
    assert!(radius.is_empty());
}

#[test]
fn is_dag_true_for_acyclic_graph() {
    let plan = flat_plan(&[
        ("aws_vpc.main", "aws_vpc", &[]),
        ("aws_subnet.pub", "aws_subnet", &["aws_vpc.main"]),
    ]);
    let g = ImpactGraph::build(&plan);
    assert!(g.is_dag());
}

#[test]
fn transitive_reduce_removes_redundant_edge() {
    let plan = flat_plan(&[
        ("c", "null_resource", &[]),
        ("b", "null_resource", &["c"]),
        ("a", "null_resource", &["b", "c"]),
    ]);
    let mut g = ImpactGraph::build(&plan);

    let edges_before = g.edge_count();
    g.transitive_reduce();
    let edges_after = g.edge_count();

    assert!(edges_after < edges_before, "redundant edge should have been removed");
    assert_eq!(edges_after, 2);
}

#[test]
fn to_dot_produces_valid_output() {
    let plan = flat_plan(&[
        ("aws_vpc.main", "aws_vpc", &[]),
        ("aws_subnet.pub", "aws_subnet", &["aws_vpc.main"]),
    ]);
    let g = ImpactGraph::build(&plan);
    let dot = g.to_dot();

    assert!(dot.starts_with("digraph impact {"));
    assert!(dot.contains("aws_vpc.main"));
    assert!(dot.contains("aws_subnet.pub"));
    assert!(dot.ends_with('}'));
}

#[test]
fn action_annotation_from_resource_changes() {
    let plan = flat_plan(&[("aws_vpc.main", "aws_vpc", &[])]);
    let g = ImpactGraph::build(&plan);

    let idx = g.index_of("aws_vpc.main").unwrap();
    assert_eq!(g.meta(idx).actions, [Action::Create]);
}

#[test]
fn unknown_address_blast_radius_returns_empty() {
    let plan = flat_plan(&[("aws_vpc.main", "aws_vpc", &[])]);
    let g = ImpactGraph::build(&plan);
    assert!(g.blast_radius("does_not_exist").is_empty());
}

// ── Construction ─────────────────────────────────────────────────────────────

#[test]
fn plan_without_planned_values_has_an_empty_graph() {
    let plan = plan_of(None, vec![change("a", &[Action::Create])]);
    let g = ImpactGraph::build(&plan);
    assert_eq!(g.node_count(), 0);
    assert_eq!(g.edge_count(), 0);
    assert_eq!(g.index_of("a"), None);
    assert!(g.is_dag());
    assert_eq!(g.topological_order().unwrap(), Vec::<String>::new());
    assert_eq!(g.to_dot(), "digraph impact {\n    rankdir=BT;\n    node [shape=box];\n}");
}

#[test]
fn modules_outputs_and_mentioned_addresses_are_nodes() {
    let inner = module(
        Some("module.vpc.module.net"),
        vec![resource("module.vpc.module.net.r", "t", &["ghost.node"])],
        vec![],
    );
    let outer = module(Some("module.vpc"), vec![resource("module.vpc.r", "t", &[])], vec![inner]);
    let root = module(None, vec![resource("top", "t", &["module.vpc"])], vec![outer]);
    let plan = plan_of(
        Some(PlannedValues { root_module: root, outputs: vec![("ip".to_string(), output())] }),
        vec![],
    );
    let g = ImpactGraph::try_build(&plan).unwrap();

    let wanted = [
        ("top", NodeKind::Resource),
        ("module.vpc", NodeKind::Module),
        ("module.vpc.r", NodeKind::Resource),
        ("module.vpc.module.net", NodeKind::Module),
        ("module.vpc.module.net.r", NodeKind::Resource),
        ("output.ip", NodeKind::Output),
        ("ghost.node", NodeKind::Resource),
    ];
    assert_eq!(g.node_count(), wanted.len());
    for (i, (address, kind)) in wanted.iter().enumerate() {
        assert_eq!(g.index_of(address), Some(i as u32));
        let data = g.node_data(i as u32).unwrap();
        assert_eq!(data.address, *address);
        assert_eq!(data.kind, *kind);
    }
    assert!(g.node_data(wanted.len() as u32).is_none());
    assert_eq!(g.edge_count(), 4);
    assert_eq!(sorted(g.blast_radius("module.vpc")), ["module.vpc.r", "top"]);
    assert_eq!(g.blast_radius("module.vpc.module.net"), ["module.vpc.module.net.r"]);
    assert_eq!(g.blast_radius("ghost.node"), ["module.vpc.module.net.r"]);
    let ghost = g.meta(6);
    assert_eq!(ghost.resource_type, None);
    assert!(ghost.actions.is_empty());
}

#[test]
fn resources_of_a_child_module_depend_on_it() {
    let child = module(
        Some("module.a"),
        vec![
            resource("module.a.x", "t", &["module.a.y"]),
            resource("module.a.y", "t", &["module.a"]),
            resource("module.a", "t", &[]),
        ],
        vec![module(None, vec![resource("loose", "t", &[])], vec![])],
    );
    let root = module(Some("root"), vec![resource("top", "t", &[])], vec![child]);
    let plan =
        plan_of(Some(PlannedValues { root_module: root, outputs: vec![] }), vec![]);
    let mut g = ImpactGraph::build(&plan);

    // Declared dependencies are solid, also where they are memberships; the others are dashed. The
    // root module, and modules without an address, have no members.
    let dot = g.to_dot();
    let edges: Vec<&str> = dot.lines().filter(|l| l.contains("->")).collect();
    assert_eq!(g.index_of("root"), Some(0));
    assert_eq!(g.index_of("module.a"), Some(2));
    assert_eq!(g.index_of("module.a.x"), Some(3));
    assert_eq!(g.index_of("module.a.y"), Some(4));
    assert_eq!(
        edges,
        [
            "    n3 -> n4 [style=\"solid\"];",
            "    n4 -> n2 [style=\"solid\"];",
            "    n3 -> n2 [style=\"dashed\"];",
        ]
    );
    assert!(g.is_dag());
    assert_eq!(sorted(g.blast_radius("module.a")), ["module.a.x", "module.a.y"]);
    assert_eq!(g.blast_radius("module.a.y"), ["module.a.x"]);
    assert!(g.blast_radius("root").is_empty());

    // The membership of x is told by its dependency on y.
    g.transitive_reduce();
    assert_eq!(g.edge_count(), 2);
    assert!(!g.to_dot().contains("dashed"));
    assert_eq!(sorted(g.blast_radius("module.a")), ["module.a.x", "module.a.y"]);
}

#[test]
fn repeated_dependencies_make_one_edge() {
    let plan = flat_plan(&[("a", "t", &["b", "b"]), ("b", "t", &[])]);
    let g = ImpactGraph::build(&plan);
    assert_eq!(g.edge_count(), 1);
}

#[test]
fn the_last_description_and_the_last_change_win() {
    let mut first = resource("a", "first", &[]);
    first.provider_name = Some("p1".to_string());
    let mut second = resource("a", "second", &[]);
    second.provider_name = Some("p2".to_string());
    second.module_address = Some("m".to_string());
    let plan = plan_of(
        Some(PlannedValues {
            root_module: module(None, vec![first, second], vec![]),
            outputs: vec![],
        }),
        vec![
            change("a", &[Action::Create]),
            change("elsewhere", &[Action::Read]),
            change("a", &[Action::Delete, Action::Create]),
        ],
    );
    let g = ImpactGraph::build(&plan);
    assert_eq!(g.node_count(), 1);
    let meta = g.meta(0);
    assert_eq!(meta.resource_type.as_deref(), Some("second"));
    assert_eq!(meta.provider.as_deref(), Some("p2"));
    assert_eq!(meta.module_address.as_deref(), Some("m"));
    assert_eq!(meta.actions, [Action::Delete, Action::Create]);
}

// ── Order and impact ─────────────────────────────────────────────────────────

#[test]
fn cycles_are_found() {
    let plan = flat_plan(&[("a", "t", &["b"]), ("b", "t", &["a"]), ("c", "t", &["a"])]);
    let g = ImpactGraph::build(&plan);
    assert!(!g.is_dag());
    let e = g.topological_order().unwrap_err();
    assert!(e.node_address == "a" || e.node_address == "b");
    assert_eq!(
        e.message(),
        format!(
            "dependency cycle detected involving {:?} — Terraform plans must be acyclic",
            e.node_address
        )
    );
    // On a cycle, a node is not in its own blast radius.
    assert_eq!(sorted(g.blast_radius("a")), ["b", "c"]);
    assert_eq!(sorted(g.blast_radius("b")), ["a", "c"]);
}

#[test]
fn a_resource_that_depends_on_itself_is_a_cycle() {
    let plan = flat_plan(&[("a", "t", &["a"])]);
    let g = ImpactGraph::build(&plan);
    assert!(!g.is_dag());
    assert_eq!(g.topological_order().unwrap_err().node_address, "a");
    assert!(g.blast_radius("a").is_empty());
}

#[test]
fn impact_travels_and_comes_later_in_the_apply_order() {
    let plan = flat_plan(&[
        ("web", "t", &["subnet", "image"]),
        ("subnet", "t", &["vpc"]),
        ("vpc", "t", &[]),
        ("image", "t", &[]),
        ("dns", "t", &["web"]),
    ]);
    let g = ImpactGraph::build(&plan);
    assert_eq!(sorted(g.blast_radius("vpc")), ["dns", "subnet", "web"]);
    assert_eq!(sorted(g.blast_radius("subnet")), ["dns", "web"]);
    assert_eq!(sorted(g.blast_radius("image")), ["dns", "web"]);
    let order = g.topological_order().unwrap();
    assert_eq!(sorted(order.clone()), ["dns", "image", "subnet", "vpc", "web"]);
    let pos = |a: &str| order.iter().position(|x| x == a).unwrap();
    for target in ["web", "subnet", "vpc", "image", "dns"] {
        for hit in g.blast_radius(target) {
            assert!(pos(target) < pos(&hit));
            assert!(!g.blast_radius(&hit).contains(&target.to_string()));
        }
    }
}

#[test]
fn reduction_keeps_impact_and_is_done_after_one_pass() {
    let plan = flat_plan(&[
        ("a", "t", &["b", "c", "d"]),
        ("b", "t", &["c", "d"]),
        ("c", "t", &["d"]),
        ("d", "t", &[]),
        ("e", "t", &["d"]),
    ]);
    let full = ImpactGraph::build(&plan);
    let mut g = ImpactGraph::build(&plan);
    assert_eq!(g.edge_count(), 7);
    g.transitive_reduce();
    assert_eq!(g.edge_count(), 4);
    assert_eq!(g.node_count(), 5);
    assert!(g.is_dag());
    for target in ["a", "b", "c", "d", "e"] {
        assert_eq!(sorted(g.blast_radius(target)), sorted(full.blast_radius(target)));
        assert_eq!(g.meta(g.index_of(target).unwrap()).actions, [Action::Create]);
    }
    // An apply order of the reduced graph is one of the full graph.
    let order = g.topological_order().unwrap();
    let pos = |x: &str| order.iter().position(|y| y == x).unwrap();
    for (before, after) in
        [("b", "a"), ("c", "a"), ("d", "a"), ("c", "b"), ("d", "b"), ("d", "c"), ("d", "e")]
    {
        assert!(pos(before) < pos(after));
    }
    let once = g.to_dot();
    g.transitive_reduce();
    assert_eq!(g.edge_count(), 4);
    assert_eq!(g.to_dot(), once);
}

// ── DOT ──────────────────────────────────────────────────────────────────────

#[test]
fn dot_shows_actions_colors_and_edges() {
    let plan = plan_of(
        Some(PlannedValues {
            root_module: module(
                None,
                vec![
                    resource("r.a[\"x\"]", "t", &["r.b"]),
                    resource("r.b", "t", &["r.c"]),
                    resource("r.c", "t", &[]),
                    resource("r.d", "t", &[]),
                    resource("r.e", "t", &[]),
                    resource("r.f", "t", &[]),
                ],
                vec![],
            ),
            outputs: vec![],
        }),
        vec![
            change("r.a[\"x\"]", &[Action::Create]),
            change("r.b", &[Action::Delete]),
            change("r.c", &[Action::Update]),
            change("r.d", &[Action::Delete, Action::Create]),
            change("r.e", &[Action::Read]),
        ],
    );
    let g = ImpactGraph::build(&plan);
    let lines = [
        "digraph impact {",
        "    rankdir=BT;",
        "    node [shape=box];",
        "    n0 [label=\"r.a['x'] [create]\" color=\"green4\"];",
        "    n1 [label=\"r.b [delete]\" color=\"red3\"];",
        "    n2 [label=\"r.c [update]\" color=\"goldenrod3\"];",
        "    n3 [label=\"r.d [delete+create]\" color=\"orangered\"];",
        "    n4 [label=\"r.e [read]\" color=\"black\"];",
        "    n5 [label=\"r.f\" color=\"black\"];",
        "    n0 -> n1 [style=\"solid\"];",
        "    n1 -> n2 [style=\"solid\"];",
        "}",
    ];
    assert_eq!(g.to_dot(), lines.join("\n"));
}

#[test]
fn a_removed_edge_leaves_its_place_to_the_last_one() {
    let plan = flat_plan(&[
        ("c", "t", &[]),
        ("a", "t", &["c", "b"]),
        ("b", "t", &["c"]),
        ("d", "t", &["c"]),
    ]);
    let mut g = ImpactGraph::build(&plan);
    g.transitive_reduce();
    let dot = g.to_dot();
    let edges: Vec<&str> = dot.lines().filter(|l| l.contains("->")).collect();
    assert_eq!(
        edges,
        [
            "    n3 -> n0 [style=\"solid\"];",
            "    n1 -> n2 [style=\"solid\"];",
            "    n2 -> n0 [style=\"solid\"];",
        ]
    );
}
