//! The graph that a plan describes: its nodes, its dependencies and what is known of each node.

use vstd::prelude::*;

use crate::digraph::{links_of, sort_told, swap_removed, Edge, EdgeKind, NodeData, NodeKind};
use crate::parser::{Action, Plan, PlannedModule, PlannedOutput, PlannedResource, ResourceChange};
use crate::paths::{
    closed_set_holds_reached, has_detour, is_topological, links_within, reaches, reduced, turned,
    turned_reaches,
};
use crate::text::opt_text;

verus! {

/// A node, by its address and kind.
pub struct NodeModel {
    pub address: Seq<char>,
    pub kind: NodeKind,
}

/// What is known of a node beside its address and kind.
pub struct MetaModel {
    pub resource_type: Option<Seq<char>>,
    pub actions: Seq<Action>,
    pub provider: Option<Seq<char>>,
    pub module_address: Option<Seq<char>>,
}

/// A dependency graph: node `i` is described by `metas[i]`, and `edges` join node numbers.
pub struct GraphModel {
    pub nodes: Seq<NodeModel>,
    pub metas: Seq<MetaModel>,
    pub edges: Seq<Edge>,
}

impl View for NodeData {
    type V = NodeModel;

    open spec fn view(&self) -> NodeModel {
        NodeModel { address: self.address@, kind: self.kind }
    }
}

impl GraphModel {
    /// Every node has a description, no two nodes share an address, edges join nodes, and no two
    /// edges join the same nodes in the same direction. Numbers fit 32 bits.
    pub open spec fn valid(self) -> bool {
        &&& self.metas.len() == self.nodes.len()
        &&& self.nodes.len() <= u32::MAX
        &&& self.edges.len() <= u32::MAX
        &&& forall|i: int, j: int|
            0 <= i < self.nodes.len() && 0 <= j < self.nodes.len() && (
            #[trigger] self.nodes[i]).address == (#[trigger] self.nodes[j]).address ==> i == j
        &&& edges_within(self.edges, self.nodes.len())
        &&& edges_distinct(self.edges)
    }

    /// Who depends on whom, by node number.
    pub open spec fn links(self) -> Set<(int, int)> {
        links_of(self.edges)
    }

    /// Who depends on whom, by address, in edge order.
    pub open spec fn dependencies(self) -> Seq<(Seq<char>, Seq<char>)> {
        edge_addresses(self.edges, self.nodes)
    }
}

/// Every edge joins two of the first `n` nodes.
pub open spec fn edges_within(edges: Seq<Edge>, n: nat) -> bool {
    forall|i: int| 0 <= i < edges.len() ==> (#[trigger] edges[i]).from < n && edges[i].to < n
}

/// No two edges join the same nodes in the same direction.
pub open spec fn edges_distinct(edges: Seq<Edge>) -> bool {
    forall|i: int, j: int|
        0 <= i < edges.len() && 0 <= j < edges.len() && (#[trigger] edges[i]).from == (
        #[trigger] edges[j]).from && edges[i].to == edges[j].to ==> i == j
}

/// The addresses at the ends of each edge.
pub open spec fn edge_addresses(edges: Seq<Edge>, nodes: Seq<NodeModel>) -> Seq<
    (Seq<char>, Seq<char>),
> {
    edges.map_values(
        |e: Edge| (nodes[e.from as int].address, nodes[e.to as int].address),
    )
}

/// Some node has the address.
pub open spec fn names(nodes: Seq<NodeModel>, address: Seq<char>) -> bool {
    exists|i: int| 0 <= i < nodes.len() && (#[trigger] nodes[i]).address == address
}

// ── Nodes ────────────────────────────────────────────────────────────────────

/// `nodes`, and `mention` as a new node unless its address is known.
pub open spec fn with_mention(nodes: Seq<NodeModel>, mention: NodeModel) -> Seq<NodeModel> {
    if names(nodes, mention.address) {
        nodes
    } else {
        nodes.push(mention)
    }
}

/// `g`, and `mention` as a new node of which nothing is known, unless its address is known.
pub open spec fn with_node(g: GraphModel, mention: NodeModel) -> GraphModel {
    if names(g.nodes, mention.address) {
        g
    } else {
        GraphModel {
            nodes: g.nodes.push(mention),
            metas: g.metas.push(blank_meta()),
            edges: g.edges,
        }
    }
}

/// `nodes`, and a new node for the first mention of each address that is not known.
pub open spec fn with_mentions(nodes: Seq<NodeModel>, mentions: Seq<NodeModel>) -> Seq<NodeModel>
    decreases mentions.len(),
{
    if mentions.len() == 0 {
        nodes
    } else {
        with_mention(with_mentions(nodes, mentions.drop_last()), mentions.last())
    }
}

/// The node that a module is, if it has an address.
pub open spec fn module_mention(address: Option<String>) -> Seq<NodeModel> {
    match address {
        Some(a) => seq![NodeModel { address: a@, kind: NodeKind::Module }],
        None => Seq::empty(),
    }
}

/// The nodes that resources are.
pub open spec fn resource_mentions(resources: Seq<PlannedResource>) -> Seq<NodeModel> {
    resources.map_values(
        |r: PlannedResource| NodeModel { address: r.address@, kind: NodeKind::Resource },
    )
}

/// The nodes of a module tree: the module, its resources, then its child modules in order.
pub open spec fn module_mentions(module: PlannedModule) -> Seq<NodeModel>
    decreases module,
{
    module_mention(module.address) + resource_mentions(module.resources@) + modules_mentions(
        module.child_modules@,
    )
}

/// The nodes of module trees, in order.
pub open spec fn modules_mentions(modules: Seq<PlannedModule>) -> Seq<NodeModel>
    decreases modules,
{
    if modules.len() == 0 {
        Seq::empty()
    } else {
        modules_mentions(modules.drop_last()) + module_mentions(modules.last())
    }
}

/// The nodes that outputs are.
pub open spec fn output_mentions(outputs: Seq<(String, PlannedOutput)>) -> Seq<NodeModel> {
    outputs.map_values(
        |o: (String, PlannedOutput)|
            NodeModel { address: "output."@ + o.0@, kind: NodeKind::Output },
    )
}

/// The nodes that dependencies point at.
pub open spec fn target_mentions(pairs: Seq<(Seq<char>, Seq<char>)>) -> Seq<NodeModel> {
    pairs.map_values(
        |p: (Seq<char>, Seq<char>)| NodeModel { address: p.1, kind: NodeKind::Resource },
    )
}

/// Every mention of a node in the plan: modules and resources, outputs, dependencies.
pub open spec fn plan_mentions(plan: Plan) -> Seq<NodeModel> {
    match plan.planned_values {
        Some(pv) => module_mentions(pv.root_module) + output_mentions(pv.outputs@)
            + target_mentions(module_dependencies(pv.root_module)),
        None => Seq::empty(),
    }
}

/// The nodes of the plan's graph: each address once, in the order and with the kind of its first
/// mention.
pub open spec fn plan_nodes(plan: Plan) -> Seq<NodeModel> {
    with_mentions(Seq::empty(), plan_mentions(plan))
}

// ── Dependencies ─────────────────────────────────────────────────────────────

/// What a resource depends on, as (resource, dependency) pairs of absolute addresses.
pub open spec fn resource_dependencies(resource: PlannedResource) -> Seq<(Seq<char>, Seq<char>)> {
    resource.depends_on@.map_values(|d: String| (resource.address@, d@))
}

/// What resources depend on, in order.
pub open spec fn resources_dependencies(resources: Seq<PlannedResource>) -> Seq<
    (Seq<char>, Seq<char>),
>
    decreases resources.len(),
{
    if resources.len() == 0 {
        Seq::empty()
    } else {
        resources_dependencies(resources.drop_last()) + resource_dependencies(resources.last())
    }
}

/// What the resources of a module tree depend on: the module's own, then its child modules' in
/// order.
pub open spec fn module_dependencies(module: PlannedModule) -> Seq<(Seq<char>, Seq<char>)>
    decreases module,
{
    resources_dependencies(module.resources@) + modules_dependencies(module.child_modules@)
}

/// What the resources of module trees depend on, in order.
pub open spec fn modules_dependencies(modules: Seq<PlannedModule>) -> Seq<(Seq<char>, Seq<char>)>
    decreases modules,
{
    if modules.len() == 0 {
        Seq::empty()
    } else {
        modules_dependencies(modules.drop_last()) + module_dependencies(modules.last())
    }
}

/// `known`, and each of `more` that does not occur before it.
pub open spec fn with_distinct<P>(known: Seq<P>, more: Seq<P>) -> Seq<P>
    decreases more.len(),
{
    if more.len() == 0 {
        known
    } else {
        let before = with_distinct(known, more.drop_last());
        if before.contains(more.last()) {
            before
        } else {
            before.push(more.last())
        }
    }
}

/// The resources of a module depend on the module: (resource, module) pairs, if the module has an
/// address. A resource that shares the module's address shares its node, and makes no pair.
pub open spec fn member_pairs(address: Option<String>, resources: Seq<PlannedResource>) -> Seq<
    (Seq<char>, Seq<char>),
>
    decreases resources.len(),
{
    match address {
        None => Seq::empty(),
        Some(a) => if resources.len() == 0 {
            Seq::empty()
        } else {
            let before = member_pairs(address, resources.drop_last());
            if resources.last().address@ != a@ {
                before.push((resources.last().address@, a@))
            } else {
                before
            }
        },
    }
}

/// Which resources belong to which child modules of a module tree, at every depth.
pub open spec fn memberships(module: PlannedModule) -> Seq<(Seq<char>, Seq<char>)>
    decreases module,
{
    children_memberships(module.child_modules@)
}

/// Which resources belong to these child modules or to modules below them, in order.
pub open spec fn children_memberships(modules: Seq<PlannedModule>) -> Seq<(Seq<char>, Seq<char>)>
    decreases modules,
{
    if modules.len() == 0 {
        Seq::empty()
    } else {
        children_memberships(modules.drop_last()) + member_pairs(
            modules.last().address,
            modules.last().resources@,
        ) + memberships(modules.last())
    }
}

/// The dependencies that the plan declares in `depends_on`: each pair of addresses once, in the
/// order of its first mention.
pub open spec fn declared_dependencies(plan: Plan) -> Seq<(Seq<char>, Seq<char>)> {
    match plan.planned_values {
        Some(pv) => with_distinct(Seq::empty(), module_dependencies(pv.root_module)),
        None => Seq::empty(),
    }
}

/// The dependencies of the plan's graph: those declared, then those of resources on the child
/// modules that they belong to, unless declared.
pub open spec fn plan_dependencies(plan: Plan) -> Seq<(Seq<char>, Seq<char>)> {
    match plan.planned_values {
        Some(pv) => with_distinct(declared_dependencies(plan), memberships(pv.root_module)),
        None => Seq::empty(),
    }
}

/// The kind of the plan's `i`-th edge.
pub open spec fn plan_edge_kind(plan: Plan, i: int) -> EdgeKind {
    if i < declared_dependencies(plan).len() {
        EdgeKind::Explicit
    } else {
        EdgeKind::Implicit
    }
}

// ── Descriptions ─────────────────────────────────────────────────────────────

/// The resources of a module tree: the module's own, then its child modules' in order.
pub open spec fn module_resources(module: PlannedModule) -> Seq<PlannedResource>
    decreases module,
{
    module.resources@ + modules_resources(module.child_modules@)
}

/// The resources of module trees, in order.
pub open spec fn modules_resources(modules: Seq<PlannedModule>) -> Seq<PlannedResource>
    decreases modules,
{
    if modules.len() == 0 {
        Seq::empty()
    } else {
        modules_resources(modules.drop_last()) + module_resources(modules.last())
    }
}

/// A node of which nothing is known.
pub open spec fn blank_meta() -> MetaModel {
    MetaModel { resource_type: None, actions: Seq::empty(), provider: None, module_address: None }
}

/// What a resource says of its node.
pub open spec fn resource_meta(resource: PlannedResource) -> MetaModel {
    MetaModel {
        resource_type: opt_text(resource.resource_type),
        actions: Seq::empty(),
        provider: opt_text(resource.provider_name),
        module_address: opt_text(resource.module_address),
    }
}

/// What the last resource with the address says of the node, `base` if there is none.
pub open spec fn described(
    base: MetaModel,
    resources: Seq<PlannedResource>,
    address: Seq<char>,
) -> MetaModel
    decreases resources.len(),
{
    if resources.len() == 0 {
        base
    } else if resources.last().address@ == address {
        resource_meta(resources.last())
    } else {
        described(base, resources.drop_last(), address)
    }
}

/// The actions of the last change with the address, `base` if there is none.
pub open spec fn changed(
    base: Seq<Action>,
    changes: Seq<ResourceChange>,
    address: Seq<char>,
) -> Seq<Action>
    decreases changes.len(),
{
    if changes.len() == 0 {
        base
    } else if changes.last().address@ == address {
        changes.last().change.actions@
    } else {
        changed(base, changes.drop_last(), address)
    }
}

/// The resources that the plan expects to exist.
pub open spec fn plan_resources(plan: Plan) -> Seq<PlannedResource> {
    match plan.planned_values {
        Some(pv) => module_resources(pv.root_module),
        None => Seq::empty(),
    }
}

/// What the plan says of the node with the address.
pub open spec fn plan_meta(plan: Plan, address: Seq<char>) -> MetaModel {
    MetaModel {
        actions: changed(Seq::empty(), plan.resource_changes@, address),
        ..described(blank_meta(), plan_resources(plan), address)
    }
}

/// `g` is the plan's graph.
pub open spec fn is_graph_of(g: GraphModel, plan: Plan) -> bool {
    &&& g.valid()
    &&& g.nodes == plan_nodes(plan)
    &&& g.dependencies() == plan_dependencies(plan)
    &&& forall|i: int|
        0 <= i < g.edges.len() ==> (#[trigger] g.edges[i]).kind == plan_edge_kind(plan, i)
    &&& forall|i: int|
        0 <= i < g.nodes.len() ==> #[trigger] g.metas[i] == plan_meta(plan, g.nodes[i].address)
}

/// Where the node with the address stands.
pub open spec fn node_place(nodes: Seq<NodeModel>, address: Seq<char>) -> int {
    choose|i: int| 0 <= i < nodes.len() && (#[trigger] nodes[i]).address == address
}

/// The plan's graph: its nodes, an edge for each dependency, explicit where it is declared and
/// implicit where it comes from membership, and what the plan says of each node.
pub open spec fn plan_graph(plan: Plan) -> GraphModel {
    let nodes = plan_nodes(plan);
    let pairs = plan_dependencies(plan);
    GraphModel {
        nodes,
        metas: nodes.map_values(|n: NodeModel| plan_meta(plan, n.address)),
        edges: Seq::new(
            pairs.len(),
            |i: int|
                Edge {
                    from: node_place(nodes, pairs[i].0) as u32,
                    to: node_place(nodes, pairs[i].1) as u32,
                    kind: plan_edge_kind(plan, i),
                },
        ),
    }
}

/// A plan has one graph.
pub(crate) proof fn graph_is_plan_graph(g: GraphModel, plan: Plan)
    requires
        is_graph_of(g, plan),
    ensures
        g == plan_graph(plan),
{
    let p = plan_graph(plan);
    assert(g.metas =~= p.metas);
    assert(g.edges =~= p.edges) by {
        assert(g.dependencies().len() == g.edges.len());
        assert forall|i: int| 0 <= i < g.edges.len() implies g.edges[i] == p.edges[i] by {
            let e = g.edges[i];
            let d = plan_dependencies(plan)[i];
            assert(g.dependencies()[i] == d);
            assert(g.nodes[e.from as int].address == d.0);
            assert(g.nodes[e.to as int].address == d.1);
            let from = node_place(g.nodes, d.0);
            let to = node_place(g.nodes, d.1);
            assert(g.nodes[from].address == d.0 && g.nodes[to].address == d.1);
            assert(from == e.from && to == e.to);
        }
    }
}

/// The plan's graph has no more nodes and edges than 32-bit numbers count.
pub open spec fn graph_fits(plan: Plan) -> bool {
    plan_nodes(plan).len() <= u32::MAX && plan_dependencies(plan).len() <= u32::MAX
}

// ── Facts ────────────────────────────────────────────────────────────────────

/// Mentions in two steps are mentions in one.
pub(crate) proof fn with_mentions_join(nodes: Seq<NodeModel>, a: Seq<NodeModel>, b: Seq<NodeModel>)
    ensures
        with_mentions(nodes, a + b) == with_mentions(with_mentions(nodes, a), b),
    decreases b.len(),
{
    if b.len() == 0 {
        assert(a + b =~= a);
    } else {
        assert((a + b).drop_last() =~= a + b.drop_last());
        with_mentions_join(nodes, a, b.drop_last());
    }
}

/// Nodes keep their places, and every mention is named.
pub(crate) proof fn with_mentions_grows(nodes: Seq<NodeModel>, mentions: Seq<NodeModel>)
    ensures
        nodes.is_prefix_of(with_mentions(nodes, mentions)),
        forall|a: Seq<char>| #[trigger] names(nodes, a) ==> names(with_mentions(nodes, mentions), a),
        forall|k: int|
            0 <= k < mentions.len() ==> names(
                with_mentions(nodes, mentions),
                (#[trigger] mentions[k]).address,
            ),
    decreases mentions.len(),
{
    if mentions.len() > 0 {
        let before = with_mentions(nodes, mentions.drop_last());
        let after = with_mentions(nodes, mentions);
        with_mentions_grows(nodes, mentions.drop_last());
        assert forall|a: Seq<char>| #[trigger] names(before, a) implies names(after, a) by {
            let i = choose|i: int| 0 <= i < before.len() && (#[trigger] before[i]).address == a;
            assert(after[i].address == a);
        }
        if !names(before, mentions.last().address) {
            assert(after[before.len() as int].address == mentions.last().address);
        }
        assert forall|k: int| 0 <= k < mentions.len() implies names(
            after,
            (#[trigger] mentions[k]).address,
        ) by {
            if k < mentions.len() - 1 {
                assert(mentions.drop_last()[k] == mentions[k]);
            }
        }
        assert(nodes.is_prefix_of(after));
    }
}

/// Listing in two steps is listing in one.
pub(crate) proof fn with_distinct_join<P>(known: Seq<P>, a: Seq<P>, b: Seq<P>)
    ensures
        with_distinct(known, a + b) == with_distinct(with_distinct(known, a), b),
    decreases b.len(),
{
    if b.len() == 0 {
        assert(a + b =~= a);
    } else {
        assert((a + b).drop_last() =~= a + b.drop_last());
        with_distinct_join(known, a, b.drop_last());
    }
}

/// A list does not lose what it holds.
pub(crate) proof fn with_distinct_grows<P>(known: Seq<P>, more: Seq<P>)
    ensures
        known.len() <= with_distinct(known, more).len(),
    decreases more.len(),
{
    if more.len() > 0 {
        with_distinct_grows(known, more.drop_last());
    }
}

/// A node described in two steps is described in one.
pub(crate) proof fn described_join(
    base: MetaModel,
    a: Seq<PlannedResource>,
    b: Seq<PlannedResource>,
    address: Seq<char>,
)
    ensures
        described(base, a + b, address) == described(described(base, a, address), b, address),
    decreases b.len(),
{
    if b.len() == 0 {
        assert(a + b =~= a);
    } else {
        assert((a + b).drop_last() =~= a + b.drop_last());
        described_join(base, a, b.drop_last(), address);
    }
}

/// Every resource of a module tree is one of its nodes.
pub(crate) proof fn resources_are_mentioned(module: PlannedModule)
    ensures
        all_named(module_mentions(module), module_resources(module)),
    decreases module, 0nat,
{
    let own = module.resources@;
    let sub = modules_resources(module.child_modules@);
    modules_resources_are_mentioned(module.child_modules@);
    let all = module_mentions(module);
    let head = module_mention(module.address);
    assert forall|k: int| 0 <= k < module_resources(module).len() implies names(
        all,
        (#[trigger] module_resources(module)[k]).address@,
    ) by {
        if k < own.len() {
            assert(all[head.len() + k] == resource_mentions(own)[k]);
        } else {
            assert(module_resources(module)[k] == sub[k - own.len()]);
            let a = sub[k - own.len()].address@;
            let m = modules_mentions(module.child_modules@);
            assert(names(m, a));
            let i = choose|i: int| 0 <= i < m.len() && (#[trigger] m[i]).address == a;
            assert(all[head.len() + own.len() + i] == m[i]);
        }
    }
}

/// Every resource of module trees is one of their nodes.
proof fn modules_resources_are_mentioned(modules: Seq<PlannedModule>)
    ensures
        all_named(modules_mentions(modules), modules_resources(modules)),
    decreases modules, 1nat,
{
    if modules.len() > 0 {
        let a = modules_resources(modules.drop_last());
        let b = module_resources(modules.last());
        let ma = modules_mentions(modules.drop_last());
        let mb = module_mentions(modules.last());
        modules_resources_are_mentioned(modules.drop_last());
        resources_are_mentioned(modules.last());
        assert forall|k: int| 0 <= k < modules_resources(modules).len() implies names(
            modules_mentions(modules),
            (#[trigger] modules_resources(modules)[k]).address@,
        ) by {
            if k < a.len() {
                assert(names(ma, a[k].address@));
                let i = choose|i: int| 0 <= i < ma.len() && (#[trigger] ma[i]).address == a[k].address@;
                assert(modules_mentions(modules)[i] == ma[i]);
            } else {
                let x = b[k - a.len()].address@;
                assert(names(mb, x));
                let i = choose|i: int| 0 <= i < mb.len() && (#[trigger] mb[i]).address == x;
                assert(modules_mentions(modules)[ma.len() + i] == mb[i]);
            }
        }
    }
}

/// Resources say nothing of actions.
pub(crate) proof fn described_has_no_actions(resources: Seq<PlannedResource>, address: Seq<char>)
    ensures
        described(blank_meta(), resources, address).actions == Seq::<Action>::empty(),
    decreases resources.len(),
{
    if resources.len() > 0 {
        described_has_no_actions(resources.drop_last(), address);
    }
}

/// What `after` says of its nodes is what `before` said, overwritten by the resources.
pub open spec fn described_by(
    before: GraphModel,
    after: GraphModel,
    resources: Seq<PlannedResource>,
) -> bool {
    forall|i: int|
        0 <= i < after.nodes.len() ==> #[trigger] after.metas[i] == described(
            meta_or_blank(before, i),
            resources,
            after.nodes[i].address,
        )
}

/// What is known of node `i`, nothing if there is no such node.
pub open spec fn meta_or_blank(g: GraphModel, i: int) -> MetaModel {
    if i < g.nodes.len() {
        g.metas[i]
    } else {
        blank_meta()
    }
}

/// Every resource is a node.
pub open spec fn all_named(nodes: Seq<NodeModel>, resources: Seq<PlannedResource>) -> bool {
    forall|k: int|
        0 <= k < resources.len() ==> names(nodes, (#[trigger] resources[k]).address@)
}

/// Resources say nothing of an address that none of them has.
proof fn described_by_others(base: MetaModel, resources: Seq<PlannedResource>, address: Seq<char>)
    requires
        forall|k: int|
            0 <= k < resources.len() ==> (#[trigger] resources[k]).address@ != address,
    ensures
        described(base, resources, address) == base,
    decreases resources.len(),
{
    if resources.len() > 0 {
        assert(resources.last().address@ != address);
        let rest = resources.drop_last();
        assert forall|k: int| 0 <= k < rest.len() implies (#[trigger] rest[k]).address@ != address by {
            assert(rest[k] == resources[k]);
        }
        described_by_others(base, rest, address);
    }
}

/// Describing in two steps is describing in one.
pub(crate) proof fn described_by_join(
    a: GraphModel,
    b: GraphModel,
    c: GraphModel,
    first: Seq<PlannedResource>,
    second: Seq<PlannedResource>,
)
    requires
        c.valid(),
        a.nodes.is_prefix_of(b.nodes),
        b.nodes.is_prefix_of(c.nodes),
        all_named(b.nodes, first),
        described_by(a, b, first),
        described_by(b, c, second),
    ensures
        described_by(a, c, first + second),
{
    assert forall|i: int| 0 <= i < c.nodes.len() implies #[trigger] c.metas[i] == described(
        meta_or_blank(a, i),
        first + second,
        c.nodes[i].address,
    ) by {
        let address = c.nodes[i].address;
        described_join(meta_or_blank(a, i), first, second, address);
        if i < b.nodes.len() {
            assert(b.nodes[i] == c.nodes[i]);
            assert(b.metas[i] == described(meta_or_blank(a, i), first, b.nodes[i].address));
        } else {
            assert forall|k: int| 0 <= k < first.len() implies (#[trigger] first[k]).address@
                != address by {
                assert(names(b.nodes, first[k].address@));
                let j = choose|j: int|
                    0 <= j < b.nodes.len() && (#[trigger] b.nodes[j]).address == first[k].address@;
                assert(c.nodes[j] == b.nodes[j]);
            }
            described_by_others(meta_or_blank(a, i), first, address);
        }
    }
}

/// Too many nodes stay too many when more is mentioned.
pub(crate) proof fn overflow_stays(nodes: Seq<NodeModel>, part: Seq<NodeModel>, all: Seq<NodeModel>)
    requires
        part.is_prefix_of(all),
    ensures
        with_mentions(nodes, part).len() <= with_mentions(nodes, all).len(),
{
    assert(all =~= part + all.skip(part.len() as int));
    with_mentions_join(nodes, part, all.skip(part.len() as int));
    with_mentions_grows(with_mentions(nodes, part), all.skip(part.len() as int));
}

/// The nodes of the first module trees come first.
pub(crate) proof fn modules_mentions_prefix(modules: Seq<PlannedModule>, c: int)
    requires
        0 <= c <= modules.len(),
    ensures
        modules_mentions(modules.take(c)).is_prefix_of(modules_mentions(modules)),
    decreases modules.len() - c,
{
    if c == modules.len() {
        assert(modules.take(c) =~= modules);
    } else {
        modules_mentions_prefix(modules, c + 1);
        assert(modules.take(c + 1).drop_last() =~= modules.take(c));
        let a = modules_mentions(modules.take(c));
        let b = modules_mentions(modules.take(c + 1));
        assert(a.is_prefix_of(b));
        assert forall|i: int| 0 <= i < a.len() implies a[i] == modules_mentions(modules)[i] by {
            assert(a[i] == b[i]);
        }
    }
}

/// The nodes of a module, its resources and its first `c` child modules.
pub open spec fn mentions_up_to(module: PlannedModule, c: int) -> Seq<NodeModel> {
    module_mention(module.address) + resource_mentions(module.resources@) + modules_mentions(
        module.child_modules@.take(c),
    )
}

/// A module's own resources and those of its first `c` child modules.
pub open spec fn resources_up_to(module: PlannedModule, c: int) -> Seq<PlannedResource> {
    module.resources@ + modules_resources(module.child_modules@.take(c))
}

/// Resources taken so far are nodes taken so far.
proof fn partly_named(module: PlannedModule, c: int)
    requires
        0 <= c <= module.child_modules@.len(),
    ensures
        all_named(mentions_up_to(module, c), resources_up_to(module, c)),
{
    let head = module_mention(module.address);
    let own = module.resources@;
    let sub = module.child_modules@.take(c);
    let m = modules_mentions(sub);
    let all = mentions_up_to(module, c);
    let resources = resources_up_to(module, c);
    modules_resources_are_mentioned(sub);
    assert forall|k: int| 0 <= k < resources.len() implies names(
        all,
        (#[trigger] resources[k]).address@,
    ) by {
        if k < own.len() {
            assert(all[head.len() + k] == resource_mentions(own)[k]);
        } else {
            let a = modules_resources(sub)[k - own.len()].address@;
            assert(names(m, a));
            let i = choose|i: int| 0 <= i < m.len() && (#[trigger] m[i]).address == a;
            assert(all[head.len() + own.len() + i] == m[i]);
        }
    }
}

/// One child module more.
proof fn up_to_next(module: PlannedModule, c: int)
    requires
        0 <= c < module.child_modules@.len(),
    ensures
        mentions_up_to(module, c + 1) == mentions_up_to(module, c) + module_mentions(
            module.child_modules@[c],
        ),
        resources_up_to(module, c + 1) == resources_up_to(module, c) + module_resources(
            module.child_modules@[c],
        ),
{
    let sub = module.child_modules@;
    assert(sub.take(c + 1).drop_last() =~= sub.take(c));
    assert(sub.take(c + 1).last() == sub[c]);
    assert(mentions_up_to(module, c + 1) =~= mentions_up_to(module, c) + module_mentions(sub[c]));
    assert(resources_up_to(module, c + 1) =~= resources_up_to(module, c) + module_resources(sub[c]));
}

/// After the next child module has been added, one more is done.
pub(crate) proof fn child_joins(
    start: GraphModel,
    between: GraphModel,
    after: GraphModel,
    module: PlannedModule,
    c: int,
)
    requires
        0 <= c < module.child_modules@.len(),
        after.valid(),
        between.nodes == with_mentions(start.nodes, mentions_up_to(module, c)),
        after.nodes == with_mentions(between.nodes, module_mentions(module.child_modules@[c])),
        described_by(start, between, resources_up_to(module, c)),
        described_by(between, after, module_resources(module.child_modules@[c])),
    ensures
        after.nodes == with_mentions(start.nodes, mentions_up_to(module, c + 1)),
        described_by(start, after, resources_up_to(module, c + 1)),
{
    let done = mentions_up_to(module, c);
    let next = module_mentions(module.child_modules@[c]);
    let resources = resources_up_to(module, c);
    up_to_next(module, c);
    with_mentions_join(start.nodes, done, next);
    with_mentions_grows(start.nodes, done);
    with_mentions_grows(between.nodes, next);
    partly_named(module, c);
    assert forall|j: int| 0 <= j < resources.len() implies names(
        between.nodes,
        (#[trigger] resources[j]).address@,
    ) by {
        let a = resources[j].address@;
        assert(names(done, a));
        let m = choose|m: int| 0 <= m < done.len() && (#[trigger] done[m]).address == a;
        assert(names(between.nodes, done[m].address));
    }
    described_by_join(
        start,
        between,
        after,
        resources,
        module_resources(module.child_modules@[c]),
    );
}

/// Where a child module does not fit, the module does not.
pub(crate) proof fn child_overflows(nodes: Seq<NodeModel>, module: PlannedModule, c: int)
    requires
        0 <= c < module.child_modules@.len(),
    ensures
        with_mentions(
            with_mentions(nodes, mentions_up_to(module, c)),
            module_mentions(module.child_modules@[c]),
        ).len() <= with_mentions(nodes, module_mentions(module)).len(),
{
    let sub = module.child_modules@;
    up_to_next(module, c);
    with_mentions_join(nodes, mentions_up_to(module, c), module_mentions(sub[c]));
    modules_mentions_prefix(sub, c + 1);
    let part = mentions_up_to(module, c + 1);
    let all = module_mentions(module);
    let head = module_mention(module.address) + resource_mentions(module.resources@);
    assert forall|i: int| 0 <= i < part.len() implies part[i] == all[i] by {
        if i >= head.len() {
            assert(part[i] == modules_mentions(sub.take(c + 1))[i - head.len()]);
            assert(all[i] == modules_mentions(sub)[i - head.len()]);
        }
    }
    assert(part.is_prefix_of(all));
    overflow_stays(nodes, part, all);
}

// ── Adding dependencies ──────────────────────────────────────────────────────

/// `after` is `before` with the dependencies added, as edges of one kind, and nodes for those that
/// they point at.
pub open spec fn grown(
    before: GraphModel,
    after: GraphModel,
    pairs: Seq<(Seq<char>, Seq<char>)>,
    kind: EdgeKind,
) -> bool {
    &&& after.nodes == with_mentions(before.nodes, target_mentions(pairs))
    &&& after.dependencies() == with_distinct(before.dependencies(), pairs)
    &&& described_by(before, after, Seq::empty())
    &&& before.edges.is_prefix_of(after.edges)
    &&& forall|i: int|
        before.edges.len() <= i < after.edges.len() ==> (#[trigger] after.edges[i]).kind == kind
}

/// With the dependencies the graph has too many nodes or edges.
pub open spec fn outgrown(before: GraphModel, pairs: Seq<(Seq<char>, Seq<char>)>) -> bool {
    with_mentions(before.nodes, target_mentions(pairs)).len() > u32::MAX || with_distinct(
        before.dependencies(),
        pairs,
    ).len() > u32::MAX
}

/// Without dependencies nothing grows.
pub(crate) proof fn grown_by_nothing(g: GraphModel, kind: EdgeKind)
    ensures
        grown(g, g, Seq::empty(), kind),
{
    assert(target_mentions(Seq::empty()) =~= Seq::empty());
}

/// Dependencies added in two steps are added in one.
pub(crate) proof fn grown_join(
    a: GraphModel,
    b: GraphModel,
    c: GraphModel,
    p: Seq<(Seq<char>, Seq<char>)>,
    q: Seq<(Seq<char>, Seq<char>)>,
    kind: EdgeKind,
)
    requires
        grown(a, b, p, kind),
        grown(b, c, q, kind),
    ensures
        grown(a, c, p + q, kind),
        a.nodes.is_prefix_of(b.nodes),
        b.nodes.is_prefix_of(c.nodes),
{
    assert(target_mentions(p + q) =~= target_mentions(p) + target_mentions(q));
    with_mentions_join(a.nodes, target_mentions(p), target_mentions(q));
    with_distinct_join(a.dependencies(), p, q);
    with_mentions_grows(a.nodes, target_mentions(p));
    with_mentions_grows(b.nodes, target_mentions(q));
    assert forall|i: int| 0 <= i < c.nodes.len() implies #[trigger] c.metas[i] == described(
        meta_or_blank(a, i),
        Seq::empty(),
        c.nodes[i].address,
    ) by {
        if i < b.nodes.len() {
            assert(b.metas[i] == described(meta_or_blank(a, i), Seq::empty(), b.nodes[i].address));
        }
    }
    assert forall|i: int| a.edges.len() <= i < c.edges.len() implies (
    #[trigger] c.edges[i]).kind == kind by {
        if i < b.edges.len() {
            assert(c.edges[i] == b.edges[i]);
        }
    }
}

/// What is too much for a part of the dependencies is too much for all.
pub(crate) proof fn outgrown_stays(
    a: GraphModel,
    b: GraphModel,
    p: Seq<(Seq<char>, Seq<char>)>,
    q: Seq<(Seq<char>, Seq<char>)>,
    all: Seq<(Seq<char>, Seq<char>)>,
    kind: EdgeKind,
)
    requires
        grown(a, b, p, kind),
        outgrown(b, q),
        (p + q).is_prefix_of(all),
    ensures
        outgrown(a, all),
{
    let rest = all.skip((p + q).len() as int);
    assert(all =~= p + q + rest);
    assert(target_mentions(p + q) =~= target_mentions(p) + target_mentions(q));
    assert(target_mentions(all) =~= target_mentions(p + q) + target_mentions(rest));
    with_mentions_join(a.nodes, target_mentions(p), target_mentions(q));
    with_mentions_join(a.nodes, target_mentions(p + q), target_mentions(rest));
    with_mentions_grows(with_mentions(a.nodes, target_mentions(p + q)), target_mentions(rest));
    with_distinct_join(a.dependencies(), p, q);
    with_distinct_join(a.dependencies(), p + q, rest);
    with_distinct_grows(with_distinct(a.dependencies(), p + q), rest);
}

/// Resources stay nodes when dependencies are added.
pub(crate) proof fn grown_names(
    a: GraphModel,
    b: GraphModel,
    p: Seq<(Seq<char>, Seq<char>)>,
    resources: Seq<PlannedResource>,
    kind: EdgeKind,
)
    requires
        grown(a, b, p, kind),
        all_named(a.nodes, resources),
    ensures
        all_named(b.nodes, resources),
{
    with_mentions_grows(a.nodes, target_mentions(p));
}

/// Pairs that point at nodes add none.
pub(crate) proof fn known_targets_add_nothing(
    nodes: Seq<NodeModel>,
    pairs: Seq<(Seq<char>, Seq<char>)>,
)
    requires
        forall|k: int| 0 <= k < pairs.len() ==> names(nodes, (#[trigger] pairs[k]).1),
    ensures
        with_mentions(nodes, target_mentions(pairs)) == nodes,
    decreases pairs.len(),
{
    if pairs.len() > 0 {
        let few = pairs.drop_last();
        assert(target_mentions(pairs).drop_last() =~= target_mentions(few));
        assert forall|k: int| 0 <= k < few.len() implies names(nodes, (#[trigger] few[k]).1) by {
            assert(few[k] == pairs[k]);
        }
        known_targets_add_nothing(nodes, few);
        assert(names(nodes, pairs[pairs.len() - 1].1));
    }
}

/// The module that a pair of members tells of is the module.
proof fn member_pairs_are(address: Option<String>, resources: Seq<PlannedResource>)
    ensures
        forall|k: int|
            0 <= k < member_pairs(address, resources).len() ==> address is Some && (
            #[trigger] member_pairs(address, resources)[k]).1 == address->0@,
    decreases resources.len(),
{
    if resources.len() > 0 {
        let few = member_pairs(address, resources.drop_last());
        let all = member_pairs(address, resources);
        member_pairs_are(address, resources.drop_last());
        assert forall|k: int| 0 <= k < all.len() implies address is Some && (#[trigger] all[k]).1
            == address->0@ by {
            if k < few.len() {
                assert(all[k] == few[k]);
            }
        }
    }
}

/// Child modules to which something belongs are nodes.
pub(crate) proof fn owners_are_mentioned(module: PlannedModule)
    ensures
        forall|k: int|
            0 <= k < memberships(module).len() ==> names(
                module_mentions(module),
                (#[trigger] memberships(module)[k]).1,
            ),
    decreases module, 0nat,
{
    let sub = modules_mentions(module.child_modules@);
    let all = module_mentions(module);
    let first = module_mention(module.address) + resource_mentions(module.resources@);
    children_owners_are_mentioned(module.child_modules@);
    assert forall|k: int| 0 <= k < memberships(module).len() implies names(
        all,
        (#[trigger] memberships(module)[k]).1,
    ) by {
        let a = children_memberships(module.child_modules@)[k].1;
        assert(names(sub, a));
        let i = choose|i: int| 0 <= i < sub.len() && (#[trigger] sub[i]).address == a;
        assert(all[first.len() + i] == sub[i]);
    }
}

proof fn children_owners_are_mentioned(modules: Seq<PlannedModule>)
    ensures
        forall|k: int|
            0 <= k < children_memberships(modules).len() ==> names(
                modules_mentions(modules),
                (#[trigger] children_memberships(modules)[k]).1,
            ),
    decreases modules, 1nat,
{
    if modules.len() > 0 {
        let last = modules.last();
        let a = children_memberships(modules.drop_last());
        let b = member_pairs(last.address, last.resources@);
        let c = memberships(last);
        let ma = modules_mentions(modules.drop_last());
        let mb = module_mentions(last);
        let all = modules_mentions(modules);
        children_owners_are_mentioned(modules.drop_last());
        owners_are_mentioned(last);
        member_pairs_are(last.address, last.resources@);
        assert forall|k: int| 0 <= k < children_memberships(modules).len() implies names(
            all,
            (#[trigger] children_memberships(modules)[k]).1,
        ) by {
            let x = children_memberships(modules)[k].1;
            if k < a.len() {
                assert(a[k].1 == x);
                assert(names(ma, x));
                let i = choose|i: int| 0 <= i < ma.len() && (#[trigger] ma[i]).address == x;
                assert(all[i] == ma[i]);
            } else if k < a.len() + b.len() {
                assert(b[k - a.len()].1 == x);
                assert(mb[0].address == x);
                assert(all[ma.len() as int] == mb[0]);
            } else {
                assert(c[k - a.len() - b.len()].1 == x);
                assert(names(mb, x));
                let i = choose|i: int| 0 <= i < mb.len() && (#[trigger] mb[i]).address == x;
                assert(all[ma.len() + i] == mb[i]);
            }
        }
    }
}

/// Memberships of the first child modules come first.
pub(crate) proof fn children_memberships_prefix(modules: Seq<PlannedModule>, c: int)
    requires
        0 <= c <= modules.len(),
    ensures
        children_memberships(modules.take(c)).is_prefix_of(children_memberships(modules)),
    decreases modules.len() - c,
{
    if c == modules.len() {
        assert(modules.take(c) =~= modules);
    } else {
        children_memberships_prefix(modules, c + 1);
        assert(modules.take(c + 1).drop_last() =~= modules.take(c));
        let a = children_memberships(modules.take(c));
        let b = children_memberships(modules.take(c + 1));
        assert forall|i: int| 0 <= i < a.len() implies a[i] == children_memberships(modules)[i] by {
            assert(a[i] == b[i]);
        }
    }
}

/// Members among the first resources come first.
pub(crate) proof fn member_pairs_prefix(
    address: Option<String>,
    resources: Seq<PlannedResource>,
    k: int,
)
    requires
        0 <= k <= resources.len(),
    ensures
        member_pairs(address, resources.take(k)).is_prefix_of(member_pairs(address, resources)),
    decreases resources.len() - k,
{
    if k == resources.len() {
        assert(resources.take(k) =~= resources);
    } else {
        member_pairs_prefix(address, resources, k + 1);
        assert(resources.take(k + 1).drop_last() =~= resources.take(k));
        let a = member_pairs(address, resources.take(k));
        let b = member_pairs(address, resources.take(k + 1));
        assert forall|i: int| 0 <= i < a.len() implies a[i] == member_pairs(
            address,
            resources,
        )[i] by {
            assert(a[i] == b[i]);
        }
    }
}

/// Dependencies of the first resources come first.
pub(crate) proof fn resources_dependencies_prefix(resources: Seq<PlannedResource>, k: int)
    requires
        0 <= k <= resources.len(),
    ensures
        resources_dependencies(resources.take(k)).is_prefix_of(resources_dependencies(resources)),
    decreases resources.len() - k,
{
    if k == resources.len() {
        assert(resources.take(k) =~= resources);
    } else {
        resources_dependencies_prefix(resources, k + 1);
        assert(resources.take(k + 1).drop_last() =~= resources.take(k));
        let a = resources_dependencies(resources.take(k));
        let b = resources_dependencies(resources.take(k + 1));
        assert forall|i: int| 0 <= i < a.len() implies a[i] == resources_dependencies(
            resources,
        )[i] by {
            assert(a[i] == b[i]);
        }
    }
}

/// Dependencies of the first module trees come first.
pub(crate) proof fn modules_dependencies_prefix(modules: Seq<PlannedModule>, c: int)
    requires
        0 <= c <= modules.len(),
    ensures
        modules_dependencies(modules.take(c)).is_prefix_of(modules_dependencies(modules)),
    decreases modules.len() - c,
{
    if c == modules.len() {
        assert(modules.take(c) =~= modules);
    } else {
        modules_dependencies_prefix(modules, c + 1);
        assert(modules.take(c + 1).drop_last() =~= modules.take(c));
        let a = modules_dependencies(modules.take(c));
        let b = modules_dependencies(modules.take(c + 1));
        assert forall|i: int| 0 <= i < a.len() implies a[i] == modules_dependencies(modules)[i] by {
            assert(a[i] == b[i]);
        }
    }
}

/// What a module's own resources and those of its first `c` child modules depend on.
pub open spec fn dependencies_up_to(module: PlannedModule, c: int) -> Seq<
    (Seq<char>, Seq<char>),
> {
    resources_dependencies(module.resources@) + modules_dependencies(module.child_modules@.take(c))
}

/// With one child module more come its dependencies, and they are among the module's.
pub(crate) proof fn next_dependencies(module: PlannedModule, c: int)
    requires
        0 <= c < module.child_modules@.len(),
    ensures
        dependencies_up_to(module, c + 1) == dependencies_up_to(module, c) + module_dependencies(
            module.child_modules@[c],
        ),
        dependencies_up_to(module, c + 1).is_prefix_of(module_dependencies(module)),
{
    let own = resources_dependencies(module.resources@);
    let sub = module.child_modules@;
    let part = dependencies_up_to(module, c + 1);
    let all = module_dependencies(module);
    assert(sub.take(c + 1).drop_last() =~= sub.take(c));
    assert(part =~= dependencies_up_to(module, c) + module_dependencies(sub[c]));
    modules_dependencies_prefix(sub, c + 1);
    assert forall|i: int| 0 <= i < part.len() implies part[i] == all[i] by {
        if i >= own.len() {
            assert(part[i] == modules_dependencies(sub.take(c + 1))[i - own.len()]);
            assert(all[i] == modules_dependencies(sub)[i - own.len()]);
        }
    }
}

/// With one child module more come its members and what lies below it, and they are among the
/// module's.
pub(crate) proof fn next_memberships(module: PlannedModule, c: int)
    requires
        0 <= c < module.child_modules@.len(),
    ensures
        ({
            let sub = module.child_modules@;
            let done = children_memberships(sub.take(c));
            let own = member_pairs(sub[c].address, sub[c].resources@);
            &&& children_memberships(sub.take(c + 1)) == done + own + memberships(sub[c])
            &&& (done + own).is_prefix_of(memberships(module))
            &&& (done + own + memberships(sub[c])).is_prefix_of(memberships(module))
        }),
{
    let sub = module.child_modules@;
    let done = children_memberships(sub.take(c));
    let own = member_pairs(sub[c].address, sub[c].resources@);
    let part = children_memberships(sub.take(c + 1));
    assert(sub.take(c + 1).drop_last() =~= sub.take(c));
    assert(part =~= done + own + memberships(sub[c]));
    children_memberships_prefix(sub, c + 1);
    assert forall|i: int| 0 <= i < (done + own).len() implies (done + own)[i] == memberships(
        module,
    )[i] by {
        assert((done + own)[i] == part[i]);
    }
}

/// The resources of a child module are among the module's.
pub(crate) proof fn child_named(nodes: Seq<NodeModel>, module: PlannedModule, c: int)
    requires
        all_named(nodes, module_resources(module)),
        0 <= c < module.child_modules@.len(),
    ensures
        all_named(nodes, module_resources(module.child_modules@[c])),
{
    let own = module.resources@;
    let all = modules_resources(module.child_modules@);
    let child = module_resources(module.child_modules@[c]);
    let at = child_resources_at(module.child_modules@, c);
    assert forall|k: int| 0 <= k < child.len() implies names(
        nodes,
        (#[trigger] child[k]).address@,
    ) by {
        assert(child[k] == all[at + k]);
        assert(module_resources(module)[own.len() + at + k] == all[at + k]);
    }
}

/// Where the resources of module tree `c` start.
proof fn child_resources_at(modules: Seq<PlannedModule>, c: int) -> (at: int)
    requires
        0 <= c < modules.len(),
    ensures
        0 <= at,
        at + module_resources(modules[c]).len() <= modules_resources(modules).len(),
        forall|k: int|
            0 <= k < module_resources(modules[c]).len() ==> #[trigger] module_resources(
                modules[c],
            )[k] == modules_resources(modules)[at + k],
    decreases modules.len(),
{
    let before = modules_resources(modules.drop_last());
    if c == modules.len() - 1 {
        before.len() as int
    } else {
        let at = child_resources_at(modules.drop_last(), c);
        assert forall|k: int| 0 <= k < module_resources(modules[c]).len() implies
            #[trigger] module_resources(modules[c])[k] == modules_resources(modules)[at + k] by {
            assert(before[at + k] == modules_resources(modules)[at + k]);
        }
        at
    }
}

// ── Order ────────────────────────────────────────────────────────────────────

/// `order` lists the address of every node once, that of a dependency before that of whatever
/// depends on it.
pub open spec fn is_apply_order(g: GraphModel, order: Seq<Seq<char>>) -> bool {
    &&& order.len() == g.nodes.len()
    &&& order.no_duplicates()
    &&& forall|a: Seq<char>| #[trigger] order.contains(a) <==> names(g.nodes, a)
    &&& forall|e: int, i: int, j: int|
        #![trigger g.edges[e], order[i], order[j]]
        0 <= e < g.edges.len() && 0 <= i < order.len() && 0 <= j < order.len() && order[i]
            == g.nodes[g.edges[e].to as int].address && order[j]
            == g.nodes[g.edges[e].from as int].address ==> i < j
}

/// The links of a valid graph join its nodes.
pub(crate) proof fn links_are_within(g: GraphModel)
    requires
        g.valid(),
    ensures
        links_within(g.links(), g.nodes.len() as int),
{
}

/// The addresses of these nodes, from the last to the first.
pub open spec fn backwards(g: GraphModel, nodes: Seq<int>) -> Seq<Seq<char>> {
    Seq::new(nodes.len(), |i: int| g.nodes[nodes[nodes.len() - 1 - i]].address)
}

/// The apply order that is told of a graph as it was built, or the address on a cycle.
pub open spec fn order_told(g: GraphModel) -> Result<Seq<Seq<char>>, Seq<char>> {
    match sort_told(g.nodes.len(), g.edges) {
        Ok(nodes) => Ok(backwards(g, nodes)),
        Err(node) => Err(g.nodes[node].address),
    }
}

/// The address on a cycle that is told of a graph as it was built, if there is a cycle.
pub open spec fn cycle_told(g: GraphModel) -> Option<Seq<char>> {
    match order_told(g) {
        Ok(_) => None,
        Err(address) => Some(address),
    }
}

/// A topological order of the node numbers, backwards and by address, is an apply order.
pub(crate) proof fn reversed_is_apply_order(g: GraphModel, ints: Seq<int>, order: Seq<Seq<char>>)
    requires
        g.valid(),
        is_topological(g.links(), g.nodes.len() as int, ints),
        order == backwards(g, ints),
    ensures
        is_apply_order(g, order),
{
    let n = ints.len() as int;
    assert forall|k: int| 0 <= k < n implies 0 <= #[trigger] ints[k] < n by {
        assert(ints.contains(ints[k]));
    }
    assert forall|i: int, j: int|
        0 <= i < order.len() && 0 <= j < order.len() && i != j implies order[i] != order[j] by {
        assert(ints[n - 1 - i] != ints[n - 1 - j]);
        assert(g.nodes[ints[n - 1 - i]].address == order[i]);
        assert(g.nodes[ints[n - 1 - j]].address == order[j]);
    }
    assert forall|a: Seq<char>| #[trigger] order.contains(a) <==> names(g.nodes, a) by {
        if order.contains(a) {
            let i = order.index_of(a);
            assert(g.nodes[ints[n - 1 - i]].address == a);
        }
        if names(g.nodes, a) {
            let x = choose|x: int| 0 <= x < g.nodes.len() && (#[trigger] g.nodes[x]).address == a;
            assert(ints.contains(x));
            let k = ints.index_of(x);
            assert(order[n - 1 - k] == a);
        }
    }
    assert forall|e: int, i: int, j: int|
        #![trigger g.edges[e], order[i], order[j]]
        0 <= e < g.edges.len() && 0 <= i < order.len() && 0 <= j < order.len() && order[i]
            == g.nodes[g.edges[e].to as int].address && order[j]
            == g.nodes[g.edges[e].from as int].address implies i < j by {
        let from = g.edges[e].from as int;
        let to = g.edges[e].to as int;
        assert(g.nodes[ints[n - 1 - i]].address == g.nodes[to].address);
        assert(g.nodes[ints[n - 1 - j]].address == g.nodes[from].address);
        assert(g.links().contains((ints[n - 1 - j], ints[n - 1 - i])));
    }
}

// ── Blast radius ─────────────────────────────────────────────────────────────

/// A change of `target` hits `a`: they are addresses of different nodes, and that of `a` depends
/// on that of `target`, directly or through others.
pub open spec fn is_hit(g: GraphModel, target: Seq<char>, a: Seq<char>) -> bool {
    exists|x: int, y: int|
        0 <= x < g.nodes.len() && 0 <= y < g.nodes.len() && x != y && (
        #[trigger] g.nodes[x]).address == a && (#[trigger] g.nodes[y]).address == target
            && reaches(g.links(), x, y)
}

/// Whoever depends on `v` has been visited.
pub open spec fn closed_at(links: Set<(int, int)>, visited: Set<u32>, v: u32) -> bool {
    forall|x: u32| #[trigger] links.contains((x as int, v as int)) ==> visited.contains(x)
}

/// The search has visited `start` and what it found, all of which reaches `start`, and waits to
/// look at visited nodes only.
pub open spec fn dfs_core(
    links: Set<(int, int)>,
    n: nat,
    start: u32,
    visited: Set<u32>,
    found: Seq<u32>,
    stack: Seq<u32>,
) -> bool {
    &&& found.no_duplicates()
    &&& forall|i: int| 0 <= i < found.len() ==> #[trigger] found[i] < n
    &&& !found.contains(start)
    &&& forall|v: u32| #[trigger] visited.contains(v) <==> v == start || found.contains(v)
    &&& forall|v: u32| #[trigger] visited.contains(v) ==> reaches(links, v as int, start as int)
    &&& forall|i: int| 0 <= i < stack.len() ==> visited.contains(#[trigger] stack[i])
}

/// The search is sound so far, and whatever it does not wait to look at has been looked at.
pub open spec fn dfs_state(
    links: Set<(int, int)>,
    n: nat,
    start: u32,
    visited: Set<u32>,
    found: Seq<u32>,
    stack: Seq<u32>,
) -> bool {
    &&& dfs_core(links, n, start, visited, found, stack)
    &&& forall|v: u32|
        visited.contains(v) && !stack.contains(v) ==> #[trigger] closed_at(links, visited, v)
}

/// Distinct numbers below `n` are no more than `n`.
pub(crate) proof fn distinct_fit(s: Seq<u32>, n: nat)
    requires
        s.no_duplicates(),
        forall|i: int| 0 <= i < s.len() ==> #[trigger] s[i] < n,
    ensures
        s.len() <= n,
{
    let ints = s.map_values(|x: u32| x as int);
    assert(ints.no_duplicates());
    ints.unique_seq_to_set();
    vstd::set_lib::lemma_int_range(0, n as int);
    assert(ints.to_set().subset_of(vstd::set_lib::set_int_range(0, n as int))) by {
        assert forall|x: int| ints.to_set().contains(x) implies vstd::set_lib::set_int_range(
            0,
            n as int,
        ).contains(x) by {
            let i = ints.index_of(x);
            assert(s[i] == x);
        }
    }
    vstd::set_lib::lemma_len_subset(ints.to_set(), vstd::set_lib::set_int_range(0, n as int));
}

/// The search visits a node that is new.
pub(crate) proof fn dfs_core_grows(
    links: Set<(int, int)>,
    n: nat,
    start: u32,
    visited: Set<u32>,
    found: Seq<u32>,
    stack: Seq<u32>,
    new: u32,
)
    requires
        dfs_core(links, n, start, visited, found, stack),
        !visited.contains(new),
        new < n,
        reaches(links, new as int, start as int),
    ensures
        dfs_core(links, n, start, visited.insert(new), found.push(new), stack.push(new)),
{
    let more = found.push(new);
    assert(more[found.len() as int] == new);
    assert forall|v: u32| #[trigger] visited.insert(new).contains(v) <==> v == start
        || more.contains(v) by {
        if found.contains(v) {
            let i = found.index_of(v);
            assert(more[i] == v);
        }
    }
    assert(visited.contains(start));
    assert(!found.contains(new));
}

/// A finished search has found exactly what is hit.
pub(crate) proof fn dfs_is_complete(
    g: GraphModel,
    start: u32,
    visited: Set<u32>,
    found: Seq<u32>,
    hit: Seq<Seq<char>>,
)
    requires
        g.valid(),
        start < g.nodes.len(),
        dfs_state(g.links(), g.nodes.len(), start, visited, found, Seq::empty()),
        hit.len() == found.len(),
        forall|i: int|
            0 <= i < hit.len() ==> #[trigger] hit[i] == g.nodes[found[i] as int].address,
    ensures
        hit.no_duplicates(),
        forall|a: Seq<char>| #[trigger]
            hit.contains(a) <==> is_hit(g, g.nodes[start as int].address, a),
{
    let links = g.links();
    let n = g.nodes.len();
    links_are_within(g);
    assert forall|i: int, j: int|
        0 <= i < hit.len() && 0 <= j < hit.len() && i != j implies hit[i] != hit[j] by {
        assert(found[i] != found[j]);
        assert(g.nodes[found[i] as int].address == hit[i]);
        assert(g.nodes[found[j] as int].address == hit[j]);
    }
    assert forall|a: Seq<char>| #[trigger] hit.contains(a) <==> is_hit(
        g,
        g.nodes[start as int].address,
        a,
    ) by {
        if hit.contains(a) {
            let i = hit.index_of(a);
            assert(visited.contains(found[i]));
            assert(found.contains(found[i]));
            assert(found[i] != start);
            assert(g.nodes[found[i] as int].address == a);
        }
        if is_hit(g, g.nodes[start as int].address, a) {
            let (x, y) = choose|x: int, y: int|
                0 <= x < g.nodes.len() && 0 <= y < g.nodes.len() && x != y && (
                #[trigger] g.nodes[x]).address == a && (#[trigger] g.nodes[y]).address
                    == g.nodes[start as int].address && reaches(links, x, y);
            assert(y == start);
            let seen = Set::new(|v: int| 0 <= v < n && visited.contains(v as u32));
            turned_reaches(links, x, y);
            assert forall|p: int, q: int| seen.contains(p) && #[trigger] turned(links).contains(
                (p, q),
            ) implies seen.contains(q) by {
                assert(links.contains((q, p)));
                assert(closed_at(links, visited, p as u32));
                assert(links.contains(((q as u32) as int, (p as u32) as int)));
            }
            closed_set_holds_reached(turned(links), seen, y, x);
            assert(found.contains(x as u32));
            let i = found.index_of(x as u32);
            assert(hit[i] == a);
        }
    }
}

// ── Removing edges ───────────────────────────────────────────────────────────

/// The ends of the edges that have a detour, in edge order.
pub open spec fn redundant_pairs(edges: Seq<Edge>, links: Set<(int, int)>) -> Seq<(u32, u32)>
    decreases edges.len(),
{
    if edges.len() == 0 {
        Seq::empty()
    } else {
        let before = redundant_pairs(edges.drop_last(), links);
        let e = edges.last();
        if has_detour(links, e.from as int, e.to as int) {
            before.push((e.from, e.to))
        } else {
            before
        }
    }
}

/// Where the edge with these ends stands.
pub open spec fn edge_place(edges: Seq<Edge>, from: u32, to: u32) -> int {
    choose|i: int|
        0 <= i < edges.len() && (#[trigger] edges[i]).from == from && edges[i].to == to
}

/// `edges` after the edges with these ends have been removed, one after the other.
pub open spec fn without_pairs(edges: Seq<Edge>, pairs: Seq<(u32, u32)>) -> Seq<Edge>
    decreases pairs.len(),
{
    if pairs.len() == 0 {
        edges
    } else {
        let before = without_pairs(edges, pairs.drop_last());
        let (from, to) = pairs.last();
        if links_of(before).contains((from as int, to as int)) {
            swap_removed(before, edge_place(before, from, to))
        } else {
            before
        }
    }
}

/// `g` without the edges that have a detour.
pub open spec fn reduced_graph(g: GraphModel) -> GraphModel {
    GraphModel {
        nodes: g.nodes,
        metas: g.metas,
        edges: without_pairs(g.edges, redundant_pairs(g.edges, g.links())),
    }
}

/// Removing an edge takes that edge and no other.
pub(crate) proof fn swap_removed_members(before: GraphModel, after: GraphModel, i: int)
    requires
        before.valid(),
        0 <= i < before.edges.len(),
        after.nodes == before.nodes,
        after.metas == before.metas,
        after.edges == swap_removed(before.edges, i),
    ensures
        after.valid(),
        forall|e: Edge| #[trigger]
            after.edges.contains(e) <==> before.edges.contains(e) && e != before.edges[i],
{
    let b = before.edges;
    let a = after.edges;
    assert forall|k: int| 0 <= k < a.len() implies #[trigger] a[k] == (if k == i {
        b.last()
    } else {
        b[k]
    }) by {}
    assert forall|e: Edge| #[trigger] a.contains(e) <==> b.contains(e) && e != b[i] by {
        if a.contains(e) {
            let k = a.index_of(e);
            assert(a[k] == e);
            if k == i {
                assert(b[b.len() - 1] == e);
            } else {
                assert(b[k] == e);
            }
        }
        if b.contains(e) && e != b[i] {
            let k = b.index_of(e);
            assert(b[k] == e);
            if k == b.len() - 1 {
                assert(a[i] == e);
            } else {
                assert(a[k] == e);
            }
        }
    }
    assert(edges_distinct(a)) by {
        assert forall|p: int, q: int|
            0 <= p < a.len() && 0 <= q < a.len() && (#[trigger] a[p]).from == (
            #[trigger] a[q]).from && a[p].to == a[q].to implies p == q by {
            let pb = if p == i { b.len() - 1 } else { p };
            let qb = if q == i { b.len() - 1 } else { q };
            assert(b[pb] == a[p] && b[qb] == a[q]);
        }
    }
}

/// `g` with these edges in place of its own.
pub open spec fn with_edges(g: GraphModel, edges: Seq<Edge>) -> GraphModel {
    GraphModel { nodes: g.nodes, metas: g.metas, edges }
}

/// Removing the edges with these ends takes them and no others.
pub(crate) proof fn without_pairs_members(g: GraphModel, pairs: Seq<(u32, u32)>)
    requires
        g.valid(),
    ensures
        with_edges(g, without_pairs(g.edges, pairs)).valid(),
        forall|e: Edge| #[trigger]
            without_pairs(g.edges, pairs).contains(e) <==> g.edges.contains(e) && !pairs.contains(
                (e.from, e.to),
            ),
    decreases pairs.len(),
{
    if pairs.len() == 0 {
        assert(with_edges(g, without_pairs(g.edges, pairs)) == g);
    } else {
        let few = pairs.drop_last();
        let (from, to) = pairs.last();
        let before = without_pairs(g.edges, few);
        let after = without_pairs(g.edges, pairs);
        without_pairs_members(g, few);
        assert forall|p: (u32, u32)| #[trigger] pairs.contains(p) <==> few.contains(p) || p == (
            from,
            to,
        ) by {
            assert(pairs =~= few.push((from, to)));
            if few.contains(p) {
                let k = few.index_of(p);
                assert(pairs[k] == p);
            }
            assert(pairs[few.len() as int] == (from, to));
        }
        if links_of(before).contains((from as int, to as int)) {
            let place = edge_place(before, from, to);
            assert(before[place].from == from && before[place].to == to);
            swap_removed_members(with_edges(g, before), with_edges(g, after), place);
            assert forall|e: Edge| #[trigger] after.contains(e) <==> g.edges.contains(e)
                && !pairs.contains((e.from, e.to)) by {
                if before.contains(e) && e.from == from && e.to == to {
                    let k = before.index_of(e);
                    assert(before[k].from == before[place].from);
                }
            }
        } else {
            assert forall|e: Edge| #[trigger] after.contains(e) <==> g.edges.contains(e)
                && !pairs.contains((e.from, e.to)) by {
                if before.contains(e) && e.from == from && e.to == to {
                    let k = before.index_of(e);
                    assert(before[k].from == from && before[k].to == to);
                }
            }
        }
    }
}

/// An edge is redundant where it has a detour.
proof fn redundant_pairs_members(edges: Seq<Edge>, links: Set<(int, int)>, e: Edge)
    requires
        edges.contains(e),
    ensures
        redundant_pairs(edges, links).contains((e.from, e.to)) <==> has_detour(
            links,
            e.from as int,
            e.to as int,
        ),
{
    redundant_pairs_are(edges, links, (e.from, e.to));
    let i = edges.index_of(e);
    assert(edges[i].from == e.from && edges[i].to == e.to);
}

/// The redundant pairs are the ends of the edges that have a detour.
pub(crate) proof fn redundant_pairs_are(edges: Seq<Edge>, links: Set<(int, int)>, p: (u32, u32))
    ensures
        redundant_pairs(edges, links).contains(p) <==> has_detour(links, p.0 as int, p.1 as int)
            && exists|i: int|
            0 <= i < edges.len() && (#[trigger] edges[i]).from == p.0 && edges[i].to == p.1,
    decreases edges.len(),
{
    if edges.len() > 0 {
        let few = edges.drop_last();
        let e = edges.last();
        let before = redundant_pairs(few, links);
        redundant_pairs_are(few, links, p);
        assert(edges[edges.len() - 1] == e);
        assert(before.push((e.from, e.to))[before.len() as int] == (e.from, e.to));
        if before.contains(p) {
            let k = before.index_of(p);
            assert(before.push((e.from, e.to))[k] == p);
            let i = choose|i: int|
                0 <= i < few.len() && (#[trigger] few[i]).from == p.0 && few[i].to == p.1;
            assert(edges[i] == few[i]);
        }
        if exists|i: int|
            0 <= i < edges.len() && (#[trigger] edges[i]).from == p.0 && edges[i].to == p.1 {
            let i = choose|i: int|
                0 <= i < edges.len() && (#[trigger] edges[i]).from == p.0 && edges[i].to == p.1;
            if i < few.len() {
                assert(few[i] == edges[i]);
            }
        }
    }
}

/// The reduced graph keeps the edges without a detour, and they link what the reduced links link.
pub(crate) proof fn reduced_graph_edges(g: GraphModel)
    requires
        g.valid(),
    ensures
        reduced_graph(g).valid(),
        forall|e: Edge| #[trigger]
            reduced_graph(g).edges.contains(e) <==> g.edges.contains(e) && !has_detour(
                g.links(),
                e.from as int,
                e.to as int,
            ),
        reduced_graph(g).links() == reduced(g.links()),
{
    let r = reduced_graph(g);
    let pairs = redundant_pairs(g.edges, g.links());
    without_pairs_members(g, pairs);
    assert(r == with_edges(g, without_pairs(g.edges, pairs)));
    assert forall|e: Edge| #[trigger] r.edges.contains(e) <==> g.edges.contains(e) && !has_detour(
        g.links(),
        e.from as int,
        e.to as int,
    ) by {
        if g.edges.contains(e) {
            redundant_pairs_members(g.edges, g.links(), e);
        }
    }
    assert forall|l: (int, int)| r.links().contains(l) <==> reduced(g.links()).contains(l) by {
        if r.links().contains(l) {
            let i = choose|i: int|
                0 <= i < r.edges.len() && (#[trigger] r.edges[i]).from == l.0 && r.edges[i].to
                    == l.1;
            assert(r.edges.contains(r.edges[i]));
            let j = g.edges.index_of(r.edges[i]);
            assert(g.edges[j] == r.edges[i]);
        }
        if reduced(g.links()).contains(l) {
            let j = choose|j: int|
                0 <= j < g.edges.len() && (#[trigger] g.edges[j]).from == l.0 && g.edges[j].to
                    == l.1;
            assert(g.edges.contains(g.edges[j]));
            assert(r.edges.contains(g.edges[j]));
            let i = r.edges.index_of(g.edges[j]);
            assert(r.edges[i] == g.edges[j]);
        }
    }
    assert(r.links() =~= reduced(g.links()));
}

} // verus!
