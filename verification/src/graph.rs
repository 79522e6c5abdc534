//! The dependency graph of a plan: who is hit when a resource changes, and in which order to apply.
//!
//! An edge A → B means "A depends on B".

use petgraph::graph::DiGraph;
use std::collections::HashSet;
use vstd::hash_map::StringHashMap;
use vstd::prelude::*;

use crate::blueprint::{
    all_named, backwards, blank_meta, changed, child_joins, child_named, child_overflows,
    children_memberships, closed_at, declared_dependencies, dependencies_up_to, described,
    described_by, described_by_join, described_has_no_actions, dfs_core, dfs_core_grows,
    dfs_is_complete, dfs_state, distinct_fit, edge_place, edges_distinct, graph_fits,
    graph_is_plan_graph, grown, grown_by_nothing, grown_join, grown_names, is_apply_order,
    is_graph_of, is_hit, known_targets_add_nothing, links_are_within, member_pairs,
    member_pairs_prefix, memberships, mentions_up_to, meta_or_blank, module_dependencies,
    module_mention, module_mentions, module_resources, names, next_dependencies, next_memberships,
    node_place, order_told, outgrown, outgrown_stays, output_mentions, overflow_stays,
    owners_are_mentioned, plan_edge_kind, plan_graph, plan_mentions, plan_meta, plan_resources,
    reduced_graph, reduced_graph_edges, redundant_pairs, resource_dependencies, resource_mentions,
    resources_are_mentioned, resources_dependencies, resources_dependencies_prefix, resources_up_to,
    reversed_is_apply_order, target_mentions, with_distinct, with_distinct_grows, with_edges,
    with_mentions, with_mentions_grows, with_mentions_join, with_node, without_pairs,
    without_pairs_members, GraphModel, MetaModel, NodeModel,
};
use crate::digraph::{
    as_ints, graph_edges, graph_nodes, grown_in_order, links_of, sources_are_links,
    targets_are_links, Edge, EdgeKind, NodeData, NodeKind,
};
use crate::dot::{dot_edges, dot_nodes, dot_text, write_edge, write_node, DOT_HEADER};
use crate::parser::{Action, Plan, PlannedModule, PlannedResource, ResourceChange};
use crate::paths::{
    acyclic, has_detour, link_reaches, links_within, on_cycle, reaches, reaches_join, reaches_self,
    reduced, topological_is_acyclic,
};
use crate::text::{copied, debug_form, debug_text, opt_text, owned, texts};

verus! {

/// A node's number in the graph.
pub type NodeIndex = u32;

/// What is known of a node beside its address and kind.
#[derive(Debug, Clone)]
pub struct NodeMeta {
    pub resource_type: Option<String>,
    pub actions: Vec<Action>,
    pub provider: Option<String>,
    pub module_address: Option<String>,
}

impl View for NodeMeta {
    type V = MetaModel;

    open spec fn view(&self) -> MetaModel {
        MetaModel {
            resource_type: opt_text(self.resource_type),
            actions: self.actions@,
            provider: opt_text(self.provider),
            module_address: opt_text(self.module_address),
        }
    }
}

impl Default for NodeMeta {
    fn default() -> (meta: Self)
        ensures
            meta@ == blank_meta(),
    {
        let meta = NodeMeta {
            resource_type: None,
            actions: Vec::new(),
            provider: None,
            module_address: None,
        };
        assert(meta.actions@ =~= Seq::empty());
        meta
    }
}

/// A dependency cycle, told by one of its nodes.
#[derive(Debug)]
pub struct CycleError {
    pub node_address: String,
}

impl CycleError {
    /// The error in words.
    pub fn message(&self) -> (text: String)
        ensures
            text@ == "dependency cycle detected involving "@ + debug_form(self.node_address@)
                + " — Terraform plans must be acyclic"@,
    {
        let mut text = owned("dependency cycle detected involving ");
        text.append(debug_text(self.node_address.as_str()).as_str());
        text.append(" — Terraform plans must be acyclic");
        text
    }
}

/// Directed dependency graph built from a parsed plan.
pub struct ImpactGraph {
    graph: DiGraph<NodeData, EdgeKind>,
    address_to_index: StringHashMap<NodeIndex>,
    metadata: Vec<NodeMeta>,
}

impl View for ImpactGraph {
    type V = GraphModel;

    closed spec fn view(&self) -> GraphModel {
        GraphModel {
            nodes: graph_nodes(self.graph).map_values(|d: NodeData| d@),
            metas: self.metadata@.map_values(|m: NodeMeta| m@),
            edges: graph_edges(self.graph),
        }
    }
}

impl ImpactGraph {
    /// The graph is valid, and the addresses lead to their nodes.
    pub open spec fn wf(self) -> bool {
        self@.valid() && self.indexed()
    }

    /// An address leads to the node that has it, and to nothing if none does.
    pub closed spec fn indexed(self) -> bool {
        &&& forall|a: Seq<char>| #[trigger]
            self.address_to_index@.contains_key(a) ==> self.address_to_index@[a]
                < self@.nodes.len() && self@.nodes[self.address_to_index@[a] as int].address == a
        &&& forall|i: int|
            0 <= i < self@.nodes.len() ==> self.address_to_index@.contains_key(
                (#[trigger] self@.nodes[i]).address,
            )
    }

    /// The graph is as adding its nodes and edges one after the other leaves it: nothing has been
    /// removed.
    pub closed spec fn in_order(self) -> bool {
        grown_in_order(self.graph)
    }

    fn new() -> (g: Self)
        ensures
            g.wf(),
            g.in_order(),
            g@.nodes == Seq::<NodeModel>::empty(),
            g@.metas == Seq::<MetaModel>::empty(),
            g@.edges == Seq::<Edge>::empty(),
    {
        let g = ImpactGraph {
            graph: crate::digraph::new_graph(),
            address_to_index: StringHashMap::new(),
            metadata: Vec::new(),
        };
        assert(g@.nodes =~= Seq::empty());
        assert(g@.metas =~= Seq::empty());
        g
    }

    // ── Construction ─────────────────────────────────────────────────────────

    /// The node with the address, which is added if there is none. Nothing comes back, and the
    /// graph stays as it is, where the node would have to be added and the numbers have run out.
    fn get_or_insert_node(&mut self, address: &str, kind: NodeKind) -> (index: Option<NodeIndex>)
        requires
            old(self).wf(),
        ensures
            final(self).wf(),
            old(self).in_order() ==> final(self).in_order(),
            match index {
                Some(i) => {
                    &&& final(self)@ == with_node(
                        old(self)@,
                        NodeModel { address: address@, kind },
                    )
                    &&& i < final(self)@.nodes.len()
                    &&& final(self)@.nodes[i as int].address == address@
                    &&& i == node_place(final(self)@.nodes, address@)
                },
                None => *final(self) == *old(self) && !names(old(self)@.nodes, address@)
                    && old(self)@.nodes.len() == u32::MAX,
            },
    {
        let known = match self.address_to_index.get(address) {
            Some(index) => Some(*index),
            None => None,
        };
        if let Some(index) = known {
            assert(self@.nodes[index as int].address == address@);
            return Some(index);
        }
        assert(!names(self@.nodes, address@));
        if crate::digraph::node_count(&self.graph) == u32::MAX as usize {
            return None;
        }
        let ghost before = self@;
        let ghost directory = self.address_to_index@;
        let data = NodeData { address: owned(address), kind };
        let ghost model = data@;
        let index = crate::digraph::add_node(&mut self.graph, data);
        self.metadata.push(NodeMeta::default());
        self.address_to_index.insert(owned(address), index);
        proof {
            assert(self@.nodes =~= before.nodes.push(model));
            assert(self@.metas =~= before.metas.push(blank_meta()));
            assert(self@.nodes[index as int].address == address@);
            assert forall|a: Seq<char>| #[trigger]
                self.address_to_index@.contains_key(a) implies self.address_to_index@[a]
                < self@.nodes.len() && self@.nodes[self.address_to_index@[a] as int].address == a by {
                if a != address@ {
                    assert(directory.contains_key(a));
                }
            }
            assert forall|i: int| 0 <= i < self@.nodes.len() implies
                self.address_to_index@.contains_key((#[trigger] self@.nodes[i]).address) by {
                if i < before.nodes.len() {
                    assert(directory.contains_key(before.nodes[i].address));
                }
            }
        }
        Some(index)
    }

    /// Adds a resource, or describes its node anew.
    fn add_resource(&mut self, resource: &PlannedResource) -> (fits: bool)
        requires
            old(self).wf(),
        ensures
            final(self).wf(),
            old(self).in_order() ==> final(self).in_order(),
            final(self)@.edges == old(self)@.edges,
            fits ==> {
                &&& final(self)@.nodes == with_mentions(
                    old(self)@.nodes,
                    resource_mentions(seq![*resource]),
                )
                &&& described_by(old(self)@, final(self)@, seq![*resource])
            },
            !fits ==> with_mentions(old(self)@.nodes, resource_mentions(seq![*resource])).len()
                > u32::MAX,
    {
        let ghost before = self@;
        proof {
            let mention = NodeModel { address: resource.address@, kind: NodeKind::Resource };
            assert(resource_mentions(seq![*resource]) =~= seq![mention]);
            reveal_with_fuel(with_mentions, 2);
            assert(seq![mention].drop_last() =~= Seq::empty());
        }
        match self.get_or_insert_node(resource.address.as_str(), NodeKind::Resource) {
            None => false,
            Some(index) => {
                let ghost between = self@;
                let meta = NodeMeta {
                    resource_type: copied(&resource.resource_type),
                    actions: Vec::new(),
                    provider: copied(&resource.provider_name),
                    module_address: copied(&resource.module_address),
                };
                assert(meta.actions@ =~= Seq::empty());
                let ghost model = meta@;
                self.metadata[index as usize] = meta;
                proof {
                    assert(self@.nodes == between.nodes);
                    assert(self@.metas =~= between.metas.update(index as int, model));
                    reveal_with_fuel(described, 2);
                    assert(seq![*resource].drop_last() =~= Seq::empty());
                    assert forall|i: int| 0 <= i < self@.nodes.len() implies
                        #[trigger] self@.metas[i] == described(
                        meta_or_blank(before, i),
                        seq![*resource],
                        self@.nodes[i].address,
                    ) by {
                        if i != index {
                            assert(self@.nodes[i].address != self@.nodes[index as int].address);
                        }
                    }
                }
                true
            },
        }
    }

    /// Adds the module, its resources and its child modules.
    #[verifier::spinoff_prover]
    fn add_nodes_recursive(&mut self, module: &PlannedModule) -> (fits: bool)
        requires
            old(self).wf(),
        ensures
            final(self).wf(),
            old(self).in_order() ==> final(self).in_order(),
            final(self)@.edges == old(self)@.edges,
            fits ==> {
                &&& final(self)@.nodes == with_mentions(old(self)@.nodes, module_mentions(*module))
                &&& described_by(old(self)@, final(self)@, module_resources(*module))
            },
            !fits ==> with_mentions(old(self)@.nodes, module_mentions(*module)).len() > u32::MAX,
        decreases module,
    {
        let ghost start = self@;
        let ghost head = module_mention(module.address);
        let ghost own = module.resources@;
        let ghost all = module_mentions(*module);
        if let Some(address) = &module.address {
            proof {
                reveal_with_fuel(with_mentions, 2);
                assert(head.drop_last() =~= Seq::empty());
            }
            if self.get_or_insert_node(address.as_str(), NodeKind::Module).is_none() {
                proof {
                    overflow_stays(start.nodes, head, all);
                }
                return false;
            }
        }
        proof {
            assert(resource_mentions(own.take(0)) =~= Seq::empty());
            assert(head + resource_mentions(own.take(0)) =~= head);
            assert(own.take(0) =~= Seq::empty());
            with_mentions_grows(start.nodes, head);
        }
        assert(self@.nodes == with_mentions(start.nodes, head));
        let mut k: usize = 0;
        while k < module.resources.len()
            invariant
                k <= own.len(),
                own == module.resources@,
                head == module_mention(module.address),
                all == module_mentions(*module),
                start == old(self)@,
                self.wf(),
                old(self).in_order() ==> self.in_order(),
                self@.edges == start.edges,
                self@.nodes == with_mentions(start.nodes, head + resource_mentions(own.take(k as int))),
                described_by(start, self@, own.take(k as int)),
            decreases own.len() - k,
        {
            let ghost between = self@;
            let ghost done = head + resource_mentions(own.take(k as int));
            let ghost next = resource_mentions(seq![own[k as int]]);
            proof {
                assert(own.take(k + 1) =~= own.take(k as int) + seq![own[k as int]]);
                assert(head + resource_mentions(own.take(k + 1)) =~= done + next);
                with_mentions_join(start.nodes, done, next);
                with_mentions_grows(start.nodes, done);
                with_mentions_grows(between.nodes, next);
                assert(all =~= (done + next) + (all.skip((done + next).len() as int))) by {
                    assert(own =~= own.take(k + 1) + own.skip(k + 1));
                }
            }
            if !self.add_resource(&module.resources[k]) {
                proof {
                    overflow_stays(start.nodes, done + next, all);
                }
                return false;
            }
            proof {
                assert forall|j: int| 0 <= j < k implies names(
                    between.nodes,
                    (#[trigger] own.take(k as int)[j]).address@,
                ) by {
                    assert(done[head.len() + j].address == own[j].address@);
                }
                described_by_join(
                    start,
                    between,
                    self@,
                    own.take(k as int),
                    seq![own[k as int]],
                );
            }
            k += 1;
        }
        let ghost sub = module.child_modules@;
        proof {
            assert(own.take(k as int) =~= own);
            assert(mentions_up_to(*module, 0) =~= head + resource_mentions(own));
            assert(resources_up_to(*module, 0) =~= own);
        }
        let mut c: usize = 0;
        while c < module.child_modules.len()
            invariant
                c <= sub.len(),
                sub == module.child_modules@,
                start == old(self)@,
                self.wf(),
                old(self).in_order() ==> self.in_order(),
                self@.edges == start.edges,
                self@.nodes == with_mentions(start.nodes, mentions_up_to(*module, c as int)),
                described_by(start, self@, resources_up_to(*module, c as int)),
            decreases sub.len() - c,
        {
            let ghost between = self@;
            if !self.add_nodes_recursive(&module.child_modules[c]) {
                proof {
                    child_overflows(start.nodes, *module, c as int);
                }
                return false;
            }
            proof {
                child_joins(start, between, self@, *module, c as int);
            }
            c += 1;
        }
        proof {
            assert(sub.take(c as int) =~= sub);
        }
        true
    }

    /// Adds the dependency of a node on an address, unless it is there.
    #[verifier::spinoff_prover]
    fn add_dependency(&mut self, from: NodeIndex, target: &str, kind: EdgeKind) -> (fits: bool)
        requires
            old(self).wf(),
            from < old(self)@.nodes.len(),
        ensures
            final(self).wf(),
            old(self).in_order() ==> final(self).in_order(),
            fits ==> grown(
                old(self)@,
                final(self)@,
                seq![(old(self)@.nodes[from as int].address, target@)],
                kind,
            ),
            !fits ==> outgrown(
                old(self)@,
                seq![(old(self)@.nodes[from as int].address, target@)],
            ),
    {
        let ghost start = self@;
        let ghost pair = (start.nodes[from as int].address, target@);
        let ghost mention = NodeModel { address: target@, kind: NodeKind::Resource };
        proof {
            assert(target_mentions(seq![pair]) =~= seq![mention]);
            reveal_with_fuel(with_mentions, 2);
            reveal_with_fuel(with_distinct, 2);
            assert(seq![mention].drop_last() =~= Seq::empty());
            assert(seq![pair].drop_last() =~= Seq::empty());
        }
        let to = match self.get_or_insert_node(target, NodeKind::Resource) {
            None => {
                return false;
            },
            Some(to) => to,
        };
        let ghost between = self@;
        assert(between.dependencies() =~= start.dependencies());
        proof {
            if links_of(between.edges).contains((from as int, to as int)) {
                let i = choose|i: int|
                    0 <= i < between.edges.len() && (#[trigger] between.edges[i]).from == from
                        && between.edges[i].to == to;
                assert(between.dependencies()[i] == pair);
            }
            if between.dependencies().contains(pair) {
                let i = between.dependencies().index_of(pair);
                let e = between.edges[i];
                assert(between.nodes[e.from as int].address == between.nodes[from as int].address);
                assert(between.nodes[e.to as int].address == between.nodes[to as int].address);
                assert(links_of(between.edges).contains((from as int, to as int)));
            }
        }
        if !crate::digraph::contains_edge(&self.graph, from, to) {
            if crate::digraph::edge_count(&self.graph) == u32::MAX as usize {
                return false;
            }
            crate::digraph::add_edge(&mut self.graph, from, to, kind);
            proof {
                let e = Edge { from, to, kind };
                assert(self@.edges == between.edges.push(e));
                assert(self@.nodes == between.nodes);
                assert(self@.metas == between.metas);
                assert(self@.dependencies() =~= between.dependencies().push(pair));
                assert(edges_distinct(self@.edges)) by {
                    assert forall|i: int| 0 <= i < between.edges.len() implies !((
                    #[trigger] between.edges[i]).from == from && between.edges[i].to == to) by {
                        if between.edges[i].from == from && between.edges[i].to == to {
                            assert(links_of(between.edges).contains((from as int, to as int)));
                        }
                    }
                }
            }
        }
        true
    }

    /// Adds the dependencies of a resource that is a node.
    #[verifier::spinoff_prover]
    fn add_resource_edges(&mut self, resource: &PlannedResource) -> (fits: bool)
        requires
            old(self).wf(),
            names(old(self)@.nodes, resource.address@),
        ensures
            final(self).wf(),
            old(self).in_order() ==> final(self).in_order(),
            fits ==> grown(
                old(self)@,
                final(self)@,
                resource_dependencies(*resource),
                EdgeKind::Explicit,
            ),
            !fits ==> outgrown(old(self)@, resource_dependencies(*resource)),
    {
        let ghost start = self@;
        let ghost all = resource_dependencies(*resource);
        let from = match self.index_of(resource.address.as_str()) {
            Some(from) => from,
            None => {
                return true;
            },
        };
        proof {
            grown_by_nothing(start, EdgeKind::Explicit);
            assert(all.take(0) =~= Seq::empty());
        }
        let mut k: usize = 0;
        while k < resource.depends_on.len()
            invariant
                k <= resource.depends_on@.len(),
                start == old(self)@,
                all == resource_dependencies(*resource),
                self.wf(),
                old(self).in_order() ==> self.in_order(),
                grown(start, self@, all.take(k as int), EdgeKind::Explicit),
                from < self@.nodes.len(),
                self@.nodes[from as int].address == resource.address@,
            decreases resource.depends_on@.len() - k,
        {
            let ghost between = self@;
            let ghost next = seq![(resource.address@, resource.depends_on@[k as int]@)];
            proof {
                assert(all.take(k + 1) =~= all.take(k as int) + next);
            }
            if !self.add_dependency(from, resource.depends_on[k].as_str(), EdgeKind::Explicit) {
                proof {
                    outgrown_stays(
                        start,
                        between,
                        all.take(k as int),
                        next,
                        all,
                        EdgeKind::Explicit,
                    );
                }
                return false;
            }
            proof {
                grown_join(
                    start,
                    between,
                    self@,
                    all.take(k as int),
                    next,
                    EdgeKind::Explicit,
                );
                assert(self@.nodes[from as int] == between.nodes[from as int]);
            }
            k += 1;
        }
        assert(all.take(k as int) =~= all);
        true
    }

    /// Adds the dependencies of the module's resources and of its child modules'. The addresses in
    /// `depends_on` are absolute: no module prefix is put before them.
    #[verifier::spinoff_prover]
    fn add_edges_recursive(&mut self, module: &PlannedModule) -> (fits: bool)
        requires
            old(self).wf(),
            all_named(old(self)@.nodes, module_resources(*module)),
        ensures
            final(self).wf(),
            old(self).in_order() ==> final(self).in_order(),
            fits ==> grown(
                old(self)@,
                final(self)@,
                module_dependencies(*module),
                EdgeKind::Explicit,
            ),
            !fits ==> outgrown(old(self)@, module_dependencies(*module)),
        decreases module,
    {
        let ghost start = self@;
        let ghost own = module.resources@;
        let ghost sub = module.child_modules@;
        let ghost all = module_dependencies(*module);
        proof {
            grown_by_nothing(start, EdgeKind::Explicit);
            assert(resources_dependencies(own.take(0)) =~= Seq::empty());
        }
        let mut k: usize = 0;
        while k < module.resources.len()
            invariant
                k <= own.len(),
                start == old(self)@,
                own == module.resources@,
                all == module_dependencies(*module),
                self.wf(),
                old(self).in_order() ==> self.in_order(),
                all_named(start.nodes, module_resources(*module)),
                grown(
                    start,
                    self@,
                    resources_dependencies(own.take(k as int)),
                    EdgeKind::Explicit,
                ),
            decreases own.len() - k,
        {
            let ghost between = self@;
            let ghost done = resources_dependencies(own.take(k as int));
            let ghost next = resource_dependencies(own[k as int]);
            proof {
                assert(own.take(k + 1).drop_last() =~= own.take(k as int));
                grown_names(
                    start,
                    between,
                    done,
                    module_resources(*module),
                    EdgeKind::Explicit,
                );
                assert(module_resources(*module)[k as int] == own[k as int]);
                resources_dependencies_prefix(own, k + 1);
            }
            if !self.add_resource_edges(&module.resources[k]) {
                proof {
                    assert((done + next).is_prefix_of(all));
                    outgrown_stays(start, between, done, next, all, EdgeKind::Explicit);
                }
                return false;
            }
            proof {
                grown_join(start, between, self@, done, next, EdgeKind::Explicit);
            }
            k += 1;
        }
        proof {
            assert(own.take(k as int) =~= own);
            assert(dependencies_up_to(*module, 0) =~= resources_dependencies(own));
        }
        let mut c: usize = 0;
        while c < module.child_modules.len()
            invariant
                c <= sub.len(),
                start == old(self)@,
                sub == module.child_modules@,
                all == module_dependencies(*module),
                self.wf(),
                old(self).in_order() ==> self.in_order(),
                all_named(start.nodes, module_resources(*module)),
                grown(
                    start,
                    self@,
                    dependencies_up_to(*module, c as int),
                    EdgeKind::Explicit,
                ),
            decreases sub.len() - c,
        {
            let ghost between = self@;
            let ghost done = dependencies_up_to(*module, c as int);
            let ghost next = module_dependencies(sub[c as int]);
            proof {
                next_dependencies(*module, c as int);
                grown_names(
                    start,
                    between,
                    done,
                    module_resources(*module),
                    EdgeKind::Explicit,
                );
                child_named(between.nodes, *module, c as int);
            }
            if !self.add_edges_recursive(&module.child_modules[c]) {
                proof {
                    outgrown_stays(start, between, done, next, all, EdgeKind::Explicit);
                }
                return false;
            }
            proof {
                grown_join(start, between, self@, done, next, EdgeKind::Explicit);
            }
            c += 1;
        }
        assert(sub.take(c as int) =~= sub);
        assert(dependencies_up_to(*module, c as int) == all);
        true
    }

    /// Adds the dependencies of a child module's own resources on the module.
    #[verifier::spinoff_prover]
    fn add_member_edges(&mut self, child: &PlannedModule) -> (fits: bool)
        requires
            old(self).wf(),
            all_named(old(self)@.nodes, child.resources@),
        ensures
            final(self).wf(),
            old(self).in_order() ==> final(self).in_order(),
            fits ==> grown(
                old(self)@,
                final(self)@,
                member_pairs(child.address, child.resources@),
                EdgeKind::Implicit,
            ),
            !fits ==> outgrown(old(self)@, member_pairs(child.address, child.resources@)),
    {
        let ghost start = self@;
        let ghost own = child.resources@;
        let ghost all = member_pairs(child.address, own);
        proof {
            grown_by_nothing(start, EdgeKind::Implicit);
        }
        let owner = match &child.address {
            None => {
                return true;
            },
            Some(owner) => owner,
        };
        let mut k: usize = 0;
        assert(member_pairs(child.address, own.take(0)) =~= Seq::empty());
        while k < child.resources.len()
            invariant
                k <= own.len(),
                start == old(self)@,
                own == child.resources@,
                child.address == Some(*owner),
                all == member_pairs(child.address, own),
                self.wf(),
                old(self).in_order() ==> self.in_order(),
                all_named(start.nodes, own),
                grown(
                    start,
                    self@,
                    member_pairs(child.address, own.take(k as int)),
                    EdgeKind::Implicit,
                ),
            decreases own.len() - k,
        {
            let ghost between = self@;
            let ghost done = member_pairs(child.address, own.take(k as int));
            let resource = &child.resources[k];
            proof {
                assert(own.take(k + 1).drop_last() =~= own.take(k as int));
                grown_names(start, between, done, own, EdgeKind::Implicit);
                assert(names(between.nodes, own[k as int].address@));
                member_pairs_prefix(child.address, own, k + 1);
            }
            if resource.address != *owner {
                let ghost next = seq![(resource.address@, owner@)];
                assert(member_pairs(child.address, own.take(k + 1)) =~= done + next);
                if let Some(from) = self.index_of(resource.address.as_str()) {
                    if !self.add_dependency(from, owner.as_str(), EdgeKind::Implicit) {
                        proof {
                            outgrown_stays(start, between, done, next, all, EdgeKind::Implicit);
                        }
                        return false;
                    }
                    proof {
                        grown_join(start, between, self@, done, next, EdgeKind::Implicit);
                    }
                }
            }
            k += 1;
        }
        assert(own.take(k as int) =~= own);
        true
    }

    /// Adds the dependencies of resources on the child modules that they belong to, at every
    /// depth.
    #[verifier::spinoff_prover]
    fn add_memberships_recursive(&mut self, module: &PlannedModule) -> (fits: bool)
        requires
            old(self).wf(),
            all_named(old(self)@.nodes, module_resources(*module)),
        ensures
            final(self).wf(),
            old(self).in_order() ==> final(self).in_order(),
            fits ==> grown(
                old(self)@,
                final(self)@,
                memberships(*module),
                EdgeKind::Implicit,
            ),
            !fits ==> outgrown(old(self)@, memberships(*module)),
        decreases module,
    {
        let ghost start = self@;
        let ghost sub = module.child_modules@;
        let ghost all = memberships(*module);
        proof {
            grown_by_nothing(start, EdgeKind::Implicit);
            assert(children_memberships(sub.take(0)) =~= Seq::empty());
        }
        let mut c: usize = 0;
        while c < module.child_modules.len()
            invariant
                c <= sub.len(),
                start == old(self)@,
                sub == module.child_modules@,
                all == memberships(*module),
                self.wf(),
                old(self).in_order() ==> self.in_order(),
                all_named(start.nodes, module_resources(*module)),
                grown(
                    start,
                    self@,
                    children_memberships(sub.take(c as int)),
                    EdgeKind::Implicit,
                ),
            decreases sub.len() - c,
        {
            let child = &module.child_modules[c];
            let ghost first = self@;
            let ghost done = children_memberships(sub.take(c as int));
            let ghost own = member_pairs(child.address, child.resources@);
            let ghost below = memberships(*child);
            proof {
                next_memberships(*module, c as int);
                grown_names(start, first, done, module_resources(*module), EdgeKind::Implicit);
                child_named(first.nodes, *module, c as int);
                assert forall|j: int| 0 <= j < child.resources@.len() implies names(
                    first.nodes,
                    (#[trigger] child.resources@[j]).address@,
                ) by {
                    assert(module_resources(*child)[j] == child.resources@[j]);
                }
            }
            if !self.add_member_edges(child) {
                proof {
                    outgrown_stays(start, first, done, own, all, EdgeKind::Implicit);
                }
                return false;
            }
            let ghost second = self@;
            proof {
                grown_join(start, first, second, done, own, EdgeKind::Implicit);
                grown_names(first, second, own, module_resources(*child), EdgeKind::Implicit);
            }
            if !self.add_memberships_recursive(child) {
                proof {
                    outgrown_stays(start, second, done + own, below, all, EdgeKind::Implicit);
                }
                return false;
            }
            proof {
                grown_join(start, second, self@, done + own, below, EdgeKind::Implicit);
            }
            c += 1;
        }
        assert(sub.take(c as int) =~= sub);
        true
    }

    /// Writes the actions of the changes onto their nodes; the last change of an address counts.
    fn annotate(&mut self, changes: &Vec<ResourceChange>)
        requires
            old(self).wf(),
        ensures
            final(self).wf(),
            old(self).in_order() ==> final(self).in_order(),
            final(self)@.nodes == old(self)@.nodes,
            final(self)@.edges == old(self)@.edges,
            forall|i: int|
                0 <= i < old(self)@.nodes.len() ==> #[trigger] final(self)@.metas[i] == (
                MetaModel {
                    actions: changed(
                        old(self)@.metas[i].actions,
                        changes@,
                        old(self)@.nodes[i].address,
                    ),
                    ..old(self)@.metas[i]
                }),
    {
        let ghost start = self@;
        assert(changes@.take(0) =~= Seq::empty());
        let mut k: usize = 0;
        while k < changes.len()
            invariant
                k <= changes@.len(),
                start == old(self)@,
                self.wf(),
                old(self).in_order() ==> self.in_order(),
                self@.nodes == start.nodes,
                self@.edges == start.edges,
                forall|i: int|
                    0 <= i < start.nodes.len() ==> #[trigger] self@.metas[i] == (MetaModel {
                        actions: changed(
                            start.metas[i].actions,
                            changes@.take(k as int),
                            start.nodes[i].address,
                        ),
                        ..start.metas[i]
                    }),
            decreases changes@.len() - k,
        {
            let rc = &changes[k];
            assert(changes@.take(k + 1).drop_last() =~= changes@.take(k as int));
            assert(changes@.take(k + 1).last() == changes@[k as int]);
            if let Some(index) = self.index_of(rc.address.as_str()) {
                let ghost between = self@;
                let at: usize = index as usize;
                let old_meta = &self.metadata[at];
                let actions = rc.change.actions.clone();
                assert(actions@ =~= rc.change.actions@);
                let meta = NodeMeta {
                    resource_type: copied(&old_meta.resource_type),
                    actions,
                    provider: copied(&old_meta.provider),
                    module_address: copied(&old_meta.module_address),
                };
                let ghost model = meta@;
                assert(between.metas[index as int] == self.metadata@[index as int]@);
                self.metadata[at] = meta;
                proof {
                    assert(self@.metas =~= between.metas.update(index as int, model));
                    assert(self@.nodes == between.nodes);
                }
            }
            k += 1;
        }
        assert(changes@.take(k as int) =~= changes@);
    }

    /// Build the impact graph from a parsed plan, unless it would take more nodes or edges than
    /// 32-bit numbers count.
    #[verifier::spinoff_prover]
    pub fn try_build(plan: &Plan) -> (g: Option<ImpactGraph>)
        ensures
            g is Some <==> graph_fits(*plan),
            g matches Some(built) ==> built.wf() && built.in_order() && is_graph_of(built@, *plan)
                && built@ == plan_graph(*plan),
    {
        let mut ig = ImpactGraph::new();
        let ghost empty = ig@;
        assert(empty.dependencies() =~= Seq::empty());
        if let Some(pv) = &plan.planned_values {
            let ghost root = module_mentions(pv.root_module);
            let ghost outs = output_mentions(pv.outputs@);
            let ghost deps = module_dependencies(pv.root_module);
            let ghost all = plan_mentions(*plan);
            if !ig.add_nodes_recursive(&pv.root_module) {
                proof {
                    overflow_stays(empty.nodes, root, all);
                }
                return None;
            }
            let ghost placed = ig@;
            proof {
                resources_are_mentioned(pv.root_module);
                with_mentions_grows(empty.nodes, root);
                assert forall|j: int| 0 <= j < module_resources(pv.root_module).len() implies names(
                    placed.nodes,
                    (#[trigger] module_resources(pv.root_module)[j]).address@,
                ) by {
                    let a = module_resources(pv.root_module)[j].address@;
                    assert(names(root, a));
                    let m = choose|m: int| 0 <= m < root.len() && (#[trigger] root[m]).address == a;
                    assert(names(placed.nodes, root[m].address));
                }
                assert(output_mentions(pv.outputs@.take(0)) =~= Seq::empty());
            }
            let mut k: usize = 0;
            while k < pv.outputs.len()
                invariant
                    k <= pv.outputs@.len(),
                    plan.planned_values == Some(*pv),
                    root == module_mentions(pv.root_module),
                    outs == output_mentions(pv.outputs@),
                    all == plan_mentions(*plan),
                    empty.nodes == Seq::<NodeModel>::empty(),
                    placed.nodes == with_mentions(empty.nodes, root),
                    ig.wf(),
                    ig.in_order(),
                    ig@.edges == placed.edges,
                    ig@.nodes == with_mentions(
                        placed.nodes,
                        output_mentions(pv.outputs@.take(k as int)),
                    ),
                    described_by(placed, ig@, Seq::empty()),
                decreases pv.outputs@.len() - k,
            {
                let ghost between = ig@;
                let ghost done = output_mentions(pv.outputs@.take(k as int));
                let mut address = owned("output.");
                address.append(pv.outputs[k].0.as_str());
                let ghost mention = NodeModel { address: address@, kind: NodeKind::Output };
                proof {
                    assert(output_mentions(pv.outputs@.take(k + 1)) =~= done.push(mention));
                    assert(done.push(mention).drop_last() =~= done);
                }
                if ig.get_or_insert_node(address.as_str(), NodeKind::Output).is_none() {
                    proof {
                        with_mentions_join(empty.nodes, root, done.push(mention));
                        assert((root + done.push(mention)).is_prefix_of(all)) by {
                            assert(output_mentions(pv.outputs@.take(k + 1)).is_prefix_of(outs));
                        }
                        overflow_stays(empty.nodes, root + done.push(mention), all);
                    }
                    return None;
                }
                assert forall|i: int| 0 <= i < ig@.nodes.len() implies #[trigger] ig@.metas[i]
                    == described(meta_or_blank(placed, i), Seq::empty(), ig@.nodes[i].address) by {
                    if i < between.nodes.len() {
                        assert(between.metas[i] == described(
                            meta_or_blank(placed, i),
                            Seq::empty(),
                            between.nodes[i].address,
                        ));
                    } else {
                        with_mentions_grows(placed.nodes, done);
                    }
                }
                k += 1;
            }
            let ghost listed = ig@;
            proof {
                assert(pv.outputs@.take(k as int) =~= pv.outputs@);
                with_mentions_join(empty.nodes, root, outs);
                with_mentions_grows(placed.nodes, outs);
                described_by_join(
                    empty,
                    placed,
                    listed,
                    module_resources(pv.root_module),
                    Seq::empty(),
                );
                assert(module_resources(pv.root_module) + Seq::<PlannedResource>::empty()
                    =~= module_resources(pv.root_module));
                assert(all_named(listed.nodes, module_resources(pv.root_module)));
                assert(listed.dependencies() =~= Seq::empty());
                with_mentions_join(empty.nodes, root + outs, target_mentions(deps));
            }
            let ghost belongs = memberships(pv.root_module);
            let ghost declared = declared_dependencies(*plan);
            if !ig.add_edges_recursive(&pv.root_module) {
                proof {
                    with_distinct_grows(declared, belongs);
                }
                return None;
            }
            let ghost linked = ig@;
            proof {
                with_mentions_grows(listed.nodes, target_mentions(deps));
                described_by_join(
                    empty,
                    listed,
                    linked,
                    module_resources(pv.root_module),
                    Seq::empty(),
                );
                grown_names(
                    listed,
                    linked,
                    deps,
                    module_resources(pv.root_module),
                    EdgeKind::Explicit,
                );
                owners_are_mentioned(pv.root_module);
                assert forall|j: int| 0 <= j < belongs.len() implies names(
                    linked.nodes,
                    (#[trigger] belongs[j]).1,
                ) by {
                    assert(names(root, belongs[j].1));
                    let m = choose|m: int|
                        0 <= m < root.len() && (#[trigger] root[m]).address == belongs[j].1;
                    assert(names(placed.nodes, root[m].address));
                    assert(names(listed.nodes, root[m].address));
                }
                known_targets_add_nothing(linked.nodes, belongs);
                assert(linked.dependencies() == declared);
                assert(linked.edges.len() == declared.len());
            }
            if !ig.add_memberships_recursive(&pv.root_module) {
                return None;
            }
            proof {
                described_by_join(
                    empty,
                    linked,
                    ig@,
                    module_resources(pv.root_module),
                    Seq::empty(),
                );
                assert forall|i: int| 0 <= i < ig@.edges.len() implies (
                #[trigger] ig@.edges[i]).kind == plan_edge_kind(*plan, i) by {
                    if i < linked.edges.len() {
                        assert(ig@.edges[i] == linked.edges[i]);
                    }
                }
            }
        }
        let ghost built = ig@;
        assert(described_by(empty, built, plan_resources(*plan)));
        ig.annotate(&plan.resource_changes);
        proof {
            assert(ig@.dependencies() == built.dependencies());
            assert forall|i: int| 0 <= i < ig@.nodes.len() implies #[trigger] ig@.metas[i]
                == plan_meta(*plan, ig@.nodes[i].address) by {
                let address = ig@.nodes[i].address;
                assert(built.metas[i] == described(
                    blank_meta(),
                    plan_resources(*plan),
                    address,
                ));
                described_has_no_actions(plan_resources(*plan), address);
            }
            graph_is_plan_graph(ig@, *plan);
        }
        Some(ig)
    }

    /// Build the impact graph from a parsed plan: nodes for resources, modules and outputs,
    /// explicit edges from `depends_on`, implicit edges from the resources of a child module to the
    /// module, and the change actions on the nodes. `petgraph` counts nodes and edges in 32 bits.
    pub fn build(plan: &Plan) -> (g: ImpactGraph)
        requires
            graph_fits(*plan),
        ensures
            g.wf(),
            g.in_order(),
            is_graph_of(g@, *plan),
            g@ == plan_graph(*plan),
    {
        ImpactGraph::try_build(plan).unwrap()
    }

    // ── Queries ──────────────────────────────────────────────────────────────

    /// The number of nodes.
    pub fn node_count(&self) -> (n: usize)
        requires
            self.wf(),
        ensures
            n == self@.nodes.len(),
    {
        crate::digraph::node_count(&self.graph)
    }

    /// The number of edges.
    pub fn edge_count(&self) -> (n: usize)
        requires
            self.wf(),
        ensures
            n == self@.edges.len(),
    {
        crate::digraph::edge_count(&self.graph)
    }

    /// The node with the address, if there is one.
    pub fn index_of(&self, address: &str) -> (index: Option<NodeIndex>)
        requires
            self.wf(),
        ensures
            match index {
                Some(i) => i < self@.nodes.len() && self@.nodes[i as int].address == address@,
                None => !names(self@.nodes, address@),
            },
    {
        match self.address_to_index.get(address) {
            Some(index) => Some(*index),
            None => None,
        }
    }

    /// What is known of a node.
    pub fn meta(&self, index: NodeIndex) -> (meta: &NodeMeta)
        requires
            self.wf(),
            index < self@.nodes.len(),
        ensures
            meta@ == self@.metas[index as int],
    {
        &self.metadata[index as usize]
    }

    /// A node's address and kind, if there is such a node.
    pub fn node_data(&self, index: NodeIndex) -> (data: Option<&NodeData>)
        requires
            self.wf(),
        ensures
            match data {
                Some(d) => index < self@.nodes.len() && d@ == self@.nodes[index as int],
                None => index >= self@.nodes.len(),
            },
    {
        crate::digraph::node_weight(&self.graph, index)
    }

    // ── Order ────────────────────────────────────────────────────────────────

    /// Whether the graph has no dependency cycle.
    pub fn is_dag(&self) -> (dag: bool)
        requires
            self.wf(),
        ensures
            dag == acyclic(self@.links()),
    {
        match crate::digraph::sorted_nodes(&self.graph) {
            Ok(order) => {
                proof {
                    links_are_within(self@);
                    topological_is_acyclic(
                        self@.links(),
                        self@.nodes.len() as int,
                        as_ints(order@),
                    );
                }
                true
            },
            Err(_) => false,
        }
    }

    /// The addresses in apply order, dependencies before what needs them, or a node on a cycle.
    /// Of a graph as it was built, the same order or node is told each time.
    #[verifier::spinoff_prover]
    pub fn topological_order(&self) -> (r: Result<Vec<String>, CycleError>)
        requires
            self.wf(),
        ensures
            r is Ok <==> acyclic(self@.links()),
            match r {
                Ok(order) => is_apply_order(self@, texts(order@)),
                Err(e) => exists|x: int|
                    0 <= x < self@.nodes.len() && #[trigger] on_cycle(self@.links(), x)
                        && self@.nodes[x].address == e.node_address@,
            },
            self.in_order() ==> order_told(self@) == (match r {
                Ok(order) => Ok(texts(order@)),
                Err(e) => Err(e.node_address@),
            }),
    {
        match crate::digraph::sorted_nodes(&self.graph) {
            Ok(order) => {
                let ghost ints = as_ints(order@);
                proof {
                    links_are_within(self@);
                    topological_is_acyclic(self@.links(), self@.nodes.len() as int, ints);
                    assert forall|i: int| 0 <= i < order@.len() implies #[trigger] order@[i]
                        < self@.nodes.len() by {
                        assert(ints.contains(ints[i]));
                    }
                }
                let out = self.addresses_backwards(&order);
                proof {
                    reversed_is_apply_order(self@, ints, texts(out@));
                }
                Ok(out)
            },
            Err(node) => {
                let node_address = match crate::digraph::node_weight(&self.graph, node) {
                    Some(data) => {
                        assert(data@ == self@.nodes[node as int]);
                        data.address.clone()
                    },
                    None => String::new(),
                };
                Err(CycleError { node_address })
            },
        }
    }

    /// The addresses of the nodes, from the last to the first.
    fn addresses_backwards(&self, nodes: &Vec<NodeIndex>) -> (addresses: Vec<String>)
        requires
            self.wf(),
            forall|i: int| 0 <= i < nodes@.len() ==> #[trigger] nodes@[i] < self@.nodes.len(),
        ensures
            texts(addresses@) == backwards(self@, as_ints(nodes@)),
    {
        let ghost all = backwards(self@, as_ints(nodes@));
        let mut out: Vec<String> = Vec::new();
        let mut k: usize = nodes.len();
        while k > 0
            invariant
                self.wf(),
                forall|i: int| 0 <= i < nodes@.len() ==> #[trigger] nodes@[i] < self@.nodes.len(),
                all == backwards(self@, as_ints(nodes@)),
                k <= nodes@.len(),
                out@.len() == nodes@.len() - k,
                forall|i: int| 0 <= i < out@.len() ==> (#[trigger] out@[i])@ == all[i],
            decreases k,
        {
            k -= 1;
            assert(nodes@[k as int] < self@.nodes.len());
            match crate::digraph::node_weight(&self.graph, nodes[k]) {
                Some(data) => {
                    assert(data@ == self@.nodes[nodes@[k as int] as int]);
                    assert(all[nodes@.len() - 1 - k] == data.address@);
                    out.push(data.address.clone());
                },
                None => {},
            }
        }
        assert(out@.len() == nodes@.len());
        assert(texts(out@) =~= all);
        out
    }

    // ── Blast radius ─────────────────────────────────────────────────────────

    /// The addresses of all that would be hit if `address` changes: every other node that depends
    /// on it, directly or through others. In no particular order.
    #[verifier::spinoff_prover]
    pub fn blast_radius(&self, address: &str) -> (hit: Vec<String>)
        requires
            self.wf(),
        ensures
            texts(hit@).no_duplicates(),
            forall|a: Seq<char>| #[trigger]
                texts(hit@).contains(a) <==> is_hit(self@, address@, a),
    {
        broadcast use vstd::std_specs::hash::group_hash_axioms;

        let start = match self.index_of(address) {
            Some(start) => start,
            None => {
                let none: Vec<String> = Vec::new();
                assert forall|a: Seq<char>| !is_hit(self@, address@, a) by {}
                return none;
            },
        };
        let ghost n = self@.nodes.len();
        let ghost links = self@.links();
        let mut visited: HashSet<NodeIndex> = HashSet::new();
        let mut found: Vec<NodeIndex> = Vec::new();
        let mut stack: Vec<NodeIndex> = Vec::new();
        stack.push(start);
        visited.insert(start);
        proof {
            links_are_within(self@);
            reaches_self(links, start as int);
            assert(stack@[0] == start);
            assert(forall|v: u32| visited@.contains(v) ==> v == start);
        }
        while stack.len() > 0
            invariant
                self.wf(),
                n == self@.nodes.len(),
                links == self@.links(),
                links_within(links, n as int),
                start < n,
                dfs_state(links, n, start, visited@, found@, stack@),
            decreases n - found@.len(), stack@.len(),
        {
            broadcast use vstd::std_specs::hash::group_hash_axioms;

            let ghost before = stack@;
            let ghost found_before = found@;
            proof {
                distinct_fit(found@, n);
            }
            if let Some(current) = stack.pop() {
                let dependents = crate::digraph::incoming_neighbors(&self.graph, current);
                proof {
                    sources_are_links(self@.edges, current, dependents@);
                    assert forall|v: u32|
                        visited@.contains(v) && !stack@.contains(v) && v
                            != current implies #[trigger] closed_at(links, visited@, v) by {
                        if before.contains(v) {
                            let i = before.index_of(v);
                            assert(before[i] == v);
                            assert(stack@[i] == v);
                        }
                    }
                    assert(before[before.len() - 1] == current);
                }
                let mut k: usize = 0;
                while k < dependents.len()
                    invariant
                        self.wf(),
                        n == self@.nodes.len(),
                        links == self@.links(),
                        links_within(links, n as int),
                        start < n,
                        k <= dependents@.len(),
                        forall|x: u32| #[trigger]
                            dependents@.contains(x) <==> links.contains((x as int, current as int)),
                        dfs_core(links, n, start, visited@, found@, stack@),
                        visited@.contains(current),
                        forall|v: u32|
                            visited@.contains(v) && !stack@.contains(v) && v != current
                                ==> #[trigger] closed_at(links, visited@, v),
                        forall|j: int| 0 <= j < k ==> visited@.contains(#[trigger] dependents@[j]),
                        found@.len() >= found_before.len(),
                        found@.len() == found_before.len() ==> stack@ == before.drop_last(),
                    decreases dependents@.len() - k,
                {
                    let dependent = dependents[k];
                    let ghost seen = visited@;
                    let ghost listed = found@;
                    let ghost waiting = stack@;
                    assert(dependents@.contains(dependent));
                    if visited.insert(dependent) {
                        stack.push(dependent);
                        found.push(dependent);
                        proof {
                            link_reaches(links, dependent as int, current as int);
                            reaches_join(
                                links,
                                dependent as int,
                                current as int,
                                start as int,
                            );
                            dfs_core_grows(links, n, start, seen, listed, waiting, dependent);
                            assert forall|v: u32|
                                visited@.contains(v) && !stack@.contains(v) && v
                                    != current implies #[trigger] closed_at(
                                links,
                                visited@,
                                v,
                            ) by {
                                assert(stack@[stack@.len() - 1] == dependent);
                                assert(v != dependent);
                                if waiting.contains(v) {
                                    let i = waiting.index_of(v);
                                    assert(stack@[i] == v);
                                }
                                assert(closed_at(links, seen, v));
                            }
                        }
                    } else {
                        assert(visited@ =~= seen);
                    }
                    k += 1;
                }
                assert(closed_at(links, visited@, current)) by {
                    assert forall|x: u32| links.contains((x as int, current as int)) implies
                        visited@.contains(x) by {
                        assert(dependents@.contains(x));
                        let j = dependents@.index_of(x);
                        assert(visited@.contains(dependents@[j]));
                    }
                }
                proof {
                    distinct_fit(found@, n);
                }
            }
        }
        let mut hit: Vec<String> = Vec::new();
        let mut k: usize = 0;
        while k < found.len()
            invariant
                self.wf(),
                n == self@.nodes.len(),
                k <= found@.len(),
                hit@.len() == k,
                forall|i: int| 0 <= i < found@.len() ==> #[trigger] found@[i] < n,
                forall|i: int|
                    0 <= i < k ==> (#[trigger] hit@[i])@ == self@.nodes[found@[i] as int].address,
            decreases found@.len() - k,
        {
            match crate::digraph::node_weight(&self.graph, found[k]) {
                Some(data) => {
                    assert(data@ == self@.nodes[found@[k as int] as int]);
                    hit.push(data.address.clone());
                },
                None => {},
            }
            k += 1;
        }
        proof {
            dfs_is_complete(self@, start, visited@, found@, texts(hit@));
        }
        hit
    }

    // ── Transitive reduction ─────────────────────────────────────────────────

    /// Whether `to` is reached from `from` through another node that `from` depends on.
    fn has_alternative_path(&self, from: NodeIndex, to: NodeIndex) -> (found: bool)
        requires
            self.wf(),
        ensures
            found == has_detour(self@.links(), from as int, to as int),
    {
        let ghost links = self@.links();
        let targets = crate::digraph::outgoing_neighbors(&self.graph, from);
        proof {
            links_are_within(self@);
            targets_are_links(self@.edges, from, targets@);
        }
        let mut k: usize = 0;
        while k < targets.len()
            invariant
                self.wf(),
                links == self@.links(),
                links_within(links, self@.nodes.len() as int),
                k <= targets@.len(),
                forall|x: u32| #[trigger]
                    targets@.contains(x) <==> links.contains((from as int, x as int)),
                forall|j: int|
                    0 <= j < k && #[trigger] targets@[j] != to ==> !reaches(
                        links,
                        targets@[j] as int,
                        to as int,
                    ),
            decreases targets@.len() - k,
        {
            let intermediate = targets[k];
            assert(targets@.contains(intermediate));
            assert(links.contains((from as int, intermediate as int)));
            if intermediate != to && crate::digraph::path_connects(&self.graph, intermediate, to) {
                return true;
            }
            k += 1;
        }
        proof {
            if has_detour(links, from as int, to as int) {
                let w = choose|w: int|
                    w != to && #[trigger] links.contains((from as int, w)) && reaches(
                        links,
                        w,
                        to as int,
                    );
                let x = w as u32;
                assert(targets@.contains(x));
                let j = targets@.index_of(x);
                assert(targets@[j] == x);
            }
        }
        false
    }

    /// Removes every edge A → B beside which another path leads from A to B. An edge that is
    /// removed leaves its place to the last one.
    #[verifier::spinoff_prover]
    pub fn transitive_reduce(&mut self)
        requires
            old(self).wf(),
        ensures
            final(self).wf(),
            final(self)@ == reduced_graph(old(self)@),
            forall|e: Edge| #[trigger]
                final(self)@.edges.contains(e) <==> old(self)@.edges.contains(e) && !has_detour(
                    old(self)@.links(),
                    e.from as int,
                    e.to as int,
                ),
            final(self)@.links() == reduced(old(self)@.links()),
    {
        let ghost start = self@;
        let ghost links = self@.links();
        let count = crate::digraph::edge_count(&self.graph);
        let mut redundant: Vec<(NodeIndex, NodeIndex)> = Vec::new();
        let mut k: usize = 0;
        assert(start.edges.take(0) =~= Seq::empty());
        assert(redundant@ =~= Seq::empty());
        while k < count
            invariant
                self.wf(),
                self@ == start,
                start == old(self)@,
                links == start.links(),
                count == start.edges.len(),
                k <= count,
                redundant@ == redundant_pairs(start.edges.take(k as int), links),
            decreases count - k,
        {
            assert(start.edges.take(k + 1).drop_last() =~= start.edges.take(k as int));
            if let Some((u, v)) = crate::digraph::edge_endpoints(&self.graph, k as u32) {
                if self.has_alternative_path(u, v) {
                    redundant.push((u, v));
                }
            }
            k += 1;
        }
        assert(start.edges.take(k as int) =~= start.edges);
        assert(redundant@.take(0) =~= Seq::empty());
        let mut r: usize = 0;
        while r < redundant.len()
            invariant
                self.wf(),
                start == old(self)@,
                start.valid(),
                r <= redundant@.len(),
                self@.nodes == start.nodes,
                self@.metas == start.metas,
                self@.edges == without_pairs(start.edges, redundant@.take(r as int)),
            decreases redundant@.len() - r,
        {
            let ghost between = self@;
            let (u, v) = redundant[r];
            assert(redundant@.take(r + 1).drop_last() =~= redundant@.take(r as int));
            if let Some(found) = crate::digraph::find_edge(&self.graph, u, v) {
                crate::digraph::remove_edge(&mut self.graph, found);
                proof {
                    assert(self@.nodes == between.nodes);
                    assert(self@.metas == between.metas);
                    assert(between.edges[found as int].from == u);
                    let place = edge_place(between.edges, u, v);
                    assert(between.edges[place].from == u && between.edges[place].to == v);
                    assert(place == found);
                    assert(links_of(between.edges).contains((u as int, v as int)));
                    without_pairs_members(start, redundant@.take(r + 1));
                    assert(self@ == with_edges(start, self@.edges));
                }
            }
            r += 1;
        }
        proof {
            assert(redundant@.take(r as int) =~= redundant@);
            reduced_graph_edges(start);
            assert(self@ == reduced_graph(start));
        }
    }

    // ── DOT export ───────────────────────────────────────────────────────────

    /// The graph in Graphviz DOT format. Node labels show the address and the planned actions.
    pub fn to_dot(&self) -> (dot: String)
        requires
            self.wf(),
        ensures
            dot@ == dot_text(self@),
    {
        let nodes = crate::digraph::node_count(&self.graph);
        let edges = crate::digraph::edge_count(&self.graph);
        let mut out = owned(DOT_HEADER);
        let mut i: usize = 0;
        assert(out@ =~= DOT_HEADER@ + dot_nodes(self@, 0));
        while i < nodes
            invariant
                self.wf(),
                nodes == self@.nodes.len(),
                i <= nodes,
                out@ == DOT_HEADER@ + dot_nodes(self@, i as nat),
            decreases nodes - i,
        {
            if let Some(data) = crate::digraph::node_weight(&self.graph, i as u32) {
                let meta = &self.metadata[i];
                assert(data@ == self@.nodes[i as int] && meta@ == self@.metas[i as int]);
                write_node(&mut out, i as u32, data.address.as_str(), meta.actions.as_slice());
                assert(out@ =~= DOT_HEADER@ + dot_nodes(self@, (i + 1) as nat));
            }
            i += 1;
        }
        let ghost written = out@;
        let mut e: usize = 0;
        assert(out@ =~= written + dot_edges(self@.edges, 0));
        while e < edges
            invariant
                self.wf(),
                edges == self@.edges.len(),
                e <= edges,
                out@ == written + dot_edges(self@.edges, e as nat),
            decreases edges - e,
        {
            if let Some((from, to)) = crate::digraph::edge_endpoints(&self.graph, e as u32) {
                let kind = crate::digraph::edge_kind(&self.graph, e as u32);
                write_edge(&mut out, Edge { from, to, kind });
                assert(out@ =~= written + dot_edges(self@.edges, (e + 1) as nat));
            }
            e += 1;
        }
        out.push('}');
        proof {
            reveal_strlit("}");
            assert(out@ =~= dot_text(self@));
        }
        out
    }
}

} // verus!
