//! What holds of every dependency graph: how impact spreads, how it agrees with the apply order,
//! and what reducing the graph leaves as it was.

use vstd::prelude::*;

use crate::blueprint::{
    blank_meta, children_memberships, declared_dependencies, edge_addresses, is_apply_order,
    is_graph_of, is_hit, links_are_within, member_pairs, memberships, module_dependencies,
    module_mentions, names, node_place, output_mentions, plan_dependencies, plan_mentions,
    plan_resources, reduced_graph, reduced_graph_edges, redundant_pairs, redundant_pairs_are,
    resources_are_mentioned, target_mentions, with_distinct, with_edges, with_mentions_grows,
    with_node, GraphModel, NodeModel,
};
use crate::digraph::{links_of, Edge, EdgeKind, NodeKind};
use crate::parser::{names_are_distinct, Plan, PlannedModule, PlannedResource};
use crate::paths::{
    acyclic, closed_set_holds_reached, fewer_links_reach_no_more, first_step, has_detour, is_path,
    link_reaches, on_cycle, reaches, reaches_join, reaches_self, reduction_is_complete,
    reduction_is_minimal, reduction_keeps_reachability, step,
};

verus! {

// ── How impact spreads ───────────────────────────────────────────────────────

/// No node is in its own blast radius.
pub proof fn no_node_hits_itself(g: GraphModel, target: Seq<char>)
    requires
        g.valid(),
    ensures
        !is_hit(g, target, target),
{
}

/// Impact travels: what is hit by something in the blast radius of `a` is in that blast radius
/// too, unless it is `a` itself.
pub proof fn hits_travel(g: GraphModel, a: Seq<char>, b: Seq<char>, c: Seq<char>)
    requires
        g.valid(),
        is_hit(g, a, b),
        is_hit(g, b, c),
        a != c,
    ensures
        is_hit(g, a, c),
{
    let (x, y) = choose|x: int, y: int|
        0 <= x < g.nodes.len() && 0 <= y < g.nodes.len() && x != y && (
        #[trigger] g.nodes[x]).address == b && (#[trigger] g.nodes[y]).address == a && reaches(
            g.links(),
            x,
            y,
        );
    let (z, w) = choose|z: int, w: int|
        0 <= z < g.nodes.len() && 0 <= w < g.nodes.len() && z != w && (
        #[trigger] g.nodes[z]).address == c && (#[trigger] g.nodes[w]).address == b && reaches(
            g.links(),
            z,
            w,
        );
    assert(w == x);
    reaches_join(g.links(), z, x, y);
    assert(g.nodes[z].address == c && g.nodes[y].address == a);
}

/// Without a cycle, impact has one direction: no two nodes hit each other.
pub proof fn hits_are_one_way(g: GraphModel, a: Seq<char>, b: Seq<char>)
    requires
        g.valid(),
        acyclic(g.links()),
        is_hit(g, a, b),
    ensures
        !is_hit(g, b, a),
{
    if is_hit(g, b, a) {
        let (x, y) = choose|x: int, y: int|
            0 <= x < g.nodes.len() && 0 <= y < g.nodes.len() && x != y && (
            #[trigger] g.nodes[x]).address == b && (#[trigger] g.nodes[y]).address == a
                && reaches(g.links(), x, y);
        let (z, w) = choose|z: int, w: int|
            0 <= z < g.nodes.len() && 0 <= w < g.nodes.len() && z != w && (
            #[trigger] g.nodes[z]).address == a && (#[trigger] g.nodes[w]).address == b
                && reaches(g.links(), z, w);
        assert(w == x && z == y);
        let s = first_step(g.links(), x, y);
        reaches_join(g.links(), s, y, x);
        assert(on_cycle(g.links(), x));
    }
}

// ── Impact and order ─────────────────────────────────────────────────────────

/// In an apply order, a node stands no earlier than anything that it depends on.
proof fn apply_order_follows(
    g: GraphModel,
    order: Seq<Seq<char>>,
    x: int,
    y: int,
    i: int,
    j: int,
)
    requires
        g.valid(),
        is_apply_order(g, order),
        0 <= x < g.nodes.len(),
        0 <= y < g.nodes.len(),
        reaches(g.links(), x, y),
        0 <= i < order.len(),
        0 <= j < order.len(),
        order[i] == g.nodes[y].address,
        order[j] == g.nodes[x].address,
    ensures
        i <= j,
{
    let n = g.nodes.len();
    let early = Set::new(
        |v: int|
            0 <= v < n && exists|k: int| 0 <= k <= j && #[trigger] order[k] == g.nodes[v].address,
    );
    assert(early.contains(x));
    assert forall|v: int, w: int| early.contains(v) && #[trigger] g.links().contains(
        (v, w),
    ) implies early.contains(w) by {
        let k = choose|k: int| 0 <= k <= j && #[trigger] order[k] == g.nodes[v].address;
        let e = choose|e: int|
            0 <= e < g.edges.len() && (#[trigger] g.edges[e]).from == v && g.edges[e].to == w;
        assert(names(g.nodes, g.nodes[w].address));
        assert(order.contains(g.nodes[w].address));
        let m = order.index_of(g.nodes[w].address);
        assert(order[m] == g.nodes[g.edges[e].to as int].address);
        assert(order[k] == g.nodes[g.edges[e].from as int].address);
        assert(m < k);
    }
    closed_set_holds_reached(g.links(), early, x, y);
    let k = choose|k: int| 0 <= k <= j && #[trigger] order[k] == g.nodes[y].address;
    assert(order[k] == order[i]);
}

/// In an apply order, whatever a change of `target` hits comes after `target`.
pub proof fn hits_come_later(
    g: GraphModel,
    order: Seq<Seq<char>>,
    target: Seq<char>,
    a: Seq<char>,
    i: int,
    j: int,
)
    requires
        g.valid(),
        is_apply_order(g, order),
        is_hit(g, target, a),
        0 <= i < order.len(),
        0 <= j < order.len(),
        order[i] == target,
        order[j] == a,
    ensures
        i < j,
{
    let (x, y) = choose|x: int, y: int|
        0 <= x < g.nodes.len() && 0 <= y < g.nodes.len() && x != y && (
        #[trigger] g.nodes[x]).address == a && (#[trigger] g.nodes[y]).address == target
            && reaches(g.links(), x, y);
    apply_order_follows(g, order, x, y, i, j);
    assert(g.nodes[x].address != g.nodes[y].address);
}

/// A graph that has an apply order has no cycle.
pub proof fn ordered_is_acyclic(g: GraphModel, order: Seq<Seq<char>>)
    requires
        g.valid(),
        is_apply_order(g, order),
    ensures
        acyclic(g.links()),
{
    links_are_within(g);
    assert forall|x: int| !#[trigger] on_cycle(g.links(), x) by {
        if on_cycle(g.links(), x) {
            let w = choose|w: int| #[trigger]
                g.links().contains((x, w)) && reaches(g.links(), w, x);
            let e = choose|e: int|
                0 <= e < g.edges.len() && (#[trigger] g.edges[e]).from == x && g.edges[e].to == w;
            assert(names(g.nodes, g.nodes[x].address));
            assert(names(g.nodes, g.nodes[w].address));
            assert(order.contains(g.nodes[x].address));
            assert(order.contains(g.nodes[w].address));
            let i = order.index_of(g.nodes[x].address);
            let j = order.index_of(g.nodes[w].address);
            assert(order[j] == g.nodes[g.edges[e].to as int].address);
            assert(order[i] == g.nodes[g.edges[e].from as int].address);
            assert(j < i);
            apply_order_follows(g, order, w, x, i, j);
        }
    }
}

// ── What a reduction leaves ──────────────────────────────────────────────────

/// Reducing an acyclic graph changes no blast radius.
pub proof fn reduction_keeps_hits(g: GraphModel, target: Seq<char>, a: Seq<char>)
    requires
        g.valid(),
        acyclic(g.links()),
    ensures
        is_hit(reduced_graph(g), target, a) <==> is_hit(g, target, a),
{
    let r = reduced_graph(g);
    links_are_within(g);
    reduced_graph_edges(g);
    assert forall|x: int, y: int| #[trigger] reaches(r.links(), x, y) <==> reaches(
        g.links(),
        x,
        y,
    ) by {
        reduction_keeps_reachability(g.links(), g.nodes.len() as int, x, y);
    }
}

/// Reducing an acyclic graph changes no apply order, and leaves the graph acyclic.
pub proof fn reduction_keeps_apply_orders(g: GraphModel, order: Seq<Seq<char>>)
    requires
        g.valid(),
        acyclic(g.links()),
    ensures
        acyclic(reduced_graph(g).links()),
        is_apply_order(reduced_graph(g), order) <==> is_apply_order(g, order),
{
    let r = reduced_graph(g);
    let n = g.nodes.len() as int;
    links_are_within(g);
    reduced_graph_edges(g);
    reduction_is_complete(g.links(), n);
    if is_apply_order(r, order) {
        assert forall|e: int, i: int, j: int|
            #![trigger g.edges[e], order[i], order[j]]
            0 <= e < g.edges.len() && 0 <= i < order.len() && 0 <= j < order.len() && order[i]
                == g.nodes[g.edges[e].to as int].address && order[j]
                == g.nodes[g.edges[e].from as int].address implies i < j by {
            let x = g.edges[e].from as int;
            let y = g.edges[e].to as int;
            assert(g.links().contains((x, y)));
            link_reaches(g.links(), x, y);
            reduction_keeps_reachability(g.links(), n, x, y);
            apply_order_follows(r, order, x, y, i, j);
            if x == y {
                reaches_self(g.links(), x);
                assert(on_cycle(g.links(), x));
            }
            assert(g.nodes[x].address != g.nodes[y].address);
        }
    }
    if is_apply_order(g, order) {
        assert forall|e: int, i: int, j: int|
            #![trigger r.edges[e], order[i], order[j]]
            0 <= e < r.edges.len() && 0 <= i < order.len() && 0 <= j < order.len() && order[i]
                == r.nodes[r.edges[e].to as int].address && order[j]
                == r.nodes[r.edges[e].from as int].address implies i < j by {
            let x = r.edges[e].from as int;
            let y = r.edges[e].to as int;
            assert(r.links().contains((x, y)));
            assert(g.links().contains((x, y)));
            let f = choose|f: int|
                0 <= f < g.edges.len() && (#[trigger] g.edges[f]).from == x && g.edges[f].to == y;
            assert(order[i] == g.nodes[g.edges[f].to as int].address);
        }
    }
}

/// One reduction of an acyclic graph removes all there is to remove.
pub proof fn second_reduction_changes_nothing(g: GraphModel)
    requires
        g.valid(),
        acyclic(g.links()),
    ensures
        reduced_graph(reduced_graph(g)) == reduced_graph(g),
{
    let r = reduced_graph(g);
    let pairs = redundant_pairs(r.edges, r.links());
    links_are_within(g);
    reduced_graph_edges(g);
    reduction_is_complete(g.links(), g.nodes.len() as int);
    if pairs.len() > 0 {
        redundant_pairs_are(r.edges, r.links(), pairs[0]);
        assert(pairs.contains(pairs[0]));
        assert(r.links().contains((pairs[0].0 as int, pairs[0].1 as int)));
    }
}

/// A reduced acyclic graph has no edge to spare: without any one of them, its source no longer
/// reaches its target.
pub proof fn reduced_edges_are_needed(g: GraphModel, e: Edge)
    requires
        g.valid(),
        acyclic(g.links()),
        reduced_graph(g).edges.contains(e),
    ensures
        !reaches(
            reduced_graph(g).links().remove((e.from as int, e.to as int)),
            e.from as int,
            e.to as int,
        ),
{
    let r = reduced_graph(g);
    links_are_within(g);
    reduced_graph_edges(g);
    let i = r.edges.index_of(e);
    assert(r.edges[i] == e);
    assert(r.links().contains((e.from as int, e.to as int)));
    reduction_is_minimal(g.links(), g.nodes.len() as int, e.from as int, e.to as int);
}

// ── What the plan says ───────────────────────────────────────────────────────

/// Everything in `more` ends up in the list.
pub(crate) proof fn with_distinct_holds<P>(known: Seq<P>, more: Seq<P>, p: P)
    requires
        known.contains(p) || more.contains(p),
    ensures
        with_distinct(known, more).contains(p),
    decreases more.len(),
{
    if more.len() > 0 {
        let before = with_distinct(known, more.drop_last());
        if p == more.last() {
            if !before.contains(p) {
                assert(before.push(p)[before.len() as int] == p);
            }
        } else {
            if more.contains(p) {
                let i = more.index_of(p);
                assert(more.drop_last()[i] == p);
            }
            with_distinct_holds(known, more.drop_last(), p);
            let i = before.index_of(p);
            assert(before.push(more.last())[i] == p);
        }
    }
}

/// In a plan's graph, a change of an address hits every other one that names it in `depends_on`.
pub proof fn dependents_are_hit(g: GraphModel, plan: Plan, a: Seq<char>, b: Seq<char>)
    requires
        is_graph_of(g, plan),
        plan.planned_values is Some,
        module_dependencies(plan.planned_values->0.root_module).contains((a, b)),
        a != b,
    ensures
        is_hit(g, b, a),
{
    let pairs = module_dependencies(plan.planned_values->0.root_module);
    let owners = memberships(plan.planned_values->0.root_module);
    with_distinct_holds(Seq::empty(), pairs, (a, b));
    with_distinct_holds(declared_dependencies(plan), owners, (a, b));
    let i = plan_dependencies(plan).index_of((a, b));
    assert(g.dependencies()[i] == (a, b));
    let x = g.edges[i].from as int;
    let y = g.edges[i].to as int;
    assert(edge_addresses(g.edges, g.nodes)[i] == (g.nodes[x].address, g.nodes[y].address));
    assert(g.links().contains((x, y)));
    link_reaches(g.links(), x, y);
    assert(g.nodes[x].address == a && g.nodes[y].address == b);
}

/// The list starts with what it held before; what comes after is new, and taken from `more`.
pub(crate) proof fn with_distinct_shape<P>(known: Seq<P>, more: Seq<P>)
    ensures
        known.is_prefix_of(with_distinct(known, more)),
        forall|i: int|
            known.len() <= i < with_distinct(known, more).len() ==> more.contains(
                #[trigger] with_distinct(known, more)[i],
            ) && !known.contains(with_distinct(known, more)[i]),
    decreases more.len(),
{
    if more.len() > 0 {
        let few = more.drop_last();
        let before = with_distinct(known, few);
        let after = with_distinct(known, more);
        with_distinct_shape(known, few);
        assert forall|i: int| known.len() <= i < after.len() implies more.contains(
            #[trigger] after[i],
        ) && !known.contains(after[i]) by {
            if i < before.len() {
                assert(after[i] == before[i]);
                let k = few.index_of(before[i]);
                assert(more[k] == before[i]);
            } else {
                assert(after[i] == more[more.len() - 1]);
                if known.contains(after[i]) {
                    let k = known.index_of(after[i]);
                    assert(before[k] == after[i]);
                }
            }
        }
    }
}

/// What is declared is what stands in `depends_on`.
pub(crate) proof fn declared_are(plan: Plan, p: (Seq<char>, Seq<char>))
    requires
        plan.planned_values is Some,
    ensures
        declared_dependencies(plan).contains(p) <==> module_dependencies(
            plan.planned_values->0.root_module,
        ).contains(p),
{
    let pairs = module_dependencies(plan.planned_values->0.root_module);
    if pairs.contains(p) {
        with_distinct_holds(Seq::empty(), pairs, p);
    }
    if declared_dependencies(plan).contains(p) {
        with_distinct_shape(Seq::empty(), pairs);
        let i = declared_dependencies(plan).index_of(p);
        assert(with_distinct(Seq::empty(), pairs)[i] == p);
    }
}

/// `m` is a child module below `top`, at some depth.
pub open spec fn is_below(top: PlannedModule, m: PlannedModule) -> bool
    decreases top,
{
    is_among(top.child_modules@, m)
}

/// `m` is one of these child modules, or below one.
pub open spec fn is_among(modules: Seq<PlannedModule>, m: PlannedModule) -> bool
    decreases modules,
{
    &&& modules.len() > 0
    &&& modules.last() == m || is_below(modules.last(), m) || is_among(modules.drop_last(), m)
}

/// A resource of a module with another address is one of its members.
proof fn member_is_listed(
    address: Option<String>,
    resources: Seq<PlannedResource>,
    r: PlannedResource,
)
    requires
        address is Some,
        resources.contains(r),
        r.address@ != address->0@,
    ensures
        member_pairs(address, resources).contains((r.address@, address->0@)),
    decreases resources.len(),
{
    let p = (r.address@, address->0@);
    let few = resources.drop_last();
    let before = member_pairs(address, few);
    let last = (resources.last().address@, address->0@);
    if resources.last() == r {
        assert(before.push(last)[before.len() as int] == p);
    } else {
        let k = resources.index_of(r);
        assert(few[k] == r);
        member_is_listed(address, few, r);
        let i = before.index_of(p);
        assert(before.push(last)[i] == p);
    }
}

proof fn membership_below(top: PlannedModule, m: PlannedModule, r: PlannedResource)
    requires
        is_below(top, m),
        m.address is Some,
        m.resources@.contains(r),
        r.address@ != m.address->0@,
    ensures
        memberships(top).contains((r.address@, m.address->0@)),
    decreases top, 0nat,
{
    membership_among(top.child_modules@, m, r);
}

proof fn membership_among(modules: Seq<PlannedModule>, m: PlannedModule, r: PlannedResource)
    requires
        is_among(modules, m),
        m.address is Some,
        m.resources@.contains(r),
        r.address@ != m.address->0@,
    ensures
        children_memberships(modules).contains((r.address@, m.address->0@)),
    decreases modules, 1nat,
{
    let p = (r.address@, m.address->0@);
    let last = modules.last();
    let a = children_memberships(modules.drop_last());
    let b = member_pairs(last.address, last.resources@);
    let c = memberships(last);
    let all = children_memberships(modules);
    if last == m {
        member_is_listed(m.address, m.resources@, r);
        let i = b.index_of(p);
        assert(all[a.len() + i] == p);
    } else if is_below(last, m) {
        membership_below(last, m, r);
        let i = c.index_of(p);
        assert(all[a.len() + b.len() + i] == p);
    } else {
        membership_among(modules.drop_last(), m, r);
        let i = a.index_of(p);
        assert(all[i] == p);
    }
}

/// In a plan's graph, each resource of a child module depends on the module: an edge leads from
/// the one to the other, which is implicit unless the dependency is declared.
pub proof fn members_depend_on_their_module(
    g: GraphModel,
    plan: Plan,
    m: PlannedModule,
    r: PlannedResource,
)
    requires
        is_graph_of(g, plan),
        plan.planned_values is Some,
        is_below(plan.planned_values->0.root_module, m),
        m.address is Some,
        m.resources@.contains(r),
        r.address@ != m.address->0@,
    ensures
        exists|i: int|
            0 <= i < g.edges.len() && g.nodes[(#[trigger] g.edges[i]).from as int].address
                == r.address@ && g.nodes[g.edges[i].to as int].address == m.address->0@
                && g.edges[i].kind == (if module_dependencies(
                plan.planned_values->0.root_module,
            ).contains((r.address@, m.address->0@)) {
                EdgeKind::Explicit
            } else {
                EdgeKind::Implicit
            }),
        is_hit(g, m.address->0@, r.address@),
{
    let root = plan.planned_values->0.root_module;
    let p = (r.address@, m.address->0@);
    let declared = declared_dependencies(plan);
    let all = plan_dependencies(plan);
    membership_below(root, m, r);
    with_distinct_holds(declared, memberships(root), p);
    with_distinct_shape(declared, memberships(root));
    declared_are(plan, p);
    let i = if declared.contains(p) {
        declared.index_of(p)
    } else {
        all.index_of(p)
    };
    assert(all[i] == p) by {
        if declared.contains(p) {
            assert(declared[i] == all[i]);
        }
    }
    if !declared.contains(p) && i < declared.len() {
        assert(declared[i] == all[i]);
    }
    assert(g.dependencies()[i] == p);
    let x = g.edges[i].from as int;
    let y = g.edges[i].to as int;
    assert(g.links().contains((x, y)));
    link_reaches(g.links(), x, y);
    assert(g.nodes[x].address == p.0 && g.nodes[y].address == p.1);
}

/// In a plan's graph, every edge comes from the plan: an explicit one from `depends_on`, an
/// implicit one from membership in a child module alone.
pub proof fn edges_come_from_the_plan(g: GraphModel, plan: Plan, i: int)
    requires
        is_graph_of(g, plan),
        0 <= i < g.edges.len(),
    ensures
        plan.planned_values is Some,
        ({
            let root = plan.planned_values->0.root_module;
            let p = (g.nodes[g.edges[i].from as int].address, g.nodes[g.edges[i].to as int].address);
            match g.edges[i].kind {
                EdgeKind::Explicit => module_dependencies(root).contains(p),
                EdgeKind::Implicit => memberships(root).contains(p) && !module_dependencies(
                    root,
                ).contains(p),
            }
        }),
{
    let root = plan.planned_values->0.root_module;
    let declared = declared_dependencies(plan);
    let all = plan_dependencies(plan);
    assert(g.dependencies().len() == g.edges.len());
    assert(g.dependencies()[i] == all[i]);
    with_distinct_shape(declared, memberships(root));
    declared_are(plan, all[i]);
    if i < declared.len() {
        assert(declared[i] == all[i]);
    }
}

/// The plan's graph without the edges from membership.
pub open spec fn declared_graph(g: GraphModel, plan: Plan) -> GraphModel {
    with_edges(g, g.edges.take(declared_dependencies(plan).len() as int))
}

/// No module with members has the address of a resource that depends on something.
pub open spec fn owners_depend_on_nothing(plan: Plan) -> bool {
    forall|i: int, j: int|
        0 <= i < plan_dependencies(plan).len() && 0 <= j < memberships(
            plan.planned_values->0.root_module,
        ).len() ==> (#[trigger] plan_dependencies(plan)[i]).0 != (#[trigger] memberships(
            plan.planned_values->0.root_module,
        )[j]).1
}

/// Node `v` is a module that something belongs to.
spec fn is_owner(g: GraphModel, plan: Plan, v: int) -> bool {
    exists|j: int|
        0 <= j < memberships(plan.planned_values->0.root_module).len() && (
        #[trigger] memberships(plan.planned_values->0.root_module)[j]).1 == g.nodes[v].address
}

/// A link that is not declared leads to a module, and from such a module leads none.
proof fn owner_links(g: GraphModel, plan: Plan, u: int, v: int)
    requires
        is_graph_of(g, plan),
        plan.planned_values is Some,
        g.links().contains((u, v)),
    ensures
        declared_graph(g, plan).links().contains((u, v)) || is_owner(g, plan, v),
        owners_depend_on_nothing(plan) ==> !is_owner(g, plan, u),
{
    let root = plan.planned_values->0.root_module;
    let d = declared_graph(g, plan);
    let i = choose|i: int|
        0 <= i < g.edges.len() && (#[trigger] g.edges[i]).from == u && g.edges[i].to == v;
    assert(g.dependencies().len() == g.edges.len());
    assert(g.dependencies()[i] == plan_dependencies(plan)[i]);
    with_distinct_shape(declared_dependencies(plan), memberships(root));
    if i < declared_dependencies(plan).len() {
        assert(d.edges[i] == g.edges[i]);
    } else {
        let j = memberships(root).index_of(plan_dependencies(plan)[i]);
        assert(memberships(root)[j].1 == g.nodes[v].address);
    }
}

/// The declared graph has no links of its own.
proof fn declared_links_are_links(g: GraphModel, plan: Plan)
    requires
        is_graph_of(g, plan),
    ensures
        declared_graph(g, plan).links().subset_of(g.links()),
{
    let d = declared_graph(g, plan);
    if plan.planned_values is Some {
        with_distinct_shape(
            declared_dependencies(plan),
            memberships(plan.planned_values->0.root_module),
        );
    }
    assert(g.dependencies().len() == g.edges.len());
    assert forall|l: (int, int)| d.links().contains(l) implies g.links().contains(l) by {
        let i = choose|i: int|
            0 <= i < d.edges.len() && (#[trigger] d.edges[i]).from == l.0 && d.edges[i].to == l.1;
        assert(g.edges[i] == d.edges[i]);
    }
}

/// A walk that ends at no module with members goes along declared links.
proof fn walks_are_declared(g: GraphModel, plan: Plan, u: int, v: int)
    requires
        is_graph_of(g, plan),
        plan.planned_values is Some,
        owners_depend_on_nothing(plan),
        !is_owner(g, plan, v),
        reaches(g.links(), u, v),
    ensures
        reaches(declared_graph(g, plan).links(), u, v),
{
    let links = g.links();
    let d = declared_graph(g, plan);
    let p = choose|p: Seq<int>| #[trigger] is_path(links, p) && p[0] == u && p.last() == v;
    assert forall|i: int| 0 <= i < p.len() - 1 implies #[trigger] step(d.links(), p, i) by {
        assert(step(links, p, i));
        owner_links(g, plan, p[i], p[i + 1]);
        if i + 1 < p.len() - 1 {
            assert(step(links, p, i + 1));
            owner_links(g, plan, p[i + 1], p[i + 2]);
        }
    }
    assert(is_path(d.links(), p));
}

/// Where no module with members is itself a dependent, membership closes no cycle: the plan's
/// graph is acyclic where its declared dependencies are.
pub proof fn membership_closes_no_cycle(g: GraphModel, plan: Plan)
    requires
        is_graph_of(g, plan),
        plan.planned_values is Some,
        owners_depend_on_nothing(plan),
    ensures
        acyclic(g.links()) <==> acyclic(declared_graph(g, plan).links()),
{
    let links = g.links();
    let few = declared_graph(g, plan).links();
    declared_links_are_links(g, plan);
    if acyclic(links) {
        assert forall|x: int| !#[trigger] on_cycle(few, x) by {
            if on_cycle(few, x) {
                let w = choose|w: int| #[trigger] few.contains((x, w)) && reaches(few, w, x);
                fewer_links_reach_no_more(few, links, w, x);
                assert(links.contains((x, w)));
                assert(on_cycle(links, x));
            }
        }
    }
    if acyclic(few) {
        assert forall|x: int| !#[trigger] on_cycle(links, x) by {
            if on_cycle(links, x) {
                let w = choose|w: int| #[trigger] links.contains((x, w)) && reaches(links, w, x);
                owner_links(g, plan, x, w);
                walks_are_declared(g, plan, w, x);
                if w != x {
                    let next = first_step(links, w, x);
                    owner_links(g, plan, w, next);
                }
                assert(few.contains((x, w)));
                assert(on_cycle(few, x));
            }
        }
    }
}

/// Where no module with members is itself a dependent, membership adds to no blast radius but that
/// of such a module.
pub proof fn membership_adds_to_modules_only(
    g: GraphModel,
    plan: Plan,
    target: Seq<char>,
    a: Seq<char>,
)
    requires
        is_graph_of(g, plan),
        plan.planned_values is Some,
        owners_depend_on_nothing(plan),
        forall|j: int|
            0 <= j < memberships(plan.planned_values->0.root_module).len() ==> (
            #[trigger] memberships(plan.planned_values->0.root_module)[j]).1 != target,
    ensures
        is_hit(g, target, a) <==> is_hit(declared_graph(g, plan), target, a),
{
    let d = declared_graph(g, plan);
    declared_links_are_links(g, plan);
    if is_hit(g, target, a) {
        let (x, y) = choose|x: int, y: int|
            0 <= x < g.nodes.len() && 0 <= y < g.nodes.len() && x != y && (
            #[trigger] g.nodes[x]).address == a && (#[trigger] g.nodes[y]).address == target
                && reaches(g.links(), x, y);
        walks_are_declared(g, plan, x, y);
        assert(d.nodes[x].address == a && d.nodes[y].address == target);
    }
    if is_hit(d, target, a) {
        let (x, y) = choose|x: int, y: int|
            0 <= x < d.nodes.len() && 0 <= y < d.nodes.len() && x != y && (
            #[trigger] d.nodes[x]).address == a && (#[trigger] d.nodes[y]).address == target
                && reaches(d.links(), x, y);
        fewer_links_reach_no_more(d.links(), g.links(), x, y);
        assert(g.nodes[x].address == a && g.nodes[y].address == target);
    }
}

/// Adding a node keeps one description per node, and leaves nodes, descriptions and edges as they
/// were. A known address adds nothing, whatever its kind, and keeps its place; a new one comes last,
/// with nothing known of it; and it is added once.
pub proof fn adding_a_node_keeps_the_others(g: GraphModel, mention: NodeModel, again: NodeKind)
    requires
        g.valid(),
        g.nodes.len() < u32::MAX || names(g.nodes, mention.address),
    ensures
        with_node(g, mention).valid(),
        with_node(g, mention).metas.len() == with_node(g, mention).nodes.len(),
        g.nodes.is_prefix_of(with_node(g, mention).nodes),
        g.metas.is_prefix_of(with_node(g, mention).metas),
        with_node(g, mention).edges == g.edges,
        names(g.nodes, mention.address) ==> with_node(g, mention) == g,
        forall|i: int|
            0 <= i < g.nodes.len() ==> node_place(
                with_node(g, mention).nodes,
                (#[trigger] g.nodes[i]).address,
            ) == i,
        !names(g.nodes, mention.address) ==> {
            &&& with_node(g, mention).nodes.len() == g.nodes.len() + 1
            &&& with_node(g, mention).nodes.last() == mention
            &&& node_place(with_node(g, mention).nodes, mention.address) == g.nodes.len()
            &&& with_node(g, mention).metas.last() == blank_meta()
        },
        with_node(with_node(g, mention), NodeModel { address: mention.address, kind: again })
            == with_node(g, mention),
{
    let r = with_node(g, mention);
    if !names(g.nodes, mention.address) {
        assert(r.nodes[g.nodes.len() as int].address == mention.address);
    }
    assert(names(r.nodes, mention.address));
    assert forall|i: int| 0 <= i < g.nodes.len() implies node_place(
        r.nodes,
        (#[trigger] g.nodes[i]).address,
    ) == i by {
        assert(r.nodes[i].address == g.nodes[i].address);
    }
}

/// Outputs of different names are nodes of different addresses.
pub proof fn outputs_keep_apart(plan: Plan, i: int, j: int)
    requires
        plan.planned_values is Some,
        names_are_distinct(plan.planned_values->0.outputs@),
        0 <= i < plan.planned_values->0.outputs@.len(),
        0 <= j < plan.planned_values->0.outputs@.len(),
        i != j,
    ensures
        output_mentions(plan.planned_values->0.outputs@)[i].address != output_mentions(
            plan.planned_values->0.outputs@,
        )[j].address,
{
    let outputs = plan.planned_values->0.outputs@;
    let a = "output."@ + outputs[i].0@;
    let b = "output."@ + outputs[j].0@;
    assert(a.skip("output."@.len() as int) =~= outputs[i].0@);
    assert(b.skip("output."@.len() as int) =~= outputs[j].0@);
}

/// In a plan's graph, every planned resource and every output is a node, and so is every address
/// that a resource depends on.
pub proof fn plan_is_covered(g: GraphModel, plan: Plan)
    requires
        is_graph_of(g, plan),
        plan.planned_values is Some,
    ensures
        forall|r: PlannedResource| #[trigger]
            plan_resources(plan).contains(r) ==> names(g.nodes, r.address@),
        forall|k: int|
            0 <= k < plan.planned_values->0.outputs@.len() ==> names(
                g.nodes,
                "output."@ + (#[trigger] plan.planned_values->0.outputs@[k]).0@,
            ),
        forall|a: Seq<char>, b: Seq<char>| #[trigger]
            module_dependencies(plan.planned_values->0.root_module).contains((a, b)) ==> names(
                g.nodes,
                b,
            ),
{
    let root = plan.planned_values->0.root_module;
    let outputs = plan.planned_values->0.outputs@;
    let all = plan_mentions(plan);
    let first = module_mentions(root);
    with_mentions_grows(Seq::empty(), all);
    resources_are_mentioned(root);
    assert forall|r: PlannedResource| #[trigger] plan_resources(plan).contains(r) implies names(
        g.nodes,
        r.address@,
    ) by {
        let k = plan_resources(plan).index_of(r);
        assert(names(first, plan_resources(plan)[k].address@));
        let i = choose|i: int| 0 <= i < first.len() && (#[trigger] first[i]).address == r.address@;
        assert(all[i] == first[i]);
    }
    assert forall|k: int| 0 <= k < outputs.len() implies names(
        g.nodes,
        "output."@ + (#[trigger] outputs[k]).0@,
    ) by {
        assert(all[first.len() + k] == output_mentions(outputs)[k]);
    }
    let pairs = module_dependencies(root);
    assert forall|a: Seq<char>, b: Seq<char>| #[trigger] pairs.contains((a, b)) implies names(
        g.nodes,
        b,
    ) by {
        let k = pairs.index_of((a, b));
        assert(all[first.len() + outputs.len() + k] == target_mentions(pairs)[k]);
    }
}

// ── Walks by address ─────────────────────────────────────────────────────────

/// Some edge leads from the one address to the other.
pub open spec fn depends_on(g: GraphModel, a: Seq<char>, b: Seq<char>) -> bool {
    exists|e: int|
        0 <= e < g.edges.len() && g.nodes[(#[trigger] g.edges[e]).from as int].address == a
            && g.nodes[g.edges[e].to as int].address == b
}

/// Each address of the list depends on the next.
pub open spec fn is_dependency_walk(g: GraphModel, p: Seq<Seq<char>>) -> bool {
    p.len() > 0 && forall|i: int|
        0 <= i < p.len() - 1 ==> depends_on(g, #[trigger] p[i], p[i + 1])
}

/// A change of `target` hits `a` exactly where `a` is another address from which edges of whatever
/// kind lead to `target`, through nodes of whatever kind.
pub proof fn hits_are_walks(g: GraphModel, target: Seq<char>, a: Seq<char>)
    requires
        g.valid(),
    ensures
        is_hit(g, target, a) <==> a != target && exists|p: Seq<Seq<char>>| #[trigger]
            is_dependency_walk(g, p) && p[0] == a && p.last() == target && p.len() > 1,
{
    let links = g.links();
    links_are_within(g);
    if is_hit(g, target, a) {
        let (x, y) = choose|x: int, y: int|
            0 <= x < g.nodes.len() && 0 <= y < g.nodes.len() && x != y && (
            #[trigger] g.nodes[x]).address == a && (#[trigger] g.nodes[y]).address == target
                && reaches(links, x, y);
        let w = choose|w: Seq<int>| #[trigger] is_path(links, w) && w[0] == x && w.last() == y;
        let p = Seq::new(w.len(), |i: int| g.nodes[w[i]].address);
        assert forall|i: int| 0 <= i < p.len() - 1 implies depends_on(
            g,
            #[trigger] p[i],
            p[i + 1],
        ) by {
            assert(step(links, w, i));
            let e = choose|e: int|
                0 <= e < g.edges.len() && (#[trigger] g.edges[e]).from == w[i] && g.edges[e].to
                    == w[i + 1];
            assert(g.nodes[g.edges[e].from as int].address == p[i]);
        }
        assert(is_dependency_walk(g, p));
        assert(w.len() > 1);
        assert(p[0] == a && p.last() == target);
    }
    if a != target && exists|p: Seq<Seq<char>>| #[trigger]
        is_dependency_walk(g, p) && p[0] == a && p.last() == target && p.len() > 1 {
        let p = choose|p: Seq<Seq<char>>| #[trigger]
            is_dependency_walk(g, p) && p[0] == a && p.last() == target && p.len() > 1;
        let w = Seq::new(p.len(), |i: int| node_place(g.nodes, p[i]));
        assert forall|i: int| 0 <= i < w.len() - 1 implies #[trigger] step(links, w, i)
            && g.nodes[w[i]].address == p[i] && g.nodes[w[i + 1]].address == p[i + 1] && 0 <= w[i]
            < g.nodes.len() && 0 <= w[i + 1] < g.nodes.len() by {
            assert(depends_on(g, p[i], p[i + 1]));
            let e = choose|e: int|
                0 <= e < g.edges.len() && g.nodes[(#[trigger] g.edges[e]).from as int].address
                    == p[i] && g.nodes[g.edges[e].to as int].address == p[i + 1];
            let x = g.edges[e].from as int;
            let y = g.edges[e].to as int;
            assert(g.nodes[x].address == p[i] && g.nodes[y].address == p[i + 1]);
            assert(w[i] == x && w[i + 1] == y);
        }
        assert(is_path(links, w));
        assert(step(links, w, 0));
        assert(step(links, w, w.len() - 2));
        assert(g.nodes[w[0]].address == a && g.nodes[w.last()].address == target);
        assert(reaches(links, w[0], w.last()));
    }
}

/// Reducing a graph takes an edge exactly where another walk leads from its source to its target,
/// whatever the kinds of the edge and of the nodes; nodes and descriptions stay.
pub proof fn reduction_takes_what_has_a_detour(g: GraphModel, e: Edge)
    requires
        g.valid(),
    ensures
        reduced_graph(g).edges.contains(e) <==> g.edges.contains(e) && !exists|p: Seq<int>|
            #[trigger]
            is_path(links_of(g.edges), p) && p.len() > 2 && p[0] == e.from && p[1] != e.to
                && p.last() == e.to,
        reduced_graph(g).valid(),
        reduced_graph(g).nodes == g.nodes,
        reduced_graph(g).metas == g.metas,
{
    let links = g.links();
    let from = e.from as int;
    let to = e.to as int;
    reduced_graph_edges(g);
    if has_detour(links, from, to) {
        let w = choose|w: int| w != to && #[trigger] links.contains((from, w)) && reaches(
            links,
            w,
            to,
        );
        let q = choose|q: Seq<int>| #[trigger] is_path(links, q) && q[0] == w && q.last() == to;
        let p = seq![from] + q;
        assert forall|i: int| 0 <= i < p.len() - 1 implies #[trigger] step(links, p, i) by {
            if i > 0 {
                assert(step(links, q, i - 1));
            }
        }
        assert(is_path(links, p));
        assert(q.len() > 1);
        assert(p[1] == w && p.last() == to);
    }
    if exists|p: Seq<int>| #[trigger]
        is_path(links_of(g.edges), p) && p.len() > 2 && p[0] == e.from && p[1] != e.to && p.last()
            == e.to {
        let p = choose|p: Seq<int>| #[trigger]
            is_path(links_of(g.edges), p) && p.len() > 2 && p[0] == e.from && p[1] != e.to
                && p.last() == e.to;
        assert(step(links, p, 0));
        let q = p.skip(1);
        assert forall|i: int| 0 <= i < q.len() - 1 implies #[trigger] step(links, q, i) by {
            assert(step(links, p, i + 1));
        }
        assert(is_path(links, q));
        assert(q.last() == to);
        assert(reaches(links, p[1], to));
    }
}

/// An apply order lists the address of every node, of whatever kind, once and nothing else, and
/// whatever a node depends on before the node.
pub proof fn apply_orders_list_every_node(
    g: GraphModel,
    order: Seq<Seq<char>>,
    a: Seq<char>,
    e: int,
)
    requires
        g.valid(),
        is_apply_order(g, order),
        0 <= e < g.edges.len(),
    ensures
        order.len() == g.nodes.len(),
        order.contains(a) <==> exists|i: int|
            0 <= i < g.nodes.len() && (#[trigger] g.nodes[i]).address == a,
        order.no_duplicates(),
        exists|i: int, j: int|
            0 <= i < j < order.len() && #[trigger] order[i] == g.nodes[g.edges[e].to as int].address
                && #[trigger] order[j] == g.nodes[g.edges[e].from as int].address,
{
    let from = g.nodes[g.edges[e].from as int].address;
    let to = g.nodes[g.edges[e].to as int].address;
    assert(names(g.nodes, from) && names(g.nodes, to));
    assert(order.contains(from) && order.contains(to));
    let i = order.index_of(to);
    let j = order.index_of(from);
    assert(order[i] == to && order[j] == from);
}

} // verus!
