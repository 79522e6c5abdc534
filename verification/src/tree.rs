//! The modules of a tree, told by the chains that lead to them, and what that means for the walks
//! over the tree and for the plan's graph.

use vstd::prelude::*;

use crate::blueprint::{
    blank_meta, changed, children_memberships, declared_dependencies, described, edge_addresses,
    graph_fits, is_graph_of, is_hit, member_pairs, memberships, module_dependencies, module_mention,
    module_mentions, module_resources, modules_dependencies, modules_mentions, modules_resources,
    names, node_place, output_mentions, plan_dependencies, plan_graph, plan_mentions, plan_meta,
    plan_nodes, plan_resources, resource_dependencies, resource_mentions, resources_dependencies,
    target_mentions, with_distinct, with_mentions, with_mentions_grows, GraphModel, MetaModel,
    NodeModel,
};
use crate::digraph::{EdgeKind, NodeKind};
use crate::impact::{declared_are, with_distinct_holds, with_distinct_shape};
use crate::order::joined_holds;
use crate::parser::{
    planned_in, planned_in_stack, planned_stack_joins, state_in, state_in_stack, state_stack_joins,
    Action, Plan, PlannedModule, PlannedOutput, PlannedResource, ResourceChange, StateModule,
    StateResource,
};
use crate::paths::link_reaches;
use crate::text::opt_text;

verus! {

// ── Trees ────────────────────────────────────────────────────────────────────

/// Each module of the chain but the first is a child of the one before it.
pub open spec fn leads_down(chain: Seq<PlannedModule>, i: int) -> bool {
    chain[i].child_modules@.contains(chain[i + 1])
}

/// A chain of modules, from parent to child.
pub open spec fn is_chain(chain: Seq<PlannedModule>) -> bool {
    chain.len() > 0 && forall|i: int| 0 <= i < chain.len() - 1 ==> #[trigger] leads_down(chain, i)
}

/// `m` is a module of the tree: a chain of planned modules leads from the root to it.
pub open spec fn in_tree(root: PlannedModule, m: PlannedModule) -> bool {
    exists|chain: Seq<PlannedModule>| #[trigger]
        is_chain(chain) && chain[0] == root && chain.last() == m
}

proof fn in_tree_root(root: PlannedModule)
    ensures
        in_tree(root, root),
{
    assert(is_chain(seq![root]));
    assert(seq![root].last() == root);
}

proof fn in_tree_child(root: PlannedModule, i: int, m: PlannedModule)
    requires
        0 <= i < root.child_modules@.len(),
        in_tree(root.child_modules@[i], m),
    ensures
        in_tree(root, m),
{
    let tail = choose|chain: Seq<PlannedModule>| #[trigger]
        is_chain(chain) && chain[0] == root.child_modules@[i] && chain.last() == m;
    let chain = seq![root] + tail;
    assert forall|k: int| 0 <= k < chain.len() - 1 implies #[trigger] leads_down(chain, k) by {
        if k > 0 {
            assert(leads_down(tail, k - 1));
            assert(chain[k] == tail[k - 1] && chain[k + 1] == tail[k]);
        } else {
            assert(chain[1] == tail[0]);
            assert(root.child_modules@[i] == tail[0]);
        }
    }
    assert(is_chain(chain));
    assert(chain.last() == m);
}

proof fn in_tree_split(root: PlannedModule, m: PlannedModule) -> (i: int)
    requires
        in_tree(root, m),
        m != root,
    ensures
        0 <= i < root.child_modules@.len(),
        in_tree(root.child_modules@[i], m),
{
    let chain = choose|chain: Seq<PlannedModule>| #[trigger]
        is_chain(chain) && chain[0] == root && chain.last() == m;
    assert(chain.len() > 1);
    assert(leads_down(chain, 0));
    let i = root.child_modules@.index_of(chain[1]);
    let tail = chain.skip(1);
    assert forall|k: int| 0 <= k < tail.len() - 1 implies #[trigger] leads_down(tail, k) by {
        assert(leads_down(chain, k + 1));
    }
    assert(is_chain(tail));
    assert(tail[0] == root.child_modules@[i] && tail.last() == m);
    i
}

/// Each module of the chain but the first is a child of the one before it.
pub open spec fn leads_down_state(chain: Seq<StateModule>, i: int) -> bool {
    chain[i].child_modules@.contains(chain[i + 1])
}

/// A chain of modules, from parent to child.
pub open spec fn is_state_chain(chain: Seq<StateModule>) -> bool {
    chain.len() > 0 && forall|i: int| 0 <= i < chain.len() - 1 ==> #[trigger] leads_down_state(chain, i)
}

/// `m` is a module of the tree: a chain of state modules leads from the root to it.
pub open spec fn in_state_tree(root: StateModule, m: StateModule) -> bool {
    exists|chain: Seq<StateModule>| #[trigger]
        is_state_chain(chain) && chain[0] == root && chain.last() == m
}

proof fn in_state_tree_root(root: StateModule)
    ensures
        in_state_tree(root, root),
{
    assert(is_state_chain(seq![root]));
    assert(seq![root].last() == root);
}

proof fn in_state_tree_child(root: StateModule, i: int, m: StateModule)
    requires
        0 <= i < root.child_modules@.len(),
        in_state_tree(root.child_modules@[i], m),
    ensures
        in_state_tree(root, m),
{
    let tail = choose|chain: Seq<StateModule>| #[trigger]
        is_state_chain(chain) && chain[0] == root.child_modules@[i] && chain.last() == m;
    let chain = seq![root] + tail;
    assert forall|k: int| 0 <= k < chain.len() - 1 implies #[trigger] leads_down_state(chain, k) by {
        if k > 0 {
            assert(leads_down_state(tail, k - 1));
            assert(chain[k] == tail[k - 1] && chain[k + 1] == tail[k]);
        } else {
            assert(chain[1] == tail[0]);
            assert(root.child_modules@[i] == tail[0]);
        }
    }
    assert(is_state_chain(chain));
    assert(chain.last() == m);
}

proof fn in_state_tree_split(root: StateModule, m: StateModule) -> (i: int)
    requires
        in_state_tree(root, m),
        m != root,
    ensures
        0 <= i < root.child_modules@.len(),
        in_state_tree(root.child_modules@[i], m),
{
    let chain = choose|chain: Seq<StateModule>| #[trigger]
        is_state_chain(chain) && chain[0] == root && chain.last() == m;
    assert(chain.len() > 1);
    assert(leads_down_state(chain, 0));
    let i = root.child_modules@.index_of(chain[1]);
    let tail = chain.skip(1);
    assert forall|k: int| 0 <= k < tail.len() - 1 implies #[trigger] leads_down_state(tail, k) by {
        assert(leads_down_state(chain, k + 1));
    }
    assert(is_state_chain(tail));
    assert(tail[0] == root.child_modules@[i] && tail.last() == m);
    i
}

// ── Walks ────────────────────────────────────────────────────────────────────

/// What child modules hold, one of them holds.
proof fn planned_in_stack_holds(modules: Seq<PlannedModule>, x: PlannedResource)
    ensures
        planned_in_stack(modules).contains(x) <==> exists|i: int|
            0 <= i < modules.len() && planned_in(#[trigger] modules[i]).contains(x),
    decreases modules.len(),
{
    if modules.len() > 0 {
        let few = modules.drop_last();
        let rest = planned_in_stack(few);
        let last = planned_in(modules.last());
        planned_in_stack_holds(few, x);
        assert(modules[modules.len() - 1] == modules.last());
        joined_holds(rest, last, x);
        joined_holds(last, rest, x);
        if rest.contains(x) {
            let i = choose|i: int| 0 <= i < few.len() && planned_in(#[trigger] few[i]).contains(x);
            assert(modules[i] == few[i]);
        }
        if exists|i: int| 0 <= i < modules.len() && planned_in(#[trigger] modules[i]).contains(x) {
            let i = choose|i: int|
                0 <= i < modules.len() && planned_in(#[trigger] modules[i]).contains(x);
            if i < few.len() {
                assert(few[i] == modules[i]);
            }
        }
    }
}

/// What the walk finds, some module of the tree holds, and the other way round.
proof fn planned_in_holds(root: PlannedModule, x: PlannedResource)
    ensures
        planned_in(root).contains(x) <==> exists|m: PlannedModule| #[trigger]
            in_tree(root, m) && m.resources@.contains(x),
    decreases root,
{
    let sub = root.child_modules@;
    joined_holds(root.resources@, planned_in_stack(sub), x);
    planned_in_stack_holds(sub, x);
    in_tree_root(root);
    if planned_in_stack(sub).contains(x) {
        let i = choose|i: int| 0 <= i < sub.len() && planned_in(#[trigger] sub[i]).contains(x);
        planned_in_holds(sub[i], x);
        let m = choose|m: PlannedModule| #[trigger] in_tree(sub[i], m) && m.resources@.contains(x);
        in_tree_child(root, i, m);
    }
    if exists|m: PlannedModule| #[trigger] in_tree(root, m) && m.resources@.contains(x) {
        let m = choose|m: PlannedModule| #[trigger] in_tree(root, m) && m.resources@.contains(x);
        if m != root {
            let i = in_tree_split(root, m);
            planned_in_holds(sub[i], x);
            assert(planned_in(sub[i]).contains(x));
        }
    }
}

/// What child modules hold, one of them holds.
proof fn state_in_stack_holds(modules: Seq<StateModule>, x: StateResource)
    ensures
        state_in_stack(modules).contains(x) <==> exists|i: int|
            0 <= i < modules.len() && state_in(#[trigger] modules[i]).contains(x),
    decreases modules.len(),
{
    if modules.len() > 0 {
        let few = modules.drop_last();
        let rest = state_in_stack(few);
        let last = state_in(modules.last());
        state_in_stack_holds(few, x);
        assert(modules[modules.len() - 1] == modules.last());
        joined_holds(rest, last, x);
        joined_holds(last, rest, x);
        if rest.contains(x) {
            let i = choose|i: int| 0 <= i < few.len() && state_in(#[trigger] few[i]).contains(x);
            assert(modules[i] == few[i]);
        }
        if exists|i: int| 0 <= i < modules.len() && state_in(#[trigger] modules[i]).contains(x) {
            let i = choose|i: int|
                0 <= i < modules.len() && state_in(#[trigger] modules[i]).contains(x);
            if i < few.len() {
                assert(few[i] == modules[i]);
            }
        }
    }
}

/// What the walk finds, some module of the tree holds, and the other way round.
proof fn state_in_holds(root: StateModule, x: StateResource)
    ensures
        state_in(root).contains(x) <==> exists|m: StateModule| #[trigger]
            in_state_tree(root, m) && m.resources@.contains(x),
    decreases root,
{
    let sub = root.child_modules@;
    joined_holds(root.resources@, state_in_stack(sub), x);
    state_in_stack_holds(sub, x);
    in_state_tree_root(root);
    if state_in_stack(sub).contains(x) {
        let i = choose|i: int| 0 <= i < sub.len() && state_in(#[trigger] sub[i]).contains(x);
        state_in_holds(sub[i], x);
        let m = choose|m: StateModule| #[trigger]
            in_state_tree(sub[i], m) && m.resources@.contains(x);
        in_state_tree_child(root, i, m);
    }
    if exists|m: StateModule| #[trigger] in_state_tree(root, m) && m.resources@.contains(x) {
        let m = choose|m: StateModule| #[trigger]
            in_state_tree(root, m) && m.resources@.contains(x);
        if m != root {
            let i = in_state_tree_split(root, m);
            state_in_holds(sub[i], x);
            assert(state_in(sub[i]).contains(x));
        }
    }
}

/// What child modules hold, one of them holds.
proof fn modules_resources_holds(modules: Seq<PlannedModule>, x: PlannedResource)
    ensures
        modules_resources(modules).contains(x) <==> exists|i: int|
            0 <= i < modules.len() && module_resources(#[trigger] modules[i]).contains(x),
    decreases modules.len(),
{
    if modules.len() > 0 {
        let few = modules.drop_last();
        let rest = modules_resources(few);
        let last = module_resources(modules.last());
        modules_resources_holds(few, x);
        assert(modules[modules.len() - 1] == modules.last());
        joined_holds(rest, last, x);
        joined_holds(last, rest, x);
        if rest.contains(x) {
            let i = choose|i: int|
                0 <= i < few.len() && module_resources(#[trigger] few[i]).contains(x);
            assert(modules[i] == few[i]);
        }
        if exists|i: int|
            0 <= i < modules.len() && module_resources(#[trigger] modules[i]).contains(x) {
            let i = choose|i: int|
                0 <= i < modules.len() && module_resources(#[trigger] modules[i]).contains(x);
            if i < few.len() {
                assert(few[i] == modules[i]);
            }
        }
    }
}

/// What the walk finds, some module of the tree holds, and the other way round.
proof fn module_resources_holds(root: PlannedModule, x: PlannedResource)
    ensures
        module_resources(root).contains(x) <==> exists|m: PlannedModule| #[trigger]
            in_tree(root, m) && m.resources@.contains(x),
    decreases root,
{
    let sub = root.child_modules@;
    joined_holds(root.resources@, modules_resources(sub), x);
    modules_resources_holds(sub, x);
    in_tree_root(root);
    if modules_resources(sub).contains(x) {
        let i = choose|i: int|
            0 <= i < sub.len() && module_resources(#[trigger] sub[i]).contains(x);
        module_resources_holds(sub[i], x);
        let m = choose|m: PlannedModule| #[trigger] in_tree(sub[i], m) && m.resources@.contains(x);
        in_tree_child(root, i, m);
    }
    if exists|m: PlannedModule| #[trigger] in_tree(root, m) && m.resources@.contains(x) {
        let m = choose|m: PlannedModule| #[trigger] in_tree(root, m) && m.resources@.contains(x);
        if m != root {
            let i = in_tree_split(root, m);
            module_resources_holds(sub[i], x);
            assert(module_resources(sub[i]).contains(x));
        }
    }
}

/// What child modules hold, one of them holds.
proof fn modules_dependencies_holds(modules: Seq<PlannedModule>, x: (Seq<char>, Seq<char>))
    ensures
        modules_dependencies(modules).contains(x) <==> exists|i: int|
            0 <= i < modules.len() && module_dependencies(#[trigger] modules[i]).contains(x),
    decreases modules.len(),
{
    if modules.len() > 0 {
        let few = modules.drop_last();
        let rest = modules_dependencies(few);
        let last = module_dependencies(modules.last());
        modules_dependencies_holds(few, x);
        assert(modules[modules.len() - 1] == modules.last());
        joined_holds(rest, last, x);
        joined_holds(last, rest, x);
        if rest.contains(x) {
            let i = choose|i: int|
                0 <= i < few.len() && module_dependencies(#[trigger] few[i]).contains(x);
            assert(modules[i] == few[i]);
        }
        if exists|i: int|
            0 <= i < modules.len() && module_dependencies(#[trigger] modules[i]).contains(x) {
            let i = choose|i: int|
                0 <= i < modules.len() && module_dependencies(#[trigger] modules[i]).contains(x);
            if i < few.len() {
                assert(few[i] == modules[i]);
            }
        }
    }
}

/// What the walk finds, some module of the tree holds, and the other way round.
proof fn module_dependencies_holds(root: PlannedModule, x: (Seq<char>, Seq<char>))
    ensures
        module_dependencies(root).contains(x) <==> exists|m: PlannedModule| #[trigger]
            in_tree(root, m) && resources_dependencies(m.resources@).contains(x),
    decreases root,
{
    let sub = root.child_modules@;
    joined_holds(resources_dependencies(root.resources@), modules_dependencies(sub), x);
    modules_dependencies_holds(sub, x);
    in_tree_root(root);
    if modules_dependencies(sub).contains(x) {
        let i = choose|i: int|
            0 <= i < sub.len() && module_dependencies(#[trigger] sub[i]).contains(x);
        module_dependencies_holds(sub[i], x);
        let m = choose|m: PlannedModule| #[trigger]
            in_tree(sub[i], m) && resources_dependencies(m.resources@).contains(x);
        in_tree_child(root, i, m);
    }
    if exists|m: PlannedModule| #[trigger]
        in_tree(root, m) && resources_dependencies(m.resources@).contains(x) {
        let m = choose|m: PlannedModule| #[trigger]
            in_tree(root, m) && resources_dependencies(m.resources@).contains(x);
        if m != root {
            let i = in_tree_split(root, m);
            module_dependencies_holds(sub[i], x);
            assert(module_dependencies(sub[i]).contains(x));
        }
    }
}

/// What child modules hold, one of them holds.
proof fn modules_mentions_holds(modules: Seq<PlannedModule>, x: NodeModel)
    ensures
        modules_mentions(modules).contains(x) <==> exists|i: int|
            0 <= i < modules.len() && module_mentions(#[trigger] modules[i]).contains(x),
    decreases modules.len(),
{
    if modules.len() > 0 {
        let few = modules.drop_last();
        let rest = modules_mentions(few);
        let last = module_mentions(modules.last());
        modules_mentions_holds(few, x);
        assert(modules[modules.len() - 1] == modules.last());
        joined_holds(rest, last, x);
        joined_holds(last, rest, x);
        if rest.contains(x) {
            let i = choose|i: int|
                0 <= i < few.len() && module_mentions(#[trigger] few[i]).contains(x);
            assert(modules[i] == few[i]);
        }
        if exists|i: int|
            0 <= i < modules.len() && module_mentions(#[trigger] modules[i]).contains(x) {
            let i = choose|i: int|
                0 <= i < modules.len() && module_mentions(#[trigger] modules[i]).contains(x);
            if i < few.len() {
                assert(few[i] == modules[i]);
            }
        }
    }
}

/// What the walk finds, some module of the tree holds, and the other way round.
proof fn module_mentions_holds(root: PlannedModule, x: NodeModel)
    ensures
        module_mentions(root).contains(x) <==> exists|m: PlannedModule| #[trigger]
            in_tree(root, m) && (module_mention(m.address) + resource_mentions(m.resources@)).contains(x),
    decreases root,
{
    let sub = root.child_modules@;
    joined_holds((module_mention(root.address) + resource_mentions(root.resources@)), modules_mentions(sub), x);
    modules_mentions_holds(sub, x);
    in_tree_root(root);
    if modules_mentions(sub).contains(x) {
        let i = choose|i: int| 0 <= i < sub.len() && module_mentions(#[trigger] sub[i]).contains(x);
        module_mentions_holds(sub[i], x);
        let m = choose|m: PlannedModule| #[trigger]
            in_tree(sub[i], m)
                && (module_mention(m.address) + resource_mentions(m.resources@)).contains(x);
        in_tree_child(root, i, m);
    }
    if exists|m: PlannedModule| #[trigger]
        in_tree(root, m)
            && (module_mention(m.address) + resource_mentions(m.resources@)).contains(x) {
        let m = choose|m: PlannedModule| #[trigger]
            in_tree(root, m)
                && (module_mention(m.address) + resource_mentions(m.resources@)).contains(x);
        if m != root {
            let i = in_tree_split(root, m);
            module_mentions_holds(sub[i], x);
            assert(module_mentions(sub[i]).contains(x));
        }
    }
}

/// What child modules and those below them hold, one of them holds.
proof fn children_memberships_holds(modules: Seq<PlannedModule>, x: (Seq<char>, Seq<char>))
    ensures
        children_memberships(modules).contains(x) <==> exists|i: int|
            0 <= i < modules.len() && (member_pairs(
                (#[trigger] modules[i]).address,
                modules[i].resources@,
            ) + memberships(modules[i])).contains(x),
    decreases modules.len(),
{
    if modules.len() > 0 {
        let few = modules.drop_last();
        let last = modules.last();
        let own = member_pairs(last.address, last.resources@);
        let below = memberships(last);
        children_memberships_holds(few, x);
        assert(modules[modules.len() - 1] == last);
        joined_holds(children_memberships(few) + own, below, x);
        joined_holds(children_memberships(few), own, x);
        joined_holds(own, below, x);
        if children_memberships(few).contains(x) {
            let i = choose|i: int|
                0 <= i < few.len() && (member_pairs((#[trigger] few[i]).address, few[i].resources@)
                    + memberships(few[i])).contains(x);
            assert(modules[i] == few[i]);
        }
        if exists|i: int|
            0 <= i < modules.len() && (member_pairs(
                (#[trigger] modules[i]).address,
                modules[i].resources@,
            ) + memberships(modules[i])).contains(x) {
            let i = choose|i: int|
                0 <= i < modules.len() && (member_pairs(
                    (#[trigger] modules[i]).address,
                    modules[i].resources@,
                ) + memberships(modules[i])).contains(x);
            if i < few.len() {
                assert(few[i] == modules[i]);
            }
        }
    }
}

/// A module below the root is a child of a module of the tree.
pub open spec fn is_child_in(root: PlannedModule, m: PlannedModule) -> bool {
    exists|parent: PlannedModule| #[trigger]
        in_tree(root, parent) && parent.child_modules@.contains(m)
}

proof fn memberships_holds(root: PlannedModule, x: (Seq<char>, Seq<char>))
    ensures
        memberships(root).contains(x) <==> exists|m: PlannedModule| #[trigger]
            is_child_in(root, m) && member_pairs(m.address, m.resources@).contains(x),
    decreases root,
{
    let sub = root.child_modules@;
    children_memberships_holds(sub, x);
    in_tree_root(root);
    if memberships(root).contains(x) {
        let i = choose|i: int|
            0 <= i < sub.len() && (member_pairs((#[trigger] sub[i]).address, sub[i].resources@)
                + memberships(sub[i])).contains(x);
        joined_holds(member_pairs(sub[i].address, sub[i].resources@), memberships(sub[i]), x);
        if member_pairs(sub[i].address, sub[i].resources@).contains(x) {
            assert(sub.contains(sub[i]));
            assert(is_child_in(root, sub[i]));
        } else {
            memberships_holds(sub[i], x);
            let m = choose|m: PlannedModule| #[trigger]
                is_child_in(sub[i], m) && member_pairs(m.address, m.resources@).contains(x);
            let parent = choose|parent: PlannedModule| #[trigger]
                in_tree(sub[i], parent) && parent.child_modules@.contains(m);
            in_tree_child(root, i, parent);
            assert(is_child_in(root, m));
        }
    }
    if exists|m: PlannedModule| #[trigger]
        is_child_in(root, m) && member_pairs(m.address, m.resources@).contains(x) {
        let m = choose|m: PlannedModule| #[trigger]
            is_child_in(root, m) && member_pairs(m.address, m.resources@).contains(x);
        let parent = choose|parent: PlannedModule| #[trigger]
            in_tree(root, parent) && parent.child_modules@.contains(m);
        if parent == root {
            let i = sub.index_of(m);
            joined_holds(member_pairs(sub[i].address, sub[i].resources@), memberships(sub[i]), x);
            assert(sub[i] == m);
        } else {
            let i = in_tree_split(root, parent);
            assert(is_child_in(sub[i], m));
            memberships_holds(sub[i], x);
            joined_holds(member_pairs(sub[i].address, sub[i].resources@), memberships(sub[i]), x);
        }
    }
}

/// Members are the resources of the module with another address.
proof fn member_pairs_hold(
    address: Option<String>,
    resources: Seq<PlannedResource>,
    x: (Seq<char>, Seq<char>),
)
    ensures
        member_pairs(address, resources).contains(x) <==> address is Some && x.1 == address->0@
            && x.0 != x.1 && exists|k: int|
            0 <= k < resources.len() && (#[trigger] resources[k]).address@ == x.0,
    decreases resources.len(),
{
    if address is Some && resources.len() > 0 {
        let few = resources.drop_last();
        let before = member_pairs(address, few);
        let last = (resources.last().address@, address->0@);
        member_pairs_hold(address, few, x);
        joined_holds(before, seq![last], x);
        assert(before.push(last) =~= before + seq![last]);
        assert(resources[resources.len() - 1] == resources.last());
        assert(seq![last].contains(x) <==> x == last) by {
            assert(seq![last][0] == last);
        }
        if before.contains(x) {
            let k = choose|k: int| 0 <= k < few.len() && (#[trigger] few[k]).address@ == x.0;
            assert(resources[k] == few[k]);
        }
        if exists|k: int|
            0 <= k < resources.len() && (#[trigger] resources[k]).address@ == x.0 {
            let k = choose|k: int|
                0 <= k < resources.len() && (#[trigger] resources[k]).address@ == x.0;
            if k < few.len() {
                assert(few[k] == resources[k]);
            }
        }
    }
}

/// What resources depend on, one of them depends on.
proof fn resources_dependencies_hold(
    resources: Seq<PlannedResource>,
    x: (Seq<char>, Seq<char>),
)
    ensures
        resources_dependencies(resources).contains(x) <==> exists|k: int|
            0 <= k < resources.len() && depends(#[trigger] resources[k], x.0, x.1),
    decreases resources.len(),
{
    if resources.len() > 0 {
        let few = resources.drop_last();
        let r = resources.last();
        let own = resource_dependencies(r);
        resources_dependencies_hold(few, x);
        joined_holds(resources_dependencies(few), own, x);
        assert(resources[resources.len() - 1] == r);
        assert(own.contains(x) <==> depends(r, x.0, x.1)) by {
            if own.contains(x) {
                let j = own.index_of(x);
                assert(r.depends_on@[j]@ == x.1);
            }
            if depends(r, x.0, x.1) {
                let j = choose|j: int|
                    0 <= j < r.depends_on@.len() && (#[trigger] r.depends_on@[j])@ == x.1;
                assert(own[j] == x);
            }
        }
        if resources_dependencies(few).contains(x) {
            let k = choose|k: int| 0 <= k < few.len() && depends(#[trigger] few[k], x.0, x.1);
            assert(resources[k] == few[k]);
        }
        if exists|k: int| 0 <= k < resources.len() && depends(#[trigger] resources[k], x.0, x.1) {
            let k = choose|k: int|
                0 <= k < resources.len() && depends(#[trigger] resources[k], x.0, x.1);
            if k < few.len() {
                assert(few[k] == resources[k]);
            }
        }
    }
}

// ── What the walks find ──────────────────────────────────────────────────────

/// Both walks over the planned modules find what some module of the tree holds, at whatever depth,
/// and nothing else.
pub proof fn planned_walks_find_all(root: PlannedModule, r: PlannedResource)
    ensures
        planned_in(root).contains(r) <==> exists|m: PlannedModule| #[trigger]
            in_tree(root, m) && m.resources@.contains(r),
        module_resources(root).contains(r) <==> exists|m: PlannedModule| #[trigger]
            in_tree(root, m) && m.resources@.contains(r),
{
    planned_in_holds(root, r);
    module_resources_holds(root, r);
}

/// The walk over the modules of the state finds what some module of the tree holds, at whatever
/// depth, and nothing else.
pub proof fn state_walk_finds_all(root: StateModule, r: StateResource)
    ensures
        state_in(root).contains(r) <==> exists|m: StateModule| #[trigger]
            in_state_tree(root, m) && m.resources@.contains(r),
{
    state_in_holds(root, r);
}

/// The walk over planned modules goes through a module's own resources first, then through its child
/// modules from the last to the first, each with all that is below it.
pub proof fn planned_walk_takes_last_children_first(
    whole: PlannedModule,
    low: PlannedModule,
    high: PlannedModule,
    child: PlannedModule,
)
    requires
        low.resources@.len() == 0,
        high.resources@.len() == 0,
    ensures
        whole.child_modules@.len() == 0 ==> planned_in(whole) == whole.resources@,
        whole.child_modules@ == seq![child] ==> planned_in(whole)
            == whole.resources@ + planned_in(child),
        whole.child_modules@ == low.child_modules@ + high.child_modules@ ==> planned_in(whole)
            == whole.resources@ + planned_in(high) + planned_in(low),
{
    planned_stack_joins(low.child_modules@, high.child_modules@);
    assert(planned_in(low) =~= planned_in_stack(low.child_modules@));
    assert(planned_in(high) =~= planned_in_stack(high.child_modules@));
    assert(seq![child].drop_last() =~= Seq::empty());
    assert(planned_in_stack(seq![child]) =~= planned_in(child)) by {
        reveal_with_fuel(planned_in_stack, 2);
        assert(seq![child].last() == child);
    }
}

/// The walk over the modules of the state goes through a module's own resources first, then through
/// its child modules from the last to the first, each with all that is below it.
pub proof fn state_walk_takes_last_children_first(
    whole: StateModule,
    low: StateModule,
    high: StateModule,
    child: StateModule,
)
    requires
        low.resources@.len() == 0,
        high.resources@.len() == 0,
    ensures
        whole.child_modules@.len() == 0 ==> state_in(whole) == whole.resources@,
        whole.child_modules@ == seq![child] ==> state_in(whole)
            == whole.resources@ + state_in(child),
        whole.child_modules@ == low.child_modules@ + high.child_modules@ ==> state_in(whole)
            == whole.resources@ + state_in(high) + state_in(low),
{
    state_stack_joins(low.child_modules@, high.child_modules@);
    assert(state_in(low) =~= state_in_stack(low.child_modules@));
    assert(state_in(high) =~= state_in_stack(high.child_modules@));
    assert(seq![child].drop_last() =~= Seq::empty());
    assert(state_in_stack(seq![child]) =~= state_in(child)) by {
        reveal_with_fuel(state_in_stack, 2);
        assert(seq![child].last() == child);
    }
}

proof fn modules_resources_join(low: Seq<PlannedModule>, high: Seq<PlannedModule>)
    ensures
        modules_resources(low + high) == modules_resources(low) + modules_resources(high),
    decreases high.len(),
{
    if high.len() == 0 {
        assert(low + high =~= low);
    } else {
        assert((low + high).drop_last() =~= low + high.drop_last());
        modules_resources_join(low, high.drop_last());
    }
}

/// Descriptions are taken from a module's own resources first, then from its child modules in order,
/// each with all that is below it.
pub proof fn descriptions_come_in_order(
    whole: PlannedModule,
    low: PlannedModule,
    high: PlannedModule,
    child: PlannedModule,
)
    requires
        low.resources@.len() == 0,
        high.resources@.len() == 0,
    ensures
        whole.child_modules@.len() == 0 ==> module_resources(whole) == whole.resources@,
        whole.child_modules@ == seq![child] ==> module_resources(whole)
            == whole.resources@ + module_resources(child),
        whole.child_modules@ == low.child_modules@ + high.child_modules@ ==> module_resources(whole)
            == whole.resources@ + module_resources(low) + module_resources(high),
{
    modules_resources_join(low.child_modules@, high.child_modules@);
    assert(module_resources(low) =~= modules_resources(low.child_modules@));
    assert(module_resources(high) =~= modules_resources(high.child_modules@));
    assert(seq![child].drop_last() =~= Seq::empty());
    assert(modules_resources(seq![child]) =~= module_resources(child)) by {
        reveal_with_fuel(modules_resources, 2);
        assert(seq![child].last() == child);
    }
}

// ── Edges ────────────────────────────────────────────────────────────────────

/// The resource at address `a` names address `d` in its `depends_on`.
pub open spec fn depends(r: PlannedResource, a: Seq<char>, d: Seq<char>) -> bool {
    r.address@ == a && exists|j: int|
        0 <= j < r.depends_on@.len() && (#[trigger] r.depends_on@[j])@ == d
}

/// Some resource of the tree at address `a` names address `d` in its `depends_on`.
pub open spec fn tree_depends(root: PlannedModule, a: Seq<char>, d: Seq<char>) -> bool {
    exists|m: PlannedModule, r: PlannedResource|
        #[trigger] in_tree(root, m) && #[trigger] m.resources@.contains(r) && depends(r, a, d)
}

/// Some module below the root has address `d` and holds a resource at address `a`.
pub open spec fn tree_owns(root: PlannedModule, a: Seq<char>, d: Seq<char>) -> bool {
    exists|m: PlannedModule, r: PlannedResource|
        #[trigger] is_child_in(root, m) && #[trigger] m.resources@.contains(r) && m.address is Some
            && m.address->0@ == d && r.address@ == a
}

/// The graph has an edge of the kind from one address to the other.
pub open spec fn has_edge(g: GraphModel, a: Seq<char>, d: Seq<char>, kind: EdgeKind) -> bool {
    exists|i: int|
        0 <= i < g.edges.len() && g.nodes[(#[trigger] g.edges[i]).from as int].address == a
            && g.nodes[g.edges[i].to as int].address == d && g.edges[i].kind == kind
}

proof fn tree_depends_is(root: PlannedModule, a: Seq<char>, d: Seq<char>)
    ensures
        module_dependencies(root).contains((a, d)) <==> tree_depends(root, a, d),
{
    let x = (a, d);
    module_dependencies_holds(root, x);
    if module_dependencies(root).contains(x) {
        let m = choose|m: PlannedModule| #[trigger]
            in_tree(root, m) && resources_dependencies(m.resources@).contains(x);
        resources_dependencies_hold(m.resources@, x);
        let k = choose|k: int|
            0 <= k < m.resources@.len() && depends(#[trigger] m.resources@[k], a, d);
        assert(m.resources@.contains(m.resources@[k]));
    }
    if tree_depends(root, a, d) {
        let (m, r) = choose|m: PlannedModule, r: PlannedResource|
            #[trigger] in_tree(root, m) && #[trigger] m.resources@.contains(r) && depends(r, a, d);
        let k = m.resources@.index_of(r);
        assert(depends(m.resources@[k], a, d));
        resources_dependencies_hold(m.resources@, x);
    }
}

proof fn tree_owns_is(root: PlannedModule, a: Seq<char>, d: Seq<char>)
    ensures
        memberships(root).contains((a, d)) <==> tree_owns(root, a, d) && a != d,
{
    let x = (a, d);
    memberships_holds(root, x);
    if memberships(root).contains(x) {
        let m = choose|m: PlannedModule| #[trigger]
            is_child_in(root, m) && member_pairs(m.address, m.resources@).contains(x);
        member_pairs_hold(m.address, m.resources@, x);
        let k = choose|k: int|
            0 <= k < m.resources@.len() && (#[trigger] m.resources@[k]).address@ == a;
        assert(m.resources@.contains(m.resources@[k]));
    }
    if tree_owns(root, a, d) && a != d {
        let (m, r) = choose|m: PlannedModule, r: PlannedResource|
            #[trigger] is_child_in(root, m) && #[trigger] m.resources@.contains(r)
                && m.address is Some && m.address->0@ == d && r.address@ == a;
        let k = m.resources@.index_of(r);
        assert(m.resources@[k].address@ == a);
        member_pairs_hold(m.address, m.resources@, x);
    }
}

/// Which edges there are, and of which kind.
proof fn edges_are(g: GraphModel, plan: Plan, a: Seq<char>, d: Seq<char>)
    requires
        is_graph_of(g, plan),
        plan.planned_values is Some,
    ensures
        has_edge(g, a, d, EdgeKind::Explicit) <==> module_dependencies(
            plan.planned_values->0.root_module,
        ).contains((a, d)),
        has_edge(g, a, d, EdgeKind::Implicit) <==> memberships(
            plan.planned_values->0.root_module,
        ).contains((a, d)) && !module_dependencies(
            plan.planned_values->0.root_module,
        ).contains((a, d)),
        forall|i: int|
            0 <= i < g.edges.len() && g.nodes[(#[trigger] g.edges[i]).from as int].address == a
                && g.nodes[g.edges[i].to as int].address == d && a != d ==> is_hit(g, d, a),
{
    let root = plan.planned_values->0.root_module;
    let p = (a, d);
    let declared = declared_dependencies(plan);
    let all = plan_dependencies(plan);
    with_distinct_shape(declared, memberships(root));
    declared_are(plan, p);
    assert(g.dependencies().len() == g.edges.len());
    assert forall|i: int| 0 <= i < g.edges.len() implies all[i] == (
        g.nodes[(#[trigger] g.edges[i]).from as int].address,
        g.nodes[g.edges[i].to as int].address,
    ) by {
        assert(edge_addresses(g.edges, g.nodes)[i] == all[i]);
    }
    if declared.contains(p) {
        let i = declared.index_of(p);
        assert(declared[i] == all[i]);
        assert(g.edges[i].kind == EdgeKind::Explicit);
    } else if memberships(root).contains(p) {
        with_distinct_holds(declared, memberships(root), p);
        let i = all.index_of(p);
        if i < declared.len() {
            assert(declared[i] == all[i]);
        }
        assert(g.edges[i].kind == EdgeKind::Implicit);
    }
    assert forall|i: int| 0 <= i < g.edges.len() && all[i] == p implies (
    #[trigger] g.edges[i]).kind == (if declared.contains(p) {
        EdgeKind::Explicit
    } else {
        EdgeKind::Implicit
    }) && (declared.contains(p) || memberships(root).contains(p)) by {
        if i < declared.len() {
            assert(declared[i] == all[i]);
        } else {
            assert(!declared.contains(all[i]));
        }
    }
    assert forall|i: int|
        0 <= i < g.edges.len() && g.nodes[(#[trigger] g.edges[i]).from as int].address == a
            && g.nodes[g.edges[i].to as int].address == d && a != d implies is_hit(g, d, a) by {
        let x = g.edges[i].from as int;
        let y = g.edges[i].to as int;
        assert(g.links().contains((x, y)));
        link_reaches(g.links(), x, y);
        assert(g.nodes[x].address == a && g.nodes[y].address == d);
    }
}

/// In a plan's graph, each `depends_on` of each resource, of whatever module and whatever else the
/// resource says, is an edge from the resource to what it names; and a change of what it names hits
/// the resource.
pub proof fn each_dependency_is_an_edge(
    g: GraphModel,
    plan: Plan,
    m: PlannedModule,
    r: PlannedResource,
    j: int,
)
    requires
        is_graph_of(g, plan),
        plan.planned_values is Some,
        in_tree(plan.planned_values->0.root_module, m),
        m.resources@.contains(r),
        0 <= j < r.depends_on@.len(),
    ensures
        has_edge(g, r.address@, r.depends_on@[j]@, EdgeKind::Explicit),
        r.depends_on@[j]@ != r.address@ ==> is_hit(g, r.depends_on@[j]@, r.address@),
{
    let root = plan.planned_values->0.root_module;
    let a = r.address@;
    let d = r.depends_on@[j]@;
    assert(depends(r, a, d));
    assert(tree_depends(root, a, d));
    tree_depends_is(root, a, d);
    edges_are(g, plan, a, d);
}

/// In a plan's graph, each resource of a module below the root has an edge to the module, if the
/// module has an address of its own; and a change of the module hits the resource.
pub proof fn each_member_has_an_edge(
    g: GraphModel,
    plan: Plan,
    m: PlannedModule,
    r: PlannedResource,
)
    requires
        is_graph_of(g, plan),
        plan.planned_values is Some,
        is_child_in(plan.planned_values->0.root_module, m),
        m.resources@.contains(r),
        m.address is Some,
        r.address@ != m.address->0@,
    ensures
        has_edge(g, r.address@, m.address->0@, EdgeKind::Explicit) || has_edge(
            g,
            r.address@,
            m.address->0@,
            EdgeKind::Implicit,
        ),
        is_hit(g, m.address->0@, r.address@),
{
    let root = plan.planned_values->0.root_module;
    let a = r.address@;
    let d = m.address->0@;
    assert(tree_owns(root, a, d));
    tree_owns_is(root, a, d);
    edges_are(g, plan, a, d);
}

/// In a plan's graph, an edge is explicit where a `depends_on` tells it, and implicit where
/// membership alone does; there is no other edge, and none without planned values.
pub proof fn each_edge_has_its_reason(g: GraphModel, plan: Plan, a: Seq<char>, d: Seq<char>)
    requires
        is_graph_of(g, plan),
    ensures
        has_edge(g, a, d, EdgeKind::Explicit) <==> plan.planned_values is Some && tree_depends(
            plan.planned_values->0.root_module,
            a,
            d,
        ),
        has_edge(g, a, d, EdgeKind::Implicit) <==> plan.planned_values is Some && a != d
            && tree_owns(plan.planned_values->0.root_module, a, d) && !tree_depends(
            plan.planned_values->0.root_module,
            a,
            d,
        ),
{
    assert(g.dependencies().len() == g.edges.len());
    if plan.planned_values is Some {
        let root = plan.planned_values->0.root_module;
        tree_depends_is(root, a, d);
        tree_owns_is(root, a, d);
        edges_are(g, plan, a, d);
    }
}

// ── Nodes ────────────────────────────────────────────────────────────────────

/// Some module of the tree has the address.
pub open spec fn is_module_address(root: PlannedModule, a: Seq<char>) -> bool {
    exists|m: PlannedModule| #[trigger]
        in_tree(root, m) && m.address is Some && m.address->0@ == a
}

/// Some resource of the tree has the address.
pub open spec fn is_resource_address(root: PlannedModule, a: Seq<char>) -> bool {
    exists|m: PlannedModule, r: PlannedResource|
        #[trigger] in_tree(root, m) && #[trigger] m.resources@.contains(r) && r.address@ == a
}

/// Some output has the name that follows `output.` in the address.
pub open spec fn is_output_address(outputs: Seq<(String, PlannedOutput)>, a: Seq<char>) -> bool {
    exists|k: int| 0 <= k < outputs.len() && "output."@ + (#[trigger] outputs[k]).0@ == a
}

/// Some resource of the tree depends on the address.
pub open spec fn is_needed_address(root: PlannedModule, d: Seq<char>) -> bool {
    exists|a: Seq<char>| #[trigger] tree_depends(root, a, d)
}

/// Each node comes from the first mention of its address.
proof fn nodes_are_first_mentions(mentions: Seq<NodeModel>, i: int)
    requires
        0 <= i < with_mentions(Seq::empty(), mentions).len(),
    ensures
        exists|k: int|
            0 <= k < mentions.len() && #[trigger] mentions[k] == with_mentions(
                Seq::empty(),
                mentions,
            )[i] && forall|j: int|
                0 <= j < k ==> (#[trigger] mentions[j]).address != mentions[k].address,
    decreases mentions.len(),
{
    let few = mentions.drop_last();
    let before = with_mentions(Seq::empty(), few);
    let after = with_mentions(Seq::empty(), mentions);
    with_mentions_grows(Seq::empty(), few);
    if i < before.len() {
        nodes_are_first_mentions(few, i);
        let k = choose|k: int|
            0 <= k < few.len() && #[trigger] few[k] == before[i] && forall|j: int|
                0 <= j < k ==> (#[trigger] few[j]).address != few[k].address;
        assert(mentions[k] == after[i]);
        assert forall|j: int| 0 <= j < k implies (#[trigger] mentions[j]).address
            != mentions[k].address by {
            assert(few[j] == mentions[j]);
            assert(few[k] == mentions[k]);
        }
    } else {
        let k = mentions.len() - 1;
        assert(mentions[k] == after[i]);
        assert forall|j: int| 0 <= j < k implies (#[trigger] mentions[j]).address
            != mentions[k].address by {
            assert(few[j] == mentions[j]);
            assert(names(before, few[j].address));
        }
    }
}

/// What a module and its resources are as nodes.
proof fn own_mentions_hold(m: PlannedModule, n: NodeModel)
    ensures
        (module_mention(m.address) + resource_mentions(m.resources@)).contains(n) <==> {
            ||| n.kind == NodeKind::Module && m.address is Some && m.address->0@ == n.address
            ||| n.kind == NodeKind::Resource && exists|r: PlannedResource| #[trigger]
                m.resources@.contains(r) && r.address@ == n.address
        },
{
    let own = module_mention(m.address);
    let rest = resource_mentions(m.resources@);
    joined_holds(own, rest, n);
    if m.address is Some && n == (NodeModel { address: m.address->0@, kind: NodeKind::Module }) {
        assert(own[0] == n);
    }
    if rest.contains(n) {
        let k = rest.index_of(n);
        assert(m.resources@.contains(m.resources@[k]));
    }
    if n.kind == NodeKind::Resource && exists|r: PlannedResource| #[trigger]
        m.resources@.contains(r) && r.address@ == n.address {
        let r = choose|r: PlannedResource| #[trigger]
            m.resources@.contains(r) && r.address@ == n.address;
        let k = m.resources@.index_of(r);
        assert(rest[k] == n);
    }
}

/// What the tree mentions.
proof fn tree_mentions_hold(root: PlannedModule, n: NodeModel)
    ensures
        module_mentions(root).contains(n) <==> {
            ||| n.kind == NodeKind::Module && is_module_address(root, n.address)
            ||| n.kind == NodeKind::Resource && is_resource_address(root, n.address)
        },
{
    module_mentions_holds(root, n);
    if module_mentions(root).contains(n) {
        let m = choose|m: PlannedModule| #[trigger]
            in_tree(root, m) && (module_mention(m.address) + resource_mentions(
                m.resources@,
            )).contains(n);
        own_mentions_hold(m, n);
        if n.kind == NodeKind::Resource {
            let r = choose|r: PlannedResource| #[trigger]
                m.resources@.contains(r) && r.address@ == n.address;
            assert(is_resource_address(root, n.address));
        }
    }
    if n.kind == NodeKind::Module && is_module_address(root, n.address) {
        let m = choose|m: PlannedModule| #[trigger]
            in_tree(root, m) && m.address is Some && m.address->0@ == n.address;
        own_mentions_hold(m, n);
    }
    if n.kind == NodeKind::Resource && is_resource_address(root, n.address) {
        let (m, r) = choose|m: PlannedModule, r: PlannedResource|
            #[trigger] in_tree(root, m) && #[trigger] m.resources@.contains(r) && r.address@
                == n.address;
        own_mentions_hold(m, n);
    }
}

/// What the plan mentions.
proof fn plan_mentions_hold(plan: Plan, n: NodeModel)
    requires
        plan.planned_values is Some,
    ensures
        plan_mentions(plan).contains(n) <==> {
            let root = plan.planned_values->0.root_module;
            ||| n.kind == NodeKind::Module && is_module_address(root, n.address)
            ||| n.kind == NodeKind::Resource && is_resource_address(root, n.address)
            ||| n.kind == NodeKind::Output && is_output_address(
                plan.planned_values->0.outputs@,
                n.address,
            )
            ||| n.kind == NodeKind::Resource && is_needed_address(root, n.address)
        },
{
    let root = plan.planned_values->0.root_module;
    let outputs = plan.planned_values->0.outputs@;
    let pairs = module_dependencies(root);
    let a = module_mentions(root);
    let b = output_mentions(outputs);
    let c = target_mentions(pairs);
    joined_holds(a + b, c, n);
    joined_holds(a, b, n);
    tree_mentions_hold(root, n);
    if b.contains(n) {
        let k = b.index_of(n);
        assert("output."@ + outputs[k].0@ == n.address);
    }
    if n.kind == NodeKind::Output && is_output_address(outputs, n.address) {
        let k = choose|k: int|
            0 <= k < outputs.len() && "output."@ + (#[trigger] outputs[k]).0@ == n.address;
        assert(b[k] == n);
    }
    if c.contains(n) {
        let k = c.index_of(n);
        assert(pairs.contains(pairs[k]));
        tree_depends_is(root, pairs[k].0, pairs[k].1);
        assert(tree_depends(root, pairs[k].0, n.address));
    }
    if n.kind == NodeKind::Resource && is_needed_address(root, n.address) {
        let x = choose|x: Seq<char>| #[trigger] tree_depends(root, x, n.address);
        tree_depends_is(root, x, n.address);
        let k = pairs.index_of((x, n.address));
        assert(c[k] == n);
    }
}

/// A plan's graph has a node for each module, resource and output of the plan and for each address
/// that a resource depends on, at whatever depth, and no other.
pub proof fn each_node_has_its_reason(g: GraphModel, plan: Plan, a: Seq<char>)
    requires
        is_graph_of(g, plan),
    ensures
        names(g.nodes, a) <==> plan.planned_values is Some && {
            let root = plan.planned_values->0.root_module;
            ||| is_module_address(root, a)
            ||| is_resource_address(root, a)
            ||| is_output_address(plan.planned_values->0.outputs@, a)
            ||| is_needed_address(root, a)
        },
{
    let mentions = plan_mentions(plan);
    if names(g.nodes, a) {
        let i = choose|i: int| 0 <= i < g.nodes.len() && (#[trigger] g.nodes[i]).address == a;
        nodes_are_first_mentions(mentions, i);
        let k = choose|k: int|
            0 <= k < mentions.len() && #[trigger] mentions[k] == g.nodes[i] && forall|j: int|
                0 <= j < k ==> (#[trigger] mentions[j]).address != mentions[k].address;
        assert(mentions.contains(mentions[k]));
        plan_mentions_hold(plan, mentions[k]);
    }
    if plan.planned_values is Some {
        with_mentions_grows(Seq::empty(), mentions);
        assert forall|kind: NodeKind| #[trigger]
            mentions.contains(NodeModel { address: a, kind }) implies names(g.nodes, a) by {
            let k = mentions.index_of(NodeModel { address: a, kind });
            assert(names(g.nodes, mentions[k].address));
        }
        plan_mentions_hold(plan, NodeModel { address: a, kind: NodeKind::Module });
        plan_mentions_hold(plan, NodeModel { address: a, kind: NodeKind::Resource });
        plan_mentions_hold(plan, NodeModel { address: a, kind: NodeKind::Output });
    }
}

/// The kind of a node tells what it stands for: a module, if only a module has its address; a
/// resource, if only a resource has it; an output, if neither has it; and otherwise a resource that
/// the plan does not hold.
pub proof fn kinds_tell_what_nodes_are(g: GraphModel, plan: Plan, i: int)
    requires
        is_graph_of(g, plan),
        0 <= i < g.nodes.len(),
    ensures
        plan.planned_values is Some,
        ({
            let root = plan.planned_values->0.root_module;
            let a = g.nodes[i].address;
            let module = is_module_address(root, a);
            let resource = is_resource_address(root, a);
            let output = is_output_address(plan.planned_values->0.outputs@, a);
            &&& g.nodes[i].kind == NodeKind::Module ==> module
            &&& g.nodes[i].kind == NodeKind::Output <==> !module && !resource && output
            &&& module && !resource ==> g.nodes[i].kind == NodeKind::Module
            &&& resource && !module ==> g.nodes[i].kind == NodeKind::Resource
            &&& !module && !resource && !output ==> g.nodes[i].kind == NodeKind::Resource
        }),
{
    let mentions = plan_mentions(plan);
    nodes_are_first_mentions(mentions, i);
    let k = choose|k: int|
        0 <= k < mentions.len() && #[trigger] mentions[k] == g.nodes[i] && forall|j: int|
            0 <= j < k ==> (#[trigger] mentions[j]).address != mentions[k].address;
    let n = mentions[k];
    let root = plan.planned_values->0.root_module;
    let first = module_mentions(root);
    let outputs = output_mentions(plan.planned_values->0.outputs@);
    assert(mentions.contains(n));
    plan_mentions_hold(plan, n);
    let as_module = NodeModel { address: n.address, kind: NodeKind::Module };
    let as_resource = NodeModel { address: n.address, kind: NodeKind::Resource };
    tree_mentions_hold(root, n);
    tree_mentions_hold(root, as_module);
    tree_mentions_hold(root, as_resource);
    if first.contains(as_module) {
        let j = first.index_of(as_module);
        assert(mentions[j] == as_module);
        assert(k < first.len());
    }
    if first.contains(as_resource) {
        let j = first.index_of(as_resource);
        assert(mentions[j] == as_resource);
        assert(k < first.len());
    }
    if k < first.len() {
        assert(first[k] == n);
        assert(first.contains(n));
    }
    if is_output_address(plan.planned_values->0.outputs@, n.address) {
        let j = choose|j: int|
            0 <= j < plan.planned_values->0.outputs@.len() && "output."@ + (
            #[trigger] plan.planned_values->0.outputs@[j]).0@ == n.address;
        assert(outputs[j].address == n.address);
        assert(mentions[first.len() + j] == outputs[j]);
        assert(k <= first.len() + j);
        if k >= first.len() {
            assert(mentions[k] == outputs[k - first.len()]);
        }
    }
}

// ── Descriptions ─────────────────────────────────────────────────────────────

proof fn described_is(
    base: MetaModel,
    resources: Seq<PlannedResource>,
    a: Seq<char>,
    k: int,
)
    requires
        forall|j: int|
            k < j < resources.len() ==> (#[trigger] resources[j]).address@ != a,
        -1 <= k < resources.len(),
        k >= 0 ==> resources[k].address@ == a,
    ensures
        k < 0 ==> described(base, resources, a) == base,
        k >= 0 ==> {
            &&& described(base, resources, a).resource_type == opt_text(resources[k].resource_type)
            &&& described(base, resources, a).provider == opt_text(resources[k].provider_name)
            &&& described(base, resources, a).module_address == opt_text(
                resources[k].module_address,
            )
        },
    decreases resources.len(),
{
    if resources.len() > 0 {
        let few = resources.drop_last();
        assert(resources[resources.len() - 1] == resources.last());
        if k < few.len() {
            assert forall|j: int| k < j < few.len() implies (#[trigger] few[j]).address@ != a by {
                assert(few[j] == resources[j]);
            }
            described_is(base, few, a, k);
        }
    }
}

proof fn changed_is(base: Seq<Action>, changes: Seq<ResourceChange>, a: Seq<char>, k: int)
    requires
        forall|j: int| k < j < changes.len() ==> (#[trigger] changes[j]).address@ != a,
        -1 <= k < changes.len(),
        k >= 0 ==> changes[k].address@ == a,
    ensures
        changed(base, changes, a) == (if k < 0 {
            base
        } else {
            changes[k].change.actions@
        }),
    decreases changes.len(),
{
    if changes.len() > 0 {
        let few = changes.drop_last();
        assert(changes[changes.len() - 1] == changes.last());
        if k < few.len() {
            assert forall|j: int| k < j < few.len() implies (#[trigger] few[j]).address@ != a by {
                assert(few[j] == changes[j]);
            }
            changed_is(base, few, a, k);
        }
    }
}

/// In a plan's graph, the actions of a node are those of the last change with its address, of
/// whatever kind the node is, and there are none where no change has it.
pub proof fn actions_come_from_the_last_change(g: GraphModel, plan: Plan, i: int, k: int)
    requires
        is_graph_of(g, plan),
        0 <= i < g.nodes.len(),
        forall|j: int|
            k < j < plan.resource_changes@.len() ==> (
            #[trigger] plan.resource_changes@[j]).address@ != g.nodes[i].address,
        -1 <= k < plan.resource_changes@.len(),
        k >= 0 ==> plan.resource_changes@[k].address@ == g.nodes[i].address,
    ensures
        k >= 0 ==> g.metas[i].actions == plan.resource_changes@[k].change.actions@,
        k < 0 ==> g.metas[i].actions.len() == 0,
{
    changed_is(Seq::empty(), plan.resource_changes@, g.nodes[i].address, k);
    assert(g.metas[i] == plan_meta(plan, g.nodes[i].address));
}

/// In a plan's graph, type, provider and module of a node are those of the last planned resource
/// with its address; nothing is said of them where no resource of the plan has it.
pub proof fn descriptions_come_from_the_resource(g: GraphModel, plan: Plan, i: int, k: int)
    requires
        is_graph_of(g, plan),
        plan.planned_values is Some,
        0 <= i < g.nodes.len(),
        0 <= k < module_resources(plan.planned_values->0.root_module).len(),
        module_resources(plan.planned_values->0.root_module)[k].address@ == g.nodes[i].address,
        forall|j: int|
            k < j < module_resources(plan.planned_values->0.root_module).len() ==> (
            #[trigger] module_resources(plan.planned_values->0.root_module)[j]).address@
                != g.nodes[i].address,
    ensures
        ({
            let r = module_resources(plan.planned_values->0.root_module)[k];
            &&& g.metas[i].resource_type is Some == r.resource_type is Some
            &&& r.resource_type is Some ==> g.metas[i].resource_type->0 == r.resource_type->0@
            &&& g.metas[i].provider is Some == r.provider_name is Some
            &&& r.provider_name is Some ==> g.metas[i].provider->0 == r.provider_name->0@
            &&& g.metas[i].module_address is Some == r.module_address is Some
            &&& r.module_address is Some ==> g.metas[i].module_address->0 == r.module_address->0@
        }),
{
    described_is(blank_meta(), plan_resources(plan), g.nodes[i].address, k);
    assert(g.metas[i] == plan_meta(plan, g.nodes[i].address));
}

/// In a plan's graph, a node whose address no planned resource has, at any depth, has neither type
/// nor provider nor module.
pub proof fn other_nodes_are_not_described(g: GraphModel, plan: Plan, i: int)
    requires
        is_graph_of(g, plan),
        plan.planned_values is Some,
        0 <= i < g.nodes.len(),
        !is_resource_address(plan.planned_values->0.root_module, g.nodes[i].address),
    ensures
        g.metas[i].resource_type is None,
        g.metas[i].provider is None,
        g.metas[i].module_address is None,
{
    let root = plan.planned_values->0.root_module;
    let a = g.nodes[i].address;
    let all = module_resources(root);
    assert forall|j: int| -1 < j < all.len() implies (#[trigger] all[j]).address@ != a by {
        assert(all.contains(all[j]));
        module_resources_holds(root, all[j]);
        let m = choose|m: PlannedModule| #[trigger]
            in_tree(root, m) && m.resources@.contains(all[j]);
        if all[j].address@ == a {
            assert(is_resource_address(root, a));
        }
    }
    described_is(blank_meta(), all, a, -1);
    assert(g.metas[i] == plan_meta(plan, a));
}

// ── The graph itself ─────────────────────────────────────────────────────────

/// No address is listed twice.
proof fn nodes_are_distinct(mentions: Seq<NodeModel>, i: int, j: int)
    requires
        0 <= i < j < with_mentions(Seq::empty(), mentions).len(),
    ensures
        with_mentions(Seq::empty(), mentions)[i].address != with_mentions(
            Seq::empty(),
            mentions,
        )[j].address,
    decreases mentions.len(),
{
    let few = mentions.drop_last();
    let before = with_mentions(Seq::empty(), few);
    if j < before.len() {
        nodes_are_distinct(few, i, j);
    } else {
        assert(before[i].address != mentions.last().address);
    }
}

proof fn with_distinct_is_distinct<P>(known: Seq<P>, more: Seq<P>)
    requires
        known.no_duplicates(),
    ensures
        with_distinct(known, more).no_duplicates(),
    decreases more.len(),
{
    if more.len() > 0 {
        with_distinct_is_distinct(known, more.drop_last());
    }
}

/// A plan whose nodes and dependencies can be counted in 32 bits has a graph: each node has an
/// address of its own and a description, each edge joins two nodes, and no two edges join the same
/// nodes the same way.
pub proof fn plans_have_graphs(plan: Plan)
    ensures
        graph_fits(plan) <==> plan_graph(plan).nodes.len() <= 0xffff_ffff && plan_graph(
            plan,
        ).edges.len() <= 0xffff_ffff,
        graph_fits(plan) ==> is_graph_of(plan_graph(plan), plan) && plan_graph(plan).valid(),
        plan.planned_values is None ==> graph_fits(plan) && plan_graph(plan).nodes.len() == 0,
{
    let g = plan_graph(plan);
    let mentions = plan_mentions(plan);
    let pairs = plan_dependencies(plan);
    if graph_fits(plan) {
        assert forall|i: int, j: int|
            0 <= i < g.nodes.len() && 0 <= j < g.nodes.len() && (#[trigger] g.nodes[i]).address == (
            #[trigger] g.nodes[j]).address implies i == j by {
            if i < j {
                nodes_are_distinct(mentions, i, j);
            } else if j < i {
                nodes_are_distinct(mentions, j, i);
            }
        }
        assert forall|i: int| 0 <= i < pairs.len() implies names(g.nodes, (#[trigger] pairs[i]).0)
            && names(g.nodes, pairs[i].1) by {
            ends_are_nodes(plan, i);
        }
        assert forall|i: int| 0 <= i < g.edges.len() implies (#[trigger] g.edges[i]).from
            < g.nodes.len() && g.edges[i].to < g.nodes.len() && g.nodes[g.edges[i].from as int].address
            == pairs[i].0 && g.nodes[g.edges[i].to as int].address == pairs[i].1 by {
            assert(names(g.nodes, pairs[i].0) && names(g.nodes, pairs[i].1));
            let x = node_place(g.nodes, pairs[i].0);
            let y = node_place(g.nodes, pairs[i].1);
            assert(0 <= x < g.nodes.len() && 0 <= y < g.nodes.len());
        }
        with_distinct_is_distinct(Seq::empty(), match plan.planned_values {
            Some(pv) => module_dependencies(pv.root_module),
            None => Seq::empty(),
        });
        if plan.planned_values is Some {
            with_distinct_is_distinct(
                declared_dependencies(plan),
                memberships(plan.planned_values->0.root_module),
            );
        }
        assert(pairs.no_duplicates());
        assert forall|i: int, j: int|
            0 <= i < g.edges.len() && 0 <= j < g.edges.len() && (#[trigger] g.edges[i]).from == (
            #[trigger] g.edges[j]).from && g.edges[i].to == g.edges[j].to implies i == j by {
            assert(pairs[i] == pairs[j]);
        }
        assert(g.dependencies() =~= pairs);
    }
}

/// Both ends of a dependency are nodes.
proof fn ends_are_nodes(plan: Plan, i: int)
    requires
        0 <= i < plan_dependencies(plan).len(),
    ensures
        names(plan_nodes(plan), plan_dependencies(plan)[i].0),
        names(plan_nodes(plan), plan_dependencies(plan)[i].1),
{
    let mentions = plan_mentions(plan);
    let root = plan.planned_values->0.root_module;
    let declared = declared_dependencies(plan);
    let (a, d) = plan_dependencies(plan)[i];
    with_mentions_grows(Seq::empty(), mentions);
    with_distinct_shape(declared, memberships(root));
    assert forall|n: NodeModel| #[trigger] mentions.contains(n) implies names(
        plan_nodes(plan),
        n.address,
    ) by {
        let k = mentions.index_of(n);
        assert(names(plan_nodes(plan), mentions[k].address));
    }
    let source = NodeModel { address: a, kind: NodeKind::Resource };
    let target = NodeModel { address: d, kind: NodeKind::Resource };
    let owner = NodeModel { address: d, kind: NodeKind::Module };
    plan_mentions_hold(plan, source);
    plan_mentions_hold(plan, target);
    plan_mentions_hold(plan, owner);
    if i < declared.len() {
        assert(declared[i] == plan_dependencies(plan)[i]);
        declared_are(plan, (a, d));
        tree_depends_is(root, a, d);
        let (m, r) = choose|m: PlannedModule, r: PlannedResource|
            #[trigger] in_tree(root, m) && #[trigger] m.resources@.contains(r) && depends(r, a, d);
        assert(is_resource_address(root, a));
        assert(is_needed_address(root, d));
        assert(mentions.contains(source) && mentions.contains(target));
    } else {
        tree_owns_is(root, a, d);
        assert(tree_owns(root, a, d));
        let (m, r) = choose|m: PlannedModule, r: PlannedResource|
            #[trigger] is_child_in(root, m) && #[trigger] m.resources@.contains(r)
                && m.address is Some && m.address->0@ == d && r.address@ == a;
        child_is_in_tree(root, m);
        assert(is_resource_address(root, a));
        assert(is_module_address(root, d));
        assert(mentions.contains(source) && mentions.contains(owner));
    }
}

/// A child of a module of the tree is a module of the tree.
proof fn child_is_in_tree(root: PlannedModule, m: PlannedModule)
    requires
        is_child_in(root, m),
    ensures
        in_tree(root, m),
{
    let parent = choose|parent: PlannedModule| #[trigger]
        in_tree(root, parent) && parent.child_modules@.contains(m);
    let start = choose|chain: Seq<PlannedModule>| #[trigger]
        is_chain(chain) && chain[0] == root && chain.last() == parent;
    let chain = start.push(m);
    assert forall|k: int| 0 <= k < chain.len() - 1 implies #[trigger] leads_down(chain, k) by {
        if k < start.len() - 1 {
            assert(leads_down(start, k));
        }
    }
    assert(is_chain(chain));
    assert(chain.last() == m);
}

// ── Orders ───────────────────────────────────────────────────────────────────

proof fn modules_mentions_join(low: Seq<PlannedModule>, high: Seq<PlannedModule>)
    ensures
        modules_mentions(low + high) == modules_mentions(low) + modules_mentions(high),
    decreases high.len(),
{
    if high.len() == 0 {
        assert(low + high =~= low);
    } else {
        assert((low + high).drop_last() =~= low + high.drop_last());
        modules_mentions_join(low, high.drop_last());
        assert(modules_mentions(low + high) =~= modules_mentions(low) + modules_mentions(high));
    }
}

/// Nodes are mentioned module by module: the module and its resources first, then its child modules
/// in order, each with all that is below it.
pub proof fn mentions_come_in_order(
    whole: PlannedModule,
    low: PlannedModule,
    high: PlannedModule,
    child: PlannedModule,
)
    requires
        low.resources@.len() == 0,
        high.resources@.len() == 0,
        low.address is None,
        high.address is None,
    ensures
        whole.child_modules@.len() == 0 ==> module_mentions(whole)
            == module_mention(whole.address) + resource_mentions(whole.resources@),
        whole.child_modules@ == seq![child] ==> module_mentions(whole)
            == module_mention(whole.address) + resource_mentions(whole.resources@) + module_mentions(child),
        whole.child_modules@ == low.child_modules@ + high.child_modules@ ==> module_mentions(whole)
            == module_mention(whole.address) + resource_mentions(whole.resources@)
            + module_mentions(low) + module_mentions(high),
{
    modules_mentions_join(low.child_modules@, high.child_modules@);
    assert(module_mention(low.address) + resource_mentions(low.resources@) =~= Seq::empty());
    assert(module_mention(high.address) + resource_mentions(high.resources@) =~= Seq::empty());
    assert(module_mentions(low) =~= modules_mentions(low.child_modules@));
    assert(module_mentions(high) =~= modules_mentions(high.child_modules@));
    assert(seq![child].drop_last() =~= Seq::empty());
    assert(modules_mentions(seq![child]) =~= module_mentions(child)) by {
        reveal_with_fuel(modules_mentions, 2);
        assert(seq![child].last() == child);
    }
}

proof fn modules_dependencies_join(low: Seq<PlannedModule>, high: Seq<PlannedModule>)
    ensures
        modules_dependencies(low + high) == modules_dependencies(low) + modules_dependencies(high),
    decreases high.len(),
{
    if high.len() == 0 {
        assert(low + high =~= low);
    } else {
        assert((low + high).drop_last() =~= low + high.drop_last());
        modules_dependencies_join(low, high.drop_last());
        assert(modules_dependencies(low + high) =~= modules_dependencies(low) + modules_dependencies(high));
    }
}

/// Dependencies are declared module by module: those of a module's own resources first, then those of
/// its child modules in order, each with all that is below it.
pub proof fn declarations_come_in_order(
    whole: PlannedModule,
    low: PlannedModule,
    high: PlannedModule,
    child: PlannedModule,
)
    requires
        low.resources@.len() == 0,
        high.resources@.len() == 0,
    ensures
        whole.child_modules@.len() == 0 ==> module_dependencies(whole)
            == resources_dependencies(whole.resources@),
        whole.child_modules@ == seq![child] ==> module_dependencies(whole)
            == resources_dependencies(whole.resources@) + module_dependencies(child),
        whole.child_modules@ == low.child_modules@ + high.child_modules@ ==> module_dependencies(whole)
            == resources_dependencies(whole.resources@)
            + module_dependencies(low) + module_dependencies(high),
{
    modules_dependencies_join(low.child_modules@, high.child_modules@);
    assert(resources_dependencies(low.resources@) =~= Seq::empty());
    assert(resources_dependencies(high.resources@) =~= Seq::empty());
    assert(module_dependencies(low) =~= modules_dependencies(low.child_modules@));
    assert(module_dependencies(high) =~= modules_dependencies(high.child_modules@));
    assert(seq![child].drop_last() =~= Seq::empty());
    assert(modules_dependencies(seq![child]) =~= module_dependencies(child)) by {
        reveal_with_fuel(modules_dependencies, 2);
        assert(seq![child].last() == child);
    }
}

/// A module with an address is mentioned before its resources, which follow in order.
pub proof fn modules_come_before_their_resources(m: PlannedModule, k: int)
    requires
        0 <= k < m.resources@.len(),
    ensures
        m.address is Some ==> {
            &&& module_mentions(m)[0] == (NodeModel {
                address: m.address->0@,
                kind: NodeKind::Module,
            })
            &&& module_mentions(m)[1 + k] == (NodeModel {
                address: m.resources@[k].address@,
                kind: NodeKind::Resource,
            })
        },
        m.address is None ==> module_mentions(m)[k] == (NodeModel {
            address: m.resources@[k].address@,
            kind: NodeKind::Resource,
        }),
{
}

/// Resources declare their dependencies in order, each of them one for each `depends_on`, in order.
pub proof fn resources_declare_in_order(
    a: Seq<PlannedResource>,
    b: Seq<PlannedResource>,
    r: PlannedResource,
    k: int,
)
    ensures
        resources_dependencies(a + b) == resources_dependencies(a) + resources_dependencies(b),
        resources_dependencies(seq![r]).len() == r.depends_on@.len(),
        0 <= k < r.depends_on@.len() ==> resources_dependencies(seq![r])[k] == (
            r.address@,
            r.depends_on@[k]@,
        ),
    decreases b.len(),
{
    reveal_with_fuel(resources_dependencies, 2);
    assert(seq![r].drop_last() =~= Seq::empty());
    assert(seq![r].last() == r);
    assert(resources_dependencies(seq![r]) =~= resource_dependencies(r));
    if b.len() == 0 {
        assert(a + b =~= a);
    } else {
        assert((a + b).drop_last() =~= a + b.drop_last());
        resources_declare_in_order(a, b.drop_last(), r, k);
        assert(resources_dependencies(a + b) =~= resources_dependencies(a)
            + resources_dependencies(b));
    }
}

/// The plan mentions its modules and resources first, then its outputs in order, then the addresses
/// that its resources depend on, in the order of their declaration.
pub proof fn plans_mention_in_order(plan: Plan, k: int)
    requires
        plan.planned_values is Some,
    ensures
        ({
            let root = plan.planned_values->0.root_module;
            let outputs = plan.planned_values->0.outputs@;
            let tree = module_mentions(root);
            let declared = module_dependencies(root);
            let all = plan_mentions(plan);
            &&& all.len() == tree.len() + outputs.len() + declared.len()
            &&& 0 <= k < tree.len() ==> all[k] == tree[k]
            &&& 0 <= k < outputs.len() ==> all[tree.len() + k] == (NodeModel {
                address: "output."@ + outputs[k].0@,
                kind: NodeKind::Output,
            })
            &&& 0 <= k < declared.len() ==> all[tree.len() + outputs.len() + k] == (NodeModel {
                address: declared[k].1,
                kind: NodeKind::Resource,
            })
        }),
{
}

/// Nodes stand in the order in which their addresses are first mentioned.
pub proof fn nodes_come_in_order(mentions: Seq<NodeModel>, i: int, j: int) -> (places: (int, int))
    requires
        0 <= i < j < with_mentions(Seq::empty(), mentions).len(),
    ensures
        0 <= places.0 < places.1 < mentions.len(),
        mentions[places.0] == with_mentions(Seq::empty(), mentions)[i],
        mentions[places.1] == with_mentions(Seq::empty(), mentions)[j],
        forall|k: int|
            0 <= k < places.0 ==> (#[trigger] mentions[k]).address != mentions[places.0].address,
        forall|k: int|
            0 <= k < places.1 ==> (#[trigger] mentions[k]).address != mentions[places.1].address,
    decreases mentions.len(),
{
    let few = mentions.drop_last();
    let before = with_mentions(Seq::empty(), few);
    with_mentions_grows(Seq::empty(), few);
    if j < before.len() {
        let places = nodes_come_in_order(few, i, j);
        assert(few[places.0] == mentions[places.0] && few[places.1] == mentions[places.1]);
        assert forall|k: int| 0 <= k < places.1 implies (#[trigger] mentions[k]).address
            != mentions[places.1].address && (k < places.0 ==> mentions[k].address
            != mentions[places.0].address) by {
            assert(few[k] == mentions[k]);
        }
        places
    } else {
        nodes_are_first_mentions(few, i);
        let k = choose|k: int|
            0 <= k < few.len() && #[trigger] few[k] == before[i] && forall|l: int|
                0 <= l < k ==> (#[trigger] few[l]).address != few[k].address;
        assert(mentions[k] == few[k]);
        assert forall|l: int| 0 <= l < few.len() implies (#[trigger] mentions[l]).address
            != mentions.last().address && (l < k ==> mentions[l].address != mentions[k].address) by {
            assert(few[l] == mentions[l]);
            assert(names(before, few[l].address));
        }
        (k, few.len() as int)
    }
}

/// `p` is declared before `q` is declared for the first time.
pub open spec fn declared_in_order(
    declared: Seq<(Seq<char>, Seq<char>)>,
    p: (Seq<char>, Seq<char>),
    q: (Seq<char>, Seq<char>),
) -> bool {
    exists|k: int, l: int|
        0 <= k < l < declared.len() && #[trigger] declared[k] == p && #[trigger] declared[l] == q
            && forall|n: int| 0 <= n < l ==> #[trigger] declared[n] != q
}

/// In a plan's graph, explicit edges come before implicit ones, and explicit ones in the order in
/// which they are first declared.
pub proof fn edges_come_in_order(g: GraphModel, plan: Plan, i: int, j: int)
    requires
        is_graph_of(g, plan),
        plan.planned_values is Some,
        0 <= i < j < g.edges.len(),
    ensures
        g.edges[i].kind == EdgeKind::Implicit ==> g.edges[j].kind == EdgeKind::Implicit,
        g.edges[j].kind == EdgeKind::Explicit ==> declared_in_order(
            module_dependencies(plan.planned_values->0.root_module),
            (g.nodes[g.edges[i].from as int].address, g.nodes[g.edges[i].to as int].address),
            (g.nodes[g.edges[j].from as int].address, g.nodes[g.edges[j].to as int].address),
        ),
{
    let root = plan.planned_values->0.root_module;
    let declared = declared_dependencies(plan);
    let all = plan_dependencies(plan);
    with_distinct_shape(declared, memberships(root));
    assert(g.dependencies().len() == g.edges.len());
    assert(edge_addresses(g.edges, g.nodes)[i] == all[i]);
    assert(edge_addresses(g.edges, g.nodes)[j] == all[j]);
    if g.edges[j].kind == EdgeKind::Explicit {
        assert(declared[i] == all[i] && declared[j] == all[j]);
        let (k, l) = distinct_come_in_order(module_dependencies(root), i, j);
        assert(module_dependencies(root)[k] == all[i] && module_dependencies(root)[l] == all[j]);
    }
}

proof fn distinct_come_in_order<P>(more: Seq<P>, i: int, j: int) -> (places: (int, int))
    requires
        0 <= i < j < with_distinct(Seq::empty(), more).len(),
    ensures
        0 <= places.0 < places.1 < more.len(),
        more[places.0] == with_distinct(Seq::empty(), more)[i],
        more[places.1] == with_distinct(Seq::empty(), more)[j],
        forall|k: int| 0 <= k < places.1 ==> #[trigger] more[k] != more[places.1],
    decreases more.len(),
{
    let few = more.drop_last();
    let before = with_distinct(Seq::empty(), few);
    with_distinct_shape(Seq::empty(), few);
    if j < before.len() {
        let places = distinct_come_in_order(few, i, j);
        assert forall|k: int| 0 <= k < places.1 implies #[trigger] more[k] != more[places.1] by {
            assert(few[k] == more[k]);
        }
        places
    } else {
        assert(few.contains(before[i]));
        let k = few.index_of(before[i]);
        assert(more[k] == before[i]);
        assert forall|l: int| 0 <= l < few.len() implies #[trigger] more[l] != more.last() by {
            assert(few[l] == more[l]);
            assert(few.contains(few[l]));
            with_distinct_holds(Seq::empty(), few, few[l]);
        }
        (k, few.len() as int)
    }
}

proof fn member_pairs_join(
    address: Option<String>,
    a: Seq<PlannedResource>,
    b: Seq<PlannedResource>,
)
    ensures
        member_pairs(address, a + b) == member_pairs(address, a) + member_pairs(address, b),
    decreases b.len(),
{
    if b.len() == 0 {
        assert(a + b =~= a);
        assert(member_pairs(address, a) + member_pairs(address, b) =~= member_pairs(address, a));
    } else {
        assert((a + b).drop_last() =~= a + b.drop_last());
        assert((a + b).last() == b.last());
        member_pairs_join(address, a, b.drop_last());
        assert(member_pairs(address, a + b) =~= member_pairs(address, a) + member_pairs(
            address,
            b,
        ));
    }
}

/// The members of a module come in the order of its resources, each once; a resource at the address
/// of the module is none, and a module without an address has none.
pub proof fn members_come_in_order(
    address: String,
    a: Seq<PlannedResource>,
    b: Seq<PlannedResource>,
    r: PlannedResource,
)
    ensures
        member_pairs(Some(address), a + b) == member_pairs(Some(address), a) + member_pairs(
            Some(address),
            b,
        ),
        r.address@ != address@ ==> member_pairs(Some(address), seq![r]) == seq![
            (r.address@, address@),
        ],
        r.address@ == address@ ==> member_pairs(Some(address), seq![r]).len() == 0,
        member_pairs(None, a).len() == 0,
{
    member_pairs_join(Some(address), a, b);
    reveal_with_fuel(member_pairs, 2);
    assert(seq![r].drop_last() =~= Seq::empty());
    assert(seq![r].last() == r);
    if r.address@ != address@ {
        assert(member_pairs(Some(address), seq![r]) =~= seq![(r.address@, address@)]);
    }
}

proof fn children_memberships_join(low: Seq<PlannedModule>, high: Seq<PlannedModule>)
    ensures
        children_memberships(low + high) == children_memberships(low) + children_memberships(high),
    decreases high.len(),
{
    if high.len() == 0 {
        assert(low + high =~= low);
        assert(children_memberships(low) + children_memberships(high) =~= children_memberships(
            low,
        ));
    } else {
        assert((low + high).drop_last() =~= low + high.drop_last());
        assert((low + high).last() == high.last());
        children_memberships_join(low, high.drop_last());
        assert(children_memberships(low + high) =~= children_memberships(low)
            + children_memberships(high));
    }
}

/// Memberships come child module by child module, in order: the members of each, and then those of
/// the modules below it. The root has no members.
pub proof fn memberships_come_in_order(
    whole: PlannedModule,
    low: PlannedModule,
    high: PlannedModule,
    child: PlannedModule,
)
    ensures
        whole.child_modules@.len() == 0 ==> memberships(whole).len() == 0,
        whole.child_modules@ == seq![child] ==> memberships(whole) == member_pairs(
            child.address,
            child.resources@,
        ) + memberships(child),
        whole.child_modules@ == low.child_modules@ + high.child_modules@ ==> memberships(whole)
            == memberships(low) + memberships(high),
{
    children_memberships_join(low.child_modules@, high.child_modules@);
    reveal_with_fuel(children_memberships, 2);
    assert(seq![child].drop_last() =~= Seq::empty());
    assert(seq![child].last() == child);
    assert(children_memberships(seq![child]) =~= member_pairs(child.address, child.resources@)
        + memberships(child));
}

} // verus!
