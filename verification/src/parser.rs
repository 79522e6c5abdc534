//! The plan as the tools print it, and the walks over its module trees.
//!
//! Attribute values stay what the JSON reader made of them: nothing here looks inside.

use serde_json::Value;
use vstd::prelude::*;

verus! {

#[verifier::external_type_specification]
#[verifier::external_body]
pub struct ExValue(serde_json::Value);

// ── Leaf enums ───────────────────────────────────────────────────────────────

#[derive(Debug, Clone, Copy, PartialEq, Eq, Structural)]
pub enum Action {
    NoOp,
    Create,
    Read,
    Update,
    Delete,
    /// Removes the resource from state without destroying the real infrastructure object.
    Forget,
}

#[derive(Debug, Clone, Copy, PartialEq, Eq, Structural)]
pub enum ResourceMode {
    Managed,
    Data,
}

#[derive(Debug, Clone, PartialEq, Eq)]
pub enum ResourceIndex {
    Number(i64),
    String(String),
}

// ── Change structs ───────────────────────────────────────────────────────────

#[derive(Debug, Clone)]
pub struct ImportInfo {
    pub id: String,
}

#[derive(Debug, Clone)]
pub struct ChangeDetails {
    pub actions: Vec<Action>,
    pub before: Option<Value>,
    pub after: Option<Value>,
    pub after_unknown: Option<Value>,
    pub before_sensitive: Option<Value>,
    pub after_sensitive: Option<Value>,
    /// Paths into the object that caused the replace action, e.g. `[["triggers"]]`.
    pub replace_paths: Option<Value>,
    /// Present when this change is an import operation.
    pub importing: Option<ImportInfo>,
    pub generated_config: Option<String>,
}

#[derive(Debug, Clone)]
pub struct OutputChangeDetails {
    pub actions: Vec<Action>,
    pub before: Option<Value>,
    pub after: Option<Value>,
    pub after_unknown: Option<Value>,
    pub before_sensitive: Option<Value>,
    pub after_sensitive: Option<Value>,
    pub importing: Option<ImportInfo>,
    pub generated_config: Option<String>,
}

// ── Resource structs ─────────────────────────────────────────────────────────

#[derive(Debug, Clone)]
pub struct ResourceChange {
    pub address: String,
    pub previous_address: Option<String>,
    pub module_address: Option<String>,
    pub mode: Option<ResourceMode>,
    pub resource_type: Option<String>,
    pub name: Option<String>,
    pub index: Option<ResourceIndex>,
    pub provider_name: Option<String>,
    pub deposed: Option<String>,
    pub action_reason: Option<String>,
    pub change: ChangeDetails,
}

#[derive(Debug, Clone)]
pub struct OutputChange {
    pub change: OutputChangeDetails,
    pub sensitive: bool,
}

// ── Planned values tree ──────────────────────────────────────────────────────

#[derive(Debug, Clone)]
pub struct PlannedResource {
    pub address: String,
    pub module_address: Option<String>,
    pub mode: Option<ResourceMode>,
    pub resource_type: Option<String>,
    pub name: Option<String>,
    pub index: Option<ResourceIndex>,
    pub provider_name: Option<String>,
    pub schema_version: Option<u64>,
    pub values: Option<Value>,
    pub sensitive_values: Option<Value>,
    pub depends_on: Vec<String>,
    pub tainted: Option<bool>,
    pub deposed_key: Option<String>,
}

#[derive(Debug)]
pub struct PlannedModule {
    /// The root module has no address.
    pub address: Option<String>,
    pub resources: Vec<PlannedResource>,
    pub child_modules: Vec<PlannedModule>,
}

#[derive(Debug, Clone)]
pub struct PlannedOutput {
    pub sensitive: bool,
    pub value: Option<Value>,
    pub value_type: Option<Value>,
    pub deprecated: Option<String>,
}

#[derive(Debug)]
pub struct PlannedValues {
    pub root_module: PlannedModule,
    /// The outputs by name, each name once (see `names_are_distinct`).
    pub outputs: Vec<(String, PlannedOutput)>,
}

// ── State tree ───────────────────────────────────────────────────────────────

#[derive(Debug, Clone)]
pub struct StateResource {
    pub address: String,
    pub module_address: Option<String>,
    pub mode: Option<ResourceMode>,
    pub resource_type: Option<String>,
    pub name: Option<String>,
    pub index: Option<ResourceIndex>,
    pub provider_name: Option<String>,
    pub schema_version: Option<u64>,
    pub values: Option<Value>,
    pub sensitive_values: Option<Value>,
    pub depends_on: Vec<String>,
    pub tainted: Option<bool>,
    pub deposed_key: Option<String>,
}

#[derive(Debug)]
pub struct StateModule {
    pub address: Option<String>,
    pub resources: Vec<StateResource>,
    pub child_modules: Vec<StateModule>,
}

#[derive(Debug)]
pub struct StateValues {
    pub root_module: StateModule,
    /// The outputs by name, each name once.
    pub outputs: Vec<(String, PlannedOutput)>,
}

#[derive(Debug)]
pub struct State {
    /// Terraform's state format does not guarantee this field; OpenTofu always writes it.
    pub format_version: Option<String>,
    pub terraform_version: Option<String>,
    pub values: Option<StateValues>,
    pub checks: Vec<Value>,
}

pub type PriorState = State;

// ── The plan ─────────────────────────────────────────────────────────────────

#[derive(Debug, Clone)]
pub struct PlanVariable {
    pub value: Option<Value>,
    pub deprecated: Option<String>,
}

#[derive(Debug)]
pub struct Plan {
    pub format_version: String,
    pub terraform_version: Option<String>,
    /// The variables by name, each name once.
    pub variables: Vec<(String, PlanVariable)>,
    pub resource_changes: Vec<ResourceChange>,
    /// Resources changed outside Terraform, as the provider's refresh found them.
    pub resource_drift: Vec<ResourceChange>,
    /// The output changes by name, each name once.
    pub output_changes: Vec<(String, OutputChange)>,
    pub planned_values: Option<PlannedValues>,
    pub prior_state: Option<PriorState>,
    pub configuration: Option<Value>,
    pub relevant_attributes: Vec<Value>,
    pub checks: Vec<Value>,
    pub timestamp: Option<String>,
    pub errored: bool,
    /// Terraform only: whether automation should attempt to apply this plan.
    pub applyable: Option<bool>,
    /// Terraform only: whether apply is expected to fully converge the state.
    pub complete: Option<bool>,
    /// Terraform only: planned values with unknown attributes marked true.
    pub proposed_unknown: Option<Value>,
}

/// No two entries have the same name. A plan's variables, outputs and output changes come from
/// JSON objects, so it holds of them. No function relies on it: variables are not read, of output
/// changes only whether there are any, and an output that occurs twice would be one node all the
/// same. What rests on it is that the nodes of different outputs stay apart.
pub open spec fn names_are_distinct<T>(entries: Seq<(String, T)>) -> bool {
    forall|i: int, j: int|
        0 <= i < entries.len() && 0 <= j < entries.len() && (#[trigger] entries[i]).0@ == (
        #[trigger] entries[j]).0@ ==> i == j
}

// ── Actions ──────────────────────────────────────────────────────────────────

/// The word for an action, as plans and reports write it.
pub open spec fn action_word(action: Action) -> Seq<char> {
    match action {
        Action::NoOp => "no-op"@,
        Action::Create => "create"@,
        Action::Read => "read"@,
        Action::Update => "update"@,
        Action::Delete => "delete"@,
        Action::Forget => "forget"@,
    }
}

impl Action {
    /// The word for the action.
    pub fn label(&self) -> (word: &'static str)
        ensures
            word@ == action_word(*self),
    {
        match self {
            Action::NoOp => "no-op",
            Action::Create => "create",
            Action::Read => "read",
            Action::Update => "update",
            Action::Delete => "delete",
            Action::Forget => "forget",
        }
    }
}

/// No two actions share a word.
pub proof fn action_words_differ(a: Action, b: Action)
    requires
        action_word(a) == action_word(b),
    ensures
        a == b,
{
    reveal_strlit("no-op");
    reveal_strlit("create");
    reveal_strlit("read");
    reveal_strlit("update");
    reveal_strlit("delete");
    reveal_strlit("forget");
    assert("no-op"@[0] == 'n' && "create"@[0] == 'c' && "read"@[0] == 'r');
    assert("update"@[0] == 'u' && "delete"@[0] == 'd' && "forget"@[0] == 'f');
}

/// The words for the actions, with `separator` between them.
pub open spec fn joined_words(actions: Seq<Action>, separator: Seq<char>) -> Seq<char>
    decreases actions.len(),
{
    if actions.len() == 0 {
        Seq::empty()
    } else if actions.len() == 1 {
        action_word(actions[0])
    } else {
        joined_words(actions.drop_last(), separator) + separator + action_word(actions.last())
    }
}

/// One action is told by its word, several by their words in order with the separator between them.
pub proof fn words_are_told_in_order(a: Seq<Action>, b: Seq<Action>, separator: Seq<char>)
    ensures
        joined_words(seq![Action::NoOp], separator) == "no-op"@,
        joined_words(seq![Action::Create], separator) == "create"@,
        joined_words(seq![Action::Read], separator) == "read"@,
        joined_words(seq![Action::Update], separator) == "update"@,
        joined_words(seq![Action::Delete], separator) == "delete"@,
        joined_words(seq![Action::Forget], separator) == "forget"@,
        a.len() > 0 && b.len() > 0 ==> joined_words(a + b, separator) == joined_words(a, separator)
            + separator + joined_words(b, separator),
        joined_words(Seq::empty(), separator).len() == 0,
    decreases b.len(),
{
    if a.len() > 0 && b.len() > 0 {
        let few = b.drop_last();
        assert((a + b).drop_last() =~= a + few);
        assert((a + b).last() == b.last());
        if b.len() == 1 {
            assert(a + few =~= a);
        } else {
            words_are_told_in_order(a, few, separator);
        }
        assert(joined_words(a + b, separator) =~= joined_words(a, separator) + separator
            + joined_words(b, separator));
    }
}

/// The words for the actions, with `separator` between them.
pub fn join_actions(actions: &[Action], separator: &str) -> (r: String)
    ensures
        r@ == joined_words(actions@, separator@),
{
    let mut out = String::new();
    let mut i: usize = 0;
    assert(actions@.take(0) =~= Seq::empty());
    assert(out@ =~= Seq::empty());
    while i < actions.len()
        invariant
            i <= actions@.len(),
            out@ == joined_words(actions@.take(i as int), separator@),
        decreases actions@.len() - i,
    {
        assert(actions@.take(i + 1).drop_last() =~= actions@.take(i as int));
        if i > 0 {
            out.append(separator);
        }
        out.append(actions[i].label());
        i += 1;
        assert(out@ =~= joined_words(actions@.take(i as int), separator@));
    }
    assert(actions@.take(i as int) =~= actions@);
    out
}

/// Whether `actions` holds `wanted`.
pub fn has_action(actions: &[Action], wanted: Action) -> (found: bool)
    ensures
        found == actions@.contains(wanted),
{
    let mut i: usize = 0;
    while i < actions.len()
        invariant
            i <= actions@.len(),
            forall|j: int| 0 <= j < i ==> actions@[j] != wanted,
        decreases actions@.len() - i,
    {
        if actions[i] == wanted {
            return true;
        }
        i += 1;
    }
    false
}

/// Whether `actions` is `wanted` and nothing else.
pub fn only_action(actions: &[Action], wanted: Action) -> (only: bool)
    ensures
        only == (actions@ == seq![wanted]),
{
    let only = actions.len() == 1 && actions[0] == wanted;
    assert(only ==> actions@ =~= seq![wanted]);
    only
}

impl ChangeDetails {
    /// The change does nothing.
    pub fn is_noop(&self) -> (noop: bool)
        ensures
            noop == (self.actions@ == seq![Action::NoOp]),
    {
        only_action(self.actions.as_slice(), Action::NoOp)
    }

    /// The change deletes and creates, in either order.
    pub fn is_replace(&self) -> (replace: bool)
        ensures
            replace == (self.actions@.contains(Action::Create) && self.actions@.contains(
                Action::Delete,
            )),
    {
        has_action(self.actions.as_slice(), Action::Create) && has_action(
            self.actions.as_slice(),
            Action::Delete,
        )
    }
}

/// No change is both a no-op and a replacement.
pub proof fn noop_is_no_replace(actions: Seq<Action>)
    ensures
        !(actions == seq![Action::NoOp] && actions.contains(Action::Create) && actions.contains(
            Action::Delete,
        )),
{
    if actions == seq![Action::NoOp] && actions.contains(Action::Create) {
        let i = actions.index_of(Action::Create);
        assert(actions[i] == Action::NoOp);
    }
}

// ── Module traversal ─────────────────────────────────────────────────────────

/// The resources of a module: its own, then those of its child modules, the last child first.
pub open spec fn planned_in(module: PlannedModule) -> Seq<PlannedResource>
    decreases module,
{
    module.resources@ + planned_in_stack(module.child_modules@)
}

/// The resources of a stack of modules, from the last module to the first.
pub open spec fn planned_in_stack(modules: Seq<PlannedModule>) -> Seq<PlannedResource>
    decreases modules,
{
    if modules.len() == 0 {
        Seq::empty()
    } else {
        planned_in(modules.last()) + planned_in_stack(modules.drop_last())
    }
}

/// The number of modules in a tree.
pub open spec fn planned_size(module: PlannedModule) -> nat
    decreases module,
{
    1 + planned_stack_size(module.child_modules@)
}

/// The number of modules in a stack of trees.
pub open spec fn planned_stack_size(modules: Seq<PlannedModule>) -> nat
    decreases modules,
{
    if modules.len() == 0 {
        0
    } else {
        planned_size(modules.last()) + planned_stack_size(modules.drop_last())
    }
}

pub(crate) proof fn planned_stack_joins(low: Seq<PlannedModule>, high: Seq<PlannedModule>)
    ensures
        planned_in_stack(low + high) == planned_in_stack(high) + planned_in_stack(low),
        planned_stack_size(low + high) == planned_stack_size(high) + planned_stack_size(low),
    decreases high.len(),
{
    if high.len() == 0 {
        assert(low + high =~= low);
        assert(planned_in_stack(high) + planned_in_stack(low) =~= planned_in_stack(low));
    } else {
        planned_stack_joins(low, high.drop_last());
        assert((low + high).drop_last() =~= low + high.drop_last());
        assert((low + high).last() == high.last());
        assert(planned_in_stack(low + high) =~= planned_in_stack(high) + planned_in_stack(low));
    }
}

/// Pushing a reference adds the value behind it.
proof fn unref_of_push<T>(s: Seq<&T>, x: &T)
    ensures
        s.push(x).unref() == s.unref().push(*x),
{
    assert(s.push(x).unref() =~= s.unref().push(*x));
}

/// Collect all planned resources from every nesting level, depth first.
pub fn collect_planned_resources(module: &PlannedModule) -> (found: Vec<&PlannedResource>)
    ensures
        found@.unref() == planned_in(*module),
{
    let mut resources: Vec<&PlannedResource> = Vec::new();
    let mut stack: Vec<&PlannedModule> = Vec::new();
    stack.push(module);
    proof {
        reveal_with_fuel(planned_in_stack, 2);
        assert(stack@.unref() =~= seq![*module]);
        assert(seq![*module].drop_last() =~= Seq::empty());
        assert(resources@.unref() + planned_in_stack(stack@.unref()) =~= planned_in(*module));
    }
    while stack.len() > 0
        invariant
            resources@.unref() + planned_in_stack(stack@.unref()) == planned_in(*module),
        decreases planned_stack_size(stack@.unref()),
    {
        let ghost before = stack@.unref();
        let ghost collected = resources@.unref();
        match stack.pop() {
            None => {},
            Some(current) => {
                assert(stack@.unref() =~= before.drop_last());
                assert(before.last() == *current);
                let ghost low = stack@.unref();
                let mut i: usize = 0;
                while i < current.resources.len()
                    invariant
                        i <= current.resources@.len(),
                        resources@.unref() == collected + current.resources@.take(i as int),
                    decreases current.resources@.len() - i,
                {
                    proof {
                        unref_of_push(resources@, &current.resources@[i as int]);
                        assert(current.resources@.take(i + 1) =~= current.resources@.take(
                            i as int,
                        ).push(current.resources@[i as int]));
                    }
                    resources.push(&current.resources[i]);
                    i += 1;
                }
                let mut k: usize = 0;
                while k < current.child_modules.len()
                    invariant
                        k <= current.child_modules@.len(),
                        stack@.unref() == low + current.child_modules@.take(k as int),
                    decreases current.child_modules@.len() - k,
                {
                    proof {
                        unref_of_push(stack@, &current.child_modules@[k as int]);
                        assert(current.child_modules@.take(k + 1) =~= current.child_modules@.take(
                            k as int,
                        ).push(current.child_modules@[k as int]));
                    }
                    stack.push(&current.child_modules[k]);
                    k += 1;
                }
                proof {
                    planned_stack_joins(low, current.child_modules@);
                    assert(current.resources@.take(i as int) =~= current.resources@);
                    assert(current.child_modules@.take(k as int) =~= current.child_modules@);
                    assert(planned_in(*current) == current.resources@ + planned_in_stack(
                        current.child_modules@,
                    ));
                    assert(planned_size(*current) == 1 + planned_stack_size(
                        current.child_modules@,
                    ));
                    assert(resources@.unref() + planned_in_stack(stack@.unref()) =~= collected
                        + planned_in_stack(before));
                }
            },
        }
    }
    assert(resources@.unref() + planned_in_stack(stack@.unref()) =~= resources@.unref());
    resources
}

/// The resources of a state module: its own, then those of its child modules, the last child
/// first.
pub open spec fn state_in(module: StateModule) -> Seq<StateResource>
    decreases module,
{
    module.resources@ + state_in_stack(module.child_modules@)
}

/// The resources of a stack of state modules, from the last module to the first.
pub open spec fn state_in_stack(modules: Seq<StateModule>) -> Seq<StateResource>
    decreases modules,
{
    if modules.len() == 0 {
        Seq::empty()
    } else {
        state_in(modules.last()) + state_in_stack(modules.drop_last())
    }
}

/// The number of modules in a state tree.
pub open spec fn state_size(module: StateModule) -> nat
    decreases module,
{
    1 + state_stack_size(module.child_modules@)
}

/// The number of modules in a stack of state trees.
pub open spec fn state_stack_size(modules: Seq<StateModule>) -> nat
    decreases modules,
{
    if modules.len() == 0 {
        0
    } else {
        state_size(modules.last()) + state_stack_size(modules.drop_last())
    }
}

pub(crate) proof fn state_stack_joins(low: Seq<StateModule>, high: Seq<StateModule>)
    ensures
        state_in_stack(low + high) == state_in_stack(high) + state_in_stack(low),
        state_stack_size(low + high) == state_stack_size(high) + state_stack_size(low),
    decreases high.len(),
{
    if high.len() == 0 {
        assert(low + high =~= low);
        assert(state_in_stack(high) + state_in_stack(low) =~= state_in_stack(low));
    } else {
        state_stack_joins(low, high.drop_last());
        assert((low + high).drop_last() =~= low + high.drop_last());
        assert((low + high).last() == high.last());
        assert(state_in_stack(low + high) =~= state_in_stack(high) + state_in_stack(low));
    }
}

/// Collect all state resources from every nesting level, depth first.
pub fn collect_state_resources(module: &StateModule) -> (found: Vec<&StateResource>)
    ensures
        found@.unref() == state_in(*module),
{
    let mut resources: Vec<&StateResource> = Vec::new();
    let mut stack: Vec<&StateModule> = Vec::new();
    stack.push(module);
    proof {
        reveal_with_fuel(state_in_stack, 2);
        assert(stack@.unref() =~= seq![*module]);
        assert(seq![*module].drop_last() =~= Seq::empty());
        assert(resources@.unref() + state_in_stack(stack@.unref()) =~= state_in(*module));
    }
    while stack.len() > 0
        invariant
            resources@.unref() + state_in_stack(stack@.unref()) == state_in(*module),
        decreases state_stack_size(stack@.unref()),
    {
        let ghost before = stack@.unref();
        let ghost collected = resources@.unref();
        match stack.pop() {
            None => {},
            Some(current) => {
                assert(stack@.unref() =~= before.drop_last());
                assert(before.last() == *current);
                let ghost low = stack@.unref();
                let mut i: usize = 0;
                while i < current.resources.len()
                    invariant
                        i <= current.resources@.len(),
                        resources@.unref() == collected + current.resources@.take(i as int),
                    decreases current.resources@.len() - i,
                {
                    proof {
                        unref_of_push(resources@, &current.resources@[i as int]);
                        assert(current.resources@.take(i + 1) =~= current.resources@.take(
                            i as int,
                        ).push(current.resources@[i as int]));
                    }
                    resources.push(&current.resources[i]);
                    i += 1;
                }
                let mut k: usize = 0;
                while k < current.child_modules.len()
                    invariant
                        k <= current.child_modules@.len(),
                        stack@.unref() == low + current.child_modules@.take(k as int),
                    decreases current.child_modules@.len() - k,
                {
                    proof {
                        unref_of_push(stack@, &current.child_modules@[k as int]);
                        assert(current.child_modules@.take(k + 1) =~= current.child_modules@.take(
                            k as int,
                        ).push(current.child_modules@[k as int]));
                    }
                    stack.push(&current.child_modules[k]);
                    k += 1;
                }
                proof {
                    state_stack_joins(low, current.child_modules@);
                    assert(current.resources@.take(i as int) =~= current.resources@);
                    assert(current.child_modules@.take(k as int) =~= current.child_modules@);
                    assert(state_in(*current) == current.resources@ + state_in_stack(
                        current.child_modules@,
                    ));
                    assert(state_size(*current) == 1 + state_stack_size(
                        current.child_modules@,
                    ));
                    assert(resources@.unref() + state_in_stack(stack@.unref()) =~= collected
                        + state_in_stack(before));
                }
            },
        }
    }
    assert(resources@.unref() + state_in_stack(stack@.unref()) =~= resources@.unref());
    resources
}

/// What a module is called as a graph node: its address, "root" for the root module.
pub fn module_id(module: &PlannedModule) -> (id: &str)
    ensures
        id@ == (match module.address {
            Some(address) => address@,
            None => "root"@,
        }),
{
    match &module.address {
        Some(address) => address.as_str(),
        None => "root",
    }
}

} // verus!
