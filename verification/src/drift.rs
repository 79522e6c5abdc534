//! Drift: how the resources that exist differ from those that the plan expects.

use serde_json::Value;
use vstd::hash_map::StringHashMap;
use vstd::hash_set::StringHashSet;
use vstd::prelude::*;

use crate::parser::{
    collect_planned_resources, collect_state_resources, has_action, planned_in, state_in, Action,
    Plan, PlannedModule, PlannedResource, ResourceChange, StateModule, StateResource,
};
use crate::tree::{
    in_state_tree, in_tree, is_resource_address, planned_walks_find_all, state_walk_finds_all,
};

verus! {

#[derive(Debug, Clone, Copy, PartialEq, Eq, Structural)]
pub enum DriftKind {
    Added,
    Removed,
    Modified,
    Unchanged,
}

/// How a resource differs, with its attribute values before and after.
#[derive(Debug, Clone)]
pub struct DriftEntry {
    pub address: String,
    pub drift_kind: DriftKind,
    pub prior_values: Option<Value>,
    pub planned_values: Option<Value>,
}

// ── What drift is ────────────────────────────────────────────────────────────

/// The resources of the prior state.
pub open spec fn prior_resources(plan: Plan) -> Seq<StateResource> {
    match plan.prior_state {
        Some(state) => match state.values {
            Some(values) => state_in(values.root_module),
            None => Seq::empty(),
        },
        None => Seq::empty(),
    }
}

/// The resources that the plan expects to exist.
pub open spec fn expected_resources(plan: Plan) -> Seq<PlannedResource> {
    match plan.planned_values {
        Some(values) => planned_in(values.root_module),
        None => Seq::empty(),
    }
}

/// The addresses of state resources.
pub open spec fn prior_addresses(resources: Seq<StateResource>) -> Seq<Seq<char>> {
    resources.map_values(|r: StateResource| r.address@)
}

/// The addresses of planned resources.
pub open spec fn expected_addresses(resources: Seq<PlannedResource>) -> Seq<Seq<char>> {
    resources.map_values(|r: PlannedResource| r.address@)
}

/// The last place where `a` stands, -1 if there is none.
pub open spec fn last_place(s: Seq<Seq<char>>, a: Seq<char>) -> int
    decreases s.len(),
{
    if s.len() == 0 {
        -1
    } else if s.last() == a {
        s.len() - 1
    } else {
        last_place(s.drop_last(), a)
    }
}

/// The prior resource with the address, the last one where several have it.
pub open spec fn prior_at(plan: Plan, a: Seq<char>) -> Option<StateResource> {
    let resources = prior_resources(plan);
    let k = last_place(prior_addresses(resources), a);
    if k >= 0 {
        Some(resources[k])
    } else {
        None
    }
}

/// The expected resource with the address, the last one where several have it.
pub open spec fn expected_at(plan: Plan, a: Seq<char>) -> Option<PlannedResource> {
    let resources = expected_resources(plan);
    let k = last_place(expected_addresses(resources), a);
    if k >= 0 {
        Some(resources[k])
    } else {
        None
    }
}

/// The actions update, delete or create something.
pub open spec fn touches(actions: Seq<Action>) -> bool {
    actions.contains(Action::Update) || actions.contains(Action::Delete) || actions.contains(
        Action::Create,
    )
}

/// Some change with the address updates, deletes or creates.
pub open spec fn is_changed(changes: Seq<ResourceChange>, a: Seq<char>) -> bool {
    exists|i: int|
        0 <= i < changes.len() && (#[trigger] changes[i]).address@ == a && touches(
            changes[i].change.actions@,
        )
}

/// How the resource with the address differs; nothing if there is none before and after.
pub open spec fn drift_at(plan: Plan, a: Seq<char>) -> Option<DriftKind> {
    match (prior_at(plan, a), expected_at(plan, a)) {
        (None, None) => None,
        (None, Some(_)) => Some(DriftKind::Added),
        (Some(_), None) => Some(DriftKind::Removed),
        (Some(_), Some(_)) => Some(
            if is_changed(plan.resource_changes@, a) {
                DriftKind::Modified
            } else {
                DriftKind::Unchanged
            },
        ),
    }
}

/// The entry tells how its resource differs, with the values before and after.
pub open spec fn is_drift_entry(plan: Plan, entry: DriftEntry) -> bool {
    let a = entry.address@;
    &&& drift_at(plan, a) == Some(entry.drift_kind)
    &&& entry.prior_values == (match prior_at(plan, a) {
        Some(r) => r.values,
        None => None,
    })
    &&& entry.planned_values == (match expected_at(plan, a) {
        Some(r) => r.values,
        None => None,
    })
}

/// The addresses of drift entries.
pub open spec fn drift_addresses(entries: Seq<DriftEntry>) -> Seq<Seq<char>> {
    entries.map_values(|e: DriftEntry| e.address@)
}

/// The entries tell of every resource, before or after, once.
pub open spec fn is_drift_of(plan: Plan, entries: Seq<DriftEntry>) -> bool {
    &&& forall|i: int| 0 <= i < entries.len() ==> is_drift_entry(plan, #[trigger] entries[i])
    &&& drift_addresses(entries).no_duplicates()
    &&& forall|a: Seq<char>| #[trigger]
        drift_addresses(entries).contains(a) <==> drift_at(plan, a) is Some
}

proof fn last_place_is(s: Seq<Seq<char>>, a: Seq<char>)
    ensures
        -1 <= last_place(s, a) < s.len(),
        last_place(s, a) >= 0 ==> s[last_place(s, a)] == a,
        forall|i: int| last_place(s, a) < i < s.len() ==> #[trigger] s[i] != a,
    decreases s.len(),
{
    if s.len() > 0 && s.last() != a {
        last_place_is(s.drop_last(), a);
        assert forall|i: int| last_place(s, a) < i < s.len() implies #[trigger] s[i] != a by {
            if i < s.len() - 1 {
                assert(s.drop_last()[i] == s[i]);
            }
        }
    }
}

// ── Detection ────────────────────────────────────────────────────────────────

/// `serde_json::Value::clone`: an equal value.
#[verifier::external_body]
fn copy_value(value: &Value) -> (copy: Value)
    ensures
        copy == *value,
{
    value.clone()
}

/// An equal value, if there is one.
fn copy_optional(value: &Option<Value>) -> (copy: Option<Value>)
    ensures
        copy == *value,
{
    match value {
        Some(v) => Some(copy_value(v)),
        None => None,
    }
}

/// The texts behind references, by their characters.
spec fn slices(s: Seq<&str>) -> Seq<Seq<char>> {
    s.map_values(|t: &str| t@)
}

/// For each address the last place where it stands.
fn last_places(addresses: &Vec<&str>) -> (places: StringHashMap<usize>)
    ensures
        forall|a: Seq<char>| #[trigger]
            places@.contains_key(a) <==> last_place(slices(addresses@), a) >= 0,
        forall|a: Seq<char>| #[trigger]
            places@.contains_key(a) ==> places@[a] == last_place(slices(addresses@), a),
{
    let mut places: StringHashMap<usize> = StringHashMap::new();
    let ghost all = slices(addresses@);
    let mut k: usize = 0;
    while k < addresses.len()
        invariant
            k <= addresses@.len(),
            all == slices(addresses@),
            forall|a: Seq<char>| #[trigger]
                places@.contains_key(a) <==> last_place(all.take(k as int), a) >= 0,
            forall|a: Seq<char>| #[trigger]
                places@.contains_key(a) ==> places@[a] == last_place(all.take(k as int), a),
        decreases addresses@.len() - k,
    {
        places.insert(addresses[k].to_owned(), k);
        assert(all.take(k + 1).drop_last() =~= all.take(k as int));
        assert(all.take(k + 1).last() == all[k as int]);
        k += 1;
    }
    assert(all.take(k as int) =~= all);
    places
}

/// The addresses that some change updates, deletes or creates.
fn changed_addresses(changes: &Vec<ResourceChange>) -> (found: StringHashSet)
    ensures
        forall|a: Seq<char>| #[trigger] found@.contains(a) <==> is_changed(changes@, a),
{
    let mut found = StringHashSet::new();
    let mut k: usize = 0;
    while k < changes.len()
        invariant
            k <= changes@.len(),
            forall|a: Seq<char>| #[trigger]
                found@.contains(a) <==> is_changed(changes@.take(k as int), a),
        decreases changes@.len() - k,
    {
        let rc = &changes[k];
        let actions = rc.change.actions.as_slice();
        let touched = has_action(actions, Action::Update) || has_action(actions, Action::Delete)
            || has_action(actions, Action::Create);
        let ghost before = found@;
        if touched {
            found.insert(rc.address.clone());
        }
        proof {
            let few = changes@.take(k as int);
            let more = changes@.take(k + 1);
            assert(more[k as int] == *rc);
            assert forall|a: Seq<char>| #[trigger] found@.contains(a) <==> is_changed(more, a) by {
                if is_changed(few, a) {
                    let i = choose|i: int|
                        0 <= i < few.len() && (#[trigger] few[i]).address@ == a && touches(
                            few[i].change.actions@,
                        );
                    assert(more[i] == few[i]);
                }
                if is_changed(more, a) {
                    let i = choose|i: int|
                        0 <= i < more.len() && (#[trigger] more[i]).address@ == a && touches(
                            more[i].change.actions@,
                        );
                    if i < k {
                        assert(few[i] == more[i]);
                    }
                }
            }
        }
        k += 1;
    }
    assert(changes@.take(k as int) =~= changes@);
    found
}

/// Compare the prior state with the planned values to tell how each resource differs. A resource
/// on both sides is modified where `resource_changes` says so: the provider may see differences
/// that a comparison of the values would miss. The order of the entries is left open.
pub fn detect_drift(plan: &Plan) -> (entries: Vec<DriftEntry>)
    ensures
        is_drift_of(*plan, entries@),
{
    let prior: Vec<&StateResource> = match &plan.prior_state {
        Some(state) => match &state.values {
            Some(values) => collect_state_resources(&values.root_module),
            None => Vec::new(),
        },
        None => Vec::new(),
    };
    let planned: Vec<&PlannedResource> = match &plan.planned_values {
        Some(values) => collect_planned_resources(&values.root_module),
        None => Vec::new(),
    };
    assert(prior@.unref() =~= prior_resources(*plan));
    assert(planned@.unref() =~= expected_resources(*plan));
    let ghost before = prior_addresses(prior_resources(*plan));
    let ghost after = expected_addresses(expected_resources(*plan));
    let mut prior_texts: Vec<&str> = Vec::new();
    let mut i: usize = 0;
    while i < prior.len()
        invariant
            i <= prior@.len(),
            prior@.unref() == prior_resources(*plan),
            before == prior_addresses(prior_resources(*plan)),
            prior_texts@.len() == i,
            forall|j: int| 0 <= j < i ==> (#[trigger] prior_texts@[j])@ == before[j],
        decreases prior@.len() - i,
    {
        assert(*prior@[i as int] == prior_resources(*plan)[i as int]);
        prior_texts.push(prior[i].address.as_str());
        i += 1;
    }
    let mut planned_texts: Vec<&str> = Vec::new();
    let mut i: usize = 0;
    while i < planned.len()
        invariant
            i <= planned@.len(),
            planned@.unref() == expected_resources(*plan),
            after == expected_addresses(expected_resources(*plan)),
            planned_texts@.len() == i,
            forall|j: int| 0 <= j < i ==> (#[trigger] planned_texts@[j])@ == after[j],
        decreases planned@.len() - i,
    {
        assert(*planned@[i as int] == expected_resources(*plan)[i as int]);
        planned_texts.push(planned[i].address.as_str());
        i += 1;
    }
    assert(slices(prior_texts@) =~= before);
    assert(slices(planned_texts@) =~= after);
    let prior_map = last_places(&prior_texts);
    let planned_map = last_places(&planned_texts);
    let changed = changed_addresses(&plan.resource_changes);
    let mut entries: Vec<DriftEntry> = Vec::new();
    let mut k: usize = 0;
    assert(drift_addresses(entries@) =~= Seq::empty());
    while k < prior.len()
        invariant
            k <= prior@.len(),
            prior@.unref() == prior_resources(*plan),
            planned@.unref() == expected_resources(*plan),
            before == prior_addresses(prior_resources(*plan)),
            after == expected_addresses(expected_resources(*plan)),
            slices(prior_texts@) == before,
            prior_texts@.len() == prior@.len(),
            forall|a: Seq<char>| #[trigger]
                prior_map@.contains_key(a) <==> last_place(before, a) >= 0,
            forall|a: Seq<char>| #[trigger]
                prior_map@.contains_key(a) ==> prior_map@[a] == last_place(before, a),
            forall|a: Seq<char>| #[trigger]
                planned_map@.contains_key(a) <==> last_place(after, a) >= 0,
            forall|a: Seq<char>| #[trigger]
                planned_map@.contains_key(a) ==> planned_map@[a] == last_place(after, a),
            forall|a: Seq<char>| #[trigger]
                changed@.contains(a) <==> is_changed(plan.resource_changes@, a),
            told_before(*plan, entries@, k as int),
        decreases prior@.len() - k,
    {
        let address = prior_texts[k];
        let ghost a = address@;
        proof {
            assert(slices(prior_texts@)[k as int] == a);
            last_place_is(before, a);
            last_place_is(after, a);
        }
        let last = match prior_map.get(address) {
            Some(place) => *place == k,
            None => false,
        };
        if last {
            assert(*prior@[k as int] == prior_resources(*plan)[k as int]);
            let (drift_kind, planned_values) = match planned_map.get(address) {
                Some(place) => {
                    assert(*planned@[*place as int] == expected_resources(*plan)[*place as int]);
                    let kind = if changed.contains(address) {
                        DriftKind::Modified
                    } else {
                        DriftKind::Unchanged
                    };
                    (kind, copy_optional(&planned[*place].values))
                },
                None => (DriftKind::Removed, None),
            };
            let entry = DriftEntry {
                address: address.to_owned(),
                drift_kind,
                prior_values: copy_optional(&prior[k].values),
                planned_values,
            };
            proof {
                told_before_grows(*plan, entries@, k as int, entry);
            }
            entries.push(entry);
        } else {
            proof {
                told_before_stays(*plan, entries@, k as int);
            }
        }
        k += 1;
    }
    proof {
        before_is_all_prior(*plan, entries@);
    }
    let mut k: usize = 0;
    while k < planned.len()
        invariant
            k <= planned@.len(),
            planned@.unref() == expected_resources(*plan),
            before == prior_addresses(prior_resources(*plan)),
            after == expected_addresses(expected_resources(*plan)),
            slices(planned_texts@) == after,
            planned_texts@.len() == planned@.len(),
            forall|a: Seq<char>| #[trigger]
                prior_map@.contains_key(a) <==> last_place(before, a) >= 0,
            forall|a: Seq<char>| #[trigger]
                planned_map@.contains_key(a) <==> last_place(after, a) >= 0,
            forall|a: Seq<char>| #[trigger]
                planned_map@.contains_key(a) ==> planned_map@[a] == last_place(after, a),
            told_after(*plan, entries@, k as int),
        decreases planned@.len() - k,
    {
        let address = planned_texts[k];
        let ghost a = address@;
        proof {
            assert(slices(planned_texts@)[k as int] == a);
            last_place_is(before, a);
            last_place_is(after, a);
        }
        let last = match planned_map.get(address) {
            Some(place) => *place == k,
            None => false,
        };
        if last && prior_map.get(address).is_none() {
            assert(*planned@[k as int] == expected_resources(*plan)[k as int]);
            let entry = DriftEntry {
                address: address.to_owned(),
                drift_kind: DriftKind::Added,
                prior_values: None,
                planned_values: copy_optional(&planned[k].values),
            };
            proof {
                told_after_grows(*plan, entries@, k as int, entry);
            }
            entries.push(entry);
        } else {
            proof {
                told_after_stays(*plan, entries@, k as int);
            }
        }
        k += 1;
    }
    proof {
        after_is_all(*plan, entries@);
    }
    entries
}

/// The entries tell of the resources whose last prior place is one of the first `k`.
spec fn told_before(plan: Plan, entries: Seq<DriftEntry>, k: int) -> bool {
    let before = prior_addresses(prior_resources(plan));
    &&& forall|i: int| 0 <= i < entries.len() ==> is_drift_entry(plan, #[trigger] entries[i])
    &&& drift_addresses(entries).no_duplicates()
    &&& forall|a: Seq<char>| #[trigger]
        drift_addresses(entries).contains(a) <==> 0 <= last_place(before, a) < k
}

/// The entries tell of the prior resources, and of those that are only expected and whose last
/// place is one of the first `k`.
spec fn told_after(plan: Plan, entries: Seq<DriftEntry>, k: int) -> bool {
    let before = prior_addresses(prior_resources(plan));
    let after = expected_addresses(expected_resources(plan));
    &&& forall|i: int| 0 <= i < entries.len() ==> is_drift_entry(plan, #[trigger] entries[i])
    &&& drift_addresses(entries).no_duplicates()
    &&& forall|a: Seq<char>| #[trigger]
        drift_addresses(entries).contains(a) <==> last_place(before, a) >= 0 || 0 <= last_place(
            after,
            a,
        ) < k
}

/// A new address joins the entries.
proof fn entry_joins(entries: Seq<DriftEntry>, entry: DriftEntry)
    requires
        drift_addresses(entries).no_duplicates(),
        !drift_addresses(entries).contains(entry.address@),
    ensures
        drift_addresses(entries.push(entry)).no_duplicates(),
        forall|a: Seq<char>| #[trigger]
            drift_addresses(entries.push(entry)).contains(a) <==> drift_addresses(
                entries,
            ).contains(a) || a == entry.address@,
{
    let few = drift_addresses(entries);
    let more = drift_addresses(entries.push(entry));
    assert(more =~= few.push(entry.address@));
    assert forall|a: Seq<char>| #[trigger] more.contains(a) <==> few.contains(a) || a
        == entry.address@ by {
        if few.contains(a) {
            let i = few.index_of(a);
            assert(more[i] == a);
        }
        assert(more[few.len() as int] == entry.address@);
    }
}

proof fn told_before_grows(plan: Plan, entries: Seq<DriftEntry>, k: int, entry: DriftEntry)
    requires
        told_before(plan, entries, k),
        is_drift_entry(plan, entry),
        last_place(prior_addresses(prior_resources(plan)), entry.address@) == k,
        0 <= k < prior_resources(plan).len(),
    ensures
        told_before(plan, entries.push(entry), k + 1),
{
    let before = prior_addresses(prior_resources(plan));
    entry_joins(entries, entry);
    assert forall|a: Seq<char>| last_place(before, a) == k implies a == entry.address@ by {
        last_place_is(before, a);
        last_place_is(before, entry.address@);
    }
}

proof fn told_before_stays(plan: Plan, entries: Seq<DriftEntry>, k: int)
    requires
        told_before(plan, entries, k),
        0 <= k < prior_resources(plan).len(),
        last_place(
            prior_addresses(prior_resources(plan)),
            prior_addresses(prior_resources(plan))[k],
        ) != k,
    ensures
        told_before(plan, entries, k + 1),
{
    let before = prior_addresses(prior_resources(plan));
    assert forall|a: Seq<char>| last_place(before, a) != k by {
        last_place_is(before, a);
    }
}

proof fn before_is_all_prior(plan: Plan, entries: Seq<DriftEntry>)
    requires
        told_before(plan, entries, prior_resources(plan).len() as int),
    ensures
        told_after(plan, entries, 0),
{
    let before = prior_addresses(prior_resources(plan));
    assert forall|a: Seq<char>| #[trigger] last_place(before, a) < before.len() by {
        last_place_is(before, a);
    }
}

proof fn told_after_grows(plan: Plan, entries: Seq<DriftEntry>, k: int, entry: DriftEntry)
    requires
        told_after(plan, entries, k),
        is_drift_entry(plan, entry),
        last_place(expected_addresses(expected_resources(plan)), entry.address@) == k,
        last_place(prior_addresses(prior_resources(plan)), entry.address@) < 0,
        0 <= k < expected_resources(plan).len(),
    ensures
        told_after(plan, entries.push(entry), k + 1),
{
    let after = expected_addresses(expected_resources(plan));
    entry_joins(entries, entry);
    assert forall|a: Seq<char>| last_place(after, a) == k implies a == entry.address@ by {
        last_place_is(after, a);
        last_place_is(after, entry.address@);
    }
}

proof fn told_after_stays(plan: Plan, entries: Seq<DriftEntry>, k: int)
    requires
        told_after(plan, entries, k),
        0 <= k < expected_resources(plan).len(),
        ({
            let a = expected_addresses(expected_resources(plan))[k];
            last_place(expected_addresses(expected_resources(plan)), a) != k || last_place(
                prior_addresses(prior_resources(plan)),
                a,
            ) >= 0
        }),
    ensures
        told_after(plan, entries, k + 1),
{
    let before = prior_addresses(prior_resources(plan));
    let after = expected_addresses(expected_resources(plan));
    assert forall|a: Seq<char>| last_place(after, a) == k implies last_place(before, a) >= 0 by {
        last_place_is(after, a);
    }
}

proof fn after_is_all(plan: Plan, entries: Seq<DriftEntry>)
    requires
        told_after(plan, entries, expected_resources(plan).len() as int),
    ensures
        is_drift_of(plan, entries),
{
    let after = expected_addresses(expected_resources(plan));
    assert forall|a: Seq<char>| #[trigger] last_place(after, a) < after.len() by {
        last_place_is(after, a);
    }
}

// ── What holds of drift ──────────────────────────────────────────────────────

/// Some module of the prior state, at whatever depth, holds a resource at the address.
pub open spec fn existed(plan: Plan, a: Seq<char>) -> bool {
    plan.prior_state is Some && plan.prior_state->0.values is Some && exists|
        m: StateModule,
        r: StateResource,
    |
        #[trigger] in_state_tree(plan.prior_state->0.values->0.root_module, m)
            && #[trigger] m.resources@.contains(r) && r.address@ == a
}

/// Some module of the planned values, at whatever depth, holds a resource at the address.
pub open spec fn is_expected(plan: Plan, a: Seq<char>) -> bool {
    plan.planned_values is Some && is_resource_address(plan.planned_values->0.root_module, a)
}

/// Some change at the address creates, updates or deletes, whatever else it does.
pub open spec fn is_touched(plan: Plan, a: Seq<char>) -> bool {
    exists|i: int, k: int|
        #![trigger plan.resource_changes@[i].change.actions@[k]]
        0 <= i < plan.resource_changes@.len() && plan.resource_changes@[i].address@ == a && 0 <= k
            < plan.resource_changes@[i].change.actions@.len() && {
            let action = plan.resource_changes@[i].change.actions@[k];
            action == Action::Create || action == Action::Update || action == Action::Delete
        }
}

proof fn prior_is(plan: Plan, a: Seq<char>)
    ensures
        prior_at(plan, a) is Some <==> existed(plan, a),
{
    let resources = prior_resources(plan);
    let addresses = prior_addresses(resources);
    last_place_is(addresses, a);
    let k = last_place(addresses, a);
    if prior_at(plan, a) is Some {
        let root = plan.prior_state->0.values->0.root_module;
        assert(resources.contains(resources[k]));
        state_walk_finds_all(root, resources[k]);
        let m = choose|m: StateModule| #[trigger]
            in_state_tree(root, m) && m.resources@.contains(resources[k]);
        assert(addresses[k] == resources[k].address@);
    }
    if existed(plan, a) {
        let root = plan.prior_state->0.values->0.root_module;
        let (m, r) = choose|m: StateModule, r: StateResource|
            #[trigger] in_state_tree(root, m) && #[trigger] m.resources@.contains(r) && r.address@
                == a;
        state_walk_finds_all(root, r);
        let i = resources.index_of(r);
        assert(addresses[i] == a);
    }
}

proof fn expected_is(plan: Plan, a: Seq<char>)
    ensures
        expected_at(plan, a) is Some <==> is_expected(plan, a),
{
    let resources = expected_resources(plan);
    let addresses = expected_addresses(resources);
    last_place_is(addresses, a);
    let k = last_place(addresses, a);
    if expected_at(plan, a) is Some {
        let root = plan.planned_values->0.root_module;
        assert(resources.contains(resources[k]));
        planned_walks_find_all(root, resources[k]);
        let m = choose|m: PlannedModule| #[trigger]
            in_tree(root, m) && m.resources@.contains(resources[k]);
        assert(addresses[k] == resources[k].address@);
    }
    if is_expected(plan, a) {
        let root = plan.planned_values->0.root_module;
        let (m, r) = choose|m: PlannedModule, r: PlannedResource|
            #[trigger] in_tree(root, m) && #[trigger] m.resources@.contains(r) && r.address@ == a;
        planned_walks_find_all(root, r);
        let i = resources.index_of(r);
        assert(addresses[i] == a);
    }
}

proof fn changed_is_touched(plan: Plan, a: Seq<char>)
    ensures
        is_changed(plan.resource_changes@, a) <==> is_touched(plan, a),
{
    let changes = plan.resource_changes@;
    if is_changed(changes, a) {
        let i = choose|i: int|
            0 <= i < changes.len() && (#[trigger] changes[i]).address@ == a && touches(
                changes[i].change.actions@,
            );
        let actions = changes[i].change.actions@;
        let action = if actions.contains(Action::Update) {
            Action::Update
        } else if actions.contains(Action::Delete) {
            Action::Delete
        } else {
            Action::Create
        };
        let k = actions.index_of(action);
        assert(plan.resource_changes@[i].change.actions@[k] == action);
    }
    if is_touched(plan, a) {
        let (i, k) = choose|i: int, k: int|
            #![trigger plan.resource_changes@[i].change.actions@[k]]
            0 <= i < plan.resource_changes@.len() && plan.resource_changes@[i].address@ == a && 0
                <= k < plan.resource_changes@[i].change.actions@.len() && {
                let action = plan.resource_changes@[i].change.actions@[k];
                action == Action::Create || action == Action::Update || action == Action::Delete
            };
        assert(changes[i].change.actions@.contains(changes[i].change.actions@[k]));
        assert(touches(changes[i].change.actions@));
    }
}

/// A resource has drifted by what the plan holds of it: added where only the planned values have it,
/// removed where only the prior state has it, modified where both have it and some change creates,
/// updates or deletes it, unchanged where both have it and none does. Where neither has it, nothing
/// is said of it.
pub proof fn drift_tells_what_the_plan_holds(plan: Plan, a: Seq<char>)
    ensures
        drift_at(plan, a) == Some(DriftKind::Added) <==> !existed(plan, a) && is_expected(plan, a),
        drift_at(plan, a) == Some(DriftKind::Removed) <==> existed(plan, a) && !is_expected(
            plan,
            a,
        ),
        drift_at(plan, a) == Some(DriftKind::Modified) <==> existed(plan, a) && is_expected(plan, a)
            && is_touched(plan, a),
        drift_at(plan, a) == Some(DriftKind::Unchanged) <==> existed(plan, a) && is_expected(
            plan,
            a,
        ) && !is_touched(plan, a),
        drift_at(plan, a) is None <==> !existed(plan, a) && !is_expected(plan, a),
{
    prior_is(plan, a);
    expected_is(plan, a);
    changed_is_touched(plan, a);
}

/// The drift of a plan has one entry for each resource of the prior state or the planned values, at
/// whatever depth, and no other; its kind tells which of them have the resource and whether a change
/// touches it.
pub proof fn each_entry_tells_its_resource(plan: Plan, entries: Seq<DriftEntry>, a: Seq<char>)
    requires
        is_drift_of(plan, entries),
    ensures
        (exists|i: int| 0 <= i < entries.len() && (#[trigger] entries[i]).address@ == a) <==> existed(
            plan,
            a,
        ) || is_expected(plan, a),
        forall|i: int, j: int|
            0 <= i < entries.len() && 0 <= j < entries.len() && (#[trigger] entries[i]).address@ == (
            #[trigger] entries[j]).address@ ==> i == j,
        forall|i: int|
            0 <= i < entries.len() && (#[trigger] entries[i]).address@ == a ==> {
                &&& entries[i].drift_kind == DriftKind::Added <==> !existed(plan, a)
                &&& entries[i].drift_kind == DriftKind::Removed <==> !is_expected(plan, a)
                &&& entries[i].drift_kind == DriftKind::Modified <==> existed(plan, a)
                    && is_expected(plan, a) && is_touched(plan, a)
            },
{
    drift_tells_what_the_plan_holds(plan, a);
    let all = drift_addresses(entries);
    assert forall|i: int| 0 <= i < entries.len() implies all[i] == (
    #[trigger] entries[i]).address@ && is_drift_entry(plan, entries[i]) by {}
    if exists|i: int| 0 <= i < entries.len() && (#[trigger] entries[i]).address@ == a {
        let i = choose|i: int| 0 <= i < entries.len() && (#[trigger] entries[i]).address@ == a;
        assert(all[i] == a);
        assert(all.contains(a));
    }
    if drift_at(plan, a) is Some {
        assert(all.contains(a));
        let i = all.index_of(a);
        assert(entries[i].address@ == a);
    }
}

/// An entry gives the values of its resource: before, those of the last one at the address that the
/// walk over the prior state meets; after, those of the last one that the walk over the planned
/// values meets. Where there is none, there are no values.
pub proof fn each_entry_gives_the_values(
    plan: Plan,
    entries: Seq<DriftEntry>,
    i: int,
    k: int,
    n: int,
)
    requires
        is_drift_of(plan, entries),
        0 <= i < entries.len(),
    ensures
        !existed(plan, entries[i].address@) ==> entries[i].prior_values is None,
        !is_expected(plan, entries[i].address@) ==> entries[i].planned_values is None,
        existed(plan, entries[i].address@) ==> {
            let all = state_in(plan.prior_state->0.values->0.root_module);
            (0 <= k < all.len() && all[k].address@ == entries[i].address@ && forall|j: int|
                k < j < all.len() ==> (#[trigger] all[j]).address@ != entries[i].address@)
                ==> entries[i].prior_values == all[k].values
        },
        is_expected(plan, entries[i].address@) ==> {
            let all = planned_in(plan.planned_values->0.root_module);
            (0 <= n < all.len() && all[n].address@ == entries[i].address@ && forall|j: int|
                n < j < all.len() ==> (#[trigger] all[j]).address@ != entries[i].address@)
                ==> entries[i].planned_values == all[n].values
        },
{
    let a = entries[i].address@;
    assert(is_drift_entry(plan, entries[i]));
    prior_is(plan, a);
    expected_is(plan, a);
    let prior = prior_resources(plan);
    let before = prior_addresses(prior);
    last_place_is(before, a);
    let p = last_place(before, a);
    if 0 <= k < prior.len() && prior[k].address@ == a && p >= 0 {
        assert(before[k] == a);
        assert(before[p] == prior[p].address@);
    }
    let expected = expected_resources(plan);
    let after = expected_addresses(expected);
    last_place_is(after, a);
    let q = last_place(after, a);
    if 0 <= n < expected.len() && expected[n].address@ == a && q >= 0 {
        assert(after[n] == a);
        assert(after[q] == expected[q].address@);
    }
}

} // verus!
