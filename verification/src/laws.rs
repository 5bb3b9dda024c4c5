//! What holds of the checks and of the selection taken together.

use crate::checks::{
    all_keys, all_keys_upto, chart_fault, chart_fault_at, charts_outcome, dependencies_resolve,
    first_chart_fault, invalid_helm_chart_name_message, is_key_char, key_format_valid,
    keys_well_formed, leaves, missing_of, missing_upto,
};
use crate::command_up::{config_repositories, structure_valid, validation_outcome};
use crate::cycles::{closes, first_cycle, lemma_cycle_found, lemma_first_cycle, tree_acyclic};
use crate::error::{fails_with, Error, ErrorKind};
use crate::file_format::{
    dependencies_of, distinct_keys, entry_of, has_key, key_index, lemma_key_index, scope_keys,
    Config, HelmRemoteView, ResourceView, Scope,
};
use crate::graph::{acyclic, closed, depends_on, is_cycle, is_step, lemma_select};
use crate::schedule::{
    filtered, lemma_closure, lemma_selection, lemma_topological_order, selection, topological_order,
};
use crate::text::{first_index, lemma_first_index, lemma_first_index_is};
use crate::resources::{group_namespace, plan, plan_keys};
use crate::units::{head_of, heads, tails_for, token_heads};
use vstd::prelude::*;

verus! {

/// A key of a scope is among the keys of its tree.
pub proof fn lemma_scope_key_in_tree(scope: Scope, upto: int, i: int)
    requires
        0 <= i < upto <= scope.len(),
    ensures
        all_keys_upto(scope, upto).contains(scope[i].0),
    decreases upto,
{
    let nested = match scope[upto - 1].1.resource {
        ResourceView::Group(children) => all_keys_upto(children, children.len() as int),
        _ => Seq::empty(),
    };
    let before = all_keys_upto(scope, upto - 1).push(scope[upto - 1].0);
    assert(all_keys_upto(scope, upto) == before + nested);
    if i == upto - 1 {
        assert(before[before.len() - 1] == scope[i].0);
        assert((before + nested)[before.len() - 1] == scope[i].0);
    } else {
        lemma_scope_key_in_tree(scope, upto - 1, i);
        let earlier = all_keys_upto(scope, upto - 1);
        let k = choose|k: int| 0 <= k < earlier.len() && earlier[k] == scope[i].0;
        assert((before + nested)[k] == scope[i].0);
    }
}

/// A well-formed key holds no colon, so as a selector token it names itself.
pub proof fn lemma_key_is_its_head(key: Seq<char>)
    requires
        key_format_valid(key),
    ensures
        head_of(key) == key,
{
    assert forall|j: int| 0 <= j < key.len() implies key[j] != ':' by {
        assert(is_key_char(key[j]));
    }
    lemma_first_index_is(key, ':', key.len() as int);
    assert(key.take(key.len() as int) =~= key);
}

/// Where the dependencies listed do not miss the scope, each is a key of it.
pub proof fn lemma_none_missing(scope: Scope, deps: Seq<Seq<char>>, d: Seq<char>)
    requires
        missing_of(scope, deps).len() == 0,
        deps.contains(d),
    ensures
        has_key(scope, d),
    decreases deps.len(),
{
    if deps.last() != d {
        let i = choose|i: int| 0 <= i < deps.len() && deps[i] == d;
        assert(deps.drop_last()[i] == d);
        lemma_none_missing(scope, deps.drop_last(), d);
    }
}

/// Where no dependency of the first entries misses the scope, each is a key of it.
pub proof fn lemma_none_missing_upto(scope: Scope, upto: int, i: int, d: Seq<char>)
    requires
        0 <= i < upto <= scope.len(),
        missing_upto(scope, upto).len() == 0,
        dependencies_of(scope[i].1).contains(d),
    ensures
        has_key(scope, d),
    decreases upto,
{
    if i == upto - 1 {
        lemma_none_missing(scope, dependencies_of(scope[i].1), d);
    } else {
        lemma_none_missing_upto(scope, upto - 1, i, d);
    }
}

/// A scope whose dependencies all resolve is closed.
pub proof fn lemma_resolved_scope_is_closed(scope: Scope)
    requires
        distinct_keys(scope),
        dependencies_resolve(scope),
    ensures
        closed(scope),
{
    assert forall|a: Seq<char>, b: Seq<char>| #[trigger] depends_on(scope, a, b) implies has_key(
        scope,
        b,
    ) by {
        lemma_key_index(scope, a);
        let i = key_index(scope, a);
        lemma_none_missing_upto(scope, scope.len() as int, i, b);
    }
}

/// The order in which the units of an acyclic scope run, where every dependency is a
/// key of the scope, holds every unit of the scope exactly once, and every unit after
/// all that it depends on.
pub proof fn lemma_order_respects_dependencies(units: Scope)
    requires
        distinct_keys(units),
        closed(units),
        acyclic(units),
    ensures
        topological_order(units, true).no_duplicates(),
        forall|k: Seq<char>| topological_order(units, true).contains(k) <==> has_key(units, k),
        forall|a: Seq<char>, b: Seq<char>| #[trigger]
            depends_on(units, a, b) ==>
                first_index(topological_order(units, true), b) < first_index(
                topological_order(units, true),
                a,
            ),
{
    lemma_topological_order(units, true);
}

/// Where a scope has a cycle, the search reports one. The path reported starts at the
/// key reported, follows dependencies, and repeats no key but its last, which it holds
/// before: from there on it is a cycle. Where the path returns to the key it started
/// from, the whole path is that cycle, and it is one longer than the number of keys on
/// it.
pub proof fn lemma_reported_cycle(scope: Scope)
    requires
        !acyclic(scope),
    ensures
        first_cycle(scope, 0) is Some,
        ({
            let found = first_cycle(scope, 0)->0;
            let start = found.0;
            let path = found.1;
            let back = first_index(path, path.last());
            &&& has_key(scope, start)
            &&& path[0] == start
            &&& closes(scope, Seq::empty(), path)
            &&& 0 <= back < path.len() - 1
            &&& is_cycle(scope, path.skip(back))
            &&& path.skip(back).to_set().len() + 1 == path.skip(back).len()
            &&& path.last() == start ==>
                back == 0 && is_cycle(scope, path) && path.to_set().len() + 1
                == path.len()
        }),
{
    lemma_cycle_found(scope);
    lemma_first_cycle(scope, 0);
    let found = first_cycle(scope, 0)->0;
    let path = found.1;
    let back = first_index(path, path.last());
    let walk = path.drop_last();
    lemma_first_index(path, path.last());
    let at = choose|at: int| 0 <= at < walk.len() && walk[at] == path.last();
    assert(path[at] == path.last());
    let cycle = path.skip(back);
    assert forall|i: int| 0 <= i < cycle.len() - 1 implies #[trigger] is_step(scope, cycle, i) by {
        assert(is_step(scope, path, back + i));
    }
    let once = cycle.drop_last();
    assert forall|i: int, j: int|
        0 <= i < once.len() && 0 <= j < once.len() && i != j implies once[i] != once[j] by {
        assert(walk[back + i] != walk[back + j]);
    }
    once.unique_seq_to_set();
    assert(cycle.to_set() =~= once.to_set()) by {
        assert forall|k: Seq<char>| cycle.to_set().contains(k) implies
            once.to_set().contains(k) by {
            let i = choose|i: int| 0 <= i < cycle.len() && cycle[i] == k;
            if i < once.len() {
                assert(once[i] == k);
            } else {
                assert(once[0] == k);
            }
        }
        assert forall|k: Seq<char>| once.to_set().contains(k) implies
            cycle.to_set().contains(k) by {
            let i = choose|i: int| 0 <= i < once.len() && once[i] == k;
            assert(cycle[i] == k);
        }
    }
    if path.last() == path[0] {
        assert(cycle =~= path);
    }
}

/// A configuration that passes every check passes validation, and selecting from its
/// root without naming anything gives back the keys of the root, each once, with the
/// entries they stand for.
pub proof fn lemma_valid_config_round_trip(
    config: Config,
    existing: Seq<Seq<char>>,
    r: Result<(), Error>,
)
    requires
        distinct_keys(config.resources@),
        validation_outcome(config, existing, r),
        structure_valid(config),
        crate::checks::files_present(config.resources@, existing),
        crate::checks::charts_resolve(
            config.resources@,
            crate::checks::configured_names(config_repositories(config)),
        ),
    ensures
        r is Ok,
        ({
            let scope = config.resources@;
            let selected = filtered(scope, heads(scope_keys(scope)), true);
            &&& distinct_keys(selected)
            &&& selected.len() == scope.len()
            &&& forall|k: Seq<char>| has_key(selected, k) <==> has_key(scope, k)
            &&& forall|k: Seq<char>| #[trigger] has_key(scope, k) ==>
                entry_of(selected, k) == entry_of(scope, k)
        }),
{
    let scope = config.resources@;
    lemma_full_selection(scope);
}

/// Selecting every key of a well-formed scope, with dependencies, gives the keys of the
/// scope, each once, with the entries they stand for.
pub proof fn lemma_full_selection(scope: Scope)
    requires
        distinct_keys(scope),
        keys_well_formed(scope),
        dependencies_resolve(scope),
        tree_acyclic(scope),
    ensures
        distinct_keys(filtered(scope, heads(scope_keys(scope)), true)),
        filtered(scope, heads(scope_keys(scope)), true).len() == scope.len(),
        forall|k: Seq<char>| has_key(filtered(scope, heads(scope_keys(scope)), true), k) <==>
            has_key(scope, k),
        forall|k: Seq<char>| #[trigger]
            has_key(scope, k) ==>
                entry_of(filtered(scope, heads(scope_keys(scope)), true), k) == entry_of(
                scope,
                k,
            ),
{
    let keys = scope_keys(scope);
    assert forall|i: int| 0 <= i < keys.len() implies head_of(#[trigger] keys[i]) == keys[i] by {
        lemma_scope_key_in_tree(scope, scope.len() as int, i);
        let tree_keys = all_keys(scope);
        let at = choose|at: int| 0 <= at < tree_keys.len() && tree_keys[at] == scope[i].0;
        assert(key_format_valid(all_keys(scope)[at]));
        lemma_key_is_its_head(keys[i]);
    }
    assert(token_heads(keys) =~= keys);
    crate::text::lemma_last_of_each_distinct(keys, keys.len() as int);
    assert(keys.take(keys.len() as int) =~= keys);
    assert(heads(keys) == keys);
    lemma_resolved_scope_is_closed(scope);
    let chosen = selection(scope, keys, true);
    lemma_selection(scope, keys, true);
    lemma_closure(scope, keys, Seq::empty(), true);
    lemma_topological_order(chosen, true);
    let order = topological_order(chosen, true);
    lemma_select(chosen, order);
    let selected = filtered(scope, keys, true);
    assert forall|k: Seq<char>| has_key(selected, k) <==> has_key(scope, k) by {
        if has_key(scope, k) {
            assert(keys.contains(k));
            assert(has_key(chosen, k));
        }
        if has_key(selected, k) {
            assert(order.contains(k));
            assert(has_key(chosen, k));
            let i = choose|i: int| 0 <= i < scope_keys(chosen).len() && scope_keys(chosen)[i] == k;
            assert(has_key(scope, scope_keys(chosen)[i]));
        }
    }
    assert forall|k: Seq<char>| #[trigger] has_key(scope, k) implies
        entry_of(selected, k) == entry_of(
        scope,
        k,
    ) by {
        assert(has_key(selected, k));
        assert(order.contains(k));
        assert(has_key(chosen, k));
    }
    crate::graph::lemma_distinct_keys_bound(scope, scope_keys(selected));
    crate::schedule::lemma_listed_keys_bound(keys, scope_keys(selected));
}

/// The heads of the tokens are the keys that the tokens name, each once, and they select
/// what the tokens select: a key that is named again selects nothing more and nothing
/// in another order.
pub proof fn lemma_heads_select_as_tokens(scope: Scope, tokens: Seq<Seq<char>>, dependencies: bool)
    ensures
        heads(tokens).no_duplicates(),
        forall|key: Seq<char>| heads(tokens).contains(key) <==> token_heads(tokens).contains(key),
        filtered(scope, heads(tokens), dependencies) == filtered(
            scope,
            token_heads(tokens),
            dependencies,
        ),
{
    let named = token_heads(tokens);
    crate::text::lemma_last_of_each(named);
    crate::schedule::lemma_closure_last_of_each(
        scope,
        named,
        named.len() as int,
        Seq::empty(),
        dependencies,
    );
    assert(heads(tokens) + named.skip(named.len() as int) =~= heads(tokens));
}

/// A group that the tokens name without a qualifier runs whole: every key of the group
/// is selected and dependencies are included, whether or not the caller includes them.
/// A group that the tokens qualify runs what the qualifiers select, with dependencies
/// as the caller has them.
pub proof fn lemma_group_selection(
    scope: Scope,
    namespace: Option<Seq<char>>,
    tokens: Seq<Seq<char>>,
    dependencies: bool,
    key: Seq<char>,
)
    requires
        has_key(scope, key),
        entry_of(scope, key).resource is Group,
    ensures
        tails_for(tokens, key).len() == 0 ==>
            plan_keys(scope, seq![key], namespace, tokens, dependencies)
            == plan(
            entry_of(scope, key).resource->Group_0,
            Some(group_namespace(namespace, key)),
            scope_keys(entry_of(scope, key).resource->Group_0),
            true,
        ),
        tails_for(tokens, key).len() > 0 ==>
            plan_keys(scope, seq![key], namespace, tokens, dependencies)
            == plan(
            entry_of(scope, key).resource->Group_0,
            Some(group_namespace(namespace, key)),
            tails_for(tokens, key),
            dependencies,
        ),
{
    lemma_key_index(scope, key);
    let keys = seq![key];
    assert(keys.drop_last() =~= Seq::<Seq<char>>::empty());
    assert(keys.last() == key);
    let before = plan_keys(scope, keys.drop_last(), namespace, tokens, dependencies);
    assert(before =~= Seq::empty());
    let children = entry_of(scope, key).resource->Group_0;
    let inside = plan(
        children,
        Some(group_namespace(namespace, key)),
        crate::units::group_tokens(tokens, key, children),
        dependencies || tails_for(tokens, key).len() == 0,
    );
    assert(plan_keys(scope, keys, namespace, tokens, dependencies) == before + inside);
    assert(before + inside =~= inside);
}

/// A release whose chart name holds no slash is at fault whatever repositories are
/// configured, and the fault names its key and its chart name.
pub proof fn lemma_chart_name_without_slash(
    key: Seq<char>,
    release: HelmRemoteView,
    names: Option<Seq<Seq<char>>>,
)
    requires
        !release.chart_name.contains('/'),
    ensures
        chart_fault(key, ResourceView::HelmRemote(release), names) == Some(
            invalid_helm_chart_name_message(key, release.chart_name),
        ),
{
    lemma_first_index(release.chart_name, '/');
}

/// A tree that holds a release whose chart name has no slash fails the check of charts,
/// whatever repositories are configured. Where no resource before it is at fault, the
/// failure names its key and its chart name.
pub proof fn lemma_release_without_slash_fails(
    scope: Scope,
    names: Option<Seq<Seq<char>>>,
    r: Result<(), Error>,
    i: int,
)
    requires
        charts_outcome(scope, names, r),
        0 <= i < leaves(scope).len(),
        leaves(scope)[i].1 is HelmRemote,
        !leaves(scope)[i].1->HelmRemote_0.chart_name.contains('/'),
    ensures
        r is Err,
        (forall|j: int| 0 <= j < i ==> #[trigger] chart_fault_at(leaves(scope), j, names) is None)
            ==> fails_with(
            r,
            ErrorKind::InvalidData,
            invalid_helm_chart_name_message(
                leaves(scope)[i].0,
                leaves(scope)[i].1->HelmRemote_0.chart_name,
            ),
        ),
{
    let release = leaves(scope)[i].1->HelmRemote_0;
    lemma_chart_name_without_slash(leaves(scope)[i].0, release, names);
    assert(chart_fault_at(leaves(scope), i, names) is Some);
    if forall|j: int| 0 <= j < i ==> #[trigger] chart_fault_at(leaves(scope), j, names) is None {
        let first = choose|first: int| #[trigger]
            first_chart_fault(leaves(scope), first, names) && fails_with(
                r,
                ErrorKind::InvalidData,
                chart_fault_at(leaves(scope), first, names)->0,
            );
        if first < i {
            assert(chart_fault_at(leaves(scope), first, names) is None);
        } else if i < first {
            assert(chart_fault_at(leaves(scope), i, names) is None);
        }
    }
}

/// A configuration that holds a release whose chart name has no slash does not pass
/// validation, whatever repositories it configures and whatever files exist.
pub proof fn lemma_validation_fails_without_slash(
    config: Config,
    existing: Seq<Seq<char>>,
    r: Result<(), Error>,
    i: int,
)
    requires
        validation_outcome(config, existing, r),
        0 <= i < leaves(config.resources@).len(),
        leaves(config.resources@)[i].1 is HelmRemote,
        !leaves(config.resources@)[i].1->HelmRemote_0.chart_name.contains('/'),
    ensures
        r is Err,
{
    let scope = config.resources@;
    let names = crate::checks::configured_names(config_repositories(config));
    let release = leaves(scope)[i].1->HelmRemote_0;
    lemma_chart_name_without_slash(leaves(scope)[i].0, release, names);
    assert(chart_fault_at(leaves(scope), i, names) is Some);
    assert(!crate::checks::charts_resolve(scope, names));
}

} // verus!
