//! Finding dependency cycles by a depth-first search that keeps its path on a stack,
//! and the proof that the search finds a cycle exactly where there is one.

use crate::error::{fails_with, invalid_data, Error, ErrorKind};
use crate::file_format::{
    dependencies_of, entry_of, has_key, key_index, lemma_group_is_smaller, lemma_key_index,
    scope_keys, Resource, ResourceMap, ResourceView, Scope,
};
use crate::graph::{acyclic, depends_on, is_cycle, is_step, is_walk, lemma_walk_closes};
use crate::text::{clone_strings, contains_string, join, joined, views};
use vstd::hash_set::StringHashSet;
use vstd::prelude::*;
use vstd::string::*;

verus! {

/// How a search ends: with the path that closes a cycle, where it found one, and with
/// the keys visited by then.
pub struct Search {
    pub cycle: Option<Seq<Seq<char>>>,
    pub seen: Set<Seq<char>>,
}

/// The number of keys of the scope that were not visited.
pub open spec fn unseen(scope: Scope, visited: Set<Seq<char>>) -> nat {
    scope_keys(scope).to_set().difference(visited).len()
}

/// Visiting a new key of the scope leaves fewer unvisited.
pub proof fn lemma_unseen_decreases(scope: Scope, visited: Set<Seq<char>>, key: Seq<char>)
    requires
        has_key(scope, key),
        !visited.contains(key),
    ensures
        unseen(scope, visited.insert(key)) < unseen(scope, visited),
{
    broadcast use vstd::seq_lib::seq_to_set_is_finite;
    broadcast use vstd::set::group_set_axioms;

    let keys = scope_keys(scope).to_set();
    let before = keys.difference(visited);
    assert(keys.difference(visited.insert(key)) =~= before.remove(key));
    assert(before.contains(key));
}

/// Visiting more keys never leaves more unvisited.
pub proof fn lemma_unseen_grows(scope: Scope, visited: Set<Seq<char>>, more: Set<Seq<char>>)
    requires
        visited.subset_of(more),
    ensures
        unseen(scope, more) <= unseen(scope, visited),
{
    broadcast use vstd::seq_lib::seq_to_set_is_finite;
    broadcast use vstd::set::group_set_axioms;

    let keys = scope_keys(scope).to_set();
    vstd::set_lib::lemma_len_subset(keys.difference(more), keys.difference(visited));
}

/// The search from `key`, with `stack` holding the path that led to it and `visited`
/// the keys seen so far. A key on the stack closes a cycle: the search ends with the
/// stack and that key. A key that was visited needs no second look. Any other key is
/// visited and put on the stack while its dependencies are searched in order.
pub open spec fn search(
    scope: Scope,
    key: Seq<char>,
    visited: Set<Seq<char>>,
    stack: Seq<Seq<char>>,
) -> Search
    decreases unseen(scope, visited), 0nat, 0nat,
{
    if stack.contains(key) {
        Search { cycle: Some(stack.push(key)), seen: visited }
    } else if visited.contains(key) {
        Search { cycle: None, seen: visited }
    } else if !has_key(scope, key) {
        Search { cycle: None, seen: visited.insert(key) }
    } else {
        proof {
            lemma_unseen_decreases(scope, visited, key);
        }
        search_all(
            scope,
            dependencies_of(entry_of(scope, key)),
            0,
            visited.insert(key),
            stack.push(key),
        )
    }
}

/// The searches from the keys of `neighbours` from position `from` on, one after
/// another, each with what the searches before it visited. The first cycle ends them.
pub open spec fn search_all(
    scope: Scope,
    neighbours: Seq<Seq<char>>,
    from: int,
    visited: Set<Seq<char>>,
    stack: Seq<Seq<char>>,
) -> Search
    decreases unseen(scope, visited), 1nat, neighbours.len() - from,
{
    if from < 0 || from >= neighbours.len() {
        Search { cycle: None, seen: visited }
    } else if search(scope, neighbours[from], visited, stack).cycle is Some {
        search(scope, neighbours[from], visited, stack)
    } else {
        proof {
            lemma_unseen_grows(
                scope,
                visited,
                visited.union(search(scope, neighbours[from], visited, stack).seen),
            );
        }
        search_all(
            scope,
            neighbours,
            from + 1,
            visited.union(search(scope, neighbours[from], visited, stack).seen),
            stack,
        )
    }
}

/// A search has visited, when it ends, all that was visited before it.
pub proof fn lemma_search_grows(
    scope: Scope,
    key: Seq<char>,
    visited: Set<Seq<char>>,
    stack: Seq<Seq<char>>,
)
    ensures
        visited.subset_of(search(scope, key, visited, stack).seen),
    decreases unseen(scope, visited), 0nat, 0nat,
{
    if !stack.contains(key) && !visited.contains(key) && has_key(scope, key) {
        lemma_unseen_decreases(scope, visited, key);
        lemma_search_all_grows(
            scope,
            dependencies_of(entry_of(scope, key)),
            0,
            visited.insert(key),
            stack.push(key),
        );
    }
}

/// Searches have visited, when they end, all that was visited before them.
pub proof fn lemma_search_all_grows(
    scope: Scope,
    neighbours: Seq<Seq<char>>,
    from: int,
    visited: Set<Seq<char>>,
    stack: Seq<Seq<char>>,
)
    ensures
        visited.subset_of(search_all(scope, neighbours, from, visited, stack).seen),
    decreases unseen(scope, visited), 1nat, neighbours.len() - from,
{
    if 0 <= from < neighbours.len() {
        lemma_search_grows(scope, neighbours[from], visited, stack);
        let first = search(scope, neighbours[from], visited, stack);
        if first.cycle is None {
            lemma_unseen_grows(scope, visited, visited.union(first.seen));
            lemma_search_all_grows(scope, neighbours, from + 1, visited.union(first.seen), stack);
        }
    }
}

/// No cycle starts at a key that was visited and has left the stack.
pub open spec fn settled(scope: Scope, visited: Set<Seq<char>>, stack: Seq<Seq<char>>) -> bool {
    forall|p: Seq<Seq<char>>| #[trigger]
        is_cycle(scope, p) ==> !(visited.contains(p[0]) && !stack.contains(p[0]))
}

/// The state of a search in progress: the stack is a walk without repetition through
/// visited keys, and the keys that have left it are settled.
pub open spec fn on_track(scope: Scope, visited: Set<Seq<char>>, stack: Seq<Seq<char>>) -> bool {
    &&& stack.no_duplicates()
    &&& is_walk(scope, stack)
    &&& forall|i: int| 0 <= i < stack.len() ==> visited.contains(#[trigger] stack[i])
    &&& settled(scope, visited, stack)
}

/// `path` goes on from `stack` along dependencies, without repetition, until its last
/// key, which it holds before.
pub open spec fn closes(scope: Scope, stack: Seq<Seq<char>>, path: Seq<Seq<char>>) -> bool {
    &&& path.len() >= 2
    &&& path.len() > stack.len()
    &&& path.take(stack.len() as int) == stack
    &&& is_walk(scope, path)
    &&& path.drop_last().no_duplicates()
    &&& path.drop_last().contains(path.last())
}

/// A cycle read from its second key on is a cycle.
pub proof fn lemma_rotate(scope: Scope, p: Seq<Seq<char>>)
    requires
        is_cycle(scope, p),
    ensures
        is_cycle(scope, p.drop_first().push(p[1])),
{
    let q = p.drop_first().push(p[1]);
    assert forall|i: int| 0 <= i < q.len() - 1 implies #[trigger] is_step(scope, q, i) by {
        if i < q.len() - 2 {
            assert(is_step(scope, p, i + 1));
        } else {
            assert(is_step(scope, p, 0));
        }
    }
}

/// What a search establishes. Without a cycle found, the key it started from is
/// settled with all that was visited. With one found, the path closes on itself.
pub proof fn lemma_search(
    scope: Scope,
    key: Seq<char>,
    visited: Set<Seq<char>>,
    stack: Seq<Seq<char>>,
)
    requires
        on_track(scope, visited, stack),
        stack.len() > 0 ==> depends_on(scope, stack.last(), key),
    ensures
        match search(scope, key, visited, stack).cycle {
            None => visited.subset_of(search(scope, key, visited, stack).seen) && search(
                scope,
                key,
                visited,
                stack,
            ).seen.contains(key) && !stack.contains(key) && on_track(
                scope,
                search(scope, key, visited, stack).seen,
                stack,
            ),
            Some(path) => closes(scope, stack, path),
        },
    decreases unseen(scope, visited), 0nat, 0nat,
{
    if stack.contains(key) {
        let path = stack.push(key);
        assert(path.take(stack.len() as int) =~= stack);
        assert(path.drop_last() =~= stack);
        assert forall|i: int| 0 <= i < path.len() - 1 implies
            #[trigger] is_step(scope, path, i) by {
            if i < stack.len() - 1 {
                assert(is_step(scope, stack, i));
            }
        }
    } else if visited.contains(key) {
    } else if !has_key(scope, key) {
        let seen = visited.insert(key);
        assert forall|p: Seq<Seq<char>>| #[trigger] is_cycle(scope, p) implies !(seen.contains(p[0])
            && !stack.contains(p[0])) by {
            assert(is_step(scope, p, 0));
        }
    } else {
        lemma_unseen_decreases(scope, visited, key);
        let neighbours = dependencies_of(entry_of(scope, key));
        let entered = visited.insert(key);
        let deeper = stack.push(key);
        assert forall|i: int, j: int|
            0 <= i < deeper.len() && 0 <= j < deeper.len() && i != j implies
                deeper[i] != deeper[j] by {
            if i < stack.len() && j < stack.len() {
            } else if i < stack.len() {
                assert(stack.contains(stack[i]));
            } else {
                assert(stack.contains(stack[j]));
            }
        }
        assert forall|i: int| 0 <= i < deeper.len() - 1 implies
            #[trigger] is_step(scope, deeper, i) by {
            if i < stack.len() - 1 {
                assert(is_step(scope, stack, i));
            }
        }
        assert forall|p: Seq<Seq<char>>| #[trigger] is_cycle(scope, p) implies !(entered.contains(
            p[0],
        ) && !deeper.contains(p[0])) by {
            if entered.contains(p[0]) && !deeper.contains(p[0]) {
                assert(deeper[stack.len() as int] == key);
                assert(p[0] != key);
                if stack.contains(p[0]) {
                    let i = choose|i: int| 0 <= i < stack.len() && stack[i] == p[0];
                    assert(deeper[i] == p[0]);
                }
            }
        }
        assert forall|j: int| 0 <= j < neighbours.len() implies depends_on(
            scope,
            deeper.last(),
            #[trigger] neighbours[j],
        ) by {
            assert(neighbours.contains(neighbours[j]));
        }
        lemma_search_all(scope, neighbours, 0, entered, deeper);
        let seen = search_all(scope, neighbours, 0, entered, deeper).seen;
        match search_all(scope, neighbours, 0, entered, deeper).cycle {
            Some(path) => {
                assert(path.take(stack.len() as int) =~= path.take(deeper.len() as int).take(
                    stack.len() as int,
                ));
                assert(deeper.take(stack.len() as int) =~= stack);
            },
            None => {
                assert(deeper[stack.len() as int] == key);
                assert forall|i: int| 0 <= i < stack.len() implies
                    seen.contains(#[trigger] stack[i]) by {
                    assert(visited.contains(stack[i]));
                }
                assert forall|p: Seq<Seq<char>>| #[trigger] is_cycle(scope, p) implies
                    !(seen.contains(
                    p[0],
                ) && !stack.contains(p[0])) by {
                    if seen.contains(p[0]) && !stack.contains(p[0]) {
                        if p[0] == key {
                            assert(is_step(scope, p, 0));
                            let j = choose|j: int| 0 <= j < neighbours.len()
                                && neighbours[j] == p[1];
                            assert(seen.contains(neighbours[j]) && !deeper.contains(neighbours[j]));
                            lemma_rotate(scope, p);
                            let q = p.drop_first().push(p[1]);
                            assert(q[0] == p[1]);
                        } else {
                            if deeper.contains(p[0]) {
                                let i = choose|i: int| 0 <= i < deeper.len() && deeper[i] == p[0];
                                assert(stack[i] == p[0]);
                            }
                        }
                    }
                }
            },
        }
    }
}

/// What the searches from a list of dependencies establish together.
pub proof fn lemma_search_all(
    scope: Scope,
    neighbours: Seq<Seq<char>>,
    from: int,
    visited: Set<Seq<char>>,
    stack: Seq<Seq<char>>,
)
    requires
        on_track(scope, visited, stack),
        stack.len() > 0,
        0 <= from <= neighbours.len(),
        forall|j: int| 0 <= j < neighbours.len() ==>
            depends_on(scope, stack.last(), #[trigger] neighbours[j]),
        forall|j: int|
            0 <= j < from ==>
                visited.contains(#[trigger] neighbours[j]) && !stack.contains(neighbours[j]),
    ensures
        match search_all(scope, neighbours, from, visited, stack).cycle {
            None => visited.subset_of(search_all(scope, neighbours, from, visited, stack).seen)
                && on_track(scope, search_all(scope, neighbours, from, visited, stack).seen, stack)
                && forall|j: int|
                0 <= j < neighbours.len() ==> search_all(
                    scope,
                    neighbours,
                    from,
                    visited,
                    stack,
                ).seen.contains(#[trigger] neighbours[j]) && !stack.contains(neighbours[j]),
            Some(path) => closes(scope, stack, path),
        },
    decreases unseen(scope, visited), 1nat, neighbours.len() - from,
{
    if from < neighbours.len() {
        lemma_search(scope, neighbours[from], visited, stack);
        let first = search(scope, neighbours[from], visited, stack);
        if first.cycle is None {
            assert(visited.union(first.seen) =~= first.seen);
            lemma_unseen_grows(scope, visited, first.seen);
            lemma_search_all(scope, neighbours, from + 1, first.seen, stack);
        }
    }
}

/// The first key of the scope, from position `from` on, whose search finds a cycle,
/// with the path found. Each search starts afresh.
pub open spec fn first_cycle(scope: Scope, from: int) -> Option<(Seq<char>, Seq<Seq<char>>)>
    decreases scope.len() - from,
{
    if from < 0 || from >= scope.len() {
        None
    } else {
        match search(scope, scope[from].0, Set::empty(), Seq::empty()).cycle {
            Some(path) => Some((scope[from].0, path)),
            None => first_cycle(scope, from + 1),
        }
    }
}

/// A path that closes on itself holds a cycle.
pub proof fn lemma_closes_cycle(scope: Scope, stack: Seq<Seq<char>>, path: Seq<Seq<char>>)
    requires
        closes(scope, stack, path),
    ensures
        !acyclic(scope),
{
    let walk = path.drop_last();
    assert forall|i: int| 0 <= i < walk.len() - 1 implies #[trigger] is_step(scope, walk, i) by {
        assert(is_step(scope, path, i));
    }
    assert(is_step(scope, path, path.len() - 2));
    lemma_walk_closes(scope, walk, path.last());
}

/// The searches find no cycle exactly where no cycle starts at a key from `from` on; a
/// cycle found starts at the key that is reported with it.
pub proof fn lemma_first_cycle(scope: Scope, from: int)
    requires
        0 <= from <= scope.len(),
    ensures
        match first_cycle(scope, from) {
            None => forall|p: Seq<Seq<char>>, i: int| #[trigger]
                is_cycle(scope, p) && from <= i < scope.len() ==> p[0] != (#[trigger] scope[i]).0,
            Some((start, path)) => has_key(scope, start) && path[0] == start && closes(
                scope,
                Seq::empty(),
                path,
            ) && !acyclic(scope),
        },
    decreases scope.len() - from,
{
    if from < scope.len() {
        let start = scope[from].0;
        let nothing = Set::<Seq<char>>::empty();
        let top = Seq::<Seq<char>>::empty();
        lemma_search(scope, start, nothing, top);
        match search(scope, start, nothing, top).cycle {
            Some(path) => {
                assert(scope_keys(scope)[from] == start);
                lemma_closes_cycle(scope, top, path);
                assert(!top.contains(start));
                assert(!nothing.contains(start));
                if has_key(scope, start) {
                    lemma_search_path_start(
                        scope,
                        dependencies_of(entry_of(scope, start)),
                        0,
                        nothing.insert(start),
                        top.push(start),
                    );
                    assert(top.push(start)[0] == start);
                }
            },
            None => {
                lemma_first_cycle(scope, from + 1);
            },
        }
    }
}

/// A path found by searches under a stack starts as the stack does.
pub proof fn lemma_search_path_start(
    scope: Scope,
    neighbours: Seq<Seq<char>>,
    from: int,
    visited: Set<Seq<char>>,
    stack: Seq<Seq<char>>,
)
    requires
        stack.len() > 0,
    ensures
        match search_all(scope, neighbours, from, visited, stack).cycle {
            Some(path) => path.len() > 0 && path[0] == stack[0],
            None => true,
        },
    decreases unseen(scope, visited), 1nat, neighbours.len() - from,
{
    if 0 <= from < neighbours.len() {
        let key = neighbours[from];
        let first = search(scope, key, visited, stack);
        match first.cycle {
            Some(path) => {
                if !stack.contains(key) {
                    lemma_unseen_decreases(scope, visited, key);
                    lemma_search_path_start(
                        scope,
                        dependencies_of(entry_of(scope, key)),
                        0,
                        visited.insert(key),
                        stack.push(key),
                    );
                    assert(stack.push(key)[0] == stack[0]);
                }
            },
            None => {
                lemma_unseen_grows(scope, visited, visited.union(first.seen));
                lemma_search_path_start(
                    scope,
                    neighbours,
                    from + 1,
                    visited.union(first.seen),
                    stack,
                );
            },
        }
    }
}

/// The searches from all keys of a scope find a cycle exactly where the scope has one.
pub proof fn lemma_cycle_found(scope: Scope)
    ensures
        first_cycle(scope, 0) is None <==> acyclic(scope),
{
    lemma_first_cycle(scope, 0);
    if first_cycle(scope, 0) is None {
        assert forall|p: Seq<Seq<char>>| !#[trigger] is_cycle(scope, p) by {
            if is_cycle(scope, p) {
                assert(is_step(scope, p, 0));
                lemma_key_index(scope, p[0]);
                let i = key_index(scope, p[0]);
                assert(p[0] != scope[i].0);
            }
        }
    }
}

/// The first cycle among the groups of the first `upto` entries, each group searched
/// through all its depth.
pub open spec fn nested_cycle_upto(scope: Scope, upto: int) -> Option<(Seq<char>, Seq<Seq<char>>)>
    decreases scope, upto,
{
    if upto <= 0 || upto > scope.len() {
        None
    } else {
        match nested_cycle_upto(scope, upto - 1) {
            Some(found) => Some(found),
            None => match scope[upto - 1].1.resource {
                ResourceView::Group(children) => tree_cycle(children),
                _ => None,
            },
        }
    }
}

/// The first cycle of the tree: one of the scope itself, or else the first one inside
/// its groups, taken in order.
pub open spec fn tree_cycle(scope: Scope) -> Option<(Seq<char>, Seq<Seq<char>>)>
    decreases scope, scope.len() + 1,
{
    match first_cycle(scope, 0) {
        Some(found) => Some(found),
        None => nested_cycle_upto(scope, scope.len() as int),
    }
}

/// The groups among the first `upto` entries are acyclic through all their depth.
pub open spec fn nested_acyclic_upto(scope: Scope, upto: int) -> bool
    decreases scope, upto,
{
    if upto <= 0 || upto > scope.len() {
        true
    } else {
        nested_acyclic_upto(scope, upto - 1) && match scope[upto - 1].1.resource {
            ResourceView::Group(children) => tree_acyclic(children),
            _ => true,
        }
    }
}

/// Every scope of the tree is acyclic.
pub open spec fn tree_acyclic(scope: Scope) -> bool
    decreases scope, scope.len() + 1,
{
    acyclic(scope) && nested_acyclic_upto(scope, scope.len() as int)
}

/// The search through the groups finds a cycle exactly where one of them has one.
pub proof fn lemma_nested_cycle(scope: Scope, upto: int)
    ensures
        nested_cycle_upto(scope, upto) is None <==> nested_acyclic_upto(scope, upto),
    decreases scope, upto,
{
    if 0 < upto <= scope.len() {
        lemma_nested_cycle(scope, upto - 1);
        match scope[upto - 1].1.resource {
            ResourceView::Group(children) => {
                lemma_tree_cycle(children);
            },
            _ => {},
        }
    }
}

/// The search through the tree finds a cycle exactly where some scope has one.
pub proof fn lemma_tree_cycle(scope: Scope)
    ensures
        tree_cycle(scope) is None <==> tree_acyclic(scope),
    decreases scope, scope.len() + 1,
{
    lemma_cycle_found(scope);
    lemma_nested_cycle(scope, scope.len() as int);
}

/// The message for a cycle found from the key `start`.
pub open spec fn dependency_cycle_message(start: Seq<char>, path: Seq<Seq<char>>) -> Seq<char> {
    "Configuration is invalid, dependency cycle for \""@ + start + "\": "@ + joined(path, " -> "@)
}

/// What the check of cycles returns: success where every scope of the tree is acyclic,
/// else the failure for the first cycle that the search finds.
pub open spec fn cycles_outcome(scope: Scope, r: Result<(), Error>) -> bool {
    &&& r is Ok <==> tree_acyclic(scope)
    &&& match tree_cycle(scope) {
        Some(found) => fails_with(r, ErrorKind::InvalidData,
            dependency_cycle_message(found.0, found.1)),
        None => r is Ok,
    }
}

/// An empty set of visited keys.
pub fn no_keys_visited() -> (visited: StringHashSet)
    ensures
        visited@ == Set::<Seq<char>>::empty(),
{
    StringHashSet::new()
}

/// Searches for a cycle from `resource_key` along the dependencies that
/// `dependencies_by_resource_key` declares. `stack` holds the path that led to the key
/// and `visited` the keys seen so far. Where a key comes up that is on the stack, the
/// search fails with the stack and that key, the path of the cycle, and leaves that
/// path on the stack. Otherwise it ends with the stack as it was. Either way the keys it
/// saw are added to `visited`.
pub fn analyse_cycles(
    resource_key: &String,
    dependencies_by_resource_key: &ResourceMap,
    visited: &mut StringHashSet,
    stack: &mut Vec<String>,
) -> (r: Result<(), Vec<String>>)
    ensures
        final(visited)@ == search(
            dependencies_by_resource_key@,
            resource_key@,
            old(visited)@,
            views(old(stack)@),
        ).seen,
        match search(
            dependencies_by_resource_key@,
            resource_key@,
            old(visited)@,
            views(old(stack)@),
        ).cycle {
            Some(path) => r is Err && views(r->Err_0@) == path && views(final(stack)@) == path,
            None => r is Ok && views(final(stack)@) == views(old(stack)@),
        },
    decreases unseen(dependencies_by_resource_key@, old(visited)@),
{
    let ghost scope = dependencies_by_resource_key@;
    let ghost visited_before = visited@;
    let ghost stack_before = views(stack@);
    if contains_string(stack, resource_key) {
        stack.push(resource_key.clone());
        proof {
            assert(views(stack@) =~= stack_before.push(resource_key@));
        }
        return Err(clone_strings(stack));
    }
    if visited.contains(resource_key.as_str()) {
        return Ok(());
    }
    visited.insert(resource_key.clone());
    stack.push(resource_key.clone());
    let ghost entered = visited@;
    let ghost deeper = views(stack@);
    proof {
        assert(deeper =~= stack_before.push(resource_key@));
    }
    match dependencies_by_resource_key.get(resource_key) {
        Some(entry) => {
            proof {
                lemma_unseen_decreases(scope, visited_before, resource_key@);
            }
            match &entry.depends_on {
                Some(neighbors) => {
                    let ghost neighbours = views(neighbors@);
                    let mut j: usize = 0;
                    proof {
                        assert(neighbours == dependencies_of(entry_of(scope, resource_key@)));
                    }
                    while j < neighbors.len()
                        invariant
                            j <= neighbors.len(),
                            scope == dependencies_by_resource_key@,
                            neighbours == views(neighbors@),
                            views(stack@) == deeper,
                            visited_before == old(visited)@,
                            stack_before == views(old(stack)@),
                            search(scope, resource_key@, visited_before, stack_before)
                                == search_all(
                                scope,
                                neighbours,
                                0,
                                entered,
                                deeper,
                            ),
                            unseen(scope, visited@) < unseen(scope, visited_before),
                            search_all(scope, neighbours, j as int, visited@, deeper) == search_all(
                                scope,
                                neighbours,
                                0,
                                entered,
                                deeper,
                            ),
                        decreases neighbors.len() - j,
                    {
                        let ghost seen_before = visited@;
                        proof {
                            assert(neighbours[j as int] == neighbors@[j as int]@);
                            lemma_search_grows(scope, neighbours[j as int], seen_before, deeper);
                        }
                        match analyse_cycles(
                            &neighbors[j],
                            dependencies_by_resource_key,
                            visited,
                            stack,
                        ) {
                            Err(cycle) => {
                                return Err(cycle);
                            },
                            Ok(()) => {
                                proof {
                                    assert(seen_before.union(visited@) =~= visited@);
                                    lemma_unseen_grows(scope, seen_before, visited@);
                                }
                            },
                        }
                        j = j + 1;
                    }
                },
                None => {},
            }
        },
        None => {},
    }
    proof {
        assert(views(stack@) == deeper);
    }
    stack.pop();
    proof {
        assert(views(stack@) =~= deeper.drop_last());
        assert(deeper.drop_last() =~= stack_before);
    }
    Ok(())
}

/// The failure for a cycle found from `resource_key`: it shows the keys of the path,
/// joined by arrows.
pub fn create_dependency_cycle_error(resource_key: &String, cycle: Vec<String>) -> (e: Error)
    ensures
        e.kind == ErrorKind::InvalidData,
        e.message@ == dependency_cycle_message(resource_key@, views(cycle@)),
{
    let listing = join(&cycle, " -> ");
    let mut message = String::from_str("Configuration is invalid, dependency cycle for \"");
    message.append(resource_key.as_str());
    message.append("\": ");
    message.append(listing.as_str());
    invalid_data(message)
}

/// Checks that no resource depends on itself, directly or through others, in the scope
/// and in every group below it. The keys of a scope are searched in declaration order,
/// each with a fresh stack; the first cycle found is reported with the key whose search
/// found it and the path of the search. The groups of a scope are checked after the
/// scope itself, in order.
pub fn check_dependency_cycles(resources: &ResourceMap) -> (r: Result<(), Error>)
    ensures
        cycles_outcome(resources@, r),
    decreases resources@,
{
    let n = resources.len();
    let mut i: usize = 0;
    while i < n
        invariant
            i <= n,
            n == resources@.len(),
            first_cycle(resources@, i as int) == first_cycle(resources@, 0),
        decreases n - i,
    {
        match resources.get_index(i) {
            Some((resource_key, _)) => {
                let mut visited = no_keys_visited();
                let mut stack: Vec<String> = Vec::new();
                proof {
                    assert(views(stack@) =~= Seq::<Seq<char>>::empty());
                }
                match analyse_cycles(resource_key, resources, &mut visited, &mut stack) {
                    Err(cycle) => {
                        proof {
                            lemma_tree_cycle(resources@);
                        }
                        return Err(create_dependency_cycle_error(resource_key, cycle));
                    },
                    Ok(()) => {},
                }
            },
            None => {},
        }
        i = i + 1;
    }
    let mut i: usize = 0;
    while i < n
        invariant
            i <= n,
            n == resources@.len(),
            first_cycle(resources@, 0) is None,
            nested_cycle_upto(resources@, i as int) is None,
        decreases n - i,
    {
        match resources.get_index(i) {
            Some((_, entry)) => {
                match &entry.resource {
                    Resource::Group { group } => {
                        proof {
                            assert(resources@[i as int].1.resource == ResourceView::Group(group@));
                            lemma_group_is_smaller(resources@, i as int);
                        }
                        let checked = check_dependency_cycles(group);
                        if checked.is_err() {
                            proof {
                                lemma_nested_found(resources@, i + 1, n as int);
                                lemma_tree_cycle(resources@);
                            }
                            return checked;
                        }
                    },
                    _ => {},
                }
            },
            None => {},
        }
        i = i + 1;
    }
    proof {
        lemma_tree_cycle(resources@);
    }
    Ok(())
}

/// A cycle found among the first groups is the one found among all.
pub proof fn lemma_nested_found(scope: Scope, upto: int, all: int)
    requires
        0 <= upto <= all <= scope.len(),
        nested_cycle_upto(scope, upto) is Some,
    ensures
        nested_cycle_upto(scope, all) == nested_cycle_upto(scope, upto),
    decreases all - upto,
{
    if upto < all {
        lemma_nested_found(scope, upto, all - 1);
    }
}

} // verus!
