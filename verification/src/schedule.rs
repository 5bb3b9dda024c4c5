//! What selecting and ordering the units of one scope mean: the closure of a selection
//! under dependencies, and the order in which repeated scans of the scope run its units.

use crate::file_format::{
    dependencies_of, distinct_keys, entry_of, has_key, key_index, lemma_key_index, scope_keys,
    EntryView, Scope,
};
use crate::graph::{
    acyclic, closed, depends_on, lemma_distinct_keys_bound, lemma_entry_at, lemma_select,
    lemma_select_acyclic, lemma_some_key_is_ready, pending, ready, select,
};
use crate::text::{first_index, last_of_each_upto, lemma_first_index, occurs_later};
use vstd::prelude::*;

verus! {

/// A scan appends a unit when it is not in `done` yet and, where dependencies count,
/// all of its dependencies are.
pub open spec fn may_run(
    unit: (Seq<char>, EntryView),
    done: Seq<Seq<char>>,
    dependencies: bool,
) -> bool {
    !done.contains(unit.0) && (!dependencies || ready(unit.1, done))
}

/// One scan of the units from position `from` on, in declaration order: each unit that
/// may run is appended to `done`, and counts as done for the units after it.
pub open spec fn scan(
    units: Scope,
    done: Seq<Seq<char>>,
    from: int,
    dependencies: bool,
) -> Seq<Seq<char>>
    decreases units.len() - from,
{
    if from < 0 || from >= units.len() {
        done
    } else if may_run(units[from], done, dependencies) {
        scan(units, done.push(units[from].0), from + 1, dependencies)
    } else {
        scan(units, done, from + 1, dependencies)
    }
}

/// Scans from the top, again and again, while a unit is missing from `done` and the
/// last scan appended one.
pub open spec fn schedule(units: Scope, done: Seq<Seq<char>>, dependencies: bool) -> Seq<Seq<char>>
    decreases units.len() - done.len(),
{
    let next = scan(units, done, 0, dependencies);
    if pending(units, done) && done.len() < next.len() <= units.len() {
        schedule(units, next, dependencies)
    } else {
        done
    }
}

/// The keys of a scope in the order in which its units run.
pub open spec fn topological_order(units: Scope, dependencies: bool) -> Seq<Seq<char>> {
    schedule(units, Seq::empty(), dependencies)
}

/// `done` lists keys of the scope, each once, and, where dependencies count, each
/// after all of its dependencies.
pub open spec fn in_order(units: Scope, done: Seq<Seq<char>>, dependencies: bool) -> bool {
    &&& done.no_duplicates()
    &&& forall|i: int| 0 <= i < done.len() ==> has_key(units, #[trigger] done[i])
    &&& dependencies ==> forall|i: int, d: Seq<char>|
        0 <= i < done.len() && #[trigger] dependencies_of(entry_of(units, done[i])).contains(d)
            ==> done.take(i).contains(d)
}

/// A scan keeps what was done, appends in order, and appends nothing only where no
/// unit from `from` on may run.
pub proof fn lemma_scan(units: Scope, done: Seq<Seq<char>>, from: int, dependencies: bool)
    requires
        distinct_keys(units),
        in_order(units, done, dependencies),
        0 <= from <= units.len(),
    ensures
        in_order(units, scan(units, done, from, dependencies), dependencies),
        done.len() <= scan(units, done, from, dependencies).len(),
        scan(units, done, from, dependencies).take(done.len() as int) == done,
        scan(units, done, from, dependencies).len() == done.len() ==> forall|i: int|
            from <= i < units.len() ==> !may_run(#[trigger] units[i], done, dependencies),
    decreases units.len() - from,
{
    if from < units.len() {
        let unit = units[from];
        lemma_entry_at(units, from);
        if may_run(unit, done, dependencies) {
            let next = done.push(unit.0);
            assert forall|i: int, j: int|
                0 <= i < next.len() && 0 <= j < next.len() && i != j implies next[i] != next[j] by {
                if i < done.len() && j < done.len() {
                } else if i < done.len() {
                    assert(done.contains(done[i]));
                } else {
                    assert(done.contains(done[j]));
                }
            }
            if dependencies {
                assert forall|i: int, d: Seq<char>|
                    0 <= i < next.len() && #[trigger] dependencies_of(
                        entry_of(units, next[i]),
                    ).contains(d) implies next.take(i).contains(d) by {
                    if i < done.len() {
                        assert(next.take(i) =~= done.take(i));
                    } else {
                        assert(next.take(i) =~= done);
                    }
                }
            }
            lemma_scan(units, next, from + 1, dependencies);
            let r = scan(units, next, from + 1, dependencies);
            assert(r.take(done.len() as int) =~= r.take(next.len() as int).take(done.len() as int));
            assert(next.take(done.len() as int) =~= done);
        } else {
            lemma_scan(units, done, from + 1, dependencies);
        }
    } else {
        assert(done.take(done.len() as int) =~= done);
    }
}

/// While a unit is missing, a scan from the top of a well-formed scope appends one.
pub proof fn lemma_scan_progress(units: Scope, done: Seq<Seq<char>>, dependencies: bool)
    requires
        distinct_keys(units),
        in_order(units, done, dependencies),
        dependencies ==> closed(units) && acyclic(units),
        pending(units, done),
    ensures
        done.len() < scan(units, done, 0, dependencies).len() <= units.len(),
{
    let next = scan(units, done, 0, dependencies);
    lemma_scan(units, done, 0, dependencies);
    lemma_distinct_keys_bound(units, next);
    if next.len() == done.len() {
        let k = if dependencies {
            lemma_some_key_is_ready(units, done);
            choose|k: Seq<char>| #[trigger]
                has_key(units, k) && !done.contains(k) && ready(entry_of(units, k), done)
        } else {
            choose|k: Seq<char>| #[trigger] has_key(units, k) && !done.contains(k)
        };
        lemma_key_index(units, k);
        let i = key_index(units, k);
        assert(scope_keys(units)[i] == k);
        assert(may_run(units[i], done, dependencies));
    }
}

/// The schedule of a well-formed scope lists every key of the scope, in order.
pub proof fn lemma_schedule(units: Scope, done: Seq<Seq<char>>, dependencies: bool)
    requires
        distinct_keys(units),
        in_order(units, done, dependencies),
        dependencies ==> closed(units) && acyclic(units),
    ensures
        in_order(units, schedule(units, done, dependencies), dependencies),
        !pending(units, schedule(units, done, dependencies)),
    decreases units.len() - done.len(),
{
    if pending(units, done) {
        lemma_scan(units, done, 0, dependencies);
        lemma_scan_progress(units, done, dependencies);
        lemma_schedule(units, scan(units, done, 0, dependencies), dependencies);
    }
}

/// The order of a well-formed scope holds each key of the scope exactly once, and a
/// key that another depends on comes before it.
pub proof fn lemma_topological_order(units: Scope, dependencies: bool)
    requires
        distinct_keys(units),
        dependencies ==> closed(units) && acyclic(units),
    ensures
        topological_order(units, dependencies).no_duplicates(),
        forall|k: Seq<char>| topological_order(units, dependencies).contains(k) <==>
            has_key(units, k),
        topological_order(units, dependencies).len() == units.len(),
        dependencies ==> forall|a: Seq<char>, b: Seq<char>| #[trigger]
            depends_on(units, a, b) ==> first_index(topological_order(units, dependencies), b)
                < first_index(topological_order(units, dependencies), a),
{
    let empty = Seq::<Seq<char>>::empty();
    let order = topological_order(units, dependencies);
    lemma_schedule(units, empty, dependencies);
    assert forall|k: Seq<char>| order.contains(k) <==> has_key(units, k) by {
        if order.contains(k) {
            let i = choose|i: int| 0 <= i < order.len() && order[i] == k;
            assert(has_key(units, order[i]));
        }
    }
    lemma_distinct_keys_bound(units, order);
    assert forall|i: int| 0 <= i < units.len() implies
        order.contains(#[trigger] scope_keys(units)[i]) by {
        assert(has_key(units, scope_keys(units)[i]));
    }
    lemma_listed_keys_bound(scope_keys(units), order);
    if dependencies {
        assert forall|a: Seq<char>, b: Seq<char>| #[trigger] depends_on(units, a, b) implies
            first_index(
            order,
            b,
        ) < first_index(order, a) by {
            lemma_first_index(order, a);
            lemma_first_index(order, b);
            let i = first_index(order, a);
            assert(order[i] == a);
            assert(order.take(i).contains(b));
            let j = choose|j: int| 0 <= j < order.take(i).len() && order.take(i)[j] == b;
            assert(order[j] == b);
        }
    }
}

/// A list that holds every item of a duplicate-free list is at least as long.
pub proof fn lemma_listed_keys_bound(keys: Seq<Seq<char>>, list: Seq<Seq<char>>)
    requires
        keys.no_duplicates(),
        forall|i: int| 0 <= i < keys.len() ==> list.contains(#[trigger] keys[i]),
    ensures
        keys.len() <= list.len(),
{
    broadcast use vstd::seq_lib::seq_to_set_is_finite;

    keys.unique_seq_to_set();
    list.lemma_cardinality_of_set();
    assert forall|k: Seq<char>| keys.to_set().contains(k) implies list.to_set().contains(k) by {
        let i = choose|i: int| 0 <= i < keys.len() && keys[i] == k;
        assert(list.contains(keys[i]));
    }
    vstd::set_lib::lemma_len_subset(keys.to_set(), list.to_set());
}

/// The number of keys of the scope that are not in `found`.
pub open spec fn unvisited(units: Scope, found: Seq<Seq<char>>) -> nat {
    scope_keys(units).to_set().difference(found.to_set()).len()
}

/// Finding a new key of the scope leaves fewer to find.
pub proof fn lemma_unvisited_decreases(units: Scope, found: Seq<Seq<char>>, key: Seq<char>)
    requires
        has_key(units, key),
        !found.contains(key),
    ensures
        unvisited(units, found.push(key)) < unvisited(units, found),
{
    broadcast use vstd::seq_lib::seq_to_set_is_finite;
    broadcast use vstd::set::group_set_axioms;

    let keys = scope_keys(units).to_set();
    let before = keys.difference(found.to_set());
    let after = keys.difference(found.push(key).to_set());
    assert forall|k: Seq<char>| after.contains(k) <==> before.remove(key).contains(k) by {
        if found.push(key).contains(k) && k != key {
            let i = choose|i: int| 0 <= i < found.push(key).len() && found.push(key)[i] == k;
            assert(found[i] == k);
        }
        if found.contains(k) {
            let i = choose|i: int| 0 <= i < found.len() && found[i] == k;
            assert(found.push(key)[i] == k);
        }
        assert(found.push(key)[found.len() as int] == key);
    }
    assert(after =~= before.remove(key));
    assert(before.contains(key));
}

/// The closure of a selection: keys are taken from the end of `stack`; a key of the
/// scope that is not in `found` yet is appended to `found`, and, where dependencies
/// are included, its dependencies go on the stack to be taken next.
pub open spec fn closure(
    units: Scope,
    stack: Seq<Seq<char>>,
    found: Seq<Seq<char>>,
    dependencies: bool,
) -> Seq<Seq<char>>
    decreases unvisited(units, found), stack.len(),
{
    if stack.len() == 0 {
        found
    } else if found.contains(stack.last()) || !has_key(units, stack.last()) {
        closure(units, stack.drop_last(), found, dependencies)
    } else {
        proof {
            lemma_unvisited_decreases(units, found, stack.last());
        }
        closure(
            units,
            if dependencies {
                stack.drop_last() + dependencies_of(entry_of(units, stack.last()))
            } else {
                stack.drop_last()
            },
            found.push(stack.last()),
            dependencies,
        )
    }
}

/// `found` lists keys of the scope, each once.
pub open spec fn keys_once(units: Scope, found: Seq<Seq<char>>) -> bool {
    &&& found.no_duplicates()
    &&& forall|i: int| 0 <= i < found.len() ==> has_key(units, #[trigger] found[i])
}

/// Every dependency of a found key that is a key of the scope is found or waits on
/// the stack.
pub open spec fn dependencies_covered(
    units: Scope,
    stack: Seq<Seq<char>>,
    found: Seq<Seq<char>>,
) -> bool {
    forall|k: Seq<char>, d: Seq<char>|
        found.contains(k) && #[trigger] depends_on(units, k, d) && has_key(units, d) ==>
            found.contains(d)
            || stack.contains(d)
}

/// The closure holds what was found, each key of the scope that waited on the stack,
/// and, where dependencies are included, the dependencies of all it holds.
pub proof fn lemma_closure(
    units: Scope,
    stack: Seq<Seq<char>>,
    found: Seq<Seq<char>>,
    dependencies: bool,
)
    requires
        keys_once(units, found),
        dependencies ==> dependencies_covered(units, stack, found),
    ensures
        keys_once(units, closure(units, stack, found, dependencies)),
        forall|k: Seq<char>| found.contains(k) ==>
            closure(units, stack, found, dependencies).contains(k),
        forall|k: Seq<char>|
            stack.contains(k) && has_key(units, k) ==>
                closure(units, stack, found, dependencies).contains(
                k,
            ),
        dependencies ==> dependencies_covered(
            units,
            Seq::empty(),
            closure(units, stack, found, dependencies),
        ),
        !dependencies ==> forall|k: Seq<char>|
            closure(units, stack, found, dependencies).contains(k) ==>
                found.contains(k) || stack.contains(k),
    decreases unvisited(units, found), stack.len(),
{
    let result = closure(units, stack, found, dependencies);
    if stack.len() == 0 {
        if dependencies {
            assert forall|k: Seq<char>, d: Seq<char>|
                found.contains(k) && #[trigger] depends_on(units, k, d) && has_key(
                    units,
                    d,
                ) implies found.contains(d) || Seq::<Seq<char>>::empty().contains(d) by {
                assert(found.contains(d) || stack.contains(d));
            }
        }
    } else {
        let key = stack.last();
        let rest = stack.drop_last();
        if found.contains(key) || !has_key(units, key) {
            if dependencies {
                assert forall|k: Seq<char>, d: Seq<char>|
                    found.contains(k) && #[trigger] depends_on(units, k, d) && has_key(
                        units,
                        d,
                    ) implies found.contains(d) || rest.contains(d) by {
                    if stack.contains(d) && !found.contains(d) {
                        let i = choose|i: int| 0 <= i < stack.len() && stack[i] == d;
                        assert(rest[i] == d);
                    }
                }
            }
            lemma_closure(units, rest, found, dependencies);
            assert forall|k: Seq<char>| stack.contains(k) && has_key(units, k) implies
                result.contains(
                k,
            ) by {
                let i = choose|i: int| 0 <= i < stack.len() && stack[i] == k;
                if i < rest.len() {
                    assert(rest[i] == k);
                }
            }
            if !dependencies {
                assert forall|k: Seq<char>| result.contains(k) implies found.contains(k)
                    || stack.contains(k) by {
                    if rest.contains(k) {
                        let i = choose|i: int| 0 <= i < rest.len() && rest[i] == k;
                        assert(stack[i] == k);
                    }
                }
            }
        } else {
            lemma_unvisited_decreases(units, found, key);
            let more = dependencies_of(entry_of(units, key));
            let next_stack = if dependencies {
                rest + more
            } else {
                rest
            };
            let next_found = found.push(key);
            assert forall|i: int, j: int|
                0 <= i < next_found.len() && 0 <= j < next_found.len() && i != j implies
                    next_found[i]
                != next_found[j] by {
                if i < found.len() && j < found.len() {
                } else if i < found.len() {
                    assert(found.contains(found[i]));
                } else {
                    assert(found.contains(found[j]));
                }
            }
            if dependencies {
                assert forall|k: Seq<char>, d: Seq<char>|
                    next_found.contains(k) && #[trigger] depends_on(units, k, d) && has_key(
                        units,
                        d,
                    ) implies next_found.contains(d) || next_stack.contains(d) by {
                    let i = choose|i: int| 0 <= i < next_found.len() && next_found[i] == k;
                    if i < found.len() {
                        assert(found.contains(k));
                        if found.contains(d) {
                            let j = choose|j: int| 0 <= j < found.len() && found[j] == d;
                            assert(next_found[j] == d);
                        } else {
                            let j = choose|j: int| 0 <= j < stack.len() && stack[j] == d;
                            if j < rest.len() {
                                assert(next_stack[j] == d);
                            } else {
                                assert(next_found[found.len() as int] == d);
                            }
                        }
                    } else {
                        let j = choose|j: int| 0 <= j < more.len() && more[j] == d;
                        assert(next_stack[rest.len() + j] == d);
                    }
                }
            }
            lemma_closure(units, next_stack, next_found, dependencies);
            assert(result == closure(units, next_stack, next_found, dependencies));
            assert forall|k: Seq<char>| found.contains(k) implies result.contains(k) by {
                let i = choose|i: int| 0 <= i < found.len() && found[i] == k;
                assert(next_found[i] == k);
                assert(next_found.contains(k));
            }
            assert(next_found[found.len() as int] == key);
            assert(next_found.contains(key));
            assert forall|k: Seq<char>| stack.contains(k) && has_key(units, k) implies
                result.contains(
                k,
            ) by {
                let i = choose|i: int| 0 <= i < stack.len() && stack[i] == k;
                if i < rest.len() {
                    assert(next_stack[i] == k);
                    assert(next_stack.contains(k));
                } else {
                    assert(k == key);
                }
            }
            if !dependencies {
                assert forall|k: Seq<char>| result.contains(k) implies found.contains(k)
                    || stack.contains(k) by {
                    if next_found.contains(k) {
                        let i = choose|i: int| 0 <= i < next_found.len() && next_found[i] == k;
                        if i < found.len() {
                            assert(found[i] == k);
                        }
                    } else {
                        let i = choose|i: int| 0 <= i < rest.len() && rest[i] == k;
                        assert(stack[i] == k);
                    }
                }
            }
        }
    }
}

/// A key that waits on the stack although it is found already, or is no key of the
/// scope, can be left out of the stack.
pub proof fn lemma_closure_skips_settled(
    units: Scope,
    below: Seq<Seq<char>>,
    key: Seq<char>,
    above: Seq<Seq<char>>,
    found: Seq<Seq<char>>,
    dependencies: bool,
)
    requires
        found.contains(key) || !has_key(units, key),
    ensures
        closure(units, below.push(key) + above, found, dependencies) == closure(
            units,
            below + above,
            found,
            dependencies,
        ),
    decreases unvisited(units, found), above.len(),
{
    let with = below.push(key) + above;
    let without = below + above;
    if above.len() == 0 {
        assert(with.last() == key);
        assert(with.drop_last() =~= below);
        assert(without =~= below);
    } else {
        let top = above.last();
        let rest = above.drop_last();
        assert(with.last() == top);
        assert(without.last() == top);
        assert(with.drop_last() =~= below.push(key) + rest);
        assert(without.drop_last() =~= below + rest);
        if found.contains(top) || !has_key(units, top) {
            lemma_closure_skips_settled(units, below, key, rest, found, dependencies);
        } else {
            lemma_unvisited_decreases(units, found, top);
            let next_found = found.push(top);
            if found.contains(key) {
                let i = choose|i: int| 0 <= i < found.len() && found[i] == key;
                assert(next_found[i] == key);
            }
            if dependencies {
                let more = dependencies_of(entry_of(units, top));
                assert(with.drop_last() + more =~= below.push(key) + (rest + more));
                assert(without.drop_last() + more =~= below + (rest + more));
                lemma_closure_skips_settled(
                    units,
                    below,
                    key,
                    rest + more,
                    next_found,
                    dependencies,
                );
            } else {
                lemma_closure_skips_settled(units, below, key, rest, next_found, dependencies);
            }
        }
    }
}

/// A key that waits on the stack below another occurrence of itself can be left out of
/// the stack: by the time it is taken, the occurrence above it has settled it.
pub proof fn lemma_closure_skips_repeated(
    units: Scope,
    below: Seq<Seq<char>>,
    key: Seq<char>,
    above: Seq<Seq<char>>,
    found: Seq<Seq<char>>,
    dependencies: bool,
)
    requires
        above.contains(key),
    ensures
        closure(units, below.push(key) + above, found, dependencies) == closure(
            units,
            below + above,
            found,
            dependencies,
        ),
    decreases unvisited(units, found), above.len(),
{
    let with = below.push(key) + above;
    let without = below + above;
    let top = above.last();
    let rest = above.drop_last();
    let at = choose|at: int| 0 <= at < above.len() && above[at] == key;
    assert(with.last() == top);
    assert(without.last() == top);
    assert(with.drop_last() =~= below.push(key) + rest);
    assert(without.drop_last() =~= below + rest);
    if top != key {
        assert(rest[at] == key);
    }
    if found.contains(top) || !has_key(units, top) {
        if top == key {
            lemma_closure_skips_settled(units, below, key, rest, found, dependencies);
        } else {
            lemma_closure_skips_repeated(units, below, key, rest, found, dependencies);
        }
    } else {
        lemma_unvisited_decreases(units, found, top);
        let next_found = found.push(top);
        let more = dependencies_of(entry_of(units, top));
        let next_above = if dependencies {
            rest + more
        } else {
            rest
        };
        if dependencies {
            assert(with.drop_last() + more =~= below.push(key) + next_above);
            assert(without.drop_last() + more =~= below + next_above);
        }
        if top == key {
            assert(next_found[found.len() as int] == key);
            lemma_closure_skips_settled(units, below, key, next_above, next_found, dependencies);
        } else {
            assert(next_above[at] == key);
            lemma_closure_skips_repeated(units, below, key, next_above, next_found, dependencies);
        }
    }
}

/// Seeds that repeat a key select as the seeds do that hold each key once, at the place
/// of its last occurrence.
pub proof fn lemma_closure_last_of_each(
    units: Scope,
    seeds: Seq<Seq<char>>,
    upto: int,
    found: Seq<Seq<char>>,
    dependencies: bool,
)
    requires
        0 <= upto <= seeds.len(),
    ensures
        closure(units, last_of_each_upto(seeds, upto) + seeds.skip(upto), found, dependencies)
            == closure(units, seeds, found, dependencies),
    decreases upto,
{
    if upto == 0 {
        assert(last_of_each_upto(seeds, upto) + seeds.skip(upto) =~= seeds);
    } else {
        lemma_closure_last_of_each(units, seeds, upto - 1, found, dependencies);
        let kept = last_of_each_upto(seeds, upto - 1);
        let key = seeds[upto - 1];
        let above = seeds.skip(upto);
        assert(kept + seeds.skip(upto - 1) =~= kept.push(key) + above);
        if occurs_later(seeds, upto - 1) {
            let from = upto - 1;
            let j = choose|j: int| from < j < seeds.len() && #[trigger] seeds[j] == seeds[from];
            assert(above[j - upto] == key);
            lemma_closure_skips_repeated(units, kept, key, above, found, dependencies);
        }
    }
}

/// The units that a selection names, in the order of its closure.
pub open spec fn selection(units: Scope, seeds: Seq<Seq<char>>, dependencies: bool) -> Scope {
    select(units, closure(units, seeds, Seq::empty(), dependencies))
}

/// The units of a scope in the order in which they run.
pub open spec fn ordering(units: Scope, dependencies: bool) -> Scope {
    select(units, topological_order(units, dependencies))
}

/// The units to run for a selection: its closure, put in running order where
/// dependencies are included.
pub open spec fn filtered(units: Scope, seeds: Seq<Seq<char>>, dependencies: bool) -> Scope {
    if dependencies {
        ordering(selection(units, seeds, dependencies), dependencies)
    } else {
        selection(units, seeds, dependencies)
    }
}

/// The selection holds its seeds with the entries of the scope, and is well formed
/// where the scope is.
pub proof fn lemma_selection(units: Scope, seeds: Seq<Seq<char>>, dependencies: bool)
    requires
        distinct_keys(units),
    ensures
        distinct_keys(selection(units, seeds, dependencies)),
        keys_once(units, scope_keys(selection(units, seeds, dependencies))),
        forall|k: Seq<char>| #[trigger]
            has_key(selection(units, seeds, dependencies), k) ==> entry_of(
                selection(units, seeds, dependencies),
                k,
            ) == entry_of(units, k),
        forall|k: Seq<char>|
            seeds.contains(k) && has_key(units, k) ==>
                has_key(selection(units, seeds, dependencies), k),
        dependencies && closed(units) ==> closed(selection(units, seeds, dependencies)),
        acyclic(units) ==> acyclic(selection(units, seeds, dependencies)),
        !dependencies ==> forall|k: Seq<char>| #[trigger]
            has_key(selection(units, seeds, dependencies), k) ==> seeds.contains(k),
{
    let empty = Seq::<Seq<char>>::empty();
    let keys = closure(units, seeds, empty, dependencies);
    let t = selection(units, seeds, dependencies);
    lemma_closure(units, seeds, empty, dependencies);
    lemma_select(units, keys);
    if acyclic(units) {
        lemma_select_acyclic(units, keys);
    }
    crate::graph::lemma_select_depends(units, keys);
    if !dependencies {
        assert forall|k: Seq<char>| #[trigger] has_key(t, k) implies seeds.contains(k) by {
            assert(keys.contains(k));
            assert(empty.contains(k) || seeds.contains(k));
        }
    }
    if dependencies && closed(units) {
        assert forall|a: Seq<char>, b: Seq<char>| #[trigger] depends_on(t, a, b) implies has_key(
            t,
            b,
        ) by {
            assert(keys.contains(a));
            assert(depends_on(units, a, b));
            assert(keys.contains(b) || empty.contains(b));
        }
    }
}

} // verus!
