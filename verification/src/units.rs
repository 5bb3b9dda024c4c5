//! Selecting the units of a scope from selector tokens, and putting them in running
//! order.

use crate::file_format::{
    distinct_keys, has_key, scope_keys, ResourceMap, ResourceWithDepdencies, Scope,
};
use crate::graph::{
    acyclic, closed, dependencies_first, drawn_from, holds_named, lemma_entry_at, lemma_select,
    pending, ready, select,
};
use crate::schedule::{
    closure, in_order, lemma_scan, lemma_selection, lemma_topological_order,
    lemma_unvisited_decreases, may_run, ordering, scan, schedule, selection, topological_order,
    unvisited,
};
use crate::text::{first_index, keep_last_of_each, last_of_each, split_first, views};
use vstd::prelude::*;

verus! {

/// The part of a selector token before its first colon: the key that the token names in
/// the current scope.
pub open spec fn head_of(token: Seq<char>) -> Seq<char> {
    token.take(first_index(token, ':'))
}

/// Whether the token goes on after a colon.
pub open spec fn has_tail(token: Seq<char>) -> bool {
    first_index(token, ':') < token.len()
}

/// What follows the first colon of the token, taken whole.
pub open spec fn tail_of(token: Seq<char>) -> Seq<char> {
    token.skip(first_index(token, ':') + 1)
}

/// The head of each token, token by token.
pub open spec fn token_heads(tokens: Seq<Seq<char>>) -> Seq<Seq<char>> {
    Seq::new(tokens.len(), |i: int| head_of(tokens[i]))
}

/// The keys that the tokens name in the current scope: the heads of the tokens, each
/// once. A head that several tokens have stands where the last of them has it.
pub open spec fn heads(tokens: Seq<Seq<char>>) -> Seq<Seq<char>> {
    last_of_each(token_heads(tokens))
}

/// The tails of those tokens that have one and whose head is `key`, in token order.
pub open spec fn tails_for(tokens: Seq<Seq<char>>, key: Seq<char>) -> Seq<Seq<char>>
    decreases tokens.len(),
{
    if tokens.len() == 0 {
        Seq::empty()
    } else if has_tail(tokens.last()) && head_of(tokens.last()) == key {
        tails_for(tokens.drop_last(), key).push(tail_of(tokens.last()))
    } else {
        tails_for(tokens.drop_last(), key)
    }
}

/// The tokens that select inside a group: the tails for its key, or, where the group
/// was named without any, all of its keys.
pub open spec fn group_tokens(
    tokens: Seq<Seq<char>>,
    key: Seq<char>,
    group: Scope,
) -> Seq<Seq<char>> {
    if tails_for(tokens, key).len() == 0 {
        scope_keys(group)
    } else {
        tails_for(tokens, key)
    }
}

/// The keys that the tokens name in the current scope: the part of each token before
/// its first colon, each key once. A key that several tokens name stands where the last
/// of them names it, so that the selection takes the keys as it takes the tokens.
pub fn get_units_args_part_0(units_args: &Vec<String>) -> (r: Vec<String>)
    ensures
        views(r@) == heads(views(units_args@)),
        views(r@).no_duplicates(),
        forall|key: Seq<char>|
            views(r@).contains(key) <==> token_heads(views(units_args@)).contains(key),
{
    let mut all: Vec<String> = Vec::new();
    let mut i: usize = 0;
    while i < units_args.len()
        invariant
            i <= units_args.len(),
            all@.len() == i,
            forall|j: int| 0 <= j < i ==> all@[j]@ == head_of(units_args@[j]@),
        decreases units_args.len() - i,
    {
        let (head, _) = split_first(&units_args[i], ':');
        all.push(head);
        i = i + 1;
    }
    proof {
        assert(views(all@) =~= token_heads(views(units_args@)));
    }
    keep_last_of_each(&all)
}

/// The tokens for the scope of the group `unit_key`: what follows the colon in each
/// token that names `unit_key` and goes on.
pub fn get_units_args_part_1(units_args: &Vec<String>, unit_key: String) -> (r: Vec<String>)
    ensures
        views(r@) == tails_for(views(units_args@), unit_key@),
{
    let mut r: Vec<String> = Vec::new();
    let mut i: usize = 0;
    while i < units_args.len()
        invariant
            i <= units_args.len(),
            views(r@) == tails_for(views(units_args@).take(i as int), unit_key@),
        decreases units_args.len() - i,
    {
        let ghost before = views(r@);
        let (head, tail) = split_first(&units_args[i], ':');
        proof {
            let upto = views(units_args@).take(i + 1);
            assert(upto.drop_last() =~= views(units_args@).take(i as int));
            assert(upto.last() == units_args@[i as int]@);
        }
        match tail {
            Some(rest) => {
                if head == unit_key {
                    r.push(rest);
                    proof {
                        assert(views(r@) =~= before.push(tail_of(units_args@[i as int]@)));
                    }
                }
            },
            None => {},
        }
        i = i + 1;
    }
    proof {
        assert(views(units_args@).take(units_args.len() as int) =~= views(units_args@));
    }
    r
}

/// The tokens that select inside the group `unit_key`: a group named without a
/// qualifier is wanted whole.
pub fn get_units_args_for_group(
    units_args: Vec<String>,
    unit_key: String,
    group: &ResourceMap,
) -> (r: Vec<String>)
    ensures
        views(r@) == group_tokens(views(units_args@), unit_key@, group@),
{
    let units_args_for_group = get_units_args_part_1(&units_args, unit_key);
    if units_args_for_group.len() == 0 {
        group.keys()
    } else {
        units_args_for_group
    }
}

/// The units that run for a selection at the root of a tree, in the order in which
/// they run.
pub fn run_units(units: &ResourceMap, units_args: Vec<String>, dependencies: bool) -> (planned: Vec<
    crate::resources::PlannedResource,
>)
    ensures
        crate::resources::planned_views(planned@) == crate::resources::plan(
            units@,
            None,
            views(units_args@),
            dependencies,
        ),
{
    crate::resources::run_resources(units, None, units_args, dependencies)
}

/// Whether some unit of `units` is not in `done` yet.
pub fn has_pending_units(units: &ResourceMap, done: &ResourceMap) -> (r: bool)
    ensures
        r == pending(units@, scope_keys(done@)),
{
    let n = units.len();
    let mut i: usize = 0;
    while i < n
        invariant
            i <= n,
            n == units@.len(),
            forall|j: int| 0 <= j < i ==> has_key(done@, #[trigger] scope_keys(units@)[j]),
        decreases n - i,
    {
        match units.get_index(i) {
            Some((key, _)) => {
                if !done.contains_key(key) {
                    assert(scope_keys(units@)[i as int] == key@);
                    assert(has_key(units@, key@));
                    return true;
                }
            },
            None => {},
        }
        i = i + 1;
    }
    proof {
        assert forall|k: Seq<char>| #[trigger] has_key(units@, k) implies
            scope_keys(done@).contains(
            k,
        ) by {
            let j = choose|j: int| 0 <= j < scope_keys(units@).len() && scope_keys(units@)[j] == k;
            assert(has_key(done@, scope_keys(units@)[j]));
        }
    }
    false
}

/// Whether every dependency of `unit` is a key of `done`.
pub fn dependencies_done(unit: &ResourceWithDepdencies, done: &ResourceMap) -> (r: bool)
    ensures
        r == ready(unit@, scope_keys(done@)),
{
    match &unit.depends_on {
        None => true,
        Some(list) => {
            let mut i: usize = 0;
            while i < list.len()
                invariant
                    i <= list.len(),
                    unit@.depends_on == Some(views(list@)),
                    forall|j: int| 0 <= j < i ==> has_key(done@, #[trigger] list@[j]@),
                decreases list.len() - i,
            {
                if !done.contains_key(&list[i]) {
                    assert(views(list@)[i as int] == list@[i as int]@);
                    assert(crate::file_format::dependencies_of(unit@).contains(list@[i as int]@));
                    return false;
                }
                i = i + 1;
            }
            proof {
                assert forall|d: Seq<char>| #[trigger] views(list@).contains(d) implies scope_keys(
                    done@,
                ).contains(d) by {
                    let j = choose|j: int| 0 <= j < views(list@).len() && views(list@)[j] == d;
                    assert(has_key(done@, list@[j]@));
                }
            }
            true
        },
    }
}

/// Puts the units of a scope in running order by scanning them in declaration order,
/// again and again, until each has run: a unit runs in a scan once all of its
/// dependencies have, or at once where dependencies do not count. A scan that runs
/// nothing ends the work: the units left over wait for each other or for a key that
/// the scope does not hold.
///
/// Where dependencies do not count, or every dependency is a key of the scope and no
/// unit depends on itself through others, the order holds every unit of the scope
/// exactly once, and no unit comes before one that it depends on.
pub fn reorder_units_from_dependencies(
    units: &ResourceMap,
    dependencies: bool,
) -> (output: ResourceMap)
    ensures
        output@ == ordering(units@, dependencies),
        distinct_keys(output@),
        drawn_from(output@, units@),
        (dependencies ==> closed(units@) && acyclic(units@)) ==> {
            &&& output@.len() == units@.len()
            &&& forall|k: Seq<char>| has_key(units@, k) ==> has_key(output@, k)
            &&& dependencies ==> dependencies_first(output@, units@)
        },
{
    let n = units.len();
    let mut output = ResourceMap::new();
    let ghost mut done: Seq<Seq<char>> = Seq::empty();
    proof {
        assert(output@ =~= select(units@, done));
    }
    while has_pending_units(units, &output)
        invariant
            n == units@.len(),
            distinct_keys(units@),
            in_order(units@, done, dependencies),
            output@ == select(units@, done),
            schedule(units@, done, dependencies) == topological_order(units@, dependencies),
        ensures
            in_order(units@, done, dependencies),
            output@ == select(units@, done),
            done == topological_order(units@, dependencies),
        decreases units@.len() - done.len(),
    {
        let ghost start = done;
        let before = output.len();
        proof {
            assert(scope_keys(output@) =~= done);
        }
        let mut i: usize = 0;
        while i < n
            invariant
                i <= n,
                n == units@.len(),
                distinct_keys(units@),
                output@ == select(units@, done),
                scan(units@, done, i as int, dependencies) == scan(units@, start, 0, dependencies),
            decreases n - i,
        {
            match units.get_index(i) {
                Some((key, unit)) => {
                    proof {
                        assert(scope_keys(output@) =~= done);
                        lemma_entry_at(units@, i as int);
                    }
                    if !output.contains_key(key) && (!dependencies || dependencies_done(
                        unit,
                        &output,
                    )) {
                        assert(may_run(units@[i as int], done, dependencies));
                        output.insert(key.clone(), unit.clone());
                        proof {
                            done = done.push(key@);
                            assert(output@ =~= select(units@, done));
                        }
                    } else {
                        assert(!may_run(units@[i as int], done, dependencies));
                    }
                },
                None => {},
            }
            i = i + 1;
        }
        proof {
            lemma_scan(units@, start, 0, dependencies);
            crate::graph::lemma_distinct_keys_bound(units@, done);
        }
        if output.len() == before {
            proof {
                assert(done =~= done.take(start.len() as int));
            }
            break ;
        }
    }
    proof {
        assert(scope_keys(output@) =~= done);
        lemma_select(units@, done);
        assert forall|k: Seq<char>| #[trigger] has_key(output@, k) implies has_key(units@, k) by {
            let i = choose|i: int| 0 <= i < done.len() && done[i] == k;
            assert(has_key(units@, done[i]));
        }
        if dependencies ==> closed(units@) && acyclic(units@) {
            lemma_topological_order(units@, dependencies);
            assert forall|k: Seq<char>| has_key(units@, k) implies has_key(output@, k) by {
                assert(done.contains(k));
            }
        }
    }
    output
}

/// The units that the tokens select: each named unit and, where dependencies are
/// included, all that it depends on, directly or through others. The units come in the
/// order in which they are first taken from a stack that starts as `units_args` and
/// receives the dependencies of each unit taken. A name that is no key of the scope
/// selects nothing.
pub fn get_filtered_units(
    units: &ResourceMap,
    units_args: Vec<String>,
    dependencies: bool,
) -> (filtered: ResourceMap)
    ensures
        filtered@ == selection(units@, views(units_args@), dependencies),
        distinct_keys(filtered@),
        drawn_from(filtered@, units@),
        holds_named(filtered@, units@, views(units_args@)),
        !dependencies ==> forall|k: Seq<char>| #[trigger]
            has_key(filtered@, k) ==> views(units_args@).contains(k),
        dependencies && closed(units@) ==> closed(filtered@),
        acyclic(units@) ==> acyclic(filtered@),
{
    let n = units.len();
    let ghost seeds = views(units_args@);
    let mut filtered = ResourceMap::new();
    let mut stack = units_args;
    let ghost mut found: Seq<Seq<char>> = Seq::empty();
    proof {
        assert(filtered@ =~= select(units@, found));
    }
    while stack.len() > 0
        invariant
            distinct_keys(units@),
            filtered@ == select(units@, found),
            closure(units@, views(stack@), found, dependencies) == closure(
                units@,
                seeds,
                Seq::empty(),
                dependencies,
            ),
        decreases unvisited(units@, found), stack@.len(),
    {
        let ghost before = views(stack@);
        let next = stack.pop().unwrap();
        proof {
            assert(views(stack@) =~= before.drop_last());
            assert(before.last() == next@);
            assert(scope_keys(filtered@) =~= found);
        }
        if !filtered.contains_key(&next) {
            match units.get(&next) {
                Some(unit) => {
                    proof {
                        lemma_unvisited_decreases(units@, found, next@);
                    }
                    let ghost rest = views(stack@);
                    if dependencies {
                        match &unit.depends_on {
                            Some(list) => {
                                let mut j: usize = 0;
                                while j < list.len()
                                    invariant
                                        j <= list.len(),
                                        views(stack@) == rest + views(list@).take(j as int),
                                    decreases list.len() - j,
                                {
                                    let ghost so_far = views(stack@);
                                    stack.push(list[j].clone());
                                    proof {
                                        assert(views(stack@) =~= so_far.push(list@[j as int]@));
                                        assert(views(list@).take(j + 1) =~= views(list@).take(
                                            j as int,
                                        ).push(list@[j as int]@));
                                        assert(views(stack@) =~= rest + views(list@).take(j + 1));
                                    }
                                    j = j + 1;
                                }
                                proof {
                                    assert(views(list@).take(list.len() as int) =~= views(list@));
                                }
                            },
                            None => {
                                proof {
                                    assert(views(stack@) =~= rest + Seq::<Seq<char>>::empty());
                                }
                            },
                        }
                    }
                    filtered.insert(next, unit.clone());
                    proof {
                        found = found.push(before.last());
                        assert(filtered@ =~= select(units@, found));
                    }
                },
                None => {},
            }
        }
    }
    proof {
        lemma_selection(units@, seeds, dependencies);
        assert forall|i: int|
            0 <= i < units_args@.len() && has_key(units@, #[trigger] units_args@[i]@) implies
                has_key(
            filtered@,
            units_args@[i]@,
        ) by {
            assert(seeds[i] == units_args@[i]@);
            assert(seeds.contains(units_args@[i]@));
        }
        assert forall|k: Seq<char>| #[trigger] has_key(filtered@, k) implies has_key(units@, k) by {
            let i = choose|i: int|
                0 <= i < scope_keys(filtered@).len() && scope_keys(filtered@)[i] == k;
            assert(has_key(units@, scope_keys(filtered@)[i]));
        }
    }
    filtered
}

} // verus!
