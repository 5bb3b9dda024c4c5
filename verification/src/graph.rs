//! The dependency relation of one scope: walks, cycles, and the facts about acyclic
//! scopes that scheduling rests on.

use crate::file_format::{
    dependencies_of, entry_of, has_key, key_index, lemma_key_index, scope_keys, EntryView, Scope,
};
use vstd::prelude::*;
use vstd::set_lib::lemma_len_subset;

verus! {

/// `a` is a key of the scope whose entry lists `b` as a dependency.
pub open spec fn depends_on(s: Scope, a: Seq<char>, b: Seq<char>) -> bool {
    has_key(s, a) && dependencies_of(entry_of(s, a)).contains(b)
}

/// The key at position `i` of `p` depends on the key after it.
pub open spec fn is_step(s: Scope, p: Seq<Seq<char>>, i: int) -> bool {
    depends_on(s, p[i], p[i + 1])
}

/// Each key of `p` depends on the next one.
pub open spec fn is_walk(s: Scope, p: Seq<Seq<char>>) -> bool {
    forall|i: int| 0 <= i < p.len() - 1 ==> #[trigger] is_step(s, p, i)
}

/// `p` follows dependencies from a key back to the same key.
pub open spec fn is_cycle(s: Scope, p: Seq<Seq<char>>) -> bool {
    p.len() >= 2 && is_walk(s, p) && p.first() == p.last()
}

/// No walk of the scope returns to its start.
pub open spec fn acyclic(s: Scope) -> bool {
    forall|p: Seq<Seq<char>>| !#[trigger] is_cycle(s, p)
}

/// Every dependency named in the scope is a key of the scope.
pub open spec fn closed(s: Scope) -> bool {
    forall|a: Seq<char>, b: Seq<char>| #[trigger] depends_on(s, a, b) ==> has_key(s, b)
}

/// Every dependency of the entry is in `done`.
pub open spec fn ready(e: EntryView, done: Seq<Seq<char>>) -> bool {
    forall|d: Seq<char>| #[trigger] dependencies_of(e).contains(d) ==> done.contains(d)
}

/// Some key of the scope is not in `done`.
pub open spec fn pending(s: Scope, done: Seq<Seq<char>>) -> bool {
    exists|k: Seq<char>| #[trigger] has_key(s, k) && !done.contains(k)
}

/// Every key of `part` is a key of `whole` and stands for the same entry.
pub open spec fn drawn_from(part: Scope, whole: Scope) -> bool {
    forall|k: Seq<char>| #[trigger]
        has_key(part, k) ==> has_key(whole, k) && entry_of(part, k) == entry_of(whole, k)
}

/// Every name among `names` that is a key of `whole` is a key of `part`.
pub open spec fn holds_named(part: Scope, whole: Scope, names: Seq<Seq<char>>) -> bool {
    forall|i: int|
        0 <= i < names.len() && has_key(whole, #[trigger] names[i]) ==> has_key(part, names[i])
}

/// For each of its keys, `part` holds the keys that the key depends on in `whole`, each
/// at an earlier position.
pub open spec fn dependencies_first(part: Scope, whole: Scope) -> bool {
    forall|a: Seq<char>, b: Seq<char>|
        has_key(part, a) && #[trigger] depends_on(whole, a, b) ==> has_key(part, b) && key_index(
            part,
            b,
        ) < key_index(part, a)
}

/// The entries of `s` stored under the keys `keys`, in the order of `keys`.
pub open spec fn select(s: Scope, keys: Seq<Seq<char>>) -> Scope {
    Seq::new(keys.len(), |i: int| (keys[i], entry_of(s, keys[i])))
}

/// A list of distinct keys of a scope is no longer than the scope.
pub proof fn lemma_distinct_keys_bound(s: Scope, w: Seq<Seq<char>>)
    requires
        w.no_duplicates(),
        forall|i: int| 0 <= i < w.len() ==> has_key(s, #[trigger] w[i]),
    ensures
        w.len() <= s.len(),
{
    broadcast use vstd::seq_lib::seq_to_set_is_finite;

    let keys = scope_keys(s);
    w.unique_seq_to_set();
    keys.lemma_cardinality_of_set();
    assert forall|k: Seq<char>| w.to_set().contains(k) implies keys.to_set().contains(k) by {
        let i = choose|i: int| 0 <= i < w.len() && w[i] == k;
        assert(has_key(s, w[i]));
    }
    lemma_len_subset(w.to_set(), keys.to_set());
}

/// A walk that revisits one of its keys contains a cycle.
pub proof fn lemma_walk_closes(s: Scope, w: Seq<Seq<char>>, d: Seq<char>)
    requires
        w.len() >= 1,
        is_walk(s, w),
        depends_on(s, w.last(), d),
        w.contains(d),
    ensures
        !acyclic(s),
{
    let j = choose|j: int| 0 <= j < w.len() && w[j] == d;
    let p = w.subrange(j, w.len() as int).push(d);
    assert forall|i: int| 0 <= i < p.len() - 1 implies #[trigger] is_step(s, p, i) by {
        if i < p.len() - 2 {
            assert(is_step(s, w, j + i));
        }
    }
    assert(is_cycle(s, p));
}

/// In a closed scope a walk through blocked keys runs into a cycle: where every key
/// outside `done` has a dependency outside `done`, a walk outside `done` can be extended
/// until it revisits a key.
pub proof fn lemma_blocked_walk(s: Scope, done: Seq<Seq<char>>, w: Seq<Seq<char>>)
    requires
        closed(s),
        forall|k: Seq<char>| #[trigger]
            has_key(s, k) && !done.contains(k) ==> !ready(entry_of(s, k), done),
        w.len() >= 1,
        is_walk(s, w),
        w.no_duplicates(),
        forall|i: int| 0 <= i < w.len() ==> has_key(s, #[trigger] w[i]) && !done.contains(w[i]),
    ensures
        !acyclic(s),
    decreases s.len() - w.len(),
{
    lemma_distinct_keys_bound(s, w);
    let k = w.last();
    assert(has_key(s, k) && !done.contains(k));
    let d = choose|d: Seq<char>| #[trigger]
        dependencies_of(entry_of(s, k)).contains(d) && !done.contains(d);
    assert(depends_on(s, k, d));
    if w.contains(d) {
        lemma_walk_closes(s, w, d);
    } else {
        let w2 = w.push(d);
        assert forall|i: int| 0 <= i < w2.len() - 1 implies #[trigger] is_step(s, w2, i) by {
            if i < w.len() - 1 {
                assert(is_step(s, w, i));
            }
        }
        assert forall|i: int, j: int| 0 <= i < w2.len() && 0 <= j < w2.len() && i != j implies w2[i]
            != w2[j] by {
            if i < w.len() && j < w.len() {
            } else if i < w.len() {
                assert(w.contains(w[i]));
            } else {
                assert(w.contains(w[j]));
            }
        }
        lemma_distinct_keys_bound(s, w2);
        lemma_blocked_walk(s, done, w2);
    }
}

/// In an acyclic, closed scope with a key outside `done`, some key outside `done` has
/// all its dependencies in `done`.
pub proof fn lemma_some_key_is_ready(s: Scope, done: Seq<Seq<char>>)
    requires
        acyclic(s),
        closed(s),
        pending(s, done),
    ensures
        exists|k: Seq<char>| #[trigger]
            has_key(s, k) && !done.contains(k) && ready(entry_of(s, k), done),
{
    if forall|k: Seq<char>| #[trigger]
        has_key(s, k) && !done.contains(k) ==> !ready(entry_of(s, k), done) {
        let k0 = choose|k: Seq<char>| #[trigger] has_key(s, k) && !done.contains(k);
        let w = seq![k0];
        assert(is_walk(s, w));
        lemma_blocked_walk(s, done, w);
    }
}

/// Under distinct keys, the entry stored under the key at a position is the entry at
/// that position.
pub proof fn lemma_entry_at(s: Scope, i: int)
    requires
        scope_keys(s).no_duplicates(),
        0 <= i < s.len(),
    ensures
        has_key(s, s[i].0),
        key_index(s, s[i].0) == i,
        entry_of(s, s[i].0) == s[i].1,
{
    let k = s[i].0;
    assert(scope_keys(s)[i] == k);
    lemma_key_index(s, k);
    let f = key_index(s, k);
    assert(scope_keys(s)[f] == k);
}

/// What `select` holds when the selected keys are distinct: those keys, each with the
/// entry that `s` stores under it.
pub proof fn lemma_select(s: Scope, keys: Seq<Seq<char>>)
    requires
        keys.no_duplicates(),
    ensures
        scope_keys(select(s, keys)) == keys,
        forall|k: Seq<char>| has_key(select(s, keys), k) <==> keys.contains(k),
        forall|k: Seq<char>| #[trigger]
            keys.contains(k) ==> entry_of(select(s, keys), k) == entry_of(s, k),
{
    let t = select(s, keys);
    assert(scope_keys(t) =~= keys);
    assert forall|k: Seq<char>| #[trigger] keys.contains(k) implies entry_of(t, k) == entry_of(
        s,
        k,
    ) by {
        let i = choose|i: int| 0 <= i < keys.len() && keys[i] == k;
        lemma_entry_at(t, i);
    }
}

/// A selection of keys of `s` depends exactly as `s` does on the selected keys.
pub proof fn lemma_select_depends(s: Scope, keys: Seq<Seq<char>>)
    requires
        keys.no_duplicates(),
        forall|i: int| 0 <= i < keys.len() ==> has_key(s, #[trigger] keys[i]),
    ensures
        forall|a: Seq<char>, b: Seq<char>| #[trigger]
            depends_on(select(s, keys), a, b) <==> keys.contains(a) && depends_on(s, a, b),
{
    let t = select(s, keys);
    lemma_select(s, keys);
    assert forall|a: Seq<char>, b: Seq<char>| #[trigger]
        depends_on(t, a, b) <==> keys.contains(a) && depends_on(s, a, b) by {
        if keys.contains(a) {
            let i = choose|i: int| 0 <= i < keys.len() && keys[i] == a;
            assert(has_key(s, keys[i]));
        }
    }
}

/// A selection of keys of an acyclic scope is acyclic.
pub proof fn lemma_select_acyclic(s: Scope, keys: Seq<Seq<char>>)
    requires
        keys.no_duplicates(),
        forall|i: int| 0 <= i < keys.len() ==> has_key(s, #[trigger] keys[i]),
        acyclic(s),
    ensures
        acyclic(select(s, keys)),
{
    let t = select(s, keys);
    lemma_select_depends(s, keys);
    assert forall|p: Seq<Seq<char>>| !#[trigger] is_cycle(t, p) by {
        if is_cycle(t, p) {
            assert forall|i: int| 0 <= i < p.len() - 1 implies #[trigger] is_step(s, p, i) by {
                assert(is_step(t, p, i));
            }
            assert(is_cycle(s, p));
        }
    }
}

} // verus!
