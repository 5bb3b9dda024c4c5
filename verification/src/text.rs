//! Text helpers over `String`, stated on the character sequences that strings denote.

use vstd::prelude::*;
use vstd::string::*;

verus! {

/// The character sequences of a sequence of strings, position by position.
pub open spec fn views(v: Seq<String>) -> Seq<Seq<char>> {
    Seq::new(v.len(), |i: int| v[i]@)
}

/// The character sequences of an optional list of strings.
pub open spec fn option_views(v: Option<Vec<String>>) -> Option<Seq<Seq<char>>> {
    match v {
        Some(list) => Some(views(list@)),
        None => None,
    }
}

/// The listed strings when there is a list, no strings otherwise.
pub open spec fn or_empty(v: Option<Seq<Seq<char>>>) -> Seq<Seq<char>> {
    match v {
        Some(list) => list,
        None => Seq::empty(),
    }
}

/// The least index of `s` that holds `x`, or the length of `s` when `x` does not occur.
pub open spec fn first_index<T>(s: Seq<T>, x: T) -> int
    decreases s.len(),
{
    if s.len() == 0 {
        0
    } else if s[0] == x {
        0
    } else {
        1 + first_index(s.drop_first(), x)
    }
}

/// `first_index` is an index that holds `x`, with no earlier occurrence.
pub proof fn lemma_first_index<T>(s: Seq<T>, x: T)
    ensures
        0 <= first_index(s, x) <= s.len(),
        forall|j: int| 0 <= j < first_index(s, x) ==> s[j] != x,
        first_index(s, x) < s.len() ==> s[first_index(s, x)] == x,
        first_index(s, x) < s.len() <==> s.contains(x),
    decreases s.len(),
{
    if s.len() != 0 && s[0] != x {
        let rest = s.drop_first();
        lemma_first_index(rest, x);
        assert forall|j: int| 0 <= j < first_index(s, x) implies s[j] != x by {
            if j > 0 {
                assert(s[j] == rest[j - 1]);
            }
        }
        assert(first_index(s, x) < s.len() ==> s[first_index(s, x)] == rest[first_index(rest, x)]);
    }
    if s.contains(x) {
        let k = choose|k: int| 0 <= k < s.len() && s[k] == x;
        if first_index(s, x) >= s.len() {
            assert(s[k] != x);
        }
    }
}

/// Any index with the defining property of `first_index` is `first_index`.
pub proof fn lemma_first_index_is<T>(s: Seq<T>, x: T, i: int)
    requires
        0 <= i <= s.len(),
        forall|j: int| 0 <= j < i ==> s[j] != x,
        i < s.len() ==> s[i] == x,
    ensures
        first_index(s, x) == i,
{
    lemma_first_index(s, x);
    let f = first_index(s, x);
    if f < i {
        assert(s[f] != x);
    } else if i < f {
        assert(s[i] != x);
    }
}

/// The strings of `parts` written one after another with `sep` between neighbours.
pub open spec fn joined(parts: Seq<Seq<char>>, sep: Seq<char>) -> Seq<char>
    decreases parts.len(),
{
    if parts.len() == 0 {
        Seq::empty()
    } else if parts.len() == 1 {
        parts[0]
    } else {
        joined(parts.drop_last(), sep) + sep + parts.last()
    }
}

/// Code-point order on characters.
pub open spec fn char_before(a: char, b: char) -> bool {
    a < b
}

/// Strict lexicographic order by code point, the order in which strings sort.
pub open spec fn text_before(a: Seq<char>, b: Seq<char>) -> bool
    decreases a.len(),
{
    if b.len() == 0 {
        false
    } else if a.len() == 0 {
        true
    } else if a[0] == b[0] {
        text_before(a.drop_first(), b.drop_first())
    } else {
        char_before(a[0], b[0])
    }
}

/// No text comes before itself.
pub proof fn lemma_text_before_irreflexive(a: Seq<char>)
    ensures
        !text_before(a, a),
    decreases a.len(),
{
    if a.len() != 0 {
        lemma_text_before_irreflexive(a.drop_first());
    }
}

/// The order is transitive.
pub proof fn lemma_text_before_transitive(a: Seq<char>, b: Seq<char>, c: Seq<char>)
    requires
        text_before(a, b),
        text_before(b, c),
    ensures
        text_before(a, c),
    decreases a.len(),
{
    if a.len() != 0 && b.len() != 0 && c.len() != 0 {
        if a[0] == b[0] && b[0] == c[0] {
            lemma_text_before_transitive(a.drop_first(), b.drop_first(), c.drop_first());
        }
    }
}

/// Of two different texts one comes before the other.
pub proof fn lemma_text_before_total(a: Seq<char>, b: Seq<char>)
    ensures
        a == b || text_before(a, b) || text_before(b, a),
    decreases a.len(),
{
    if a.len() == 0 || b.len() == 0 {
        if a.len() == 0 && b.len() == 0 {
            assert(a =~= b);
        }
    } else if a[0] == b[0] {
        lemma_text_before_total(a.drop_first(), b.drop_first());
        if a.drop_first() == b.drop_first() {
            assert(a =~= seq![a[0]] + a.drop_first());
            assert(b =~= seq![b[0]] + b.drop_first());
        }
    }
}

/// Every text of `s` comes strictly before the next one.
pub open spec fn strictly_sorted(s: Seq<Seq<char>>) -> bool {
    forall|i: int, j: int| 0 <= i < j < s.len() ==> text_before(#[trigger] s[i], #[trigger] s[j])
}

/// The characters of a string as a vector.
pub fn chars_of(s: &String) -> (v: Vec<char>)
    ensures
        v@ == s@,
{
    let mut v: Vec<char> = Vec::new();
    for c in it: s.as_str().chars()
        invariant
            v@ == it.seq().take(it.index() as int),
            it.seq() == s@,
    {
        v.push(c);
    }
    v
}

/// A fresh string with the characters of `a` followed by those of `b`.
pub fn two_texts(a: &str, b: &str) -> (r: String)
    ensures
        r@ == a@ + b@,
{
    String::from_str(a).concat(b)
}

/// A copy of a list of strings.
pub fn clone_strings(v: &Vec<String>) -> (r: Vec<String>)
    ensures
        r@ == v@,
{
    let mut r: Vec<String> = Vec::new();
    let mut i: usize = 0;
    while i < v.len()
        invariant
            i <= v.len(),
            r@ == v@.take(i as int),
        decreases v.len() - i,
    {
        r.push(v[i].clone());
        i = i + 1;
    }
    r
}

/// A copy of an optional list of strings.
pub fn clone_option_strings(v: &Option<Vec<String>>) -> (r: Option<Vec<String>>)
    ensures
        option_views(r) == option_views(*v),
{
    match v {
        Some(list) => Some(clone_strings(list)),
        None => None,
    }
}

/// Whether `needle` occurs in `list`.
pub fn contains_string(list: &Vec<String>, needle: &String) -> (r: bool)
    ensures
        r == views(list@).contains(needle@),
{
    let mut i: usize = 0;
    while i < list.len()
        invariant
            i <= list.len(),
            forall|j: int| 0 <= j < i ==> list@[j]@ != needle@,
        decreases list.len() - i,
    {
        if list[i] == *needle {
            assert(views(list@)[i as int] == needle@);
            return true;
        }
        i = i + 1;
    }
    false
}

/// The index of the first occurrence of `c` in `chars`, or their number when there is none.
pub fn find_in_chars(chars: &Vec<char>, c: char) -> (i: usize)
    ensures
        i == first_index(chars@, c),
        i <= chars.len(),
{
    let mut i: usize = 0;
    while i < chars.len() && chars[i] != c
        invariant
            i <= chars.len(),
            forall|j: int| 0 <= j < i ==> chars@[j] != c,
        decreases chars.len() - i,
    {
        i = i + 1;
    }
    proof {
        lemma_first_index_is(chars@, c, i as int);
    }
    i
}

/// Splits `s` at the first occurrence of `sep`: what stands before it, and what stands
/// after it when `sep` occurs at all.
pub fn split_first(s: &String, sep: char) -> (r: (String, Option<String>))
    ensures
        r.0@ == s@.take(first_index(s@, sep)),
        match r.1 {
            Some(rest) => first_index(s@, sep) < s@.len() && rest@ == s@.skip(
                first_index(s@, sep) + 1,
            ),
            None => first_index(s@, sep) == s@.len(),
        },
{
    let chars = chars_of(s);
    let n = chars.len();
    let i = find_in_chars(&chars, sep);
    let head = String::from_str(s.as_str().substring_char(0, i));
    proof {
        assert(s@.subrange(0, i as int) =~= s@.take(i as int));
    }
    if i < n {
        let rest = String::from_str(s.as_str().substring_char(i + 1, n));
        proof {
            assert(s@.subrange(i + 1, n as int) =~= s@.skip(i + 1));
        }
        (head, Some(rest))
    } else {
        (head, None)
    }
}

/// Joins `parts` with `sep` between neighbours.
pub fn join(parts: &Vec<String>, sep: &str) -> (r: String)
    ensures
        r@ == joined(views(parts@), sep@),
{
    let mut r = String::new();
    let mut i: usize = 0;
    while i < parts.len()
        invariant
            i <= parts.len(),
            r@ == joined(views(parts@).take(i as int), sep@),
        decreases parts.len() - i,
    {
        proof {
            let before = views(parts@).take(i as int);
            let after = views(parts@).take(i + 1);
            assert(after.drop_last() =~= before);
            assert(after.last() == parts@[i as int]@);
            if i == 0 {
                assert(r@ + parts@[0]@ =~= parts@[0]@);
            }
        }
        if i > 0 {
            r.append(sep);
        }
        r.append(parts[i].as_str());
        i = i + 1;
    }
    proof {
        assert(views(parts@).take(parts.len() as int) =~= views(parts@));
    }
    r
}

/// Whether `a` sorts strictly before `b`.
pub fn sorts_before(a: &String, b: &String) -> (r: bool)
    ensures
        r == text_before(a@, b@),
{
    let x = chars_of(a);
    let y = chars_of(b);
    let mut i: usize = 0;
    proof {
        assert(x@.skip(0) =~= x@);
        assert(y@.skip(0) =~= y@);
    }
    while i < x.len() && i < y.len() && x[i] == y[i]
        invariant
            i <= x.len(),
            i <= y.len(),
            text_before(x@, y@) == text_before(x@.skip(i as int), y@.skip(i as int)),
        decreases x.len() - i,
    {
        proof {
            let xs = x@.skip(i as int);
            let ys = y@.skip(i as int);
            assert(xs.drop_first() =~= x@.skip(i + 1));
            assert(ys.drop_first() =~= y@.skip(i + 1));
        }
        i = i + 1;
    }
    proof {
        let xs = x@.skip(i as int);
        let ys = y@.skip(i as int);
        assert(xs.len() == x.len() - i);
        assert(ys.len() == y.len() - i);
        if i < x.len() && i < y.len() {
            assert(xs[0] == x@[i as int]);
            assert(ys[0] == y@[i as int]);
        }
    }
    if i >= y.len() {
        false
    } else if i >= x.len() {
        true
    } else {
        x[i] < y[i]
    }
}

/// The text at position `i` of `list` stands at a later position too.
pub open spec fn occurs_later(list: Seq<Seq<char>>, i: int) -> bool {
    exists|j: int| i < j < list.len() && list[j] == list[i]
}

/// The texts at the first `upto` positions of `list` that do not stand at a later
/// position of `list`, in order.
pub open spec fn last_of_each_upto(list: Seq<Seq<char>>, upto: int) -> Seq<Seq<char>>
    decreases upto,
{
    if upto <= 0 || upto > list.len() {
        Seq::empty()
    } else if occurs_later(list, upto - 1) {
        last_of_each_upto(list, upto - 1)
    } else {
        last_of_each_upto(list, upto - 1).push(list[upto - 1])
    }
}

/// The texts of `list`, each once, at the place of its last occurrence.
pub open spec fn last_of_each(list: Seq<Seq<char>>) -> Seq<Seq<char>> {
    last_of_each_upto(list, list.len() as int)
}

/// `last_of_each_upto` repeats no text, holds only texts of the first positions that do
/// not come again, and misses a text of the first positions only where it comes again
/// after them.
pub proof fn lemma_last_of_each_upto(list: Seq<Seq<char>>, upto: int)
    requires
        0 <= upto <= list.len(),
    ensures
        last_of_each_upto(list, upto).no_duplicates(),
        forall|t: Seq<char>| #[trigger]
            last_of_each_upto(list, upto).contains(t) ==> exists|i: int|
                0 <= i < upto && list[i] == t && !occurs_later(list, i),
        forall|i: int|
            0 <= i < upto ==> last_of_each_upto(list, upto).contains(#[trigger] list[i]) || exists|
                j: int,
            |
                upto <= j < list.len() && list[j] == list[i],
    decreases upto,
{
    if upto > 0 {
        let before = last_of_each_upto(list, upto - 1);
        let now = last_of_each_upto(list, upto);
        let last = list[upto - 1];
        lemma_last_of_each_upto(list, upto - 1);
        if !occurs_later(list, upto - 1) {
            assert(now == before.push(last));
            assert(now[before.len() as int] == last);
            if before.contains(last) {
                let i = choose|i: int|
                    0 <= i < upto - 1 && list[i] == last && !occurs_later(list, i);
                assert(list[upto - 1] == list[i]);
            }
            assert forall|a: int, b: int|
                0 <= a < now.len() && 0 <= b < now.len() && a != b implies now[a] != now[b] by {
                if a < before.len() && b < before.len() {
                } else if a < before.len() {
                    assert(before.contains(before[a]));
                } else {
                    assert(before.contains(before[b]));
                }
            }
        }
        assert forall|t: Seq<char>| #[trigger] now.contains(t) implies exists|i: int|
            0 <= i < upto && list[i] == t && !occurs_later(list, i) by {
            let k = choose|k: int| 0 <= k < now.len() && now[k] == t;
            if k < before.len() {
                assert(before[k] == t);
                assert(before.contains(t));
                let i = choose|i: int| 0 <= i < upto - 1 && list[i] == t && !occurs_later(list, i);
                assert(0 <= i < upto && list[i] == t && !occurs_later(list, i));
            } else {
                assert(list[upto - 1] == t && !occurs_later(list, upto - 1));
            }
        }
        assert forall|i: int| 0 <= i < upto implies now.contains(#[trigger] list[i]) || exists|
            j: int,
        |
            upto <= j < list.len() && list[j] == list[i] by {
            let t = list[i];
            let comes_at_last = i == upto - 1 || (!before.contains(t) && list[upto - 1] == t);
            if i < upto - 1 && before.contains(t) {
                let k = choose|k: int| 0 <= k < before.len() && before[k] == t;
                assert(now[k] == t);
            } else if comes_at_last {
                if occurs_later(list, upto - 1) {
                    let at = upto - 1;
                    let j = choose|j: int| at < j < list.len() && #[trigger] list[j] == list[at];
                    assert(upto <= j < list.len() && list[j] == t);
                } else {
                    assert(now[before.len() as int] == t);
                }
            } else {
                let from = upto - 1;
                let j = choose|j: int| from <= j < list.len() && #[trigger] list[j] == list[i];
                assert(j != upto - 1);
                assert(upto <= j < list.len() && list[j] == t);
            }
        }
    }
}

/// `last_of_each` holds the texts of the list, each once.
pub proof fn lemma_last_of_each(list: Seq<Seq<char>>)
    ensures
        last_of_each(list).no_duplicates(),
        forall|t: Seq<char>| last_of_each(list).contains(t) <==> list.contains(t),
{
    lemma_last_of_each_upto(list, list.len() as int);
    assert forall|t: Seq<char>| last_of_each(list).contains(t) <==> list.contains(t) by {
        if list.contains(t) {
            let i = choose|i: int| 0 <= i < list.len() && list[i] == t;
            assert(last_of_each(list).contains(list[i]));
        }
    }
}

/// A list that repeats no text is its own `last_of_each`.
pub proof fn lemma_last_of_each_distinct(list: Seq<Seq<char>>, upto: int)
    requires
        list.no_duplicates(),
        0 <= upto <= list.len(),
    ensures
        last_of_each_upto(list, upto) == list.take(upto),
    decreases upto,
{
    if upto > 0 {
        lemma_last_of_each_distinct(list, upto - 1);
        assert(list.take(upto) =~= list.take(upto - 1).push(list[upto - 1]));
    } else {
        assert(list.take(upto) =~= Seq::<Seq<char>>::empty());
    }
}

/// Whether the string at position `at` stands at a later position too.
fn comes_again(list: &Vec<String>, at: usize) -> (r: bool)
    requires
        at < list.len(),
    ensures
        r == occurs_later(views(list@), at as int),
{
    let mut j: usize = at + 1;
    while j < list.len()
        invariant
            at < j <= list.len(),
            forall|k: int| at < k < j ==> list@[k]@ != list@[at as int]@,
        decreases list.len() - j,
    {
        if list[j] == list[at] {
            assert(views(list@)[j as int] == views(list@)[at as int]);
            return true;
        }
        j = j + 1;
    }
    proof {
        if occurs_later(views(list@), at as int) {
            let k = choose|k: int|
                at < k < views(list@).len() && views(list@)[k] == views(list@)[at as int];
            assert(list@[k]@ != list@[at as int]@);
        }
    }
    false
}

/// The strings of the list, each once, at the place of its last occurrence.
pub fn keep_last_of_each(list: &Vec<String>) -> (r: Vec<String>)
    ensures
        views(r@) == last_of_each(views(list@)),
        views(r@).no_duplicates(),
        forall|t: Seq<char>| views(r@).contains(t) <==> views(list@).contains(t),
{
    let mut r: Vec<String> = Vec::new();
    let mut i: usize = 0;
    proof {
        assert(views(r@) =~= last_of_each_upto(views(list@), 0));
    }
    while i < list.len()
        invariant
            i <= list.len(),
            views(r@) == last_of_each_upto(views(list@), i as int),
        decreases list.len() - i,
    {
        let ghost before = views(r@);
        if !comes_again(list, i) {
            r.push(list[i].clone());
            proof {
                assert(views(r@) =~= before.push(views(list@)[i as int]));
            }
        }
        i = i + 1;
    }
    proof {
        lemma_last_of_each(views(list@));
    }
    r
}

/// `list` is in strictly increasing order and holds exactly the texts of `items`.
pub open spec fn lists_sorted(list: Seq<Seq<char>>, items: Seq<Seq<char>>) -> bool {
    strictly_sorted(list) && forall|t: Seq<char>| list.contains(t) <==> items.contains(t)
}

/// The texts of `items`, each once, in strictly increasing order.
pub open spec fn sorted_listing(items: Seq<Seq<char>>) -> Seq<Seq<char>> {
    choose|list: Seq<Seq<char>>| lists_sorted(list, items)
}

/// Two strictly increasing lists of the same texts are one list.
pub proof fn lemma_sorted_unique(a: Seq<Seq<char>>, b: Seq<Seq<char>>)
    requires
        strictly_sorted(a),
        strictly_sorted(b),
        forall|t: Seq<char>| a.contains(t) <==> b.contains(t),
    ensures
        a == b,
    decreases a.len(),
{
    if a.len() == 0 {
        if b.len() > 0 {
            assert(b.contains(b[0]));
        }
        assert(a =~= b);
    } else {
        assert(a.contains(a.last()));
        assert(b.contains(a.last()));
        assert(b.contains(b.last()));
        assert(a.contains(b.last()));
        let j = choose|j: int| 0 <= j < b.len() && b[j] == a.last();
        let i = choose|i: int| 0 <= i < a.len() && a[i] == b.last();
        if a.last() != b.last() {
            assert(text_before(b[j], b[b.len() - 1]));
            assert(text_before(a[i], a[a.len() - 1]));
            lemma_text_before_transitive(a.last(), b.last(), a.last());
            lemma_text_before_irreflexive(a.last());
        }
        let a0 = a.drop_last();
        let b0 = b.drop_last();
        assert forall|t: Seq<char>| a0.contains(t) <==> b0.contains(t) by {
            lemma_text_before_irreflexive(t);
            if a0.contains(t) {
                let k = choose|k: int| 0 <= k < a0.len() && a0[k] == t;
                assert(a[k] == t);
                assert(text_before(a[k], a[a.len() - 1]));
                assert(a.contains(t));
                let m = choose|m: int| 0 <= m < b.len() && b[m] == t;
                assert(b0[m] == t);
            }
            if b0.contains(t) {
                let k = choose|k: int| 0 <= k < b0.len() && b0[k] == t;
                assert(b[k] == t);
                assert(text_before(b[k], b[b.len() - 1]));
                assert(b.contains(t));
                let m = choose|m: int| 0 <= m < a.len() && a[m] == t;
                assert(a0[m] == t);
            }
        }
        assert forall|x: int, y: int| 0 <= x < y < a0.len() implies text_before(
            #[trigger] a0[x],
            #[trigger] a0[y],
        ) by {
            assert(text_before(a[x], a[y]));
        }
        assert forall|x: int, y: int| 0 <= x < y < b0.len() implies text_before(
            #[trigger] b0[x],
            #[trigger] b0[y],
        ) by {
            assert(text_before(b[x], b[y]));
        }
        lemma_sorted_unique(a0, b0);
        assert(a =~= a0.push(a.last()));
        assert(b =~= b0.push(b.last()));
    }
}

/// The texts of `items`, each once, in the order in which strings sort.
pub fn sorted_unique(items: &Vec<String>) -> (list: Vec<String>)
    ensures
        views(list@) == sorted_listing(views(items@)),
        lists_sorted(views(list@), views(items@)),
{
    let mut list: Vec<String> = Vec::new();
    let mut i: usize = 0;
    while i < items.len()
        invariant
            i <= items.len(),
            lists_sorted(views(list@), views(items@).take(i as int)),
        decreases items.len() - i,
    {
        let ghost before = views(list@);
        insert_sorted(&mut list, items[i].clone());
        proof {
            let upto = views(items@).take(i as int);
            let next = views(items@).take(i + 1);
            assert(next =~= upto.push(items@[i as int]@));
            assert forall|t: Seq<char>| views(list@).contains(t) <==> next.contains(t) by {
                if upto.contains(t) {
                    let k = choose|k: int| 0 <= k < upto.len() && upto[k] == t;
                    assert(next[k] == t);
                }
                if next.contains(t) {
                    let k = choose|k: int| 0 <= k < next.len() && next[k] == t;
                    if k < upto.len() {
                        assert(upto[k] == t);
                    }
                }
                assert(next[i as int] == items@[i as int]@);
            }
        }
        i = i + 1;
    }
    proof {
        assert(views(items@).take(items.len() as int) =~= views(items@));
        lemma_sorted_unique(views(list@), sorted_listing(views(items@)));
    }
    list
}

/// Inserts `item` into a strictly sorted list unless it is there already.
fn insert_sorted(list: &mut Vec<String>, item: String)
    requires
        strictly_sorted(views(old(list)@)),
    ensures
        strictly_sorted(views(final(list)@)),
        forall|t: Seq<char>|
            views(final(list)@).contains(t) <==> (views(old(list)@).contains(t) || t == item@),
{
    let ghost before = views(list@);
    let mut i: usize = 0;
    while i < list.len() && sorts_before(&list[i], &item)
        invariant
            i <= list.len(),
            list@ == old(list)@,
            before == views(list@),
            forall|j: int| 0 <= j < i ==> text_before(#[trigger] before[j], item@),
        decreases list.len() - i,
    {
        assert(before[i as int] == list@[i as int]@);
        i = i + 1;
    }
    if i < list.len() && list[i] == item {
        assert(before[i as int] == item@);
        return ;
    }
    proof {
        if i < list.len() {
            lemma_text_before_total(before[i as int], item@);
        }
        assert forall|j: int| i <= j < before.len() implies text_before(
            item@,
            #[trigger] before[j],
        ) by {
            if j > i {
                lemma_text_before_transitive(item@, before[i as int], before[j]);
            }
        }
    }
    list.insert(i, item);
    proof {
        let after = views(list@);
        assert(after =~= before.insert(i as int, item@));
        assert forall|a: int, b: int| 0 <= a < b < after.len() implies text_before(
            #[trigger] after[a],
            #[trigger] after[b],
        ) by {
            let a0 = if a < i { a } else { a - 1 };
            let b0 = if b < i { b } else { b - 1 };
            if a != i && b != i {
                assert(text_before(before[a0], before[b0]));
            } else if a == i {
                assert(text_before(item@, before[b0]));
            } else {
                assert(text_before(before[a0], item@));
            }
        }
        assert forall|t: Seq<char>| after.contains(t) <==> (before.contains(t) || t == item@) by {
            if after.contains(t) {
                let k = choose|k: int| 0 <= k < after.len() && after[k] == t;
                if k < i {
                    assert(before[k] == t);
                } else if k > i {
                    assert(before[k - 1] == t);
                }
            }
            if before.contains(t) {
                let k = choose|k: int| 0 <= k < before.len() && before[k] == t;
                if k < i {
                    assert(after[k] == t);
                } else {
                    assert(after[k + 1] == t);
                }
            }
            if t == item@ {
                assert(after[i as int] == t);
            }
        }
    }
}

} // verus!
