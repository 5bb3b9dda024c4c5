//! The deployment tree: resources, their dependencies, groups of resources, and the
//! ordered mapping that holds one scope of the tree.

use crate::text::{clone_option_strings, first_index, lemma_first_index, option_views};
use indexmap::IndexMap;
use vstd::prelude::*;

verus! {

/// What a Helm repository entry denotes.
pub struct HelmRepositoryView {
    pub name: Seq<char>,
    pub url: Seq<char>,
}

/// What a remote Helm release denotes.
pub struct HelmRemoteView {
    pub name: Seq<char>,
    pub namespace: Seq<char>,
    pub chart_name: Seq<char>,
    pub chart_version: Seq<char>,
    pub values: Option<Seq<Seq<char>>>,
}

/// What a local Helm release denotes.
pub struct HelmLocalView {
    pub name: Seq<char>,
    pub namespace: Seq<char>,
    pub chart_path: Seq<char>,
    pub values: Option<Seq<Seq<char>>>,
}

/// What a resource denotes. A group denotes the scope of its children.
pub enum ResourceView {
    Shell(Seq<char>),
    Manifest(Seq<char>),
    HelmRemote(HelmRemoteView),
    HelmLocal(HelmLocalView),
    Group(Seq<(Seq<char>, EntryView)>),
    Noop(Seq<char>),
}

/// What an entry of a scope denotes: a resource and the keys it depends on.
pub struct EntryView {
    pub resource: ResourceView,
    pub depends_on: Option<Seq<Seq<char>>>,
}

/// One scope of the tree: its keys with their entries, in declaration order.
pub type Scope = Seq<(Seq<char>, EntryView)>;

/// The keys of a scope, in declaration order.
pub open spec fn scope_keys(s: Scope) -> Seq<Seq<char>> {
    Seq::new(s.len(), |i: int| s[i].0)
}

/// Whether `key` is a key of the scope.
pub open spec fn has_key(s: Scope, key: Seq<char>) -> bool {
    scope_keys(s).contains(key)
}

/// The position of the first entry under `key`, or the length of the scope when there is none.
pub open spec fn key_index(s: Scope, key: Seq<char>) -> int {
    first_index(scope_keys(s), key)
}

/// The entry stored under `key`. Meaningful when `key` is a key of the scope.
pub open spec fn entry_of(s: Scope, key: Seq<char>) -> EntryView {
    s[key_index(s, key)].1
}

/// The scope of a group is smaller than the scope that holds the group, so that a walk
/// through the tree comes to an end.
pub proof fn lemma_group_is_smaller(s: Scope, i: int)
    requires
        0 <= i < s.len(),
        s[i].1.resource is Group,
    ensures
        decreases_to!(s => s[i].1.resource->Group_0),
{
    assert(decreases_to!(s => s[i]));
    assert(decreases_to!(s[i] => s[i].1));
    assert(decreases_to!(s[i].1 => s[i].1.resource));
    assert(decreases_to!(s[i].1.resource => s[i].1.resource->Group_0));
}

/// The keys that an entry declares as its dependencies.
pub open spec fn dependencies_of(e: EntryView) -> Seq<Seq<char>> {
    match e.depends_on {
        Some(list) => list,
        None => Seq::empty(),
    }
}

/// The scope after storing `entry` under `key`: an existing key keeps its place and
/// gets the new entry, a new key goes last.
pub open spec fn scope_insert(s: Scope, key: Seq<char>, entry: EntryView) -> Scope {
    if has_key(s, key) {
        s.update(key_index(s, key), (key, entry))
    } else {
        s.push((key, entry))
    }
}

/// No key occurs twice in the scope.
pub open spec fn distinct_keys(s: Scope) -> bool {
    scope_keys(s).no_duplicates()
}

/// `key_index` is within the scope exactly for a key of the scope, and is then the
/// first position that holds the key.
pub proof fn lemma_key_index(s: Scope, key: Seq<char>)
    ensures
        0 <= key_index(s, key) <= s.len(),
        has_key(s, key) <==> key_index(s, key) < s.len(),
        has_key(s, key) ==> s[key_index(s, key)].0 == key,
        forall|j: int| 0 <= j < key_index(s, key) ==> (#[trigger] s[j]).0 != key,
{
    lemma_first_index(scope_keys(s), key);
    assert forall|j: int| 0 <= j < key_index(s, key) implies (#[trigger] s[j]).0 != key by {
        assert(scope_keys(s)[j] != key);
    }
}

/// A Helm repository: the alias that chart names start with, and where it lives.
#[derive(Debug, PartialEq)]
pub struct HelmRepository {
    pub name: String,
    pub url: String,
}

impl View for HelmRepository {
    type V = HelmRepositoryView;

    open spec fn view(&self) -> HelmRepositoryView {
        HelmRepositoryView { name: self.name@, url: self.url@ }
    }
}

impl Clone for HelmRepository {
    fn clone(&self) -> (r: Self)
        ensures
            r@ == self@,
    {
        HelmRepository { name: self.name.clone(), url: self.url.clone() }
    }
}

/// The Helm section of a configuration.
#[derive(Debug, PartialEq)]
pub struct Helm {
    pub repositories: Option<Vec<HelmRepository>>,
}

/// A shell command line.
#[derive(Debug, PartialEq)]
pub struct Shell {
    pub input: String,
}

impl Clone for Shell {
    fn clone(&self) -> (r: Self)
        ensures
            r.input@ == self.input@,
    {
        Shell { input: self.input.clone() }
    }
}

/// A manifest file to apply.
#[derive(Debug, PartialEq)]
pub struct Manifest {
    pub path: String,
}

impl Clone for Manifest {
    fn clone(&self) -> (r: Self)
        ensures
            r.path@ == self.path@,
    {
        Manifest { path: self.path.clone() }
    }
}

/// A Helm release of a chart that a repository serves.
#[derive(Debug, PartialEq)]
pub struct HelmRemote {
    pub name: String,
    pub namespace: String,
    pub chart_name: String,
    pub chart_version: String,
    pub values: Option<Vec<String>>,
}

impl View for HelmRemote {
    type V = HelmRemoteView;

    open spec fn view(&self) -> HelmRemoteView {
        HelmRemoteView {
            name: self.name@,
            namespace: self.namespace@,
            chart_name: self.chart_name@,
            chart_version: self.chart_version@,
            values: option_views(self.values),
        }
    }
}

impl Clone for HelmRemote {
    fn clone(&self) -> (r: Self)
        ensures
            r@ == self@,
    {
        HelmRemote {
            name: self.name.clone(),
            namespace: self.namespace.clone(),
            chart_name: self.chart_name.clone(),
            chart_version: self.chart_version.clone(),
            values: clone_option_strings(&self.values),
        }
    }
}

/// A Helm release of a chart in a local directory.
#[derive(Debug, PartialEq)]
pub struct HelmLocal {
    pub name: String,
    pub namespace: String,
    pub chart_path: String,
    pub values: Option<Vec<String>>,
}

impl View for HelmLocal {
    type V = HelmLocalView;

    open spec fn view(&self) -> HelmLocalView {
        HelmLocalView {
            name: self.name@,
            namespace: self.namespace@,
            chart_path: self.chart_path@,
            values: option_views(self.values),
        }
    }
}

impl Clone for HelmLocal {
    fn clone(&self) -> (r: Self)
        ensures
            r@ == self@,
    {
        HelmLocal {
            name: self.name.clone(),
            namespace: self.namespace.clone(),
            chart_path: self.chart_path.clone(),
            values: clone_option_strings(&self.values),
        }
    }
}

/// A deployable item, or a group of them.
#[derive(Debug, PartialEq)]
pub enum Resource {
    Shell { shell: Shell },
    Manifest { manifest: Manifest },
    HelmRemote { helm_remote: HelmRemote },
    HelmLocal { helm_local: HelmLocal },
    Group { group: ResourceMap },
    Noop { noop: String },
}

impl View for Resource {
    type V = ResourceView;

    open spec fn view(&self) -> ResourceView {
        match self {
            Resource::Shell { shell } => ResourceView::Shell(shell.input@),
            Resource::Manifest { manifest } => ResourceView::Manifest(manifest.path@),
            Resource::HelmRemote { helm_remote } => ResourceView::HelmRemote(helm_remote@),
            Resource::HelmLocal { helm_local } => ResourceView::HelmLocal(helm_local@),
            Resource::Group { group } => ResourceView::Group(resource_map_entries(*group)),
            Resource::Noop { noop } => ResourceView::Noop(noop@),
        }
    }
}

impl Clone for Resource {
    fn clone(&self) -> (r: Self)
        ensures
            r@ == self@,
    {
        match self {
            Resource::Shell { shell } => Resource::Shell { shell: shell.clone() },
            Resource::Manifest { manifest } => Resource::Manifest { manifest: manifest.clone() },
            Resource::HelmRemote { helm_remote } => Resource::HelmRemote {
                helm_remote: helm_remote.clone(),
            },
            Resource::HelmLocal { helm_local } => Resource::HelmLocal {
                helm_local: helm_local.clone(),
            },
            Resource::Group { group } => Resource::Group { group: group.clone() },
            Resource::Noop { noop } => Resource::Noop { noop: noop.clone() },
        }
    }
}

/// A resource together with the sibling keys that must run before it.
#[derive(Debug, PartialEq)]
pub struct ResourceWithDepdencies {
    pub resource: Resource,
    pub depends_on: Option<Vec<String>>,
}

impl View for ResourceWithDepdencies {
    type V = EntryView;

    open spec fn view(&self) -> EntryView {
        EntryView { resource: self.resource@, depends_on: option_views(self.depends_on) }
    }
}

impl Clone for ResourceWithDepdencies {
    fn clone(&self) -> (r: Self)
        ensures
            r@ == self@,
    {
        ResourceWithDepdencies {
            resource: self.resource.clone(),
            depends_on: clone_option_strings(&self.depends_on),
        }
    }
}

/// A whole configuration: the Helm section and the root scope.
#[derive(Debug, PartialEq)]
pub struct Config {
    pub helm: Option<Helm>,
    pub resources: ResourceMap,
}

/// An insertion-ordered mapping from keys to entries, kept in an `indexmap::IndexMap`.
/// Contracts speak of its contents as `resource_map_entries`.
#[verifier::external_body]
#[derive(Debug, PartialEq)]
pub struct ResourceMap {
    inner: IndexMap<String, ResourceWithDepdencies>,
}

/// The key-value pairs that a `ResourceMap` holds, in its order.
pub uninterp spec fn resource_map_entries(m: ResourceMap) -> Seq<(Seq<char>, EntryView)>;

impl View for ResourceMap {
    type V = Seq<(Seq<char>, EntryView)>;

    open spec fn view(&self) -> Seq<(Seq<char>, EntryView)> {
        resource_map_entries(*self)
    }
}

/// `IndexMap::new`: a map without pairs.
#[verifier::external_body]
fn map_new() -> (m: ResourceMap)
    ensures
        resource_map_entries(m) == Seq::<(Seq<char>, EntryView)>::empty(),
{
    ResourceMap { inner: IndexMap::new() }
}

/// `IndexMap::len`: the number of pairs. An `IndexMap` holds one pair for each of its
/// keys, so the pairs that are counted have keys that differ from one another.
#[verifier::external_body]
fn map_len(m: &ResourceMap) -> (n: usize)
    ensures
        n == resource_map_entries(*m).len(),
        forall|i: int, j: int|
            0 <= i < j < n ==> scope_keys(resource_map_entries(*m))[i] != scope_keys(
                resource_map_entries(*m),
            )[j],
{
    m.inner.len()
}

/// `IndexMap::get_index`: the pair at a position of the order, for a position below
/// the length.
#[verifier::external_body]
fn map_get_index(m: &ResourceMap, i: usize) -> (r: (&String, &ResourceWithDepdencies))
    requires
        i < resource_map_entries(*m).len(),
    ensures
        r.0@ == resource_map_entries(*m)[i as int].0,
        r.1@ == resource_map_entries(*m)[i as int].1,
{
    m.inner.get_index(i).unwrap()
}

/// `IndexMap::get_index_of`: the position of the pair stored under a key equal to
/// `key`, or `None` when no pair is stored under such a key.
#[verifier::external_body]
fn map_get_index_of(m: &ResourceMap, key: &String) -> (r: Option<usize>)
    ensures
        match r {
            Some(i) => has_key(resource_map_entries(*m), key@) && i == key_index(
                resource_map_entries(*m),
                key@,
            ),
            None => !has_key(resource_map_entries(*m), key@),
        },
{
    m.inner.get_index_of(key)
}

/// `IndexMap::insert`: where a pair is stored under an equal key, that pair keeps its
/// place and its key and gets the new value; otherwise the new pair goes last.
#[verifier::external_body]
fn map_insert(m: &mut ResourceMap, key: String, value: ResourceWithDepdencies)
    ensures
        resource_map_entries(*final(m)) == scope_insert(
            resource_map_entries(*old(m)),
            key@,
            value@,
        ),
{
    m.inner.insert(key, value);
}

/// `IndexMap::clone`: a map with the same pairs in the same order.
#[verifier::external_body]
fn map_clone(m: &ResourceMap) -> (r: ResourceMap)
    ensures
        resource_map_entries(r) == resource_map_entries(*m),
{
    ResourceMap { inner: m.inner.clone() }
}

impl Clone for ResourceMap {
    fn clone(&self) -> (r: Self)
        ensures
            r@ == self@,
    {
        map_clone(self)
    }
}

impl ResourceMap {
    /// An empty scope.
    pub fn new() -> (m: Self)
        ensures
            m@ == Seq::<(Seq<char>, EntryView)>::empty(),
    {
        map_new()
    }

    /// The number of entries. The keys of a map are pairwise distinct.
    pub fn len(&self) -> (n: usize)
        ensures
            n == self@.len(),
            distinct_keys(self@),
    {
        let n = map_len(self);
        proof {
            let keys = scope_keys(self@);
            assert forall|i: int, j: int|
                0 <= i < keys.len() && 0 <= j < keys.len() && i != j implies keys[i] != keys[j] by {
                if j < i {
                    assert(keys[j] != keys[i]);
                }
            }
        }
        n
    }

    /// The key and entry at position `i` of the declaration order.
    pub fn get_index(&self, i: usize) -> (r: Option<(&String, &ResourceWithDepdencies)>)
        ensures
            match r {
                Some(pair) => i < self@.len() && pair.0@ == self@[i as int].0 && pair.1@
                    == self@[i as int].1 && key_index(self@, pair.0@) == i,
                None => i >= self@.len(),
            },
    {
        if i < map_len(self) {
            let pair = map_get_index(self, i);
            proof {
                let keys = scope_keys(self@);
                assert(keys[i as int] == pair.0@);
                crate::text::lemma_first_index_is(keys, pair.0@, i as int);
            }
            Some(pair)
        } else {
            None
        }
    }

    /// The position of `key` in the declaration order.
    pub fn get_index_of(&self, key: &String) -> (r: Option<usize>)
        ensures
            match r {
                Some(i) => has_key(self@, key@) && i == key_index(self@, key@),
                None => !has_key(self@, key@),
            },
    {
        map_get_index_of(self, key)
    }

    /// The entry stored under `key`.
    pub fn get(&self, key: &String) -> (r: Option<&ResourceWithDepdencies>)
        ensures
            match r {
                Some(entry) => has_key(self@, key@) && entry@ == entry_of(self@, key@),
                None => !has_key(self@, key@),
            },
    {
        match map_get_index_of(self, key) {
            Some(i) => {
                proof {
                    lemma_key_index(self@, key@);
                }
                let pair = map_get_index(self, i);
                Some(pair.1)
            },
            None => None,
        }
    }

    /// The keys, in declaration order.
    pub fn keys(&self) -> (r: Vec<String>)
        ensures
            crate::text::views(r@) == scope_keys(self@),
    {
        let n = map_len(self);
        let mut r: Vec<String> = Vec::new();
        let mut i: usize = 0;
        while i < n
            invariant
                i <= n,
                n == self@.len(),
                r@.len() == i,
                forall|j: int| 0 <= j < i ==> r@[j]@ == self@[j].0,
            decreases n - i,
        {
            let pair = map_get_index(self, i);
            r.push(pair.0.clone());
            i = i + 1;
        }
        proof {
            assert(crate::text::views(r@) =~= scope_keys(self@));
        }
        r
    }

    /// Whether an entry is stored under `key`.
    pub fn contains_key(&self, key: &String) -> (r: bool)
        ensures
            r == has_key(self@, key@),
    {
        map_get_index_of(self, key).is_some()
    }

    /// Stores `value` under `key`. An existing key keeps its place in the order; a new
    /// key goes last.
    pub fn insert(&mut self, key: String, value: ResourceWithDepdencies)
        ensures
            final(self)@ == scope_insert(old(self)@, key@, value@),
    {
        map_insert(self, key, value);
    }
}

} // verus!
