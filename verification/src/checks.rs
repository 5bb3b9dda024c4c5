//! The checks that a configuration passes before anything runs: the form of its keys,
//! their uniqueness, the targets of its dependencies, the files it refers to, and the
//! repositories of its charts. Checks of cycles have a file of their own.

use crate::error::{fails_with, invalid_data, Error, ErrorKind};
use crate::file_format::{
    dependencies_of, has_key, lemma_group_is_smaller, HelmRepository, Resource, ResourceMap,
    ResourceView, Scope,
};
use crate::text::{
    chars_of, contains_string, first_index, join, joined, option_views, or_empty, sorted_listing,
    sorted_unique, split_first, views,
};
use vstd::prelude::*;
use vstd::string::*;

verus! {

/// One of the letters `a` to `z` and `A` to `Z` and the digits `0` to `9`.
pub open spec fn is_key_char(c: char) -> bool {
    ('a' <= c && c <= 'z') || ('A' <= c && c <= 'Z') || ('0' <= c && c <= '9')
}

/// A key is one or more letters and digits.
pub open spec fn key_format_valid(key: Seq<char>) -> bool {
    key.len() > 0 && forall|i: int| 0 <= i < key.len() ==> is_key_char(#[trigger] key[i])
}

/// The keys of the first `upto` entries of a scope and of all that their groups hold,
/// each group's keys right after the key of the group.
pub open spec fn all_keys_upto(scope: Scope, upto: int) -> Seq<Seq<char>>
    decreases scope, upto,
{
    if upto <= 0 || upto > scope.len() {
        Seq::empty()
    } else {
        all_keys_upto(scope, upto - 1).push(scope[upto - 1].0) + match scope[upto - 1].1.resource {
            ResourceView::Group(children) => all_keys_upto(children, children.len() as int),
            _ => Seq::empty(),
        }
    }
}

/// Every key of the tree, at every depth, in the order in which the tree is walked.
pub open spec fn all_keys(scope: Scope) -> Seq<Seq<char>> {
    all_keys_upto(scope, scope.len() as int)
}

/// The resources of the first `upto` entries that are no groups, and those inside their
/// groups, each with its key.
pub open spec fn leaves_upto(scope: Scope, upto: int) -> Seq<(Seq<char>, ResourceView)>
    decreases scope, upto,
{
    if upto <= 0 || upto > scope.len() {
        Seq::empty()
    } else {
        leaves_upto(scope, upto - 1) + match scope[upto - 1].1.resource {
            ResourceView::Group(children) => leaves_upto(children, children.len() as int),
            resource => seq![(scope[upto - 1].0, resource)],
        }
    }
}

/// Every resource of the tree that is no group, with its key, in the order in which the
/// tree is walked.
pub open spec fn leaves(scope: Scope) -> Seq<(Seq<char>, ResourceView)> {
    leaves_upto(scope, scope.len() as int)
}

/// `t` stands at two places of `list`.
pub open spec fn occurs_twice(list: Seq<Seq<char>>, t: Seq<char>) -> bool {
    exists|i: int, j: int| 0 <= i < j < list.len() && list[i] == t && list[j] == t
}

/// The texts of `part`, in order, that stand at two places of `list`.
pub open spec fn repeated_in(part: Seq<Seq<char>>, list: Seq<Seq<char>>) -> Seq<Seq<char>>
    decreases part.len(),
{
    if part.len() == 0 {
        Seq::empty()
    } else if occurs_twice(list, part.last()) {
        repeated_in(part.drop_last(), list).push(part.last())
    } else {
        repeated_in(part.drop_last(), list)
    }
}

/// The texts of `list` that occur in it at two places or more.
pub open spec fn repeated(list: Seq<Seq<char>>) -> Seq<Seq<char>> {
    repeated_in(list, list)
}

/// The dependencies among `deps` that are no key of the scope, in order.
pub open spec fn missing_of(scope: Scope, deps: Seq<Seq<char>>) -> Seq<Seq<char>>
    decreases deps.len(),
{
    if deps.len() == 0 {
        Seq::empty()
    } else if has_key(scope, deps.last()) {
        missing_of(scope, deps.drop_last())
    } else {
        missing_of(scope, deps.drop_last()).push(deps.last())
    }
}

/// The dependencies of the first `upto` entries of the scope that are no key of it.
pub open spec fn missing_upto(scope: Scope, upto: int) -> Seq<Seq<char>>
    decreases upto,
{
    if upto <= 0 || upto > scope.len() {
        Seq::empty()
    } else {
        missing_upto(scope, upto - 1) + missing_of(scope, dependencies_of(scope[upto - 1].1))
    }
}

/// The invalid dependencies inside the groups among the first `upto` entries.
pub open spec fn nested_invalid_upto(scope: Scope, upto: int) -> Seq<Seq<char>>
    decreases scope, upto,
{
    if upto <= 0 || upto > scope.len() {
        Seq::empty()
    } else {
        nested_invalid_upto(scope, upto - 1) + match scope[upto - 1].1.resource {
            ResourceView::Group(children) => invalid_dependencies(children),
            _ => Seq::empty(),
        }
    }
}

/// Every dependency, at every depth, that names no key of the scope it stands in: those
/// of the scope itself first, then those of its groups.
pub open spec fn invalid_dependencies(scope: Scope) -> Seq<Seq<char>>
    decreases scope, scope.len() + 1,
{
    missing_upto(scope, scope.len() as int) + nested_invalid_upto(scope, scope.len() as int)
}

/// Every dependency of every scope of the tree names a key of that scope.
pub open spec fn dependencies_resolve(scope: Scope) -> bool {
    invalid_dependencies(scope).len() == 0
}

/// The message for a key of the wrong form.
pub open spec fn key_format_message(key: Seq<char>) -> Seq<char> {
    "Configuration is invalid, resource key can only contain [a-zA-Z0-9]: "@ + key
}

/// The message for keys that occur more than once.
pub open spec fn duplicate_keys_message(keys: Seq<Seq<char>>) -> Seq<char> {
    "Configuration is invalid, duplicate resource keys: "@ + joined(keys, ", "@)
}

/// The message for dependencies that name no key of their scope.
pub open spec fn invalid_dependencies_message(keys: Seq<Seq<char>>) -> Seq<char> {
    "Configuration is invalid, invalid dependencies: "@ + joined(keys, ", "@)
}

/// The message for a file that does not exist.
pub open spec fn file_not_exists_message(key: Seq<char>, path: Seq<char>) -> Seq<char> {
    "Invalid resource "@ + key + ", references file that doesn't exist: "@ + path
}

/// The message for a directory that does not exist.
pub open spec fn directory_not_exists_message(key: Seq<char>, path: Seq<char>) -> Seq<char> {
    "Invalid resource "@ + key + ", references directory that doesn't exist: "@ + path
}

/// The message for a chart name without a repository before a slash.
pub open spec fn invalid_helm_chart_name_message(
    key: Seq<char>,
    chart_name: Seq<char>,
) -> Seq<char> {
    "Invalid resource "@ + key + ", chart name \""@ + chart_name
        + "\" doesn't start with a repository name"@
}

/// The message for a chart of a repository where no repositories are configured.
pub open spec fn helm_no_repositories_message(key: Seq<char>, repository: Seq<char>) -> Seq<char> {
    "Invalid resource "@ + key + ", repository with name \""@ + repository
        + "\" doesn't exist, no repositories configured"@
}

/// The message for a chart of a repository that is not among the configured ones.
pub open spec fn helm_repository_not_exists_message(
    key: Seq<char>,
    repository: Seq<char>,
    names: Seq<Seq<char>>,
) -> Seq<char> {
    "Invalid resource "@ + key + ", repository with name \""@ + repository
        + "\" doesn't exist, valid values are ["@ + joined(names, ", "@) + "]"@
}

/// The names of the repositories.
pub open spec fn repository_names(repositories: Seq<HelmRepository>) -> Seq<Seq<char>> {
    Seq::new(repositories.len(), |i: int| repositories[i].name@)
}

/// The names of the configured repositories, where any are configured.
pub open spec fn configured_names(
    repositories: Option<Vec<HelmRepository>>,
) -> Option<Seq<Seq<char>>> {
    match repositories {
        Some(list) => Some(repository_names(list@)),
        None => None,
    }
}

/// What is wrong with the chart of a resource, if anything: a chart name without a
/// slash, a repository before the first slash where none are configured, or one that is
/// not among those configured. Only a release of a chart from a repository can be at
/// fault.
pub open spec fn chart_fault(
    key: Seq<char>,
    resource: ResourceView,
    names: Option<Seq<Seq<char>>>,
) -> Option<Seq<char>> {
    match resource {
        ResourceView::HelmRemote(release) => {
            let cut = first_index(release.chart_name, '/');
            if cut >= release.chart_name.len() {
                Some(invalid_helm_chart_name_message(key, release.chart_name))
            } else {
                match names {
                    None => Some(helm_no_repositories_message(key, release.chart_name.take(cut))),
                    Some(list) => if list.contains(release.chart_name.take(cut)) {
                        None
                    } else {
                        Some(
                            helm_repository_not_exists_message(
                                key,
                                release.chart_name.take(cut),
                                list,
                            ),
                        )
                    },
                }
            }
        },
        _ => None,
    }
}

/// A path that a resource refers to and that must exist.
#[derive(Debug, PartialEq)]
pub struct FileReference {
    pub resource_key: String,
    pub path: String,
    /// Whether the path must be a directory rather than a file.
    pub directory: bool,
}

/// What a file reference denotes.
pub struct FileReferenceView {
    pub resource_key: Seq<char>,
    pub path: Seq<char>,
    pub directory: bool,
}

impl View for FileReference {
    type V = FileReferenceView;

    open spec fn view(&self) -> FileReferenceView {
        FileReferenceView {
            resource_key: self.resource_key@,
            path: self.path@,
            directory: self.directory,
        }
    }
}

/// What a list of file references denotes.
pub open spec fn reference_views(list: Seq<FileReference>) -> Seq<FileReferenceView> {
    Seq::new(list.len(), |i: int| list[i]@)
}

/// One reference to a file for each path, in order.
pub open spec fn file_references_to(
    key: Seq<char>,
    paths: Seq<Seq<char>>,
) -> Seq<FileReferenceView> {
    Seq::new(
        paths.len(),
        |i: int| FileReferenceView { resource_key: key, path: paths[i], directory: false },
    )
}

/// The paths that a resource refers to: the file of a manifest, the values files of a
/// release, and after them the chart directory of a local release.
pub open spec fn references_of(key: Seq<char>, resource: ResourceView) -> Seq<FileReferenceView> {
    match resource {
        ResourceView::Manifest(path) => seq![
            FileReferenceView { resource_key: key, path, directory: false },
        ],
        ResourceView::HelmRemote(release) => file_references_to(key, or_empty(release.values)),
        ResourceView::HelmLocal(release) => file_references_to(key, or_empty(release.values)).push(
            FileReferenceView { resource_key: key, path: release.chart_path, directory: true },
        ),
        _ => Seq::empty(),
    }
}

/// The references of the first `upto` of the given resources.
pub open spec fn references_upto(
    list: Seq<(Seq<char>, ResourceView)>,
    upto: int,
) -> Seq<FileReferenceView>
    decreases upto,
{
    if upto <= 0 || upto > list.len() {
        Seq::empty()
    } else {
        references_upto(list, upto - 1) + references_of(list[upto - 1].0, list[upto - 1].1)
    }
}

/// Every path that the tree refers to, in the order in which the tree is walked.
pub open spec fn file_references_of(scope: Scope) -> Seq<FileReferenceView> {
    references_upto(leaves(scope), leaves(scope).len() as int)
}

/// The message for a reference to a path that does not exist.
pub open spec fn missing_reference_message(reference: FileReferenceView) -> Seq<char> {
    if reference.directory {
        directory_not_exists_message(reference.resource_key, reference.path)
    } else {
        file_not_exists_message(reference.resource_key, reference.path)
    }
}

/// `i` is the first position of `keys` that holds a key of the wrong form.
pub open spec fn first_ill_formed(keys: Seq<Seq<char>>, i: int) -> bool {
    &&& 0 <= i < keys.len()
    &&& !key_format_valid(keys[i])
    &&& forall|j: int| 0 <= j < i ==> key_format_valid(#[trigger] keys[j])
}

/// Every key of the tree is one or more letters and digits.
pub open spec fn keys_well_formed(scope: Scope) -> bool {
    forall|i: int| 0 <= i < all_keys(scope).len() ==>
        key_format_valid(#[trigger] all_keys(scope)[i])
}

/// What the check of key forms returns: success where every key is well formed, else
/// the failure that names the first key that is not.
pub open spec fn key_format_outcome(scope: Scope, r: Result<(), Error>) -> bool {
    &&& r is Ok <==> keys_well_formed(scope)
    &&& r is Err ==> exists|i: int| #[trigger]
        first_ill_formed(all_keys(scope), i) && fails_with(
            r,
            ErrorKind::InvalidData,
            key_format_message(all_keys(scope)[i]),
        )
}

/// No key occurs twice in the tree.
pub open spec fn keys_unique(scope: Scope) -> bool {
    all_keys(scope).no_duplicates()
}

/// What the check of duplicates returns: success where no key occurs twice, else the
/// failure that lists the keys that do, sorted.
pub open spec fn duplicate_keys_outcome(scope: Scope, r: Result<(), Error>) -> bool {
    &&& r is Ok <==> keys_unique(scope)
    &&& r is Err ==> fails_with(
        r,
        ErrorKind::InvalidData,
        duplicate_keys_message(sorted_listing(repeated(all_keys(scope)))),
    )
}

/// What the check of dependencies returns: success where each names a key of its scope,
/// else the failure that lists the names that do not, sorted.
pub open spec fn invalid_dependencies_outcome(scope: Scope, r: Result<(), Error>) -> bool {
    &&& r is Ok <==> dependencies_resolve(scope)
    &&& r is Err ==> fails_with(
        r,
        ErrorKind::InvalidData,
        invalid_dependencies_message(sorted_listing(invalid_dependencies(scope))),
    )
}

/// What is wrong with the chart of the resource at a position of the list, if anything.
pub open spec fn chart_fault_at(
    list: Seq<(Seq<char>, ResourceView)>,
    i: int,
    names: Option<Seq<Seq<char>>>,
) -> Option<Seq<char>> {
    chart_fault(list[i].0, list[i].1, names)
}

/// `i` is the first position of `list` whose resource has a chart at fault.
pub open spec fn first_chart_fault(
    list: Seq<(Seq<char>, ResourceView)>,
    i: int,
    names: Option<Seq<Seq<char>>>,
) -> bool {
    &&& 0 <= i < list.len()
    &&& chart_fault_at(list, i, names) is Some
    &&& forall|j: int| 0 <= j < i ==> #[trigger] chart_fault_at(list, j, names) is None
}

/// No chart of the tree is at fault.
pub open spec fn charts_resolve(scope: Scope, names: Option<Seq<Seq<char>>>) -> bool {
    forall|i: int| 0 <= i < leaves(scope).len() ==>
        #[trigger] chart_fault_at(leaves(scope), i, names) is None
}

/// What the check of charts returns: success where no chart is at fault, else the
/// failure for the first resource whose chart is.
pub open spec fn charts_outcome(
    scope: Scope,
    names: Option<Seq<Seq<char>>>,
    r: Result<(), Error>,
) -> bool {
    &&& r is Ok <==> charts_resolve(scope, names)
    &&& r is Err ==> exists|i: int| #[trigger]
        first_chart_fault(leaves(scope), i, names) && fails_with(
            r,
            ErrorKind::InvalidData,
            chart_fault_at(leaves(scope), i, names)->0,
        )
}

/// `i` is the first position of `references` whose path is not among the existing ones.
pub open spec fn first_missing(
    references: Seq<FileReferenceView>,
    existing: Seq<Seq<char>>,
    i: int,
) -> bool {
    &&& 0 <= i < references.len()
    &&& !existing.contains(references[i].path)
    &&& forall|j: int| 0 <= j < i ==> existing.contains((#[trigger] references[j]).path)
}

/// Every path that the tree refers to is among the existing ones.
pub open spec fn files_present(scope: Scope, existing: Seq<Seq<char>>) -> bool {
    forall|i: int|
        0 <= i < file_references_of(scope).len() ==> existing.contains(
            (#[trigger] file_references_of(scope)[i]).path,
        )
}

/// What the check of files returns: success where every path exists, else the failure
/// for the first reference whose path does not.
pub open spec fn files_outcome(
    scope: Scope,
    existing: Seq<Seq<char>>,
    r: Result<(), Error>,
) -> bool {
    &&& r is Ok <==> files_present(scope, existing)
    &&& r is Err ==> exists|i: int| #[trigger]
        first_missing(file_references_of(scope), existing, i) && fails_with(
            r,
            ErrorKind::InvalidData,
            missing_reference_message(file_references_of(scope)[i]),
        )
}

/// What a list of resources with their keys denotes.
pub open spec fn leaf_views(list: Seq<(String, Resource)>) -> Seq<(Seq<char>, ResourceView)> {
    Seq::new(list.len(), |i: int| (list[i].0@, list[i].1@))
}

/// Whether `key` is one or more letters and digits.
pub fn is_resource_key_format_valid(key: &String) -> (r: bool)
    ensures
        r == key_format_valid(key@),
{
    let chars = chars_of(key);
    if chars.len() == 0 {
        return false;
    }
    let mut i: usize = 0;
    while i < chars.len()
        invariant
            i <= chars.len(),
            chars@ == key@,
            forall|j: int| 0 <= j < i ==> is_key_char(#[trigger] key@[j]),
        decreases chars.len() - i,
    {
        let c = chars[i];
        if !(('a' <= c && c <= 'z') || ('A' <= c && c <= 'Z') || ('0' <= c && c <= '9')) {
            assert(!is_key_char(key@[i as int]));
            return false;
        }
        i = i + 1;
    }
    true
}

/// Every key of the tree, at every depth: the key of a group, then the keys inside it,
/// then the keys after it.
pub fn all_resource_keys(resources: &ResourceMap) -> (keys: Vec<String>)
    ensures
        views(keys@) == all_keys(resources@),
    decreases resources@,
{
    let n = resources.len();
    let mut keys: Vec<String> = Vec::new();
    let mut i: usize = 0;
    proof {
        assert(views(keys@) =~= all_keys_upto(resources@, 0));
    }
    while i < n
        invariant
            i <= n,
            n == resources@.len(),
            views(keys@) == all_keys_upto(resources@, i as int),
        decreases n - i,
    {
        let ghost before = views(keys@);
        match resources.get_index(i) {
            Some((key, entry)) => {
                keys.push(key.clone());
                match &entry.resource {
                    Resource::Group { group } => {
                        proof {
                            assert(resources@[i as int].1.resource == ResourceView::Group(group@));
                            lemma_group_is_smaller(resources@, i as int);
                        }
                        let mut inner = all_resource_keys(group);
                        let ghost inner_views = views(inner@);
                        keys.append(&mut inner);
                        proof {
                            assert(views(keys@) =~= before.push(key@) + inner_views);
                        }
                    },
                    _ => {
                        proof {
                            assert(views(keys@) =~= before.push(key@) + Seq::<Seq<char>>::empty());
                        }
                    },
                }
            },
            None => {},
        }
        i = i + 1;
    }
    keys
}

/// Every resource of the tree that is no group, with its key, in the order in which the
/// tree is walked.
pub fn resource_leaves(resources: &ResourceMap) -> (list: Vec<(String, Resource)>)
    ensures
        leaf_views(list@) == leaves(resources@),
    decreases resources@,
{
    let n = resources.len();
    let mut list: Vec<(String, Resource)> = Vec::new();
    let mut i: usize = 0;
    proof {
        assert(leaf_views(list@) =~= leaves_upto(resources@, 0));
    }
    while i < n
        invariant
            i <= n,
            n == resources@.len(),
            leaf_views(list@) == leaves_upto(resources@, i as int),
        decreases n - i,
    {
        let ghost before = leaf_views(list@);
        match resources.get_index(i) {
            Some((key, entry)) => {
                match &entry.resource {
                    Resource::Group { group } => {
                        proof {
                            assert(resources@[i as int].1.resource == ResourceView::Group(group@));
                            lemma_group_is_smaller(resources@, i as int);
                        }
                        let mut inner = resource_leaves(group);
                        let ghost inner_views = leaf_views(inner@);
                        list.append(&mut inner);
                        proof {
                            assert(leaf_views(list@) =~= before + inner_views);
                        }
                    },
                    resource => {
                        list.push((key.clone(), resource.clone()));
                        proof {
                            assert(leaf_views(list@) =~= before + seq![(key@, resource@)]);
                        }
                    },
                }
            },
            None => {},
        }
        i = i + 1;
    }
    list
}

/// Checks the form of every key of the tree. It fails on the first key, in the order in
/// which the tree is walked, that is not made of one or more letters and digits, and
/// names that key.
pub fn check_resource_keys_format(resources: &ResourceMap) -> (r: Result<(), Error>)
    ensures
        key_format_outcome(resources@, r),
{
    let keys = all_resource_keys(resources);
    let mut i: usize = 0;
    while i < keys.len()
        invariant
            i <= keys.len(),
            views(keys@) == all_keys(resources@),
            forall|j: int| 0 <= j < i ==> key_format_valid(#[trigger] all_keys(resources@)[j]),
        decreases keys.len() - i,
    {
        assert(views(keys@)[i as int] == keys@[i as int]@);
        if !is_resource_key_format_valid(&keys[i]) {
            let message = crate::text::two_texts(
                "Configuration is invalid, resource key can only contain [a-zA-Z0-9]: ",
                keys[i].as_str(),
            );
            assert(first_ill_formed(all_keys(resources@), i as int));
            return Err(invalid_data(message));
        }
        i = i + 1;
    }
    Ok(())
}

/// Whether `key` stands at a second place of `keys` besides `at`.
fn occurs_elsewhere(keys: &Vec<String>, at: usize) -> (r: bool)
    requires
        at < keys.len(),
    ensures
        r == occurs_twice(views(keys@), keys@[at as int]@),
{
    let mut j: usize = 0;
    while j < keys.len()
        invariant
            j <= keys.len(),
            at < keys.len(),
            forall|k: int| 0 <= k < j && k != at ==> keys@[k]@ != keys@[at as int]@,
        decreases keys.len() - j,
    {
        if j != at && keys[j] == keys[at] {
            proof {
                let list = views(keys@);
                let lo = if j < at { j as int } else { at as int };
                let hi = if j < at { at as int } else { j as int };
                assert(list[lo] == keys@[at as int]@ && list[hi] == keys@[at as int]@);
            }
            return true;
        }
        j = j + 1;
    }
    proof {
        let list = views(keys@);
        let t = keys@[at as int]@;
        if occurs_twice(list, t) {
            let (a, b) = choose|a: int, b: int| 0 <= a < b < list.len() && list[a] == t
                && list[b] == t;
            if a != at {
                assert(keys@[a]@ != t);
            } else {
                assert(keys@[b]@ != t);
            }
        }
    }
    false
}

/// Checks that no key occurs twice anywhere in the tree, not even in unrelated groups.
/// It fails with the keys that do, each once, in sorted order.
pub fn check_duplicate_resource_keys(resources: &ResourceMap) -> (r: Result<(), Error>)
    ensures
        duplicate_keys_outcome(resources@, r),
{
    let keys = all_resource_keys(resources);
    let ghost list = views(keys@);
    let mut duplicates: Vec<String> = Vec::new();
    let mut i: usize = 0;
    proof {
        assert(views(duplicates@) =~= repeated_in(list.take(0), list));
    }
    while i < keys.len()
        invariant
            i <= keys.len(),
            list == views(keys@),
            views(duplicates@) == repeated_in(list.take(i as int), list),
        decreases keys.len() - i,
    {
        let ghost before = views(duplicates@);
        proof {
            assert(list.take(i + 1).drop_last() =~= list.take(i as int));
            assert(list.take(i + 1).last() == keys@[i as int]@);
        }
        if occurs_elsewhere(&keys, i) {
            duplicates.push(keys[i].clone());
            proof {
                assert(views(duplicates@) =~= before.push(list[i as int]));
            }
        }
        i = i + 1;
    }
    proof {
        assert(list.take(keys.len() as int) =~= list);
        lemma_repeated(list);
    }
    if duplicates.len() > 0 {
        let sorted = sorted_unique(&duplicates);
        let listing = join(&sorted, ", ");
        let message = crate::text::two_texts(
            "Configuration is invalid, duplicate resource keys: ",
            listing.as_str(),
        );
        Err(invalid_data(message))
    } else {
        Ok(())
    }
}

/// `repeated_in` holds the texts of `part` that stand at two places of `list`.
pub proof fn lemma_repeated_in(part: Seq<Seq<char>>, list: Seq<Seq<char>>, t: Seq<char>)
    ensures
        repeated_in(part, list).contains(t) <==> part.contains(t) && occurs_twice(list, t),
    decreases part.len(),
{
    if part.len() > 0 {
        let rest = part.drop_last();
        lemma_repeated_in(rest, list, t);
        {
            let r = repeated_in(part, list);
            if r.contains(t) {
                let k = choose|k: int| 0 <= k < r.len() && r[k] == t;
                if k < repeated_in(rest, list).len() {
                    assert(repeated_in(rest, list)[k] == t);
                    assert(repeated_in(rest, list).contains(t));
                    let m = choose|m: int| 0 <= m < rest.len() && rest[m] == t;
                    assert(part[m] == t);
                } else {
                    assert(part[part.len() - 1] == t);
                }
            }
            if part.contains(t) && occurs_twice(list, t) {
                let m = choose|m: int| 0 <= m < part.len() && part[m] == t;
                if m < rest.len() {
                    assert(rest[m] == t);
                    assert(rest.contains(t));
                    let k = choose|k: int|
                        0 <= k < repeated_in(rest, list).len() && repeated_in(rest, list)[k] == t;
                    assert(r[k] == t);
                } else {
                    assert(r[r.len() - 1] == t);
                }
            }
        }
    }
}

/// A list repeats a text at two places exactly when it has duplicates.
pub proof fn lemma_repeated(list: Seq<Seq<char>>)
    ensures
        repeated(list).len() == 0 <==> list.no_duplicates(),
{
    if !list.no_duplicates() {
        let (i, j) = choose|i: int, j: int|
            0 <= i < list.len() && 0 <= j < list.len() && i != j && list[i] == list[j];
        let lo = if i < j { i } else { j };
        let hi = if i < j { j } else { i };
        assert(list[lo] == list[i] && list[hi] == list[i]);
        assert(occurs_twice(list, list[i]));
        assert(list.contains(list[i]));
        lemma_repeated_in(list, list, list[i]);
        assert(repeated(list).contains(list[i]));
    }
    if repeated(list).len() != 0 {
        let t = repeated(list)[0];
        assert(repeated(list).contains(t));
        lemma_repeated_in(list, list, t);
        assert(occurs_twice(list, t));
    }
}

/// The dependencies named in a scope, at any depth, that are no key of the scope in
/// which they are named: those of this scope first, then those of its groups.
pub fn get_invalid_resource_keys_for_group(resources: &ResourceMap) -> (invalid: Vec<String>)
    ensures
        views(invalid@) == invalid_dependencies(resources@),
    decreases resources@,
{
    let n = resources.len();
    let mut invalid: Vec<String> = Vec::new();
    let mut i: usize = 0;
    proof {
        assert(views(invalid@) =~= missing_upto(resources@, 0));
    }
    while i < n
        invariant
            i <= n,
            n == resources@.len(),
            views(invalid@) == missing_upto(resources@, i as int),
        decreases n - i,
    {
        match resources.get_index(i) {
            Some((_, entry)) => {
                let ghost start = views(invalid@);
                match &entry.depends_on {
                    Some(list) => {
                        let ghost deps = views(list@);
                        let mut j: usize = 0;
                        proof {
                            assert(views(invalid@)
                                =~= start + missing_of(resources@, deps.take(0)));
                        }
                        while j < list.len()
                            invariant
                                j <= list.len(),
                                deps == views(list@),
                                views(invalid@)
                                    == start + missing_of(resources@, deps.take(j as int)),
                            decreases list.len() - j,
                        {
                            let ghost before = views(invalid@);
                            proof {
                                assert(deps.take(j + 1).drop_last() =~= deps.take(j as int));
                                assert(deps.take(j + 1).last() == list@[j as int]@);
                            }
                            if !resources.contains_key(&list[j]) {
                                invalid.push(list[j].clone());
                                proof {
                                    assert(views(invalid@) =~= before.push(list@[j as int]@));
                                    assert(views(invalid@) =~= start + missing_of(
                                        resources@,
                                        deps.take(j + 1),
                                    ));
                                }
                            }
                            j = j + 1;
                        }
                        proof {
                            assert(deps.take(list.len() as int) =~= deps);
                            assert(dependencies_of(resources@[i as int].1) == deps);
                        }
                    },
                    None => {
                        proof {
                            let none = Seq::<Seq<char>>::empty();
                            assert(dependencies_of(resources@[i as int].1) == none);
                            assert(views(invalid@) =~= start + missing_of(resources@, none));
                        }
                    },
                }
            },
            None => {},
        }
        i = i + 1;
    }
    let ghost own = views(invalid@);
    let mut i: usize = 0;
    proof {
        assert(views(invalid@) =~= own + nested_invalid_upto(resources@, 0));
    }
    while i < n
        invariant
            i <= n,
            n == resources@.len(),
            own == missing_upto(resources@, n as int),
            views(invalid@) == own + nested_invalid_upto(resources@, i as int),
        decreases n - i,
    {
        let ghost before = views(invalid@);
        match resources.get_index(i) {
            Some((_, entry)) => {
                match &entry.resource {
                    Resource::Group { group } => {
                        proof {
                            assert(resources@[i as int].1.resource == ResourceView::Group(group@));
                            lemma_group_is_smaller(resources@, i as int);
                        }
                        let mut inner = get_invalid_resource_keys_for_group(group);
                        let ghost inner_views = views(inner@);
                        invalid.append(&mut inner);
                        proof {
                            assert(views(invalid@) =~= before + inner_views);
                        }
                    },
                    _ => {
                        proof {
                            assert(views(invalid@) =~= before + Seq::<Seq<char>>::empty());
                        }
                    },
                }
            },
            None => {},
        }
        i = i + 1;
    }
    invalid
}

/// Checks that every dependency, at every depth, names a key of the scope in which it
/// is declared. It fails with the names that do not, each once, in sorted order.
pub fn check_invalid_resource_keys(resources: &ResourceMap) -> (r: Result<(), Error>)
    ensures
        invalid_dependencies_outcome(resources@, r),
{
    let depends_on_resource_keys_invalid = get_invalid_resource_keys_for_group(resources);
    if depends_on_resource_keys_invalid.len() > 0 {
        let sorted = sorted_unique(&depends_on_resource_keys_invalid);
        let listing = join(&sorted, ", ");
        let message = crate::text::two_texts(
            "Configuration is invalid, invalid dependencies: ",
            listing.as_str(),
        );
        return Err(invalid_data(message));
    }
    Ok(())
}

/// The failure for a file that does not exist.
pub fn create_file_not_exists_error(resource_key: &str, path: &str) -> (e: Error)
    ensures
        e.kind == ErrorKind::InvalidData,
        e.message@ == file_not_exists_message(resource_key@, path@),
{
    let mut message = String::from_str("Invalid resource ");
    message.append(resource_key);
    message.append(", references file that doesn't exist: ");
    message.append(path);
    invalid_data(message)
}

/// The failure for a directory that does not exist.
pub fn create_directory_not_exists_error(resource_key: &str, path: &str) -> (e: Error)
    ensures
        e.kind == ErrorKind::InvalidData,
        e.message@ == directory_not_exists_message(resource_key@, path@),
{
    let mut message = String::from_str("Invalid resource ");
    message.append(resource_key);
    message.append(", references directory that doesn't exist: ");
    message.append(path);
    invalid_data(message)
}

/// The failure for a chart name that does not start with a repository name.
pub fn create_invalid_helm_chart_name_error(
    resource_key: &String,
    chart_name: &String,
) -> (e: Error)
    ensures
        e.kind == ErrorKind::InvalidData,
        e.message@ == invalid_helm_chart_name_message(resource_key@, chart_name@),
{
    let mut message = String::from_str("Invalid resource ");
    message.append(resource_key.as_str());
    message.append(", chart name \"");
    message.append(chart_name.as_str());
    message.append("\" doesn't start with a repository name");
    invalid_data(message)
}

/// The failure for a chart of a repository where no repositories are configured.
pub fn create_helm_no_repositories_error(resource_key: &String, repository_name: &str) -> (e: Error)
    ensures
        e.kind == ErrorKind::InvalidData,
        e.message@ == helm_no_repositories_message(resource_key@, repository_name@),
{
    let mut message = String::from_str("Invalid resource ");
    message.append(resource_key.as_str());
    message.append(", repository with name \"");
    message.append(repository_name);
    message.append("\" doesn't exist, no repositories configured");
    invalid_data(message)
}

/// The names of the repositories, in order.
pub fn helm_repository_names(helm_repositories: &Vec<HelmRepository>) -> (names: Vec<String>)
    ensures
        views(names@) == repository_names(helm_repositories@),
{
    let mut names: Vec<String> = Vec::new();
    let mut i: usize = 0;
    while i < helm_repositories.len()
        invariant
            i <= helm_repositories.len(),
            names@.len() == i,
            forall|j: int| 0 <= j < i ==> names@[j]@ == helm_repositories@[j].name@,
        decreases helm_repositories.len() - i,
    {
        names.push(helm_repositories[i].name.clone());
        i = i + 1;
    }
    proof {
        assert(views(names@) =~= repository_names(helm_repositories@));
    }
    names
}

/// The failure for a chart of a repository that is not configured. It lists the names
/// of those that are.
pub fn create_helm_repository_not_exists_error(
    resource_key: &String,
    repository_name: &str,
    helm_repositories: &Vec<HelmRepository>,
) -> (e: Error)
    ensures
        e.kind == ErrorKind::InvalidData,
        e.message@ == helm_repository_not_exists_message(
            resource_key@,
            repository_name@,
            repository_names(helm_repositories@),
        ),
{
    let names = helm_repository_names(helm_repositories);
    let listing = join(&names, ", ");
    let mut message = String::from_str("Invalid resource ");
    message.append(resource_key.as_str());
    message.append(", repository with name \"");
    message.append(repository_name);
    message.append("\" doesn't exist, valid values are [");
    message.append(listing.as_str());
    message.append("]");
    invalid_data(message)
}

/// What is wrong with the chart of one resource, if anything.
fn check_chart(
    resource_key: &String,
    resource: &Resource,
    helm_repositories: &Option<Vec<HelmRepository>>,
) -> (r: Result<(), Error>)
    ensures
        match chart_fault(resource_key@, resource@, configured_names(*helm_repositories)) {
            Some(message) => fails_with(r, ErrorKind::InvalidData, message),
            None => r is Ok,
        },
{
    match resource {
        Resource::HelmRemote { helm_remote } => {
            let (repository_name, rest) = split_first(&helm_remote.chart_name, '/');
            match rest {
                None => Err(create_invalid_helm_chart_name_error(resource_key,
                    &helm_remote.chart_name)),
                Some(_) => match helm_repositories {
                    None => Err(
                        create_helm_no_repositories_error(resource_key, repository_name.as_str()),
                    ),
                    Some(list) => {
                        let names = helm_repository_names(list);
                        if contains_string(&names, &repository_name) {
                            Ok(())
                        } else {
                            Err(
                                create_helm_repository_not_exists_error(
                                    resource_key,
                                    repository_name.as_str(),
                                    list,
                                ),
                            )
                        }
                    },
                },
            }
        },
        _ => Ok(()),
    }
}

/// Checks the chart of every release of a chart from a repository, at every depth: its
/// name must start with the name of a configured repository and a slash. It fails on
/// the first release at fault, in the order in which the tree is walked, and says
/// whether the chart name has no slash, no repositories are configured, or the
/// repository is not among them.
pub fn check_helm_remote_repositories(
    resources: &ResourceMap,
    helm_repositories: &Option<Vec<HelmRepository>>,
) -> (r: Result<(), Error>)
    ensures
        charts_outcome(resources@, configured_names(*helm_repositories), r),
{
    let list = resource_leaves(resources);
    let ghost names = configured_names(*helm_repositories);
    let mut i: usize = 0;
    while i < list.len()
        invariant
            i <= list.len(),
            leaf_views(list@) == leaves(resources@),
            names == configured_names(*helm_repositories),
            forall|j: int| 0 <= j < i ==> chart_fault_at(leaves(resources@), j, names) is None,
        decreases list.len() - i,
    {
        assert(leaf_views(list@)[i as int] == (list@[i as int].0@, list@[i as int].1@));
        let checked = check_chart(&list[i].0, &list[i].1, helm_repositories);
        if checked.is_err() {
            assert(first_chart_fault(leaves(resources@), i as int, names));
            return checked;
        }
        i = i + 1;
    }
    Ok(())
}

/// The paths that one resource refers to.
fn push_references(references: &mut Vec<FileReference>, resource_key: &String, resource: &Resource)
    ensures
        reference_views(final(references)@) == reference_views(old(references)@) + references_of(
            resource_key@,
            resource@,
        ),
{
    let ghost start = reference_views(references@);
    match resource {
        Resource::Manifest { manifest } => {
            references.push(
                FileReference {
                    resource_key: resource_key.clone(),
                    path: manifest.path.clone(),
                    directory: false,
                },
            );
            proof {
                assert(reference_views(references@)
                    =~= start + references_of(resource_key@, resource@));
            }
        },
        Resource::HelmRemote { helm_remote } => {
            push_file_references(references, resource_key, &helm_remote.values);
        },
        Resource::HelmLocal { helm_local } => {
            push_file_references(references, resource_key, &helm_local.values);
            let ghost files = reference_views(references@);
            references.push(
                FileReference {
                    resource_key: resource_key.clone(),
                    path: helm_local.chart_path.clone(),
                    directory: true,
                },
            );
            proof {
                let last = FileReferenceView {
                    resource_key: resource_key@,
                    path: helm_local.chart_path@,
                    directory: true,
                };
                assert(reference_views(references@) =~= files.push(last));
                assert(resource@ == ResourceView::HelmLocal(helm_local@));
                assert(files.push(last) =~= start + references_of(resource_key@, resource@));
            }
        },
        _ => {
            proof {
                assert(reference_views(references@)
                    =~= start + references_of(resource_key@, resource@));
            }
        },
    }
}

/// One reference to a file for each of the paths.
fn push_file_references(
    references: &mut Vec<FileReference>,
    resource_key: &String,
    paths: &Option<Vec<String>>,
)
    ensures
        reference_views(final(references)@)
            == reference_views(old(references)@) + file_references_to(
            resource_key@,
            or_empty(option_views(*paths)),
        ),
{
    let ghost start = reference_views(references@);
    match paths {
        None => {
            proof {
                assert(reference_views(references@) =~= start + file_references_to(
                    resource_key@,
                    Seq::empty(),
                ));
            }
        },
        Some(list) => {
            let mut i: usize = 0;
            proof {
                assert(reference_views(references@) =~= start + file_references_to(
                    resource_key@,
                    views(list@).take(0),
                ));
            }
            while i < list.len()
                invariant
                    i <= list.len(),
                    reference_views(references@) == start + file_references_to(
                        resource_key@,
                        views(list@).take(i as int),
                    ),
                decreases list.len() - i,
            {
                let ghost before = reference_views(references@);
                references.push(
                    FileReference {
                        resource_key: resource_key.clone(),
                        path: list[i].clone(),
                        directory: false,
                    },
                );
                proof {
                    assert(reference_views(references@) =~= before.push(
                        FileReferenceView {
                            resource_key: resource_key@,
                            path: list@[i as int]@,
                            directory: false,
                        },
                    ));
                    assert(reference_views(references@) =~= start + file_references_to(
                        resource_key@,
                        views(list@).take(i + 1),
                    ));
                }
                i = i + 1;
            }
            proof {
                assert(views(list@).take(list.len() as int) =~= views(list@));
            }
        },
    }
}

/// Every path that the tree refers to and that must exist, in the order in which the
/// tree is walked: the file of each manifest, the values files of each release, and the
/// chart directory of each local release after its values files.
pub fn file_references(resources: &ResourceMap) -> (references: Vec<FileReference>)
    ensures
        reference_views(references@) == file_references_of(resources@),
{
    let list = resource_leaves(resources);
    let mut references: Vec<FileReference> = Vec::new();
    let mut i: usize = 0;
    proof {
        assert(reference_views(references@) =~= references_upto(leaf_views(list@), 0));
    }
    while i < list.len()
        invariant
            i <= list.len(),
            leaf_views(list@) == leaves(resources@),
            reference_views(references@) == references_upto(leaf_views(list@), i as int),
        decreases list.len() - i,
    {
        assert(leaf_views(list@)[i as int] == (list@[i as int].0@, list@[i as int].1@));
        push_references(&mut references, &list[i].0, &list[i].1);
        i = i + 1;
    }
    references
}

/// Checks that every path that the tree refers to is among the existing paths. It
/// fails on the first reference, in the order of `file_references`, whose path is not,
/// and says whether a file or a directory is missing.
pub fn check_files_exist(resources: &ResourceMap, existing: &Vec<String>) -> (r: Result<(), Error>)
    ensures
        files_outcome(resources@, views(existing@), r),
{
    let references = file_references(resources);
    let mut i: usize = 0;
    while i < references.len()
        invariant
            i <= references.len(),
            reference_views(references@) == file_references_of(resources@),
            forall|j: int|
                0 <= j < i ==> views(existing@).contains(
                    (#[trigger] file_references_of(resources@)[j]).path,
                ),
        decreases references.len() - i,
    {
        assert(reference_views(references@)[i as int] == references@[i as int]@);
        if !contains_string(existing, &references[i].path) {
            assert(first_missing(file_references_of(resources@), views(existing@), i as int));
            if references[i].directory {
                return Err(
                    create_directory_not_exists_error(
                        references[i].resource_key.as_str(),
                        references[i].path.as_str(),
                    ),
                );
            } else {
                return Err(
                    create_file_not_exists_error(
                        references[i].resource_key.as_str(),
                        references[i].path.as_str(),
                    ),
                );
            }
        }
        i = i + 1;
    }
    Ok(())
}

} // verus!
