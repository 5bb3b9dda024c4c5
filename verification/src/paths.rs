//! Making the paths of a configuration relative to the directory of its file.

use crate::file_format::{
    distinct_keys, has_key, lemma_group_is_smaller, scope_keys, EntryView, HelmLocal, HelmLocalView,
    HelmRemote, HelmRemoteView, Manifest, Resource, ResourceMap, ResourceView,
    ResourceWithDepdencies, Scope,
};
use crate::text::{clone_option_strings, option_views, views};
use vstd::prelude::*;

verus! {

/// The text of the path that `std::path::PathBuf::push` makes of the directory `dir`
/// and the path `path`, on the platform that the library is built for.
pub uninterp spec fn path_joined(dir: Seq<char>, path: Seq<char>) -> Seq<char>;

/// `std::path::PathBuf::push`: the path `path` under the directory `dir`, or `path`
/// itself where it is absolute. Both are given and returned as text; text of strings
/// is valid Unicode, so no character is lost on the way back.
#[verifier::external_body]
fn join_path(dir: &String, path: &String) -> (joined: String)
    ensures
        joined@ == path_joined(dir@, path@),
{
    let mut joined = std::path::PathBuf::from(dir);
    joined.push(path);
    joined.to_string_lossy().to_string()
}

/// Each of the paths, put under the directory.
pub open spec fn rewritten_paths(dir: Seq<char>, paths: Seq<Seq<char>>) -> Seq<Seq<char>> {
    Seq::new(paths.len(), |i: int| path_joined(dir, paths[i]))
}

/// The values files of a release, each put under the directory.
pub open spec fn rewritten_values(
    dir: Seq<char>,
    values: Option<Seq<Seq<char>>>,
) -> Option<Seq<Seq<char>>> {
    match values {
        Some(paths) => Some(rewritten_paths(dir, paths)),
        None => None,
    }
}

/// The first `upto` entries of a scope with every path put under the directory: the
/// path of a manifest, the values files of a release, the chart directory of a local
/// release, and the same inside every group. Keys, dependencies and all else stay.
pub open spec fn rewritten_upto(dir: Seq<char>, scope: Scope, upto: int) -> Scope
    decreases scope, upto,
{
    if upto <= 0 || upto > scope.len() {
        Seq::empty()
    } else {
        rewritten_upto(dir, scope, upto - 1).push(
            (
                scope[upto - 1].0,
                EntryView {
                    resource: match scope[upto - 1].1.resource {
                        ResourceView::Manifest(path) => ResourceView::Manifest(
                            path_joined(dir, path),
                        ),
                        ResourceView::HelmRemote(release) => ResourceView::HelmRemote(
                            HelmRemoteView {
                                name: release.name,
                                namespace: release.namespace,
                                chart_name: release.chart_name,
                                chart_version: release.chart_version,
                                values: rewritten_values(dir, release.values),
                            },
                        ),
                        ResourceView::HelmLocal(release) => ResourceView::HelmLocal(
                            HelmLocalView {
                                name: release.name,
                                namespace: release.namespace,
                                chart_path: path_joined(dir, release.chart_path),
                                values: rewritten_values(dir, release.values),
                            },
                        ),
                        ResourceView::Group(children) => ResourceView::Group(
                            rewritten_upto(dir, children, children.len() as int),
                        ),
                        other => other,
                    },
                    depends_on: scope[upto - 1].1.depends_on,
                },
            ),
        )
    }
}

/// A scope with every path, at every depth, put under the directory.
pub open spec fn rewritten(dir: Seq<char>, scope: Scope) -> Scope {
    rewritten_upto(dir, scope, scope.len() as int)
}

/// Rewriting keeps the keys in their places.
pub proof fn lemma_rewritten_keys(dir: Seq<char>, scope: Scope, upto: int)
    requires
        0 <= upto <= scope.len(),
    ensures
        scope_keys(rewritten_upto(dir, scope, upto)) == scope_keys(scope).take(upto),
    decreases upto,
{
    if upto > 0 {
        lemma_rewritten_keys(dir, scope, upto - 1);
        assert(scope_keys(rewritten_upto(dir, scope, upto)) =~= scope_keys(
            rewritten_upto(dir, scope, upto - 1),
        ).push(scope[upto - 1].0));
        assert(scope_keys(scope).take(upto)
            =~= scope_keys(scope).take(upto - 1).push(scope[upto - 1].0));
    } else {
        assert(scope_keys(rewritten_upto(dir, scope, upto)) =~= scope_keys(scope).take(upto));
    }
}

/// Each of the optional paths, put under the directory.
fn integrate_values(
    deployment_file_dir: &String,
    values: &Option<Vec<String>>,
) -> (r: Option<Vec<String>>)
    ensures
        option_views(r) == rewritten_values(deployment_file_dir@, option_views(*values)),
{
    match values {
        None => None,
        Some(list) => {
            let mut out: Vec<String> = Vec::new();
            let mut i: usize = 0;
            while i < list.len()
                invariant
                    i <= list.len(),
                    out@.len() == i,
                    forall|j: int|
                        0 <= j < i ==> out@[j]@ == path_joined(deployment_file_dir@, list@[j]@),
                decreases list.len() - i,
            {
                out.push(join_path(deployment_file_dir, &list[i]));
                i = i + 1;
            }
            proof {
                assert(views(out@) =~= rewritten_paths(deployment_file_dir@, views(list@)));
            }
            Some(out)
        },
    }
}

/// Puts every path of the tree under the directory of the configuration file: the path
/// of each manifest, the values files of each release and the chart directory of each
/// local release, in every group. Keys, dependencies and all else stay as they are.
pub fn integrate_deployment_file_dir_into_paths(
    resources: &ResourceMap,
    deployment_file_dir: &String,
) -> (r: ResourceMap)
    ensures
        r@ == rewritten(deployment_file_dir@, resources@),
    decreases resources@,
{
    let n = resources.len();
    let mut r = ResourceMap::new();
    let mut i: usize = 0;
    let ghost dir = deployment_file_dir@;
    proof {
        assert(r@ =~= rewritten_upto(dir, resources@, 0));
    }
    while i < n
        invariant
            i <= n,
            n == resources@.len(),
            dir == deployment_file_dir@,
            distinct_keys(resources@),
            r@ == rewritten_upto(dir, resources@, i as int),
        decreases n - i,
    {
        match resources.get_index(i) {
            Some((key, entry)) => {
                let resource = match &entry.resource {
                    Resource::Manifest { manifest } => Resource::Manifest {
                        manifest: Manifest { path: join_path(deployment_file_dir, &manifest.path) },
                    },
                    Resource::HelmRemote { helm_remote } => Resource::HelmRemote {
                        helm_remote: HelmRemote {
                            name: helm_remote.name.clone(),
                            namespace: helm_remote.namespace.clone(),
                            chart_name: helm_remote.chart_name.clone(),
                            chart_version: helm_remote.chart_version.clone(),
                            values: integrate_values(deployment_file_dir, &helm_remote.values),
                        },
                    },
                    Resource::HelmLocal { helm_local } => Resource::HelmLocal {
                        helm_local: HelmLocal {
                            name: helm_local.name.clone(),
                            namespace: helm_local.namespace.clone(),
                            chart_path: join_path(deployment_file_dir, &helm_local.chart_path),
                            values: integrate_values(deployment_file_dir, &helm_local.values),
                        },
                    },
                    Resource::Group { group } => {
                        proof {
                            assert(resources@[i as int].1.resource == ResourceView::Group(group@));
                            lemma_group_is_smaller(resources@, i as int);
                        }
                        Resource::Group {
                            group: integrate_deployment_file_dir_into_paths(group,
                                deployment_file_dir),
                        }
                    },
                    other => other.clone(),
                };
                let rewritten_entry = ResourceWithDepdencies {
                    resource,
                    depends_on: clone_option_strings(&entry.depends_on),
                };
                proof {
                    lemma_rewritten_keys(dir, resources@, i as int);
                    let keys = scope_keys(resources@);
                    if has_key(r@, key@) {
                        let j = choose|j: int| 0 <= j < keys.take(i as int).len()
                            && keys.take(i as int)[j] == key@;
                        assert(keys[j] == keys[i as int]);
                    }
                }
                r.insert(key.clone(), rewritten_entry);
                proof {
                    assert(r@ =~= rewritten_upto(dir, resources@, i + 1));
                }
            },
            None => {},
        }
        i = i + 1;
    }
    r
}

} // verus!
