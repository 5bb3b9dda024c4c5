//! Walking the tree: which resources run for a selection, in which order, with groups
//! entered in place.

use crate::file_format::{
    distinct_keys, has_key, key_index, lemma_key_index, scope_keys, HelmLocal, HelmRemote, Manifest,
    Resource, ResourceMap, ResourceView, Scope, Shell,
};
use crate::graph::{
    acyclic, closed, dependencies_first, depends_on, drawn_from, holds_named, lemma_entry_at,
};
use crate::runner::{
    clone_kubeconfig, helm_local_args, helm_remote_args, manifest_args, release_installed,
    run_unit_helm_local, run_unit_helm_remote, run_unit_manifest, run_unit_shell, shell_args,
    HelmRelease,
};
use crate::schedule::{filtered, ordering, selection};
use crate::text::views;
use crate::units::{
    get_filtered_units, get_units_args_part_0, get_units_args_part_1, group_tokens,
    has_pending_units, heads, reorder_units_from_dependencies, tails_for, token_heads,
};
use crate::utils::{option_view, Command, CommandView};
use vstd::prelude::*;
use vstd::string::*;

verus! {

/// A resource that is due to run, with the key it stands under and the path of the
/// groups around it.
#[derive(Debug, PartialEq)]
pub struct PlannedResource {
    /// The keys of the enclosing groups, joined by colons; `None` at the root.
    pub namespace: Option<String>,
    pub key: String,
    /// The resource itself; never a group.
    pub resource: Resource,
}

/// What a planned resource denotes.
pub struct PlannedView {
    pub namespace: Option<Seq<char>>,
    pub key: Seq<char>,
    pub resource: ResourceView,
}

impl View for PlannedResource {
    type V = PlannedView;

    open spec fn view(&self) -> PlannedView {
        PlannedView {
            namespace: option_view(self.namespace),
            key: self.key@,
            resource: self.resource@,
        }
    }
}

/// What a list of planned resources denotes.
pub open spec fn planned_views(plan: Seq<PlannedResource>) -> Seq<PlannedView> {
    Seq::new(plan.len(), |i: int| plan[i]@)
}

/// The path of a group: its key, after the path of its parent and a colon where it has
/// a parent.
pub open spec fn group_namespace(parent: Option<Seq<char>>, key: Seq<char>) -> Seq<char> {
    match parent {
        Some(path) => path + ":"@ + key,
        None => key,
    }
}

/// What runs for a selection in one scope, in order. The tokens select by their heads;
/// the selected units come in the order of `filtered`. A unit that is no group runs
/// itself. A group is entered in place: with the tails for its key as tokens, or, where
/// there are none, with all of its keys as tokens and dependencies included whatever
/// the caller asked for.
pub open spec fn plan(
    scope: Scope,
    namespace: Option<Seq<char>>,
    tokens: Seq<Seq<char>>,
    dependencies: bool,
) -> Seq<PlannedView>
    decreases scope, 1nat, 0nat,
{
    plan_keys(
        scope,
        scope_keys(filtered(scope, heads(tokens), dependencies)),
        namespace,
        tokens,
        dependencies,
    )
}

/// What runs for the keys `keys` of the scope, one after another.
pub open spec fn plan_keys(
    scope: Scope,
    keys: Seq<Seq<char>>,
    namespace: Option<Seq<char>>,
    tokens: Seq<Seq<char>>,
    dependencies: bool,
) -> Seq<PlannedView>
    decreases scope, 0nat, keys.len(),
{
    if keys.len() == 0 {
        Seq::empty()
    } else {
        let key = keys.last();
        let i = key_index(scope, key);
        let before = plan_keys(scope, keys.drop_last(), namespace, tokens, dependencies);
        if 0 <= i < scope.len() {
            match scope[i].1.resource {
                ResourceView::Group(children) => before + plan(
                    children,
                    Some(group_namespace(namespace, key)),
                    group_tokens(tokens, key, children),
                    dependencies || tails_for(tokens, key).len() == 0,
                ),
                resource => before.push(PlannedView { namespace, key, resource }),
            }
        } else {
            before
        }
    }
}

/// The path of the group `resource_key` under the path of its parent.
pub fn get_group_namespace(
    parent_namespace: Option<String>,
    resource_key: &str,
) -> (r: Option<String>)
    ensures
        r is Some,
        r->0@ == group_namespace(option_view(parent_namespace), resource_key@),
{
    match parent_namespace {
        Some(ns) => {
            let mut path = ns;
            path.append(":");
            path.append(resource_key);
            Some(path)
        },
        None => Some(String::from_str(resource_key)),
    }
}

/// The keys that the tokens name in the current scope: the part of each token before
/// its first colon, each key once, where the last token that names it has it.
pub fn get_resources_args_part_0(resources_args: &Vec<String>) -> (r: Vec<String>)
    ensures
        views(r@) == heads(views(resources_args@)),
        views(r@).no_duplicates(),
        forall|key: Seq<char>|
            views(r@).contains(key) <==> token_heads(views(resources_args@)).contains(key),
{
    get_units_args_part_0(resources_args)
}

/// The tokens for the scope of the group `resource_key`.
pub fn get_resources_args_part_1(
    resources_args: &Vec<String>,
    resource_key: String,
) -> (r: Vec<String>)
    ensures
        views(r@) == tails_for(views(resources_args@), resource_key@),
{
    get_units_args_part_1(resources_args, resource_key)
}

/// Whether some resource of `resources` is not in `done` yet.
pub fn has_pending_resources(resources: &ResourceMap, done: &ResourceMap) -> (r: bool)
    ensures
        r == crate::graph::pending(resources@, scope_keys(done@)),
{
    has_pending_units(resources, done)
}

/// Puts the resources of a scope in running order, each after all that it depends on.
pub fn reorder_resources_from_dependencies(resources: &ResourceMap) -> (output: ResourceMap)
    ensures
        output@ == ordering(resources@, true),
        distinct_keys(output@),
        drawn_from(output@, resources@),
        closed(resources@) && acyclic(resources@) ==> {
            &&& output@.len() == resources@.len()
            &&& forall|k: Seq<char>| has_key(resources@, k) ==> has_key(output@, k)
            &&& dependencies_first(output@, resources@)
        },
{
    reorder_units_from_dependencies(resources, true)
}

/// The resources to run for a selection, in running order: those that the tokens name
/// and, where dependencies are included, all that they depend on, each after its
/// dependencies.
pub fn get_filtered_resources(
    resources: &ResourceMap,
    resources_args: Vec<String>,
    dependencies: bool,
) -> (r: ResourceMap)
    ensures
        r@ == filtered(resources@, views(resources_args@), dependencies),
        distinct_keys(r@),
        drawn_from(r@, resources@),
        !dependencies || (closed(resources@) && acyclic(resources@)) ==> holds_named(
            r@,
            resources@,
            views(resources_args@),
        ),
        dependencies && closed(resources@) && acyclic(resources@) ==> dependencies_first(
            r@,
            resources@,
        ),
{
    let selected = get_filtered_units(resources, resources_args, dependencies);
    if dependencies {
        let ordered = reorder_resources_from_dependencies(&selected);
        proof {
            if closed(resources@) && acyclic(resources@) {
                let keys = crate::schedule::closure(
                    resources@,
                    views(resources_args@),
                    Seq::empty(),
                    true,
                );
                crate::schedule::lemma_closure(
                    resources@,
                    views(resources_args@),
                    Seq::empty(),
                    true,
                );
                crate::graph::lemma_select_depends(resources@, keys);
                crate::graph::lemma_select(resources@, keys);
                assert forall|a: Seq<char>, b: Seq<char>|
                    has_key(ordered@, a) && #[trigger] depends_on(resources@, a, b) implies has_key(
                    ordered@,
                    b,
                ) && key_index(ordered@, b) < key_index(ordered@, a) by {
                    assert(has_key(selected@, a));
                    assert(depends_on(selected@, a, b));
                    assert(has_key(selected@, b));
                }
            }
        }
        ordered
    } else {
        selected
    }
}

/// A copy of the path of a group.
fn clone_namespace(namespace: &Option<String>) -> (r: Option<String>)
    ensures
        option_view(r) == option_view(*namespace),
{
    clone_kubeconfig(namespace)
}

/// The resources that run for a selection, in the order in which they run. The tokens
/// name resources of this scope, or, after a colon, resources inside a group, to any
/// depth. A group named without a qualifier runs whole, with dependencies included.
pub fn run_resources(
    resources: &ResourceMap,
    resources_args_namespace: Option<String>,
    resources_args: Vec<String>,
    dependencies: bool,
) -> (planned: Vec<PlannedResource>)
    ensures
        planned_views(planned@) == plan(
            resources@,
            option_view(resources_args_namespace),
            views(resources_args@),
            dependencies,
        ),
    decreases resources@,
{
    let resources_args_part_0 = get_resources_args_part_0(&resources_args);
    let filtered_resources = get_filtered_resources(resources, resources_args_part_0, dependencies);
    let n = filtered_resources.len();
    let ghost keys = scope_keys(filtered_resources@);
    let ghost namespace = option_view(resources_args_namespace);
    let ghost tokens = views(resources_args@);
    let mut planned: Vec<PlannedResource> = Vec::new();
    let mut i: usize = 0;
    proof {
        assert(planned_views(planned@) =~= plan_keys(
            resources@,
            keys.take(0),
            namespace,
            tokens,
            dependencies,
        ));
    }
    while i < n
        invariant
            i <= n,
            n == filtered_resources@.len(),
            keys == scope_keys(filtered_resources@),
            namespace == option_view(resources_args_namespace),
            tokens == views(resources_args@),
            distinct_keys(filtered_resources@),
            drawn_from(filtered_resources@, resources@),
            planned_views(planned@) == plan_keys(
                resources@,
                keys.take(i as int),
                namespace,
                tokens,
                dependencies,
            ),
        decreases n - i,
    {
        let ghost before = planned_views(planned@);
        match filtered_resources.get_index(i) {
            Some((key, entry)) => {
                proof {
                    lemma_entry_at(filtered_resources@, i as int);
                    lemma_key_index(resources@, key@);
                    assert(keys.take(i + 1).drop_last() =~= keys.take(i as int));
                    assert(keys.take(i + 1).last() == key@);
                    assert(entry@ == resources@[key_index(resources@, key@)].1);
                }
                match &entry.resource {
                    Resource::Group { group } => {
                        let group_namespace = get_group_namespace(
                            clone_namespace(&resources_args_namespace),
                            key.as_str(),
                        );
                        let resource_args_for_group = get_resources_args_part_1(
                            &resources_args,
                            key.clone(),
                        );
                        let dependencies_in_group = dependencies || resource_args_for_group.len()
                            == 0;
                        let actual_resource_args_for_group = if resource_args_for_group.len() > 0 {
                            resource_args_for_group
                        } else {
                            group.keys()
                        };
                        proof {
                            let at = resources@[key_index(resources@, key@)];
                            assert(at.1.resource == ResourceView::Group(group@));
                            crate::file_format::lemma_group_is_smaller(
                                resources@,
                                key_index(resources@, key@),
                            );
                        }
                        let mut inner = run_resources(
                            group,
                            group_namespace,
                            actual_resource_args_for_group,
                            dependencies_in_group,
                        );
                        let ghost inner_views = planned_views(inner@);
                        planned.append(&mut inner);
                        proof {
                            assert(planned_views(planned@) =~= before + inner_views);
                        }
                    },
                    resource => {
                        planned.push(
                            PlannedResource {
                                namespace: clone_namespace(&resources_args_namespace),
                                key: key.clone(),
                                resource: resource.clone(),
                            },
                        );
                        proof {
                            assert(planned_views(planned@) =~= before.push(
                                PlannedView { namespace, key: key@, resource: resource@ },
                            ));
                        }
                    },
                }
            },
            None => {},
        }
        i = i + 1;
    }
    proof {
        assert(keys.take(n as int) =~= keys);
    }
    planned
}

/// The command of a shell resource. It is not started in a dry run.
pub fn run_resource_shell(
    dry_run: bool,
    shell: &Shell,
    kubeconfig: Option<String>,
) -> (command: Command)
    ensures
        command@ == (CommandView {
            program: "bash"@,
            args: shell_args(shell.input@),
            kubeconfig: option_view(kubeconfig),
            spawn: !dry_run,
        }),
{
    run_unit_shell(dry_run, shell, kubeconfig)
}

/// The command of a manifest resource. It is not started in a dry run.
pub fn run_resource_manifest(
    dry_run: bool,
    manifest: &Manifest,
    kubeconfig: Option<String>,
) -> (command: Command)
    ensures
        command@ == (CommandView {
            program: "kubectl"@,
            args: manifest_args(manifest.path@),
            kubeconfig: option_view(kubeconfig),
            spawn: !dry_run,
        }),
{
    run_unit_manifest(dry_run, manifest, kubeconfig)
}

/// The command of a release of a chart from a repository. In a dry run it is not
/// started, and it is always `helm install`.
pub fn run_resource_helm_remote(
    dry_run: bool,
    helm_remote: &HelmRemote,
    kubeconfig: Option<String>,
    releases: &Vec<HelmRelease>,
) -> (command: Command)
    ensures
        command@ == (CommandView {
            program: "helm"@,
            args: helm_remote_args(
                helm_remote@,
                release_installed(releases@, helm_remote.name@, helm_remote.namespace@, dry_run),
            ),
            kubeconfig: option_view(kubeconfig),
            spawn: !dry_run,
        }),
        dry_run ==> !command.spawn && command@.args[0] == "install"@,
{
    run_unit_helm_remote(dry_run, helm_remote, kubeconfig, releases)
}

/// The command of a release of a chart in a local directory. In a dry run it is not
/// started, and it is always `helm install`.
pub fn run_resource_helm_local(
    dry_run: bool,
    helm_local: &HelmLocal,
    kubeconfig: Option<String>,
    releases: &Vec<HelmRelease>,
) -> (command: Command)
    ensures
        command@ == (CommandView {
            program: "helm"@,
            args: helm_local_args(
                helm_local@,
                release_installed(releases@, helm_local.name@, helm_local.namespace@, dry_run),
            ),
            kubeconfig: option_view(kubeconfig),
            spawn: !dry_run,
        }),
        dry_run ==> !command.spawn && command@.args[0] == "install"@,
{
    run_unit_helm_local(dry_run, helm_local, kubeconfig, releases)
}

} // verus!
