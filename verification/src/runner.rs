//! The command line that each kind of unit runs, and the choice between installing and
//! upgrading a Helm release.

use crate::file_format::{
    HelmLocal, HelmLocalView, HelmRemote, HelmRemoteView, Manifest, Resource, Shell,
};
use crate::text::{or_empty, views};
use crate::utils::{option_view, run_command_with_piped_stdio, Command, CommandView};
use vstd::prelude::*;
use vstd::string::*;

verus! {

/// A Helm release as the cluster reports it.
#[derive(Debug, PartialEq)]
pub struct HelmRelease {
    pub name: String,
    pub namespace: String,
}

/// Whether the reported releases hold one of this name in this namespace.
pub open spec fn release_listed(
    releases: Seq<HelmRelease>,
    name: Seq<char>,
    namespace: Seq<char>,
) -> bool {
    exists|i: int|
        0 <= i < releases.len() && (#[trigger] releases[i]).name@ == name && releases[i].namespace@
            == namespace
}

/// A release counts as installed when this is no dry run and the cluster lists it.
pub open spec fn release_installed(
    releases: Seq<HelmRelease>,
    name: Seq<char>,
    namespace: Seq<char>,
    dry_run: bool,
) -> bool {
    !dry_run && release_listed(releases, name, namespace)
}

/// `upgrade` for a release that is installed, `install` for one that is not.
pub open spec fn helm_subcommand(installed: bool) -> Seq<char> {
    if installed {
        "upgrade"@
    } else {
        "install"@
    }
}

/// `-f` and the path, for each values file in turn.
pub open spec fn values_flags(values: Seq<Seq<char>>) -> Seq<Seq<char>>
    decreases values.len(),
{
    if values.len() == 0 {
        Seq::empty()
    } else {
        values_flags(values.drop_last()).push("-f"@).push(values.last())
    }
}

/// The arguments of `bash` for a shell unit.
pub open spec fn shell_args(input: Seq<char>) -> Seq<Seq<char>> {
    seq!["-c"@, input]
}

/// The arguments of `kubectl` for a manifest.
pub open spec fn manifest_args(path: Seq<char>) -> Seq<Seq<char>> {
    seq!["apply"@, "-f"@, path]
}

/// The arguments of `helm` that list the releases of a namespace.
pub open spec fn release_query_args(namespace: Seq<char>) -> Seq<Seq<char>> {
    seq!["list"@, "--namespace"@, namespace, "--output"@, "yaml"@]
}

/// The arguments of `helm` for a release of a chart from a repository.
pub open spec fn helm_remote_args(release: HelmRemoteView, installed: bool) -> Seq<Seq<char>> {
    seq![
        helm_subcommand(installed),
        release.name,
        release.chart_name,
        "--version"@,
        release.chart_version,
        "--namespace"@,
        release.namespace,
    ] + values_flags(or_empty(release.values))
}

/// The arguments of `helm` for a release of a chart in a local directory.
pub open spec fn helm_local_args(release: HelmLocalView, installed: bool) -> Seq<Seq<char>> {
    seq![
        helm_subcommand(installed),
        release.name,
        release.chart_path,
        "--namespace"@,
        release.namespace,
    ] + values_flags(or_empty(release.values))
}

/// A copy of optional credentials.
pub fn clone_kubeconfig(kubeconfig: &Option<String>) -> (r: Option<String>)
    ensures
        option_view(r) == option_view(*kubeconfig),
{
    match kubeconfig {
        Some(path) => Some(path.clone()),
        None => None,
    }
}

/// Appends `-f` and the path for each values file.
fn push_values_flags(args: &mut Vec<String>, values: &Option<Vec<String>>)
    ensures
        views(final(args)@)
            == views(old(args)@) + values_flags(or_empty(crate::text::option_views(*values))),
{
    let ghost start = views(args@);
    match values {
        None => {
            assert(views(args@) =~= start + values_flags(Seq::empty()));
        },
        Some(list) => {
            let mut i: usize = 0;
            proof {
                assert(views(args@) =~= start + values_flags(views(list@).take(0)));
            }
            while i < list.len()
                invariant
                    i <= list.len(),
                    views(args@) == start + values_flags(views(list@).take(i as int)),
                decreases list.len() - i,
            {
                let ghost before = views(args@);
                args.push(String::from_str("-f"));
                args.push(list[i].clone());
                proof {
                    let upto = views(list@).take(i + 1);
                    assert(upto.drop_last() =~= views(list@).take(i as int));
                    assert(upto.last() == list@[i as int]@);
                    assert(views(args@) =~= before.push("-f"@).push(list@[i as int]@));
                    assert(views(args@) =~= start + values_flags(upto));
                }
                i = i + 1;
            }
            proof {
                assert(views(list@).take(list.len() as int) =~= views(list@));
            }
        },
    }
}

/// Whether the release counts as installed: never in a dry run, else when the cluster
/// lists it under this name in this namespace.
pub fn helm_release_exists(
    name: &String,
    namespace: &String,
    releases: &Vec<HelmRelease>,
    dry_run: bool,
) -> (r: bool)
    ensures
        r == release_installed(releases@, name@, namespace@, dry_run),
        dry_run ==> !r,
{
    if dry_run {
        return false;
    }
    let mut i: usize = 0;
    while i < releases.len()
        invariant
            i <= releases.len(),
            !dry_run,
            forall|j: int|
                0 <= j < i ==> !((#[trigger] releases@[j]).name@ == name@ && releases@[j].namespace@
                    == namespace@),
        decreases releases.len() - i,
    {
        if releases[i].name == *name && releases[i].namespace == *namespace {
            assert(releases@[i as int].name@ == name@);
            return true;
        }
        i = i + 1;
    }
    false
}

/// The command that asks the cluster for the releases of a namespace. It is not started
/// in a dry run.
pub fn helm_release_query(
    namespace: &String,
    kubeconfig: Option<String>,
    dry_run: bool,
) -> (command: Command)
    ensures
        command@ == (CommandView {
            program: "helm"@,
            args: release_query_args(namespace@),
            kubeconfig: option_view(kubeconfig),
            spawn: !dry_run,
        }),
{
    let mut args: Vec<String> = Vec::new();
    args.push(String::from_str("list"));
    args.push(String::from_str("--namespace"));
    args.push(namespace.clone());
    args.push(String::from_str("--output"));
    args.push(String::from_str("yaml"));
    proof {
        assert(views(args@) =~= release_query_args(namespace@));
    }
    run_command_with_piped_stdio("helm", args, kubeconfig, dry_run)
}

/// The command of a shell unit: `bash -c` and the input. It is not started in a dry run.
pub fn run_unit_shell(
    dry_run: bool,
    shell: &Shell,
    kubeconfig: Option<String>,
) -> (command: Command)
    ensures
        command@ == (CommandView {
            program: "bash"@,
            args: shell_args(shell.input@),
            kubeconfig: option_view(kubeconfig),
            spawn: !dry_run,
        }),
{
    let mut args: Vec<String> = Vec::new();
    args.push(String::from_str("-c"));
    args.push(shell.input.clone());
    proof {
        assert(views(args@) =~= shell_args(shell.input@));
    }
    run_command_with_piped_stdio("bash", args, kubeconfig, dry_run)
}

/// The command of a manifest unit: `kubectl apply -f` and the path. It is not started in
/// a dry run.
pub fn run_unit_manifest(
    dry_run: bool,
    manifest: &Manifest,
    kubeconfig: Option<String>,
) -> (command: Command)
    ensures
        command@ == (CommandView {
            program: "kubectl"@,
            args: manifest_args(manifest.path@),
            kubeconfig: option_view(kubeconfig),
            spawn: !dry_run,
        }),
{
    let mut args: Vec<String> = Vec::new();
    args.push(String::from_str("apply"));
    args.push(String::from_str("-f"));
    args.push(manifest.path.clone());
    proof {
        assert(views(args@) =~= manifest_args(manifest.path@));
    }
    run_command_with_piped_stdio("kubectl", args, kubeconfig, dry_run)
}

/// The command of a release of a chart from a repository: `helm upgrade` when the
/// release counts as installed, `helm install` when it does not. In a dry run it is not
/// started, and it is always `helm install`.
pub fn run_unit_helm_remote(
    dry_run: bool,
    helm_remote: &HelmRemote,
    kubeconfig: Option<String>,
    releases: &Vec<HelmRelease>,
) -> (command: Command)
    ensures
        command@ == (CommandView {
            program: "helm"@,
            args: helm_remote_args(
                helm_remote@,
                release_installed(releases@, helm_remote.name@, helm_remote.namespace@, dry_run),
            ),
            kubeconfig: option_view(kubeconfig),
            spawn: !dry_run,
        }),
        dry_run ==> !command.spawn && command@.args[0] == "install"@,
{
    let already_installed = helm_release_exists(
        &helm_remote.name,
        &helm_remote.namespace,
        releases,
        dry_run,
    );
    let mut args: Vec<String> = Vec::new();
    args.push(
        if already_installed {
            String::from_str("upgrade")
        } else {
            String::from_str("install")
        },
    );
    args.push(helm_remote.name.clone());
    args.push(helm_remote.chart_name.clone());
    args.push(String::from_str("--version"));
    args.push(helm_remote.chart_version.clone());
    args.push(String::from_str("--namespace"));
    args.push(helm_remote.namespace.clone());
    let ghost fixed = views(args@);
    proof {
        assert(fixed =~= seq![
            helm_subcommand(already_installed),
            helm_remote.name@,
            helm_remote.chart_name@,
            "--version"@,
            helm_remote.chart_version@,
            "--namespace"@,
            helm_remote.namespace@,
        ]);
    }
    push_values_flags(&mut args, &helm_remote.values);
    run_command_with_piped_stdio("helm", args, kubeconfig, dry_run)
}

/// The command of a release of a chart in a local directory: `helm upgrade` when the
/// release counts as installed, `helm install` when it does not. In a dry run it is not
/// started, and it is always `helm install`.
pub fn run_unit_helm_local(
    dry_run: bool,
    helm_local: &HelmLocal,
    kubeconfig: Option<String>,
    releases: &Vec<HelmRelease>,
) -> (command: Command)
    ensures
        command@ == (CommandView {
            program: "helm"@,
            args: helm_local_args(
                helm_local@,
                release_installed(releases@, helm_local.name@, helm_local.namespace@, dry_run),
            ),
            kubeconfig: option_view(kubeconfig),
            spawn: !dry_run,
        }),
        dry_run ==> !command.spawn && command@.args[0] == "install"@,
{
    let already_installed = helm_release_exists(
        &helm_local.name,
        &helm_local.namespace,
        releases,
        dry_run,
    );
    let mut args: Vec<String> = Vec::new();
    args.push(
        if already_installed {
            String::from_str("upgrade")
        } else {
            String::from_str("install")
        },
    );
    args.push(helm_local.name.clone());
    args.push(helm_local.chart_path.clone());
    args.push(String::from_str("--namespace"));
    args.push(helm_local.namespace.clone());
    let ghost fixed = views(args@);
    proof {
        assert(fixed =~= seq![
            helm_subcommand(already_installed),
            helm_local.name@,
            helm_local.chart_path@,
            "--namespace"@,
            helm_local.namespace@,
        ]);
    }
    push_values_flags(&mut args, &helm_local.values);
    run_command_with_piped_stdio("helm", args, kubeconfig, dry_run)
}

/// The command that a unit runs, by its kind: none for a unit that does nothing and
/// none for a group, whose units run one by one.
pub open spec fn unit_command(
    resource: Resource,
    dry_run: bool,
    kubeconfig: Option<Seq<char>>,
    releases: Seq<HelmRelease>,
) -> Option<CommandView> {
    match resource {
        Resource::Noop { .. } => None,
        Resource::Group { .. } => None,
        Resource::Shell { shell } => Some(
            CommandView { program: "bash"@, args: shell_args(shell.input@), kubeconfig,
                spawn: !dry_run },
        ),
        Resource::Manifest { manifest } => Some(
            CommandView {
                program: "kubectl"@,
                args: manifest_args(manifest.path@),
                kubeconfig,
                spawn: !dry_run,
            },
        ),
        Resource::HelmRemote { helm_remote } => Some(
            CommandView {
                program: "helm"@,
                args: helm_remote_args(
                    helm_remote@,
                    release_installed(releases, helm_remote.name@, helm_remote.namespace@, dry_run),
                ),
                kubeconfig,
                spawn: !dry_run,
            },
        ),
        Resource::HelmLocal { helm_local } => Some(
            CommandView {
                program: "helm"@,
                args: helm_local_args(
                    helm_local@,
                    release_installed(releases, helm_local.name@, helm_local.namespace@, dry_run),
                ),
                kubeconfig,
                spawn: !dry_run,
            },
        ),
    }
}

/// The one place where a unit is told apart by its kind and given its command.
/// No command of a dry run is started.
pub fn run_unit(
    resource: &Resource,
    dry_run: bool,
    kubeconfig: Option<String>,
    releases: &Vec<HelmRelease>,
) -> (command: Option<Command>)
    ensures
        match command {
            Some(c) => Some(c@)
                == unit_command(*resource, dry_run, option_view(kubeconfig), releases@),
            None => unit_command(*resource, dry_run, option_view(kubeconfig), releases@) is None,
        },
        dry_run && command is Some ==> !command->0.spawn,
{
    match resource {
        Resource::Noop { .. } => None,
        Resource::Group { .. } => None,
        Resource::Shell { shell } => Some(run_unit_shell(dry_run, shell, kubeconfig)),
        Resource::Manifest { manifest } => Some(run_unit_manifest(dry_run, manifest, kubeconfig)),
        Resource::HelmRemote { helm_remote } => Some(
            run_unit_helm_remote(dry_run, helm_remote, kubeconfig, releases),
        ),
        Resource::HelmLocal { helm_local } => Some(
            run_unit_helm_local(dry_run, helm_local, kubeconfig, releases),
        ),
    }
}

/// The command that must run before a Helm unit to learn the releases of its
/// namespace; none for the other kinds. It is not started in a dry run.
pub fn release_query(
    resource: &Resource,
    kubeconfig: Option<String>,
    dry_run: bool,
) -> (command: Option<Command>)
    ensures
        match *resource {
            Resource::HelmRemote { helm_remote } => command is Some && command->0@ == (CommandView {
                program: "helm"@,
                args: release_query_args(helm_remote.namespace@),
                kubeconfig: option_view(kubeconfig),
                spawn: !dry_run,
            }),
            Resource::HelmLocal { helm_local } => command is Some && command->0@ == (CommandView {
                program: "helm"@,
                args: release_query_args(helm_local.namespace@),
                kubeconfig: option_view(kubeconfig),
                spawn: !dry_run,
            }),
            _ => command is None,
        },
{
    match resource {
        Resource::HelmRemote { helm_remote } => Some(
            helm_release_query(&helm_remote.namespace, kubeconfig, dry_run),
        ),
        Resource::HelmLocal { helm_local } => Some(
            helm_release_query(&helm_local.namespace, kubeconfig, dry_run),
        ),
        _ => None,
    }
}

} // verus!
