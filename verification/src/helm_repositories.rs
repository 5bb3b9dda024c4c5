//! Making the configured Helm repositories known to Helm.

use crate::file_format::HelmRepository;
use crate::text::views;
use crate::utils::{run_command_with_piped_stdio, Command, CommandView};
use vstd::prelude::*;
use vstd::string::*;

verus! {

/// The arguments of `helm` that add a repository.
pub open spec fn repository_add_args(name: Seq<char>, url: Seq<char>) -> Seq<Seq<char>> {
    seq!["repo"@, "add"@, name, url]
}

/// The arguments of `helm` that update a repository.
pub open spec fn repository_update_args(name: Seq<char>) -> Seq<Seq<char>> {
    seq!["repo"@, "update"@, name]
}

/// The commands for the first `upto` repositories: for each, in order, the one that
/// adds it and the one that updates it.
pub open spec fn repository_commands(
    repositories: Seq<HelmRepository>,
    upto: int,
    dry_run: bool,
) -> Seq<CommandView>
    decreases upto,
{
    if upto <= 0 || upto > repositories.len() {
        Seq::empty()
    } else {
        repository_commands(repositories, upto - 1, dry_run).push(
            CommandView {
                program: "helm"@,
                args: repository_add_args(repositories[upto - 1].name@,
                    repositories[upto - 1].url@),
                kubeconfig: None,
                spawn: !dry_run,
            },
        ).push(
            CommandView {
                program: "helm"@,
                args: repository_update_args(repositories[upto - 1].name@),
                kubeconfig: None,
                spawn: !dry_run,
            },
        )
    }
}

/// What a list of commands denotes.
pub open spec fn command_views(commands: Seq<Command>) -> Seq<CommandView> {
    Seq::new(commands.len(), |i: int| commands[i]@)
}

/// The commands that add and update each repository, in order: `helm repo add` with its
/// name and address, then `helm repo update` with its name. None is started in a dry
/// run.
pub fn handle_helm_repositories(
    helm_repositories: &Vec<HelmRepository>,
    dry_run: bool,
) -> (commands: Vec<Command>)
    ensures
        command_views(commands@) == repository_commands(
            helm_repositories@,
            helm_repositories@.len() as int,
            dry_run,
        ),
        commands@.len() == 2 * helm_repositories@.len(),
        dry_run ==> forall|i: int| 0 <= i < commands@.len() ==> !(#[trigger] commands@[i]).spawn,
{
    let mut commands: Vec<Command> = Vec::new();
    let mut i: usize = 0;
    proof {
        assert(command_views(commands@) =~= repository_commands(helm_repositories@, 0, dry_run));
    }
    while i < helm_repositories.len()
        invariant
            i <= helm_repositories.len(),
            commands@.len() == 2 * i,
            command_views(commands@) == repository_commands(helm_repositories@, i as int, dry_run),
            dry_run ==> forall|j: int| 0 <= j < commands@.len() ==>
                !(#[trigger] commands@[j]).spawn,
        decreases helm_repositories.len() - i,
    {
        let ghost before = command_views(commands@);
        let repository = &helm_repositories[i];
        let mut add: Vec<String> = Vec::new();
        add.push(String::from_str("repo"));
        add.push(String::from_str("add"));
        add.push(repository.name.clone());
        add.push(repository.url.clone());
        let mut update: Vec<String> = Vec::new();
        update.push(String::from_str("repo"));
        update.push(String::from_str("update"));
        update.push(repository.name.clone());
        proof {
            assert(views(add@) =~= repository_add_args(repository.name@, repository.url@));
            assert(views(update@) =~= repository_update_args(repository.name@));
        }
        let first = run_command_with_piped_stdio("helm", add, None, dry_run);
        let second = run_command_with_piped_stdio("helm", update, None, dry_run);
        let ghost first_view = first@;
        let ghost second_view = second@;
        commands.push(first);
        commands.push(second);
        proof {
            assert(command_views(commands@) =~= before.push(first_view).push(second_view));
        }
        i = i + 1;
    }
    commands
}

} // verus!
