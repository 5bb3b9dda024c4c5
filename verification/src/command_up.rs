//! The `up` command: which of its options fit together, the checks of a configuration
//! in their fixed order, and what there is to run.

use crate::checks::{
    charts_outcome, charts_resolve, check_duplicate_resource_keys, check_files_exist,
    check_helm_remote_repositories, check_invalid_resource_keys, check_resource_keys_format,
    configured_names, dependencies_resolve, duplicate_keys_outcome, files_outcome, files_present,
    invalid_dependencies_outcome, key_format_outcome, keys_unique, keys_well_formed,
};
use crate::cycles::{check_dependency_cycles, cycles_outcome, tree_acyclic};
use crate::error::{fails_with, Error, ErrorKind};
use crate::file_format::{scope_keys, Config, HelmRepository};
use crate::helm_repositories::{command_views, handle_helm_repositories, repository_commands};
use crate::resources::{plan, planned_views, run_resources, PlannedResource};
use crate::text::{join, joined, views};
use crate::utils::Command;
use vstd::prelude::*;
use vstd::string::*;

verus! {

/// The pair of switches that turns the handling of Helm repositories on or off.
#[derive(Debug, Clone, Copy, PartialEq, Eq)]
pub struct OptionHelmRepositories {
    pub helm_repositories: bool,
    pub no_helm_repositories: bool,
}

impl OptionHelmRepositories {
    /// Whether repositories are handled: yes, unless only the switch against it is set.
    pub fn get_value(&self) -> (value: bool)
        ensures
            value == (self.helm_repositories || !self.no_helm_repositories),
    {
        if self.helm_repositories {
            return true;
        }
        if self.no_helm_repositories {
            return false;
        }
        true
    }
}

/// The pair of switches that turns the running of resources on or off.
#[derive(Debug, Clone, Copy, PartialEq, Eq)]
pub struct OptionResources {
    pub resources: bool,
    pub no_resources: bool,
}

impl OptionResources {
    /// Whether resources run: yes, unless only the switch against it is set.
    pub fn get_value(&self) -> (value: bool)
        ensures
            value == (self.resources || !self.no_resources),
    {
        if self.resources {
            return true;
        }
        if self.no_resources {
            return false;
        }
        true
    }
}

/// The pair of switches that includes or leaves out the dependencies of what is named.
#[derive(Debug, Clone, Copy, PartialEq, Eq)]
pub struct OptionDependencies {
    pub dependencies: bool,
    pub no_dependencies: bool,
}

impl OptionDependencies {
    /// Whether dependencies are included: yes, unless only the switch against it is set.
    pub fn get_value(&self) -> (value: bool)
        ensures
            value == (self.dependencies || !self.no_dependencies),
    {
        if self.dependencies {
            return true;
        }
        if self.no_dependencies {
            return false;
        }
        true
    }
}

/// The `up` command with its arguments.
#[derive(Debug, PartialEq)]
pub struct CommandUp {
    /// The selector tokens: keys, or paths of keys joined by colons.
    pub resources_args: Vec<String>,
    /// The configuration file, where another than the default is wanted.
    pub file: Option<String>,
    /// The cluster credentials to hand on to every command.
    pub kubeconfig: Option<String>,
    pub helm_repositories: OptionHelmRepositories,
    pub resources: OptionResources,
    pub dependencies: OptionDependencies,
    /// Whether to go through the motions without starting any process.
    pub dry_run: bool,
}

/// The message for a switch about dependencies without any resource named.
pub open spec fn dependencies_without_resources_message() -> Seq<char> {
    "option --dependencies/--no-dependencies only works when you pass argument RESOURCES too"@
}

/// The message for resources named while running resources is switched off.
pub open spec fn resources_switched_off_message(tokens: Seq<Seq<char>>) -> Seq<char> {
    "option --no-resources only works when you don't pass argument RESOURCES, you passed ["@
        + joined(tokens, ", "@) + "]"@
}

/// What is wrong with the options, if anything: a switch about dependencies where
/// resources run but none is named, or else resources named where running them is
/// switched off.
pub open spec fn options_fault(command: CommandUp) -> Option<Seq<char>> {
    if (command.dependencies.dependencies || command.dependencies.no_dependencies) && (
    command.resources.resources || !command.resources.no_resources) && command.resources_args@.len()
        == 0 {
        Some(dependencies_without_resources_message())
    } else if command.resources.no_resources && command.resources_args@.len() > 0 {
        Some(resources_switched_off_message(views(command.resources_args@)))
    } else {
        None
    }
}

/// The repositories that a configuration declares, if it declares any.
pub open spec fn config_repositories(config: Config) -> Option<Vec<HelmRepository>> {
    match config.helm {
        Some(helm) => helm.repositories,
        None => None,
    }
}

/// What the checks of the structure return: the outcome of the first check that the
/// tree does not pass, in the order key forms, duplicate keys, dependencies, cycles.
pub open spec fn structure_outcome(config: Config, r: Result<(), Error>) -> bool {
    let scope = config.resources@;
    if !keys_well_formed(scope) {
        key_format_outcome(scope, r)
    } else if !keys_unique(scope) {
        duplicate_keys_outcome(scope, r)
    } else if !dependencies_resolve(scope) {
        invalid_dependencies_outcome(scope, r)
    } else if !tree_acyclic(scope) {
        cycles_outcome(scope, r)
    } else {
        r is Ok
    }
}

/// The tree passes the checks of its structure.
pub open spec fn structure_valid(config: Config) -> bool {
    let scope = config.resources@;
    keys_well_formed(scope) && keys_unique(scope) && dependencies_resolve(scope)
        && tree_acyclic(scope)
}

/// What the validation returns: the outcome of the first check that the configuration
/// does not pass, in the order key forms, duplicate keys, dependencies, cycles, files,
/// chart repositories; success where it passes all.
pub open spec fn validation_outcome(
    config: Config,
    existing: Seq<Seq<char>>,
    r: Result<(), Error>,
) -> bool {
    let scope = config.resources@;
    let names = configured_names(config_repositories(config));
    if !structure_valid(config) {
        structure_outcome(config, r)
    } else if !files_present(scope, existing) {
        files_outcome(scope, existing, r)
    } else if !charts_resolve(scope, names) {
        charts_outcome(scope, names, r)
    } else {
        r is Ok
    }
}

/// The selector tokens in effect at the root: those given, or every key of the root
/// scope where none is given.
pub open spec fn root_tokens(command: CommandUp, config: Config) -> Seq<Seq<char>> {
    if command.resources_args@.len() > 0 {
        views(command.resources_args@)
    } else {
        scope_keys(config.resources@)
    }
}

/// Checks the structure of the tree, and stops at the first check that fails: the form
/// of the keys, then duplicate keys, then the targets of dependencies, then cycles.
pub fn check_structure(config: &Config) -> (r: Result<(), Error>)
    ensures
        structure_outcome(*config, r),
        r is Ok <==> structure_valid(*config),
{
    let checked = check_resource_keys_format(&config.resources);
    if checked.is_err() {
        return checked;
    }
    let checked = check_duplicate_resource_keys(&config.resources);
    if checked.is_err() {
        return checked;
    }
    let checked = check_invalid_resource_keys(&config.resources);
    if checked.is_err() {
        return checked;
    }
    check_dependency_cycles(&config.resources)
}

/// Validates a configuration, and stops at the first check that fails: the structure of
/// the tree, then that the files it refers to are among the existing paths, then that
/// every chart names a configured repository.
pub fn validate(config: &Config, existing: &Vec<String>) -> (r: Result<(), Error>)
    ensures
        validation_outcome(*config, views(existing@), r),
        r is Ok <==> structure_valid(*config) && files_present(config.resources@, views(existing@))
            && charts_resolve(config.resources@, configured_names(config_repositories(*config))),
{
    let checked = check_structure(config);
    if checked.is_err() {
        return checked;
    }
    let checked = check_files_exist(&config.resources, existing);
    if checked.is_err() {
        return checked;
    }
    match &config.helm {
        Some(helm) => check_helm_remote_repositories(&config.resources, &helm.repositories),
        None => check_helm_remote_repositories(&config.resources, &None),
    }
}

impl CommandUp {
    /// Checks that the options fit together. A switch about dependencies needs a
    /// resource named; resources cannot be named while running them is switched off.
    pub fn check_options(&self) -> (r: Result<(), Error>)
        ensures
            match options_fault(*self) {
                Some(message) => fails_with(r, ErrorKind::InvalidInput, message),
                None => r is Ok,
            },
    {
        if (self.dependencies.dependencies || self.dependencies.no_dependencies)
            && self.resources.get_value() && self.resources_args.len() == 0 {
            return Err(
                Error::new(
                    ErrorKind::InvalidInput,
                    String::from_str(
                        "option --dependencies/--no-dependencies only works when you pass argument RESOURCES too",
                    ),
                ),
            );
        }
        if self.resources.no_resources && self.resources_args.len() > 0 {
            let listing = join(&self.resources_args, ", ");
            let mut message = String::from_str(
                "option --no-resources only works when you don't pass argument RESOURCES, you passed [",
            );
            message.append(listing.as_str());
            message.append("]");
            return Err(Error::new(ErrorKind::InvalidInput, message));
        }
        Ok(())
    }

    /// The configuration file to read: the one given, or `m8s.yaml`.
    pub fn deployment_file_path(&self) -> (path: String)
        ensures
            path@ == match self.file {
                Some(file) => file@,
                None => "m8s.yaml"@,
            },
    {
        match &self.file {
            Some(file) => file.clone(),
            None => String::from_str("m8s.yaml"),
        }
    }

    /// The selector tokens in effect at the root: those given, or every key of the root
    /// scope where none is given.
    pub fn resource_args(&self, config: &Config) -> (tokens: Vec<String>)
        ensures
            views(tokens@) == root_tokens(*self, *config),
    {
        if self.resources_args.len() > 0 {
            crate::text::clone_strings(&self.resources_args)
        } else {
            config.resources.keys()
        }
    }

    /// The commands that make the repositories known to Helm, where repositories are
    /// handled; none where they are not.
    pub fn repository_commands(&self, config: &Config) -> (commands: Vec<Command>)
        ensures
            command_views(commands@) == if self.helm_repositories.helm_repositories
                || !self.helm_repositories.no_helm_repositories {
                match config_repositories(*config) {
                    Some(list) => repository_commands(list@, list@.len() as int, self.dry_run),
                    None => Seq::empty(),
                }
            } else {
                Seq::empty()
            },
            self.dry_run ==> forall|i: int| 0 <= i < commands@.len() ==>
                !(#[trigger] commands@[i]).spawn,
    {
        let mut none: Vec<Command> = Vec::new();
        proof {
            assert(command_views(none@) =~= Seq::empty());
        }
        if !self.helm_repositories.get_value() {
            return none;
        }
        match &config.helm {
            Some(helm) => match &helm.repositories {
                Some(list) => handle_helm_repositories(list, self.dry_run),
                None => none,
            },
            None => none,
        }
    }

    /// The resources to run, in order, where resources run at all: what the tokens in
    /// effect at the root select, with dependencies unless they are switched off.
    pub fn planned_resources(&self, config: &Config) -> (planned: Vec<PlannedResource>)
        ensures
            planned_views(planned@) == if self.resources.resources || !self.resources.no_resources {
                plan(
                    config.resources@,
                    None,
                    root_tokens(*self, *config),
                    self.dependencies.dependencies || !self.dependencies.no_dependencies,
                )
            } else {
                Seq::empty()
            },
    {
        if self.resources.get_value() {
            let tokens = self.resource_args(config);
            run_resources(&config.resources, None, tokens, self.dependencies.get_value())
        } else {
            let none: Vec<PlannedResource> = Vec::new();
            proof {
                assert(planned_views(none@) =~= Seq::empty());
            }
            none
        }
    }
}

} // verus!
