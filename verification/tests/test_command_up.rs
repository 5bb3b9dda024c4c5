use libm8s::command_up::{
    check_structure, validate, CommandUp, OptionDependencies, OptionHelmRepositories,
    OptionResources,
};
use libm8s::error::ErrorKind;
use libm8s::file_format::{
    Config, Helm, HelmRemote, HelmRepository, Manifest, Resource, ResourceMap,
    ResourceWithDepdencies,
};

fn strings(items: Vec<&str>) -> Vec<String> {
    items.into_iter().map(|s| s.to_string()).collect()
}

fn noop(depends_on: Option<Vec<&str>>) -> ResourceWithDepdencies {
    ResourceWithDepdencies {
        resource: Resource::Noop {
            noop: "".to_string(),
        },
        depends_on: depends_on.map(strings),
    }
}

fn manifest(path: &str) -> ResourceWithDepdencies {
    ResourceWithDepdencies {
        resource: Resource::Manifest {
            manifest: Manifest {
                path: path.to_string(),
            },
        },
        depends_on: None,
    }
}

fn helm_remote(chart_name: &str) -> ResourceWithDepdencies {
    ResourceWithDepdencies {
        resource: Resource::HelmRemote {
            helm_remote: HelmRemote {
                name: "release".to_string(),
                namespace: "default".to_string(),
                chart_name: chart_name.to_string(),
                chart_version: "1.2.3".to_string(),
                values: None,
            },
        },
        depends_on: None,
    }
}

fn map_of(entries: Vec<(&str, ResourceWithDepdencies)>) -> ResourceMap {
    let mut map = ResourceMap::new();
    for (key, entry) in entries {
        map.insert(key.to_string(), entry);
    }
    map
}

fn config_of(entries: Vec<(&str, ResourceWithDepdencies)>) -> Config {
    Config {
        helm: Some(Helm {
            repositories: Some(vec![HelmRepository {
                name: "argo".to_string(),
                url: "https://argoproj.github.io/argo-helm".to_string(),
            }]),
        }),
        resources: map_of(entries),
    }
}

fn command(resources_args: Vec<&str>) -> CommandUp {
    CommandUp {
        resources_args: strings(resources_args),
        file: None,
        kubeconfig: None,
        helm_repositories: OptionHelmRepositories {
            helm_repositories: false,
            no_helm_repositories: false,
        },
        resources: OptionResources {
            resources: false,
            no_resources: false,
        },
        dependencies: OptionDependencies {
            dependencies: false,
            no_dependencies: false,
        },
        dry_run: true,
    }
}

#[test]
fn test_options_are_on_unless_only_switched_off() {
    for (on, off, expected) in [
        (false, false, true),
        (true, false, true),
        (false, true, false),
        (true, true, true),
    ] {
        assert_eq!(
            expected,
            OptionHelmRepositories {
                helm_repositories: on,
                no_helm_repositories: off
            }
            .get_value()
        );
        assert_eq!(
            expected,
            OptionResources {
                resources: on,
                no_resources: off
            }
            .get_value()
        );
        assert_eq!(
            expected,
            OptionDependencies {
                dependencies: on,
                no_dependencies: off
            }
            .get_value()
        );
    }
}

#[test]
fn test_check_options_wants_resources_named_with_a_switch_about_dependencies() {
    let mut cmd = command(vec![]);
    assert_eq!(Ok(()), cmd.check_options());
    cmd.dependencies.no_dependencies = true;
    let error = cmd.check_options().err().unwrap();
    assert_eq!(ErrorKind::InvalidInput, error.kind());
    assert_eq!(
        "option --dependencies/--no-dependencies only works when you pass argument RESOURCES too",
        error.to_string()
    );
    cmd.dependencies.no_dependencies = false;
    cmd.dependencies.dependencies = true;
    assert!(cmd.check_options().is_err());
    cmd.resources_args = strings(vec!["a"]);
    assert_eq!(Ok(()), cmd.check_options());
    cmd.resources_args = vec![];
    cmd.resources.no_resources = true;
    assert_eq!(Ok(()), cmd.check_options());
}

#[test]
fn test_check_options_refuses_resources_named_while_switched_off() {
    let mut cmd = command(vec!["a", "b:c"]);
    cmd.resources.no_resources = true;
    let error = cmd.check_options().err().unwrap();
    assert_eq!(ErrorKind::InvalidInput, error.kind());
    assert_eq!(
        "option --no-resources only works when you don't pass argument RESOURCES, you passed [a, b:c]",
        error.to_string()
    );
}

#[test]
fn test_deployment_file_path_defaults_to_m8s_yaml() {
    let mut cmd = command(vec![]);
    assert_eq!("m8s.yaml", cmd.deployment_file_path());
    cmd.file = Some("other/file.yaml".to_string());
    assert_eq!("other/file.yaml", cmd.deployment_file_path());
}

#[test]
fn test_resource_args_are_all_keys_where_none_is_named() {
    let config = config_of(vec![("b", noop(None)), ("a", noop(None))]);
    assert_eq!(strings(vec!["b", "a"]), command(vec![]).resource_args(&config));
    assert_eq!(
        strings(vec!["a:x"]),
        command(vec!["a:x"]).resource_args(&config)
    );
}

#[test]
fn test_planned_resources_follow_the_switches() {
    let config = config_of(vec![
        ("b", noop(Some(vec!["a"]))),
        ("a", noop(None)),
        ("c", noop(None)),
    ]);
    let keys = |cmd: &CommandUp| {
        cmd.planned_resources(&config)
            .iter()
            .map(|p| p.key.clone())
            .collect::<Vec<String>>()
    };
    assert_eq!(strings(vec!["c", "a", "b"]), keys(&command(vec![])));
    assert_eq!(strings(vec!["a", "b"]), keys(&command(vec!["b"])));
    let mut alone = command(vec!["b"]);
    alone.dependencies.no_dependencies = true;
    assert_eq!(strings(vec!["b"]), keys(&alone));
    let mut off = command(vec![]);
    off.resources.no_resources = true;
    assert_eq!(Vec::<String>::new(), keys(&off));
}

#[test]
fn test_repository_commands_follow_the_switch() {
    let config = config_of(vec![]);
    let cmd = command(vec![]);
    let commands = cmd.repository_commands(&config);
    assert_eq!(2, commands.len());
    assert_eq!(
        strings(vec!["repo", "add", "argo", "https://argoproj.github.io/argo-helm"]),
        commands[0].args
    );
    assert_eq!(strings(vec!["repo", "update", "argo"]), commands[1].args);
    assert!(!commands[0].spawn && !commands[1].spawn);
    let mut off = command(vec![]);
    off.helm_repositories.no_helm_repositories = true;
    assert!(off.repository_commands(&config).is_empty());
    let bare = Config {
        helm: None,
        resources: ResourceMap::new(),
    };
    assert!(cmd.repository_commands(&bare).is_empty());
    let empty = Config {
        helm: Some(Helm { repositories: None }),
        resources: ResourceMap::new(),
    };
    assert!(cmd.repository_commands(&empty).is_empty());
}

#[test]
fn test_validate_passes_a_configuration_without_violations() {
    let config = config_of(vec![
        ("a", manifest("a.yaml")),
        ("b", helm_remote("argo/workflows")),
        (
            "g",
            ResourceWithDepdencies {
                resource: Resource::Group {
                    group: map_of(vec![("x", noop(None)), ("y", noop(Some(vec!["x"])))]),
                },
                depends_on: Some(strings(vec!["a", "b"])),
            },
        ),
    ]);
    assert_eq!(Ok(()), check_structure(&config));
    assert_eq!(Ok(()), validate(&config, &strings(vec!["a.yaml"])));
    let planned = command(vec![]).planned_resources(&config);
    assert_eq!(
        strings(vec!["b", "a", "x", "y"]),
        planned
            .iter()
            .map(|p| p.key.clone())
            .collect::<Vec<String>>()
    );
}

#[test]
fn test_validate_stops_at_the_first_check_that_fails() {
    let broken = |keep: usize| {
        let mut entries = vec![
            ("dup", helm_remote("nowhere/chart")),
            (
                "g",
                ResourceWithDepdencies {
                    resource: Resource::Group {
                        group: map_of(vec![("inner", manifest("missing.yaml"))]),
                    },
                    depends_on: None,
                },
            ),
        ];
        if keep <= 3 {
            entries.push(("x", noop(Some(vec!["y"]))));
            entries.push(("y", noop(Some(vec!["x"]))));
        }
        if keep <= 2 {
            entries.push(("z", noop(Some(vec!["gone"]))));
        }
        let mut config = config_of(entries);
        if keep <= 1 {
            let mut group = map_of(vec![("dup", noop(None))]);
            if keep == 0 {
                group.insert("bad key".to_string(), noop(None));
            }
            config.resources.insert(
                "h".to_string(),
                ResourceWithDepdencies {
                    resource: Resource::Group { group },
                    depends_on: None,
                },
            );
        }
        config
    };
    let message = |keep: usize, existing: Vec<&str>| {
        let error = validate(&broken(keep), &strings(existing)).err().unwrap();
        assert_eq!(ErrorKind::InvalidData, error.kind());
        error.to_string()
    };
    assert_eq!(
        "Configuration is invalid, resource key can only contain [a-zA-Z0-9]: bad key",
        message(0, vec![])
    );
    assert_eq!(
        "Configuration is invalid, duplicate resource keys: dup",
        message(1, vec![])
    );
    assert_eq!(
        "Configuration is invalid, invalid dependencies: gone",
        message(2, vec![])
    );
    assert_eq!(
        "Configuration is invalid, dependency cycle for \"x\": x -> y -> x",
        message(3, vec![])
    );
    assert_eq!(
        "Invalid resource inner, references file that doesn't exist: missing.yaml",
        message(4, vec![])
    );
    assert_eq!(
        "Invalid resource dup, repository with name \"nowhere\" doesn't exist, valid values are [argo]",
        message(4, vec!["missing.yaml"])
    );
    assert_eq!(
        check_structure(&broken(3)),
        validate(&broken(3), &strings(vec!["missing.yaml"]))
    );
    assert_eq!(Ok(()), check_structure(&broken(4)));
}

#[test]
fn test_valid_configuration_selects_its_own_keys_unmodified() {
    let config = config_of(vec![
        ("web", noop(Some(vec!["db", "cache"]))),
        ("db", noop(None)),
        ("cache", noop(Some(vec!["db"]))),
        ("docs", manifest("docs.yaml")),
    ]);
    assert_eq!(Ok(()), validate(&config, &strings(vec!["docs.yaml"])));
    let tokens = command(vec![]).resource_args(&config);
    let selected = libm8s::resources::get_filtered_resources(&config.resources, tokens, true);
    let mut keys = selected.keys();
    assert_eq!(strings(vec!["docs", "db", "cache", "web"]), keys);
    keys.sort();
    let mut declared = config.resources.keys();
    declared.sort();
    assert_eq!(declared, keys);
    for key in declared.iter() {
        assert_eq!(config.resources.get(key), selected.get(key));
    }
}
