use libm8s::checks::{
    all_resource_keys, check_duplicate_resource_keys, check_files_exist,
    check_helm_remote_repositories, check_invalid_resource_keys, check_resource_keys_format,
    file_references, get_invalid_resource_keys_for_group, is_resource_key_format_valid,
    FileReference,
};
use libm8s::cycles::{analyse_cycles, check_dependency_cycles, no_keys_visited};
use libm8s::error::ErrorKind;
use libm8s::file_format::{
    HelmLocal, HelmRemote, HelmRepository, Manifest, Resource, ResourceMap,
    ResourceWithDepdencies, Shell,
};

fn strings(items: Vec<&str>) -> Vec<String> {
    items.into_iter().map(|s| s.to_string()).collect()
}

fn noop(depends_on: Option<Vec<&str>>) -> ResourceWithDepdencies {
    ResourceWithDepdencies {
        resource: Resource::Noop {
            noop: "".to_string(),
        },
        depends_on: depends_on.map(strings),
    }
}

fn entry(resource: Resource) -> ResourceWithDepdencies {
    ResourceWithDepdencies {
        resource,
        depends_on: None,
    }
}

fn group_of(entries: Vec<(&str, ResourceWithDepdencies)>) -> ResourceWithDepdencies {
    entry(Resource::Group {
        group: map_of(entries),
    })
}

fn map_of(entries: Vec<(&str, ResourceWithDepdencies)>) -> ResourceMap {
    let mut map = ResourceMap::new();
    for (key, entry) in entries {
        map.insert(key.to_string(), entry);
    }
    map
}

fn helm_remote(chart_name: &str, values: Option<Vec<&str>>) -> ResourceWithDepdencies {
    entry(Resource::HelmRemote {
        helm_remote: HelmRemote {
            name: "my-release-name".to_string(),
            namespace: "default".to_string(),
            chart_name: chart_name.to_string(),
            chart_version: "1.2.3".to_string(),
            values: values.map(strings),
        },
    })
}

fn helm_local(chart_path: &str, values: Option<Vec<&str>>) -> ResourceWithDepdencies {
    entry(Resource::HelmLocal {
        helm_local: HelmLocal {
            name: "my-release-name".to_string(),
            namespace: "default".to_string(),
            values: values.map(strings),
            chart_path: chart_path.to_string(),
        },
    })
}

fn manifest(path: &str) -> ResourceWithDepdencies {
    entry(Resource::Manifest {
        manifest: Manifest {
            path: path.to_string(),
        },
    })
}

fn example_repositories() -> Option<Vec<HelmRepository>> {
    Some(vec![HelmRepository {
        name: "example".to_string(),
        url: "https://example.com".to_string(),
    }])
}

fn on_disk() -> Vec<String> {
    strings(vec![
        "tests/manifest.yaml",
        "tests/chart/values.yaml",
        "tests/chart",
    ])
}

#[test]
fn test_analyse_cycles_returns_cycle_as_error() {
    assert_eq!(
        vec![
            "a".to_string(),
            "c".to_string(),
            "b".to_string(),
            "a".to_string()
        ],
        analyse_cycles(
            &"a".to_string(),
            &map_of(vec![
                ("a", noop(Some(vec!["c"]))),
                ("b", noop(Some(vec!["a"]))),
                ("c", noop(Some(vec!["b"]))),
            ]),
            &mut no_keys_visited(),
            &mut Vec::new(),
        )
        .err()
        .unwrap()
    );
}

#[test]
fn test_analyse_cycles_returns_ok_when_no_cycle_is_detected() {
    assert_eq!(
        Ok(()),
        analyse_cycles(
            &"c".to_string(),
            &map_of(vec![
                ("a", noop(Some(vec![]))),
                ("b", noop(Some(vec!["a"]))),
                ("c", noop(Some(vec!["b"]))),
            ]),
            &mut no_keys_visited(),
            &mut Vec::new(),
        )
    );
}

#[test]
fn test_analyse_cycles_keeps_the_stack_and_adds_what_it_saw() {
    let table = map_of(vec![
        ("a", noop(Some(vec!["b", "missing"]))),
        ("b", noop(None)),
    ]);
    let mut visited = no_keys_visited();
    let mut stack = strings(vec!["root"]);
    assert_eq!(
        Ok(()),
        analyse_cycles(&"a".to_string(), &table, &mut visited, &mut stack)
    );
    assert_eq!(strings(vec!["root"]), stack);
    assert!(visited.contains("a") && visited.contains("b") && visited.contains("missing"));
    assert!(!visited.contains("root"));
    assert_eq!(3, visited.len());
}

#[test]
fn test_analyse_cycles_reports_the_stack_with_the_repeated_key() {
    let table = map_of(vec![("a", noop(Some(vec!["b"]))), ("b", noop(Some(vec!["b"])))]);
    let mut stack = Vec::new();
    assert_eq!(
        Err(strings(vec!["a", "b", "b"])),
        analyse_cycles(&"a".to_string(), &table, &mut no_keys_visited(), &mut stack)
    );
    assert_eq!(strings(vec!["a", "b", "b"]), stack);
}

#[test]
fn test_check_dependency_cycles_fails_with_a_single_resource_which_depends_on_itself() {
    let resources = map_of(vec![("foobarNoop", noop(Some(vec!["foobarNoop"])))]);
    assert_eq!(
        "Configuration is invalid, dependency cycle for \"foobarNoop\": foobarNoop -> foobarNoop",
        check_dependency_cycles(&resources)
            .err()
            .unwrap()
            .to_string()
    );
}

#[test]
fn test_check_dependency_cycles_fails_with_two_dependencies_that_depends_on_each_other() {
    let resources = map_of(vec![
        ("foobarNoop", noop(Some(vec!["foobazNoop"]))),
        ("foobazNoop", noop(Some(vec!["foobarNoop"]))),
    ]);
    assert_eq!(
        "Configuration is invalid, dependency cycle for \"foobarNoop\": foobarNoop -> foobazNoop -> foobarNoop",
        check_dependency_cycles(&resources)
            .err()
            .unwrap()
            .to_string()
    );
}

#[test]
fn test_check_dependency_cycles_passes_without_cycles() {
    let resources = map_of(vec![
        ("a", noop(None)),
        ("b", noop(Some(vec!["a"]))),
        ("c", noop(Some(vec!["a", "b"]))),
        ("d", noop(Some(vec!["nowhere"]))),
    ]);
    assert_eq!(Ok(()), check_dependency_cycles(&resources));
    assert_eq!(Ok(()), check_dependency_cycles(&ResourceMap::new()));
}

#[test]
fn test_check_dependency_cycles_reports_the_path_from_the_first_key_that_reaches_a_cycle() {
    let resources = map_of(vec![
        ("a", noop(Some(vec!["b"]))),
        ("b", noop(Some(vec!["c"]))),
        ("c", noop(Some(vec!["b"]))),
    ]);
    let error = check_dependency_cycles(&resources).err().unwrap();
    assert_eq!(ErrorKind::InvalidData, error.kind());
    assert_eq!(
        "Configuration is invalid, dependency cycle for \"a\": a -> b -> c -> b",
        error.to_string()
    );
}

#[test]
fn test_check_dependency_cycles_looks_into_groups() {
    let resources = map_of(vec![
        ("a", noop(None)),
        (
            "g",
            group_of(vec![("x", noop(Some(vec!["y"]))), ("y", noop(Some(vec!["x"])))]),
        ),
    ]);
    assert_eq!(
        "Configuration is invalid, dependency cycle for \"x\": x -> y -> x",
        check_dependency_cycles(&resources)
            .err()
            .unwrap()
            .to_string()
    );
}

#[test]
fn test_check_invalid_resource_keys_fails_when_one_or_more_dependencies_do_not_exist() {
    let resources = map_of(vec![
        ("foobarNoop", noop(Some(vec!["doesNotExist2", "doesNotExist1"]))),
        ("foobazNoop", noop(Some(vec!["doesNotExist1", "foobarNoop"]))),
    ]);
    assert_eq!(
        "Configuration is invalid, invalid dependencies: doesNotExist1, doesNotExist2",
        check_invalid_resource_keys(&resources)
            .err()
            .unwrap()
            .to_string()
    );
}

#[test]
fn test_check_invalid_resource_keys_fails_when_a_dependency_refers_to_outside_group() {
    let resources = map_of(vec![
        ("helloWorld", noop(None)),
        (
            "foobarGroup",
            group_of(vec![
                ("subFoobar", noop(Some(vec!["helloWorld"]))),
                ("subFoobaz", noop(Some(vec!["subFoobar", "foobarGroup"]))),
            ]),
        ),
    ]);
    assert_eq!(
        "Configuration is invalid, invalid dependencies: foobarGroup, helloWorld",
        check_invalid_resource_keys(&resources)
            .err()
            .unwrap()
            .to_string()
    );
}

#[test]
fn test_check_invalid_resource_keys_passes_when_dependencies_are_siblings() {
    let resources = map_of(vec![
        ("a", noop(None)),
        ("g", group_of(vec![("x", noop(None)), ("y", noop(Some(vec!["x"])))])),
        ("b", noop(Some(vec!["a", "g"]))),
    ]);
    assert_eq!(Ok(()), check_invalid_resource_keys(&resources));
    assert_eq!(
        Vec::<String>::new(),
        get_invalid_resource_keys_for_group(&resources)
    );
}

#[test]
fn test_get_invalid_resource_keys_for_group_lists_own_scope_before_groups() {
    let resources = map_of(vec![
        ("g", group_of(vec![("x", noop(Some(vec!["a", "zz"])))])),
        ("a", noop(Some(vec!["zz", "a", "x"]))),
    ]);
    assert_eq!(
        strings(vec!["zz", "x", "a", "zz"]),
        get_invalid_resource_keys_for_group(&resources)
    );
    assert_eq!(
        "Configuration is invalid, invalid dependencies: a, x, zz",
        check_invalid_resource_keys(&resources)
            .err()
            .unwrap()
            .to_string()
    );
}

#[test]
fn test_check_resource_keys_format_fails_when_key_is_not_alphanumeric() {
    let resources = map_of(vec![
        ("foobarNoop", noop(None)),
        ("not:valid", noop(None)),
        ("also-not-valid", noop(None)),
    ]);
    assert_eq!(
        "Configuration is invalid, resource key can only contain [a-zA-Z0-9]: not:valid",
        check_resource_keys_format(&resources)
            .err()
            .unwrap()
            .to_string()
    );
}

#[test]
fn test_check_resource_keys_format_walks_groups_in_place() {
    let resources = map_of(vec![
        ("a", noop(None)),
        ("g", group_of(vec![("ok1", noop(None)), ("in.side", noop(None))])),
        ("out-side", noop(None)),
    ]);
    assert_eq!(
        "Configuration is invalid, resource key can only contain [a-zA-Z0-9]: in.side",
        check_resource_keys_format(&resources)
            .err()
            .unwrap()
            .to_string()
    );
    assert_eq!(
        strings(vec!["a", "g", "ok1", "in.side", "out-side"]),
        all_resource_keys(&resources)
    );
}

#[test]
fn test_is_resource_key_format_valid_wants_letters_and_digits() {
    assert!(is_resource_key_format_valid(&"abcXYZ019".to_string()));
    assert!(is_resource_key_format_valid(&"a".to_string()));
    assert!(!is_resource_key_format_valid(&"".to_string()));
    assert!(!is_resource_key_format_valid(&"a:b".to_string()));
    assert!(!is_resource_key_format_valid(&"a_b".to_string()));
    assert!(!is_resource_key_format_valid(&"a b".to_string()));
    assert!(!is_resource_key_format_valid(&"caf\u{e9}".to_string()));
    assert!(!is_resource_key_format_valid(&"[".to_string()));
    assert!(!is_resource_key_format_valid(&"`".to_string()));
    assert!(!is_resource_key_format_valid(&"{".to_string()));
    assert!(!is_resource_key_format_valid(&"/".to_string()));
    assert!(!is_resource_key_format_valid(&"@".to_string()));
}

#[test]
fn test_check_resource_keys_format_passes_on_well_formed_keys() {
    let resources = map_of(vec![
        ("a1", noop(None)),
        ("G", group_of(vec![("b2", noop(None))])),
    ]);
    assert_eq!(Ok(()), check_resource_keys_format(&resources));
    assert_eq!(Ok(()), check_resource_keys_format(&ResourceMap::new()));
}

#[test]
fn test_check_duplicate_resource_keys_lists_repeated_keys_sorted() {
    let resources = map_of(vec![
        ("z", noop(None)),
        ("g", group_of(vec![("z", noop(None)), ("b", noop(None))])),
        ("h", group_of(vec![("b", noop(None)), ("z", noop(None)), ("c", noop(None))])),
    ]);
    let error = check_duplicate_resource_keys(&resources).err().unwrap();
    assert_eq!(ErrorKind::InvalidData, error.kind());
    assert_eq!(
        "Configuration is invalid, duplicate resource keys: b, z",
        error.to_string()
    );
}

#[test]
fn test_check_duplicate_resource_keys_passes_when_all_keys_differ() {
    let resources = map_of(vec![
        ("a", noop(None)),
        ("g", group_of(vec![("b", noop(None))])),
    ]);
    assert_eq!(Ok(()), check_duplicate_resource_keys(&resources));
}

#[test]
fn test_check_helm_remote_repositories_with_no_repositories_passes() {
    let resources = ResourceMap::new();
    let helm_repositories = None;
    check_helm_remote_repositories(&resources, &helm_repositories).unwrap();

    let resources = ResourceMap::new();
    let helm_repositories = Some(vec![]);
    check_helm_remote_repositories(&resources, &helm_repositories).unwrap();
}

#[test]
fn test_check_helm_remote_repositories_with_valid_repository_passes() {
    let resources = map_of(vec![("foobar", helm_remote("example/example", None))]);
    let helm_repositories = example_repositories();
    check_helm_remote_repositories(&resources, &helm_repositories).unwrap();
}

#[test]
fn test_check_helm_remote_repositories_with_invalid_chart_name_fails() {
    let resources = map_of(vec![("foobar", helm_remote("invalid", None))]);
    let helm_repositories = example_repositories();
    let err = check_helm_remote_repositories(&resources, &helm_repositories)
        .err()
        .unwrap();
    assert!(err
        .to_string()
        .contains("chart name \"invalid\" doesn't start with a repository name"));
}

#[test]
fn test_check_helm_remote_repositories_with_invalid_repo_in_chart_name_fails() {
    let resources = map_of(vec![("foobar", helm_remote("invalid/example", None))]);
    let helm_repositories = Some(vec![]);
    let err = check_helm_remote_repositories(&resources, &helm_repositories)
        .err()
        .unwrap();
    assert!(err
        .to_string()
        .contains("repository with name \"invalid\" doesn't exist"));
}

#[test]
fn test_check_helm_remote_repositories_with_undefined_repository_fails() {
    let resources = map_of(vec![("foobar", helm_remote("example/example", None))]);
    let helm_repositories = None;
    let err = check_helm_remote_repositories(&resources, &helm_repositories)
        .err()
        .unwrap();
    assert!(err.to_string().contains("no repositories configured"))
}

#[test]
fn test_check_helm_remote_repositories_messages_in_full() {
    let resources = map_of(vec![("foobar", helm_remote("x", None))]);
    for helm_repositories in [None, Some(vec![]), example_repositories()] {
        let err = check_helm_remote_repositories(&resources, &helm_repositories)
            .err()
            .unwrap();
        assert_eq!(ErrorKind::InvalidData, err.kind());
        assert_eq!(
            "Invalid resource foobar, chart name \"x\" doesn't start with a repository name",
            err.to_string()
        );
    }

    let resources = map_of(vec![("foobar", helm_remote("other/chart/deep", None))]);
    assert_eq!(
        "Invalid resource foobar, repository with name \"other\" doesn't exist, no repositories configured",
        check_helm_remote_repositories(&resources, &None)
            .err()
            .unwrap()
            .to_string()
    );
    let two = Some(vec![
        HelmRepository {
            name: "example".to_string(),
            url: "https://example.com".to_string(),
        },
        HelmRepository {
            name: "argo".to_string(),
            url: "https://argoproj.github.io/argo-helm".to_string(),
        },
    ]);
    assert_eq!(
        "Invalid resource foobar, repository with name \"other\" doesn't exist, valid values are [example, argo]",
        check_helm_remote_repositories(&resources, &two)
            .err()
            .unwrap()
            .to_string()
    );
    assert_eq!(
        "Invalid resource foobar, repository with name \"other\" doesn't exist, valid values are []",
        check_helm_remote_repositories(&resources, &Some(vec![]))
            .err()
            .unwrap()
            .to_string()
    );
}

#[test]
fn test_check_helm_remote_repositories_reports_the_first_release_at_fault() {
    let resources = map_of(vec![
        ("fine", helm_remote("example/one", None)),
        ("g", group_of(vec![("inner", helm_remote("nowhere/two", None))])),
        ("late", helm_remote("noslash", None)),
    ]);
    assert_eq!(
        "Invalid resource inner, repository with name \"nowhere\" doesn't exist, valid values are [example]",
        check_helm_remote_repositories(&resources, &example_repositories())
            .err()
            .unwrap()
            .to_string()
    );
}

#[test]
fn test_check_files_exist_with_no_files_passes() {
    let resources = ResourceMap::new();
    check_files_exist(&resources, &on_disk()).unwrap()
}

#[test]
fn test_check_files_exist_with_valid_manifest_files_passes() {
    let resources = map_of(vec![("foobar", manifest("tests/manifest.yaml"))]);
    check_files_exist(&resources, &on_disk()).unwrap()
}

#[test]
fn test_check_files_exist_with_invalid_manifest_files_fails() {
    let resources = map_of(vec![("foobar", manifest("invalid-manifest.yaml"))]);
    let err = check_files_exist(&resources, &on_disk()).err().unwrap();
    assert!(err
        .to_string()
        .contains("references file that doesn't exist"))
}

#[test]
fn test_check_files_exist_with_valid_helm_remote_files_passes() {
    let resources = map_of(vec![(
        "foobar",
        helm_remote("example/example", Some(vec!["tests/chart/values.yaml"])),
    )]);
    check_files_exist(&resources, &on_disk()).unwrap();
}

#[test]
fn test_check_files_exist_with_invalid_helm_remote_files_fails() {
    let resources = map_of(vec![(
        "foobar",
        helm_remote("example/example", Some(vec!["invalid-values.yaml"])),
    )]);
    let err = check_files_exist(&resources, &on_disk()).err().unwrap();
    assert!(err
        .to_string()
        .contains("references file that doesn't exist"))
}

#[test]
fn test_check_files_exist_with_valid_helm_local_files_passes() {
    let resources = map_of(vec![(
        "foobar",
        helm_local("tests/chart", Some(vec!["tests/chart/values.yaml"])),
    )]);
    check_files_exist(&resources, &on_disk()).unwrap();
}

#[test]
fn test_check_files_exist_with_invalid_helm_local_values_fails() {
    let resources = map_of(vec![(
        "foobar",
        helm_local("tests/chart", Some(vec!["invalid-values.yaml"])),
    )]);
    let err = check_files_exist(&resources, &on_disk()).err().unwrap();
    assert!(err
        .to_string()
        .contains("references file that doesn't exist"))
}

#[test]
fn test_check_files_exist_with_invalid_helm_local_chart_path_fails() {
    let resources = map_of(vec![(
        "foobar",
        helm_local("invalid", Some(vec!["tests/chart/values.yaml"])),
    )]);
    let err = check_files_exist(&resources, &on_disk()).err().unwrap();
    assert!(err
        .to_string()
        .contains("references directory that doesn't exist"))
}

#[test]
fn test_check_files_exist_messages_in_full() {
    let resources = map_of(vec![
        ("sh", entry(Resource::Shell { shell: Shell { input: "missing.sh".to_string() } })),
        ("local", helm_local("gone", Some(vec!["tests/chart/values.yaml", "lost.yaml"]))),
    ]);
    let err = check_files_exist(&resources, &on_disk()).err().unwrap();
    assert_eq!(ErrorKind::InvalidData, err.kind());
    assert_eq!(
        "Invalid resource local, references file that doesn't exist: lost.yaml",
        err.to_string()
    );
    let mut more = on_disk();
    more.push("lost.yaml".to_string());
    assert_eq!(
        "Invalid resource local, references directory that doesn't exist: gone",
        check_files_exist(&resources, &more).err().unwrap().to_string()
    );
}

#[test]
fn test_file_references_lists_every_path_in_walking_order() {
    let resources = map_of(vec![
        ("m", manifest("m.yaml")),
        ("n", noop(None)),
        (
            "g",
            group_of(vec![
                ("r", helm_remote("example/x", Some(vec!["r1.yaml", "r2.yaml"]))),
                ("l", helm_local("chart", Some(vec!["l1.yaml"]))),
            ]),
        ),
        ("k", helm_local("other", None)),
    ]);
    let file = |key: &str, path: &str| FileReference {
        resource_key: key.to_string(),
        path: path.to_string(),
        directory: false,
    };
    let directory = |key: &str, path: &str| FileReference {
        resource_key: key.to_string(),
        path: path.to_string(),
        directory: true,
    };
    assert_eq!(
        vec![
            file("m", "m.yaml"),
            file("r", "r1.yaml"),
            file("r", "r2.yaml"),
            file("l", "l1.yaml"),
            directory("l", "chart"),
            directory("k", "other"),
        ],
        file_references(&resources)
    );
}
