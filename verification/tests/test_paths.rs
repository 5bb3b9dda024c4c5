use libm8s::file_format::{
    HelmLocal, HelmRemote, Manifest, Resource, ResourceMap, ResourceWithDepdencies, Shell,
};
use libm8s::paths::integrate_deployment_file_dir_into_paths;

fn entry(resource: Resource, depends_on: Option<Vec<&str>>) -> ResourceWithDepdencies {
    ResourceWithDepdencies {
        resource,
        depends_on: depends_on.map(|list| list.into_iter().map(|s| s.to_string()).collect()),
    }
}

fn map_of(entries: Vec<(&str, ResourceWithDepdencies)>) -> ResourceMap {
    let mut map = ResourceMap::new();
    for (key, entry) in entries {
        map.insert(key.to_string(), entry);
    }
    map
}

fn only_resources() -> ResourceMap {
    map_of(vec![
        (
            "foobarNoop",
            entry(
                Resource::Noop {
                    noop: "".to_string(),
                },
                None,
            ),
        ),
        (
            "foobarShell",
            entry(
                Resource::Shell {
                    shell: Shell {
                        input: "cat relative/file".to_string(),
                    },
                },
                Some(vec!["foobarNoop"]),
            ),
        ),
        (
            "foobarManifest",
            entry(
                Resource::Manifest {
                    manifest: Manifest {
                        path: "path/to/manifest.yaml".to_string(),
                    },
                },
                None,
            ),
        ),
        (
            "foobarHelmLocal",
            entry(
                Resource::HelmLocal {
                    helm_local: HelmLocal {
                        name: "local".to_string(),
                        namespace: "default".to_string(),
                        chart_path: "chart".to_string(),
                        values: Some(vec!["values-local.yaml".to_string()]),
                    },
                },
                None,
            ),
        ),
        (
            "foobarHelmRemote",
            entry(
                Resource::HelmRemote {
                    helm_remote: HelmRemote {
                        name: "remote".to_string(),
                        namespace: "default".to_string(),
                        chart_name: "repo/chart".to_string(),
                        chart_version: "1.0.0".to_string(),
                        values: Some(vec![
                            "values-remote.yaml".to_string(),
                            "/abs/values.yaml".to_string(),
                        ]),
                    },
                },
                None,
            ),
        ),
        (
            "foobarGroup",
            entry(
                Resource::Group {
                    group: map_of(vec![(
                        "subFoobarManifest",
                        entry(
                            Resource::Manifest {
                                manifest: Manifest {
                                    path: "sub-manifest.yaml".to_string(),
                                },
                            },
                            None,
                        ),
                    )]),
                },
                Some(vec!["foobarManifest"]),
            ),
        ),
    ])
}

#[test]
fn test_integrate_deployment_file_dir_into_paths_puts_paths_under_the_directory() {
    let resources =
        integrate_deployment_file_dir_into_paths(&only_resources(), &"/my/m8s/dir".to_string());

    match &resources.get(&"foobarManifest".to_string()).unwrap().resource {
        Resource::Manifest { manifest } => {
            assert_eq!("/my/m8s/dir/path/to/manifest.yaml", manifest.path.as_str());
        }
        _ => panic!("Expected Ressource::Manifest"),
    }

    match &resources
        .get(&"foobarHelmLocal".to_string())
        .unwrap()
        .resource
    {
        Resource::HelmLocal { helm_local } => {
            assert_eq!(
                "/my/m8s/dir/values-local.yaml",
                helm_local.values.as_ref().unwrap().get(0).unwrap().as_str()
            );
            assert_eq!("/my/m8s/dir/chart", helm_local.chart_path.as_str());
            assert_eq!("local", helm_local.name.as_str());
        }
        _ => panic!("Expected Ressource::HelmLocal"),
    }

    match &resources
        .get(&"foobarHelmRemote".to_string())
        .unwrap()
        .resource
    {
        Resource::HelmRemote { helm_remote } => {
            assert_eq!(
                "/my/m8s/dir/values-remote.yaml",
                helm_remote
                    .values
                    .as_ref()
                    .unwrap()
                    .get(0)
                    .unwrap()
                    .as_str()
            );
            assert_eq!(
                "/abs/values.yaml",
                helm_remote
                    .values
                    .as_ref()
                    .unwrap()
                    .get(1)
                    .unwrap()
                    .as_str()
            );
            assert_eq!("repo/chart", helm_remote.chart_name.as_str());
        }
        _ => panic!("Expected Ressource::HelmRemote"),
    }

    match &resources.get(&"foobarGroup".to_string()).unwrap().resource {
        Resource::Group { group } => {
            match &group
                .get(&"subFoobarManifest".to_string())
                .unwrap()
                .resource
            {
                Resource::Manifest { manifest } => {
                    assert_eq!("/my/m8s/dir/sub-manifest.yaml", manifest.path.as_str());
                }
                _ => panic!("Expected Ressource::Manifest"),
            }
        }
        _ => panic!("Expected Ressource::Group"),
    }
}

#[test]
fn test_integrate_deployment_file_dir_into_paths_keeps_all_else() {
    let before = only_resources();
    let after = integrate_deployment_file_dir_into_paths(&before, &"dir".to_string());
    assert_eq!(before.keys(), after.keys());
    assert_eq!(
        before.get(&"foobarNoop".to_string()),
        after.get(&"foobarNoop".to_string())
    );
    assert_eq!(
        before.get(&"foobarShell".to_string()),
        after.get(&"foobarShell".to_string())
    );
    assert_eq!(
        before.get(&"foobarGroup".to_string()).unwrap().depends_on,
        after.get(&"foobarGroup".to_string()).unwrap().depends_on
    );
    assert_ne!(
        before.get(&"foobarManifest".to_string()),
        after.get(&"foobarManifest".to_string())
    );
}
