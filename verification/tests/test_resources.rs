use libm8s::file_format::{Resource, ResourceMap, ResourceWithDepdencies, Shell};
use libm8s::resources::{
    get_filtered_resources, get_group_namespace, get_resources_args_part_0,
    get_resources_args_part_1, has_pending_resources, reorder_resources_from_dependencies,
    run_resources, PlannedResource,
};

fn noop(depends_on: Option<Vec<&str>>) -> ResourceWithDepdencies {
    ResourceWithDepdencies {
        resource: Resource::Noop {
            noop: "".to_string(),
        },
        depends_on: depends_on.map(|list| list.into_iter().map(|s| s.to_string()).collect()),
    }
}

fn shell(input: &str, depends_on: Option<Vec<&str>>) -> ResourceWithDepdencies {
    ResourceWithDepdencies {
        resource: Resource::Shell {
            shell: Shell {
                input: input.to_string(),
            },
        },
        depends_on: depends_on.map(|list| list.into_iter().map(|s| s.to_string()).collect()),
    }
}

fn map_of(entries: Vec<(&str, ResourceWithDepdencies)>) -> ResourceMap {
    let mut map = ResourceMap::new();
    for (key, entry) in entries {
        map.insert(key.to_string(), entry);
    }
    map
}

fn pairs(map: &ResourceMap) -> Vec<(String, ResourceWithDepdencies)> {
    let mut out = Vec::new();
    let mut i = 0;
    while let Some((key, entry)) = map.get_index(i) {
        out.push((key.clone(), entry.clone()));
        i += 1;
    }
    out
}

fn planned_keys(planned: &Vec<PlannedResource>) -> Vec<String> {
    planned.iter().map(|p| p.key.clone()).collect()
}

fn strings(items: Vec<&str>) -> Vec<String> {
    items.into_iter().map(|s| s.to_string()).collect()
}

#[test]
fn test_get_group_namespace_returns_parent_ns_with_resource_key() {
    assert_eq!(
        "parent:this-resource",
        get_group_namespace(Some("parent".to_string()), "this-resource").unwrap()
    );
}

#[test]
fn test_get_group_namespace_returns_resource_key_if_empty_parent() {
    assert_eq!(
        "this-resource",
        get_group_namespace(None, "this-resource").unwrap()
    );
}

#[test]
fn test_get_resources_args_part_0_returns_part_before_colon() {
    assert_eq!(
        vec!["a".to_string(), "b".to_string()],
        get_resources_args_part_0(&vec!["a".to_string(), "b:c".to_string()])
    );
}

#[test]
fn test_get_resources_args_part_1_returns_part_after_colon_or_nothing() {
    assert_eq!(
        vec!["c".to_string()],
        get_resources_args_part_1(
            &vec!["a".to_string(), "b:c".to_string(), "d:e".to_string()],
            "b".to_string()
        )
    );
    assert_eq!(
        Vec::<String>::new(),
        get_resources_args_part_1(
            &vec!["a".to_string(), "b:c".to_string(), "d:e".to_string()],
            "a".to_string()
        )
    );
}

#[test]
fn test_get_resources_args_split_on_the_first_colon_only() {
    assert_eq!(
        strings(vec!["a", ""]),
        get_resources_args_part_0(&strings(vec!["a:b:c", "a:", ":x"]))
    );
    assert_eq!(
        strings(vec!["a", "", "ab"]),
        get_resources_args_part_0(&strings(vec!["a:b:c", ":x", "ab:c"]))
    );
    assert_eq!(
        strings(vec!["b:c", ""]),
        get_resources_args_part_1(&strings(vec!["a:b:c", "a:", ":x", "ab:c"]), "a".to_string())
    );
}

#[test]
fn test_reorder_resources_from_dependencies_returns_resources_in_right_order() {
    let resources = map_of(vec![
        ("b", noop(Some(vec!["a"]))),
        ("a", noop(None)),
        ("c", noop(Some(vec!["b"]))),
    ]);

    assert_eq!(
        vec![
            ("a".to_string(), noop(None)),
            ("b".to_string(), noop(Some(vec!["a"]))),
            ("c".to_string(), noop(Some(vec!["b"]))),
        ],
        pairs(&reorder_resources_from_dependencies(&resources))
    );
}

#[test]
fn test_get_filtered_resources_returns_resources_recursively_based_on_dependencies_parameter() {
    let resources = map_of(vec![
        ("b", noop(Some(vec!["a"]))),
        ("a", noop(None)),
        ("c", noop(Some(vec!["b"]))),
        ("d", noop(None)),
    ]);

    assert_eq!(
        vec![
            ("a".to_string(), noop(None)),
            ("b".to_string(), noop(Some(vec!["a"]))),
            ("c".to_string(), noop(Some(vec!["b"]))),
        ],
        pairs(&get_filtered_resources(
            &resources,
            vec!["c".to_string()],
            true
        ))
    );

    assert_eq!(
        vec![("c".to_string(), noop(Some(vec!["b"])))],
        pairs(&get_filtered_resources(
            &resources,
            vec!["c".to_string()],
            false
        ))
    );
}

#[test]
fn test_selector_with_dependencies_yields_all_in_order_and_without_only_itself() {
    let resources = map_of(vec![
        ("a", noop(Some(vec![]))),
        ("b", noop(Some(vec!["a"]))),
        ("c", noop(Some(vec!["b"]))),
    ]);
    assert_eq!(
        strings(vec!["a", "b", "c"]),
        get_filtered_resources(&resources, strings(vec!["c"]), true).keys()
    );
    assert_eq!(
        strings(vec!["c"]),
        get_filtered_resources(&resources, strings(vec!["c"]), false).keys()
    );
}

#[test]
fn test_get_filtered_resources_without_dependencies_keeps_the_order_of_the_stack() {
    let resources = map_of(vec![("a", noop(None)), ("b", noop(None)), ("c", noop(None))]);
    assert_eq!(
        strings(vec!["c", "a"]),
        get_filtered_resources(&resources, strings(vec!["a", "c", "c"]), false).keys()
    );
}

#[test]
fn test_get_filtered_resources_ignores_names_that_are_no_keys() {
    let resources = map_of(vec![("a", noop(Some(vec!["ghost"]))), ("b", noop(None))]);
    assert_eq!(
        strings(vec!["a"]),
        get_filtered_resources(&resources, strings(vec!["nothing", "a"]), false).keys()
    );
}

#[test]
fn test_reorder_is_stable_among_resources_that_are_ready_together() {
    let resources = map_of(vec![
        ("z", noop(None)),
        ("m", noop(Some(vec!["q"]))),
        ("a", noop(None)),
        ("q", noop(None)),
    ]);
    assert_eq!(
        strings(vec!["z", "a", "q", "m"]),
        reorder_resources_from_dependencies(&resources).keys()
    );
}

#[test]
fn test_reorder_stops_where_resources_wait_for_each_other() {
    let resources = map_of(vec![
        ("a", noop(None)),
        ("b", noop(Some(vec!["c"]))),
        ("c", noop(Some(vec!["b"]))),
    ]);
    assert_eq!(
        strings(vec!["a"]),
        reorder_resources_from_dependencies(&resources).keys()
    );
}

#[test]
fn test_has_pending_resources_tells_whether_a_key_is_missing() {
    let resources = map_of(vec![("a", noop(None)), ("b", noop(None))]);
    let some = map_of(vec![("a", noop(None))]);
    let all = map_of(vec![("b", noop(None)), ("a", noop(None))]);
    assert!(has_pending_resources(&resources, &ResourceMap::new()));
    assert!(has_pending_resources(&resources, &some));
    assert!(!has_pending_resources(&resources, &all));
    assert!(!has_pending_resources(&ResourceMap::new(), &ResourceMap::new()));
}

fn tree_with_group() -> ResourceMap {
    let group = map_of(vec![
        ("b", shell("echo b", None)),
        ("c", shell("echo c", Some(vec!["b"]))),
        ("d", shell("echo d", Some(vec!["c"]))),
    ]);
    map_of(vec![
        (
            "a",
            ResourceWithDepdencies {
                resource: Resource::Group { group },
                depends_on: None,
            },
        ),
        ("e", shell("echo e", Some(vec!["a"]))),
    ])
}

#[test]
fn test_no_dependencies_enables_from_leaf_group_in_resource_args() {
    let resources = tree_with_group();
    let planned = run_resources(&resources, None, vec!["a".to_string()], false);
    assert_eq!(strings(vec!["b", "c", "d"]), planned_keys(&planned));
    assert_eq!(
        vec![
            Some("a".to_string()),
            Some("a".to_string()),
            Some("a".to_string())
        ],
        planned
            .iter()
            .map(|p| p.namespace.clone())
            .collect::<Vec<Option<String>>>()
    );
}

#[test]
fn test_no_dependencies_disables_from_leaf_resource_with_adjacent_resources_in_resource_args() {
    let resources = tree_with_group();
    let planned = run_resources(&resources, None, vec!["a:d".to_string()], false);
    assert_eq!(strings(vec!["d"]), planned_keys(&planned));
    assert_eq!(
        Resource::Shell {
            shell: Shell {
                input: "echo d".to_string()
            }
        },
        planned[0].resource
    );
}

#[test]
fn test_bare_group_runs_whole_and_qualified_group_runs_what_is_named() {
    let group = map_of(vec![("c", noop(None)), ("d", noop(Some(vec!["c"])))]);
    let resources = map_of(vec![
        ("a", noop(None)),
        (
            "b",
            ResourceWithDepdencies {
                resource: Resource::Group { group },
                depends_on: Some(vec!["a".to_string()]),
            },
        ),
    ]);
    assert_eq!(
        strings(vec!["c", "d"]),
        planned_keys(&run_resources(&resources, None, strings(vec!["b"]), false))
    );
    assert_eq!(
        strings(vec!["d"]),
        planned_keys(&run_resources(&resources, None, strings(vec!["b:d"]), false))
    );
    assert_eq!(
        strings(vec!["a", "c", "d"]),
        planned_keys(&run_resources(&resources, None, strings(vec!["b:d"]), true))
    );
    assert_eq!(
        strings(vec!["a", "c", "d"]),
        planned_keys(&run_resources(&resources, None, strings(vec!["b"]), true))
    );
}

#[test]
fn test_nested_groups_carry_the_path_of_their_keys() {
    let inner = map_of(vec![("x", noop(None))]);
    let outer = map_of(vec![(
        "g",
        ResourceWithDepdencies {
            resource: Resource::Group { group: inner },
            depends_on: None,
        },
    )]);
    let resources = map_of(vec![(
        "top",
        ResourceWithDepdencies {
            resource: Resource::Group { group: outer },
            depends_on: None,
        },
    )]);
    let planned = run_resources(&resources, None, strings(vec!["top:g:x"]), false);
    assert_eq!(1, planned.len());
    assert_eq!("x", planned[0].key);
    assert_eq!(Some("top:g".to_string()), planned[0].namespace);
}

#[test]
fn test_run_resources_goes_through_resources_to_run_them() {
    let resources = tree_with_group();
    assert_eq!(
        Vec::<PlannedResource>::new(),
        run_resources(&resources, None, vec![], false)
    );
    assert_eq!(
        strings(vec!["b", "c", "d", "e"]),
        planned_keys(&run_resources(&resources, None, resources.keys(), true))
    );
}

#[test]
fn test_get_resources_args_part_0_names_each_key_once() {
    assert_eq!(
        strings(vec!["b", "a"]),
        get_resources_args_part_0(&strings(vec!["b:c", "b:d", "a"]))
    );
    assert_eq!(
        strings(vec!["b", "a"]),
        get_resources_args_part_0(&strings(vec!["a", "b", "a"]))
    );
    assert_eq!(
        strings(vec!["a"]),
        get_resources_args_part_0(&strings(vec!["a", "a:x", "a:y:z", "a"]))
    );
    assert_eq!(
        Vec::<String>::new(),
        get_resources_args_part_0(&Vec::new())
    );
}

#[test]
fn test_tokens_that_name_a_key_again_select_nothing_more() {
    let resources = map_of(vec![
        ("a", noop(None)),
        ("b", noop(None)),
        ("c", noop(Some(vec!["a"]))),
    ]);
    for dependencies in [false, true] {
        assert_eq!(
            planned_keys(&run_resources(
                &resources,
                None,
                strings(vec!["b", "a"]),
                dependencies
            )),
            planned_keys(&run_resources(
                &resources,
                None,
                strings(vec!["a", "b", "a"]),
                dependencies
            ))
        );
        assert_eq!(
            get_filtered_resources(&resources, strings(vec!["c", "b", "c"]), dependencies).keys(),
            get_filtered_resources(&resources, strings(vec!["b", "c"]), dependencies).keys()
        );
    }
    assert_eq!(
        strings(vec!["a", "b"]),
        planned_keys(&run_resources(
            &resources,
            None,
            strings(vec!["a", "b", "a"]),
            false
        ))
    );
    assert_eq!(
        strings(vec!["a", "b", "c"]),
        planned_keys(&run_resources(
            &resources,
            None,
            strings(vec!["c", "b", "c"]),
            true
        ))
    );
}

#[test]
fn test_group_named_twice_runs_once_with_all_its_qualifiers() {
    let resources = tree_with_group();
    assert_eq!(
        strings(vec!["d", "b"]),
        planned_keys(&run_resources(
            &resources,
            None,
            strings(vec!["a:b", "a:d"]),
            false
        ))
    );
    assert_eq!(
        strings(vec!["b", "c", "d"]),
        planned_keys(&run_resources(
            &resources,
            None,
            strings(vec!["a:d", "a:b", "a:d"]),
            true
        ))
    );
}
