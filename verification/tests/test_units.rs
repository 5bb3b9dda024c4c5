use libm8s::file_format::{Resource, ResourceMap, ResourceWithDepdencies};
use libm8s::units::{
    get_filtered_units, get_units_args_for_group, get_units_args_part_0, get_units_args_part_1,
    has_pending_units, reorder_units_from_dependencies, run_units,
};

fn noop(depends_on: Option<Vec<&str>>) -> ResourceWithDepdencies {
    ResourceWithDepdencies {
        resource: Resource::Noop {
            noop: "".to_string(),
        },
        depends_on: depends_on.map(|list| list.into_iter().map(|s| s.to_string()).collect()),
    }
}

fn map_of(entries: Vec<(&str, ResourceWithDepdencies)>) -> ResourceMap {
    let mut map = ResourceMap::new();
    for (key, entry) in entries {
        map.insert(key.to_string(), entry);
    }
    map
}

fn pairs(map: &ResourceMap) -> Vec<(String, ResourceWithDepdencies)> {
    let mut out = Vec::new();
    let mut i = 0;
    while let Some((key, entry)) = map.get_index(i) {
        out.push((key.clone(), entry.clone()));
        i += 1;
    }
    out
}

#[test]
fn test_get_units_args_for_group_adds_all_units_if_none_passed() {
    let group = map_of(vec![("c", noop(None)), ("d", noop(None))]);
    let units = map_of(vec![
        ("a", noop(None)),
        (
            "b",
            ResourceWithDepdencies {
                resource: Resource::Group { group },
                depends_on: Some(vec!["a".to_string()]),
            },
        ),
    ]);

    if let Resource::Group { ref group } = units.get(&"b".to_string()).unwrap().resource {
        assert_eq!(
            vec!["c".to_string()],
            get_units_args_for_group(vec!["b:c".to_string()], "b".to_string(), group)
        );
        assert_eq!(
            vec!["c".to_string(), "d".to_string()],
            get_units_args_for_group(vec!["b".to_string()], "b".to_string(), group)
        );
    } else {
        unreachable!();
    }
}

#[test]
fn test_get_units_args_part_0_returns_part_before_colon() {
    assert_eq!(
        vec!["a".to_string(), "b".to_string()],
        get_units_args_part_0(&vec!["a".to_string(), "b:c".to_string()])
    );
}

#[test]
fn test_get_units_args_part_1_returns_part_after_colon_or_nothing() {
    assert_eq!(
        vec!["c".to_string()],
        get_units_args_part_1(
            &vec!["a".to_string(), "b:c".to_string(), "d:e".to_string()],
            "b".to_string()
        )
    );
    assert_eq!(
        Vec::<String>::new(),
        get_units_args_part_1(
            &vec!["a".to_string(), "b:c".to_string(), "d:e".to_string()],
            "a".to_string()
        )
    );
}

#[test]
fn test_get_filtered_units_returns_units_recursively_based_on_dependencies_parameter() {
    let units = map_of(vec![
        ("a", noop(None)),
        ("b", noop(Some(vec!["a"]))),
        ("c", noop(Some(vec!["b"]))),
        ("d", noop(None)),
    ]);

    assert_eq!(
        vec![
            ("c".to_string(), noop(Some(vec!["b"]))),
            ("b".to_string(), noop(Some(vec!["a"]))),
            ("a".to_string(), noop(None)),
        ],
        pairs(&get_filtered_units(&units, vec!["c".to_string()], true))
    );

    assert_eq!(
        vec![("c".to_string(), noop(Some(vec!["b"])))],
        pairs(&get_filtered_units(&units, vec!["c".to_string()], false))
    );
}

#[test]
fn test_get_filtered_units_takes_the_last_dependency_first() {
    let units = map_of(vec![
        ("a", noop(Some(vec!["b", "c"]))),
        ("b", noop(Some(vec!["c"]))),
        ("c", noop(None)),
    ]);
    assert_eq!(
        vec!["a".to_string(), "c".to_string(), "b".to_string()],
        get_filtered_units(&units, vec!["a".to_string()], true).keys()
    );
}

#[test]
fn test_reorder_units_without_dependencies_keeps_declaration_order() {
    let units = map_of(vec![
        ("b", noop(Some(vec!["a"]))),
        ("a", noop(None)),
        ("c", noop(Some(vec!["b"]))),
    ]);
    assert_eq!(
        vec!["b".to_string(), "a".to_string(), "c".to_string()],
        reorder_units_from_dependencies(&units, false).keys()
    );
    assert_eq!(
        vec!["a".to_string(), "b".to_string(), "c".to_string()],
        reorder_units_from_dependencies(&units, true).keys()
    );
}

#[test]
fn test_has_pending_units_tells_whether_a_key_is_missing() {
    let units = map_of(vec![("a", noop(None))]);
    assert!(has_pending_units(&units, &ResourceMap::new()));
    assert!(!has_pending_units(&units, &units));
}

#[test]
fn test_run_units_goes_through_units_to_run_them() {
    let units = map_of(vec![
        ("foobarNoop", noop(None)),
        ("foobazNoop", noop(Some(vec!["foobarNoop"]))),
    ]);
    assert_eq!(0, run_units(&units, vec![], false).len());
    let planned = run_units(&units, vec!["foobazNoop".to_string()], true);
    assert_eq!(
        vec!["foobarNoop".to_string(), "foobazNoop".to_string()],
        planned
            .iter()
            .map(|p| p.key.clone())
            .collect::<Vec<String>>()
    );
}

#[test]
fn test_reorder_units_runs_every_unit_once_and_after_its_dependencies() {
    let declared: Vec<(&str, Vec<&str>)> = vec![
        ("h", vec!["g", "a"]),
        ("g", vec!["f"]),
        ("f", vec!["e", "b"]),
        ("e", vec!["d"]),
        ("d", vec!["c"]),
        ("c", vec![]),
        ("b", vec!["a"]),
        ("a", vec![]),
    ];
    let units = map_of(
        declared
            .iter()
            .map(|(key, deps)| (*key, noop(Some(deps.clone()))))
            .collect(),
    );
    let order = reorder_units_from_dependencies(&units, true).keys();
    assert_eq!(declared.len(), order.len());
    let position = |key: &str| order.iter().position(|k| k == key).unwrap();
    for (key, deps) in declared.iter() {
        assert_eq!(1, order.iter().filter(|k| k == key).count());
        for dep in deps.iter() {
            assert!(position(dep) < position(key), "{} before {}", dep, key);
        }
    }
    assert_eq!(
        vec!["c", "a", "d", "b", "e", "f", "g", "h"],
        order.iter().map(|k| k.as_str()).collect::<Vec<&str>>()
    );
}

#[test]
fn test_get_units_args_part_0_names_each_key_once() {
    assert_eq!(
        vec!["b".to_string(), "a".to_string()],
        get_units_args_part_0(&vec![
            "b:c".to_string(),
            "b:d".to_string(),
            "a".to_string()
        ])
    );
    assert_eq!(
        vec!["b".to_string(), "a".to_string()],
        get_units_args_part_0(&vec!["a".to_string(), "b".to_string(), "a".to_string()])
    );
}
