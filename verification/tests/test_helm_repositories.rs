use libm8s::file_format::HelmRepository;
use libm8s::helm_repositories::handle_helm_repositories;
use libm8s::utils::Command;

fn strings(items: Vec<&str>) -> Vec<String> {
    items.into_iter().map(|s| s.to_string()).collect()
}

fn repositories() -> Vec<HelmRepository> {
    vec![
        HelmRepository {
            name: "a".to_string(),
            url: "https://a.example.com".to_string(),
        },
        HelmRepository {
            name: "b".to_string(),
            url: "https://b.example.com".to_string(),
        },
    ]
}

#[test]
fn test_handle_helm_repositories_runs_helm_add_and_update_for_each_repository() {
    let dry_run = true;
    assert_eq!(
        vec![
            Command {
                program: "helm".to_string(),
                args: strings(vec!["repo", "add", "a", "https://a.example.com"]),
                kubeconfig: None,
                spawn: false,
            },
            Command {
                program: "helm".to_string(),
                args: strings(vec!["repo", "update", "a"]),
                kubeconfig: None,
                spawn: false,
            },
            Command {
                program: "helm".to_string(),
                args: strings(vec!["repo", "add", "b", "https://b.example.com"]),
                kubeconfig: None,
                spawn: false,
            },
            Command {
                program: "helm".to_string(),
                args: strings(vec!["repo", "update", "b"]),
                kubeconfig: None,
                spawn: false,
            },
        ],
        handle_helm_repositories(&repositories(), dry_run)
    );
}

#[test]
fn test_handle_helm_repositories_starts_its_commands_outside_a_dry_run() {
    let commands = handle_helm_repositories(&repositories(), false);
    assert_eq!(4, commands.len());
    assert!(commands.iter().all(|c| c.spawn));
    assert!(handle_helm_repositories(&vec![], false).is_empty());
}
