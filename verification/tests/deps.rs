use minit_rs::{
    command_line, default_respawn_delay_secs, default_respawn_window_secs, default_restart_policy,
    provided_tokens, resolve_start_order, DepsError, RestartPolicy, ServiceConfig, SpawnError,
};

fn svc(name: &str, depends: &[&str], provides: &[&str]) -> ServiceConfig {
    ServiceConfig {
        name: name.to_string(),
        command: vec!["/bin/true".to_string()],
        depends: depends.iter().map(|s| s.to_string()).collect(),
        provides: provides.iter().map(|s| s.to_string()).collect(),
        restart: RestartPolicy::OnFailure,
        respawn_delay_secs: 1,
        respawn_max: 0,
        respawn_window_secs: 60,
    }
}

#[test]
fn empty_configuration_has_empty_order() {
    assert_eq!(resolve_start_order(&[]).unwrap(), Vec::<usize>::new());
}

#[test]
fn independent_services_keep_their_order() {
    let services = vec![svc("a", &[], &[]), svc("b", &[], &[]), svc("c", &[], &[])];
    assert_eq!(resolve_start_order(&services).unwrap(), vec![0, 1, 2]);
}

#[test]
fn dependencies_start_first() {
    let services = vec![
        svc("web", &["db", "net"], &[]),
        svc("db", &["net"], &[]),
        svc("network", &[], &["net"]),
    ];
    assert_eq!(resolve_start_order(&services).unwrap(), vec![2, 1, 0]);
}

#[test]
fn queue_order_is_first_in_first_out() {
    let services = vec![
        svc("a", &[], &[]),
        svc("b", &["a"], &[]),
        svc("c", &[], &[]),
        svc("d", &["a"], &[]),
    ];
    assert_eq!(resolve_start_order(&services).unwrap(), vec![0, 2, 1, 3]);
}

#[test]
fn self_dependency_is_ignored() {
    let services = vec![svc("a", &["a", "alias"], &["alias"])];
    assert_eq!(resolve_start_order(&services).unwrap(), vec![0]);
}

#[test]
fn duplicate_provider_is_refused() {
    let services = vec![svc("a", &[], &["log"]), svc("b", &[], &[]), svc("c", &[], &["x", "log"])];
    match resolve_start_order(&services) {
        Err(DepsError::DuplicateProvider { token, previous, current }) => {
            assert_eq!(token, "log");
            assert_eq!(previous, 0);
            assert_eq!(current, 2);
        }
        other => panic!("unexpected {:?}", other),
    }
}

#[test]
fn name_clashing_with_a_provided_token_is_refused() {
    let services = vec![svc("a", &[], &["b"]), svc("b", &[], &[])];
    match resolve_start_order(&services) {
        Err(DepsError::DuplicateProvider { token, previous, current }) => {
            assert_eq!(token, "b");
            assert_eq!(previous, 0);
            assert_eq!(current, 1);
        }
        other => panic!("unexpected {:?}", other),
    }
}

#[test]
fn repeated_token_in_one_service_is_not_a_duplicate() {
    let services = vec![svc("a", &[], &["a", "x", "x"]), svc("b", &["x"], &[])];
    assert_eq!(resolve_start_order(&services).unwrap(), vec![0, 1]);
}

#[test]
fn missing_provider_is_refused() {
    let services = vec![svc("a", &[], &[]), svc("b", &["a", "ghost", "other"], &[])];
    match resolve_start_order(&services) {
        Err(DepsError::MissingProvider { service, dependency }) => {
            assert_eq!(service, 1);
            assert_eq!(dependency, "ghost");
        }
        other => panic!("unexpected {:?}", other),
    }
}

#[test]
fn duplicates_are_reported_before_missing_providers() {
    let services = vec![svc("a", &["ghost"], &[]), svc("a", &[], &[])];
    assert!(matches!(
        resolve_start_order(&services),
        Err(DepsError::DuplicateProvider { previous: 0, current: 1, .. })
    ));
}

#[test]
fn cycle_is_refused() {
    let services = vec![svc("a", &["b"], &[]), svc("b", &["c"], &[]), svc("c", &["a"], &[]), svc("d", &[], &[])];
    assert!(matches!(resolve_start_order(&services), Err(DepsError::Cycle)));
}

#[test]
fn two_service_cycle_is_refused() {
    let services = vec![svc("a", &["b"], &[]), svc("b", &["a"], &[])];
    assert!(matches!(resolve_start_order(&services), Err(DepsError::Cycle)));
}

#[test]
fn tokens_of_a_service() {
    let s = svc("web", &[], &["http", "web", "https", "http"]);
    let tokens: Vec<&str> = provided_tokens(&s).into_iter().map(|t| t.as_str()).collect();
    assert_eq!(tokens, vec!["web", "http", "https"]);
}

#[test]
fn defaults_of_a_service() {
    assert_eq!(default_restart_policy(), RestartPolicy::OnFailure);
    assert_eq!(default_respawn_delay_secs(), 1);
    assert_eq!(default_respawn_window_secs(), 60);
}

#[test]
fn command_line_of_a_service() {
    let mut s = svc("x", &[], &[]);
    s.command = vec!["/bin/sh".to_string(), "-c".to_string(), "sleep 5".to_string()];
    let (program, args) = command_line(&s).unwrap();
    assert_eq!(program, "/bin/sh");
    assert_eq!(args, vec!["-c".to_string(), "sleep 5".to_string()]);
    s.command.clear();
    assert_eq!(command_line(&s), Err(SpawnError::EmptyCommand));
}
