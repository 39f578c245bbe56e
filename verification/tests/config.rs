use minit_rs::{check_config, validate_config, Config, ConfigError, RestartPolicy, ServiceConfig};

fn service(name: &str) -> ServiceConfig {
    ServiceConfig {
        name: name.to_string(),
        command: vec!["/bin/demo".to_string()],
        depends: Vec::new(),
        provides: Vec::new(),
        restart: RestartPolicy::OnFailure,
        respawn_delay_secs: 1,
        respawn_max: 0,
        respawn_window_secs: 60,
    }
}

#[test]
fn reject_duplicate_service_names() {
    let config = Config {
        services: vec![service("demo"), service("demo")],
    };

    assert!(validate_config(&config).is_err());
}

#[test]
fn reject_empty_commands() {
    let mut svc = service("demo");
    svc.command.clear();
    let config = Config {
        services: vec![svc],
    };

    assert!(validate_config(&config).is_err());
}

#[test]
fn duplicate_name_reports_the_later_service() {
    let config = Config {
        services: vec![service("a"), service("b"), service("a")],
    };
    assert_eq!(validate_config(&config), Err(ConfigError::DuplicateName { service: 2 }));
}

#[test]
fn empty_command_reports_its_service() {
    let mut svc = service("b");
    svc.command.clear();
    let config = Config {
        services: vec![service("a"), svc],
    };
    assert_eq!(validate_config(&config), Err(ConfigError::EmptyCommand { service: 1 }));
}

#[test]
fn blank_names_are_refused() {
    let config = Config {
        services: vec![service(" \t\n")],
    };
    assert_eq!(validate_config(&config), Err(ConfigError::BlankName { service: 0 }));
    let config = Config {
        services: vec![service("")],
    };
    assert_eq!(validate_config(&config), Err(ConfigError::BlankName { service: 0 }));
    let config = Config {
        services: vec![service("\u{3000}\u{2028}")],
    };
    assert_eq!(validate_config(&config), Err(ConfigError::BlankName { service: 0 }));
}

#[test]
fn names_with_inner_text_are_accepted() {
    let config = Config {
        services: vec![service("  web  "), service("db")],
    };
    assert_eq!(validate_config(&config), Ok(()));
}

#[test]
fn zero_respawn_window_is_refused() {
    let mut svc = service("demo");
    svc.respawn_window_secs = 0;
    let config = Config {
        services: vec![service("ok"), svc],
    };
    assert_eq!(validate_config(&config), Err(ConfigError::ZeroRespawnWindow { service: 1 }));
}

#[test]
fn first_failing_check_wins() {
    // A blank name is reported before the empty command of the same service.
    let mut svc = service(" ");
    svc.command.clear();
    let config = Config {
        services: vec![svc],
    };
    assert_eq!(validate_config(&config), Err(ConfigError::BlankName { service: 0 }));
    // A duplicate name is reported before its zero window.
    let mut svc = service("a");
    svc.respawn_window_secs = 0;
    let config = Config {
        services: vec![service("a"), svc],
    };
    assert_eq!(validate_config(&config), Err(ConfigError::DuplicateName { service: 1 }));
}

#[test]
fn configuration_without_services_is_refused() {
    let config = Config { services: Vec::new() };
    assert_eq!(check_config(&config), Err(ConfigError::NoServices));
    assert_eq!(validate_config(&config), Ok(()));
}

#[test]
fn valid_configuration_is_accepted() {
    let config = Config {
        services: vec![service("a"), service("b")],
    };
    assert_eq!(check_config(&config), Ok(()));
}
