use vstd::prelude::*;

use crate::service::ServiceConfig;
use crate::text::{is_blank, is_blank_text};

verus! {

/// The whole configuration: the services to supervise.
#[derive(Clone, Debug)]
pub struct Config {
    pub services: Vec<ServiceConfig>,
}

/// Why a configuration is refused; `service` is the index of the offending service.
#[derive(Debug, Clone, Copy, PartialEq, Eq, Structural)]
pub enum ConfigError {
    /// The configuration lists no service.
    NoServices,
    /// The service's name is empty or white space only.
    BlankName { service: usize },
    /// An earlier service has the same name.
    DuplicateName { service: usize },
    /// The service's command is empty.
    EmptyCommand { service: usize },
    /// The service's respawn window is zero seconds.
    ZeroRespawnWindow { service: usize },
}

/// What is wrong with service `i`, checked in the order: blank name, name
/// already used by an earlier service, empty command, zero respawn window.
pub open spec fn service_error(services: Seq<ServiceConfig>, i: int) -> Option<ConfigError> {
    let s = services[i];
    if is_blank_text(s.name@) {
        Some(ConfigError::BlankName { service: i as usize })
    } else if exists|j: int| 0 <= j < i && #[trigger] services[j].name@ == s.name@ {
        Some(ConfigError::DuplicateName { service: i as usize })
    } else if s.command@.len() == 0 {
        Some(ConfigError::EmptyCommand { service: i as usize })
    } else if s.respawn_window_secs == 0 {
        Some(ConfigError::ZeroRespawnWindow { service: i as usize })
    } else {
        None
    }
}

/// Every service is acceptable.
pub open spec fn services_valid(services: Seq<ServiceConfig>) -> bool {
    forall|i: int| 0 <= i < services.len() ==> #[trigger] service_error(services, i) is None
}

/// The error reported for `services`: that of the first service with one.
pub open spec fn is_first_error(services: Seq<ServiceConfig>, e: ConfigError) -> bool {
    exists|i: int|
        0 <= i < services.len() && service_error(services, i) == Some(e) && forall|j: int|
            0 <= j < i ==> #[trigger] service_error(services, j) is None
}

/// A list of services is valid exactly when every service has a name that is
/// not blank, a command and a respawn window of at least one second, and no
/// two services share a name.
pub proof fn lemma_services_valid_meaning(services: Seq<ServiceConfig>)
    ensures
        services_valid(services) <==> {
            &&& forall|i: int| 0 <= i < services.len() ==> !is_blank_text(#[trigger] services[i].name@)
                && services[i].command@.len() > 0 && services[i].respawn_window_secs != 0
            &&& forall|i: int, j: int| 0 <= i < j < services.len() ==> #[trigger] services[i].name@ != #[trigger] services[j].name@
        },
{
    if services_valid(services) {
        assert forall|i: int| 0 <= i < services.len() implies !is_blank_text(#[trigger] services[i].name@)
            && services[i].command@.len() > 0 && services[i].respawn_window_secs != 0 by {
            assert(service_error(services, i) is None);
        }
        assert forall|i: int, j: int| 0 <= i < j < services.len() implies #[trigger] services[i].name@ != #[trigger] services[j].name@ by {
            assert(service_error(services, j) is None);
        }
    }
    if forall|i: int| 0 <= i < services.len() ==> !is_blank_text(#[trigger] services[i].name@)
        && services[i].command@.len() > 0 && services[i].respawn_window_secs != 0 {
        if forall|i: int, j: int| 0 <= i < j < services.len() ==> #[trigger] services[i].name@ != #[trigger] services[j].name@ {
            assert forall|i: int| 0 <= i < services.len() implies #[trigger] service_error(services, i) is None by {
                assert(!is_blank_text(services[i].name@));
            }
        }
    }
}

/// The error reported for a list of services names the first service that
/// fails, and what is wrong with it: every service before it is acceptable and
/// their names are distinct; a duplicate name repeats the name of an earlier
/// service; each later check is reached only when the earlier ones pass.
pub proof fn lemma_config_error_meaning(services: Seq<ServiceConfig>, e: ConfigError)
    requires
        services.len() <= usize::MAX,
        is_first_error(services, e),
    ensures
        !(e is NoServices),
        ({
            let i: int = match e {
                ConfigError::BlankName { service } => service as int,
                ConfigError::DuplicateName { service } => service as int,
                ConfigError::EmptyCommand { service } => service as int,
                ConfigError::ZeroRespawnWindow { service } => service as int,
                ConfigError::NoServices => 0,
            };
            &&& 0 <= i < services.len()
            &&& forall|j: int| 0 <= j < i ==> !is_blank_text(#[trigger] services[j].name@)
                && services[j].command@.len() > 0 && services[j].respawn_window_secs != 0
            &&& forall|j1: int, j2: int| 0 <= j1 < j2 < i ==> #[trigger] services[j1].name@ != #[trigger] services[j2].name@
            &&& (e is BlankName <==> is_blank_text(services[i].name@))
            &&& (e is DuplicateName <==> !is_blank_text(services[i].name@) && exists|j: int|
                0 <= j < i && #[trigger] services[j].name@ == services[i].name@)
            &&& (e is EmptyCommand <==> !is_blank_text(services[i].name@) && (forall|j: int|
                0 <= j < i ==> #[trigger] services[j].name@ != services[i].name@) && services[i].command@.len() == 0)
            &&& (e is ZeroRespawnWindow <==> !is_blank_text(services[i].name@) && (forall|j: int|
                0 <= j < i ==> #[trigger] services[j].name@ != services[i].name@) && services[i].command@.len() > 0
                && services[i].respawn_window_secs == 0)
        }),
{
    let i = choose|i: int|
        0 <= i < services.len() && service_error(services, i) == Some(e) && forall|j: int|
            0 <= j < i ==> #[trigger] service_error(services, j) is None;
    assert forall|j: int| 0 <= j < i implies !is_blank_text(#[trigger] services[j].name@)
        && services[j].command@.len() > 0 && services[j].respawn_window_secs != 0 by {
        assert(service_error(services, j) is None);
    }
    assert forall|j1: int, j2: int| 0 <= j1 < j2 < i implies #[trigger] services[j1].name@ != #[trigger] services[j2].name@ by {
        assert(service_error(services, j2) is None);
    }
    let s = services[i];
    if is_blank_text(s.name@) {
        assert(e == ConfigError::BlankName { service: i as usize });
    } else if exists|j: int| 0 <= j < i && #[trigger] services[j].name@ == services[i].name@ {
        assert(e == ConfigError::DuplicateName { service: i as usize });
    } else if s.command@.len() == 0 {
        assert(e == ConfigError::EmptyCommand { service: i as usize });
    } else {
        assert(e == ConfigError::ZeroRespawnWindow { service: i as usize });
    }
}

/// Whether an earlier service among `services[..i]` has the name of `services[i]`.
fn name_used_before(services: &Vec<ServiceConfig>, i: usize) -> (res: bool)
    requires
        i < services@.len(),
    ensures
        res == exists|j: int| 0 <= j < i && #[trigger] services@[j].name@ == services@[i as int].name@,
{
    let mut j: usize = 0;
    while j < i
        invariant
            i < services@.len(),
            0 <= j <= i,
            forall|k: int| 0 <= k < j ==> #[trigger] services@[k].name@ != services@[i as int].name@,
        decreases i - j,
    {
        if services[j].name == services[i].name {
            return true;
        }
        j = j + 1;
    }
    false
}

/// Checks every service, in order: its name is not blank and not used by an
/// earlier service, its command is not empty and its respawn window is not zero.
pub fn validate_config(config: &Config) -> (res: Result<(), ConfigError>)
    ensures
        res is Ok <==> services_valid(config.services@),
        res matches Err(e) ==> is_first_error(config.services@, e),
        res is Ok <==> {
            &&& forall|i: int| 0 <= i < config.services@.len() ==> !is_blank_text(#[trigger] config.services@[i].name@)
                && config.services@[i].command@.len() > 0 && config.services@[i].respawn_window_secs != 0
            &&& forall|i: int, j: int|
                0 <= i < j < config.services@.len() ==> #[trigger] config.services@[i].name@
                    != #[trigger] config.services@[j].name@
        },
        res matches Err(ConfigError::DuplicateName { service }) ==> service < config.services@.len() && exists|j: int|
            0 <= j < service && #[trigger] config.services@[j].name@ == config.services@[service as int].name@,
{
    let services = &config.services;
    let mut i: usize = 0;
    while i < services.len()
        invariant
            services == &config.services,
            0 <= i <= services@.len(),
            forall|j: int| 0 <= j < i ==> #[trigger] service_error(services@, j) is None,
        decreases services@.len() - i,
    {
        let service = &services[i];
        let error = if is_blank(service.name.as_str()) {
            Some(ConfigError::BlankName { service: i })
        } else if name_used_before(services, i) {
            Some(ConfigError::DuplicateName { service: i })
        } else if service.command.len() == 0 {
            Some(ConfigError::EmptyCommand { service: i })
        } else if service.respawn_window_secs == 0 {
            Some(ConfigError::ZeroRespawnWindow { service: i })
        } else {
            None
        };
        assert(error == service_error(services@, i as int));
        match error {
            Some(e) => {
                assert(!services_valid(services@));
                proof {
                    assert(is_first_error(services@, e));
                    lemma_config_error_meaning(services@, e);
                }
                return Err(e);
            },
            None => {},
        }
        i = i + 1;
    }
    proof {
        lemma_services_valid_meaning(services@);
        assert forall|i: int| 0 <= i < services@.len() implies !is_blank_text(#[trigger] services@[i].name@)
            && services@[i].command@.len() > 0 && services@[i].respawn_window_secs != 0 by {
            assert(service_error(services@, i) is None);
        }
        assert forall|i: int, j: int| 0 <= i < j < services@.len() implies #[trigger] services@[i].name@
            != #[trigger] services@[j].name@ by {
            assert(service_error(services@, j) is None);
        }
    }
    Ok(())
}

/// Checks a configuration that was just read: it must list at least one
/// service, and every service must pass `validate_config`.
pub fn check_config(config: &Config) -> (res: Result<(), ConfigError>)
    ensures
        config.services@.len() == 0 ==> res == Err::<(), ConfigError>(ConfigError::NoServices),
        config.services@.len() > 0 ==> (res is Ok <==> services_valid(config.services@)),
        config.services@.len() > 0 ==> (res matches Err(e) ==> is_first_error(config.services@, e)),
{
    if config.services.len() == 0 {
        return Err(ConfigError::NoServices);
    }
    validate_config(config)
}

} // verus!
