use vstd::prelude::*;

verus! {

/// When a supervised service is started again after it exits.
#[derive(Clone, Copy, Debug, PartialEq, Eq, Structural)]
pub enum RestartPolicy {
    /// Restart whatever the exit status was.
    Always,
    /// Restart only after a non-zero exit code or a death by signal.
    OnFailure,
    /// Never restart.
    Never,
}

/// The configuration of one supervised service.
#[derive(Clone, Debug)]
pub struct ServiceConfig {
    /// The service's name; it is also a token that the service provides.
    pub name: String,
    /// The program to run followed by its arguments.
    pub command: Vec<String>,
    /// Tokens that must be provided by other services started before this one.
    pub depends: Vec<String>,
    /// Further tokens that this service provides besides its name.
    pub provides: Vec<String>,
    /// What happens when the service exits.
    pub restart: RestartPolicy,
    /// Base restart delay in seconds.
    pub respawn_delay_secs: u64,
    /// Maximum quick restarts inside the respawn window; 0 means unlimited.
    pub respawn_max: u32,
    /// Length in seconds of the window after which the restart counter resets.
    pub respawn_window_secs: u64,
}

/// The view of a sequence of strings as a sequence of character sequences.
pub open spec fn string_views(v: Seq<String>) -> Seq<Seq<char>> {
    v.map_values(|s: String| s@)
}

/// The policy a service gets when its configuration names none.
pub fn default_restart_policy() -> (policy: RestartPolicy)
    ensures
        policy == RestartPolicy::OnFailure,
{
    RestartPolicy::OnFailure
}

/// The base restart delay, in seconds, a service gets when its configuration names none.
pub fn default_respawn_delay_secs() -> (secs: u64)
    ensures
        secs == 1,
{
    1
}

/// The respawn window, in seconds, a service gets when its configuration names none.
pub fn default_respawn_window_secs() -> (secs: u64)
    ensures
        secs == 60,
{
    60
}

/// Why a service cannot be spawned.
#[derive(Debug, Clone, Copy, PartialEq, Eq, Structural)]
pub enum SpawnError {
    /// The service's command has no program.
    EmptyCommand,
}

/// What a spawn of the service runs: the program and its arguments.
/// A service whose command is empty cannot be spawned.
pub fn command_line(service: &ServiceConfig) -> (res: Result<(String, Vec<String>), SpawnError>)
    ensures
        service.command@.len() == 0 <==> res is Err,
        res matches Ok((program, args)) ==> {
            &&& program@ == service.command@[0]@
            &&& string_views(args@) == string_views(service.command@.drop_first())
        },
{
    if service.command.len() == 0 {
        return Err(SpawnError::EmptyCommand);
    }
    let program = service.command[0].clone();
    let mut args: Vec<String> = Vec::new();
    let mut i: usize = 1;
    while i < service.command.len()
        invariant
            1 <= i <= service.command@.len(),
            string_views(args@) == string_views(service.command@.subrange(1, i as int)),
        decreases service.command@.len() - i,
    {
        let ghost before = args@;
        args.push(service.command[i].clone());
        proof {
            assert(service.command@.subrange(1, i + 1) =~= service.command@.subrange(1, i as int).push(
                service.command@[i as int],
            ));
            assert(string_views(args@) =~= string_views(before).push(service.command@[i as int]@));
            assert(string_views(service.command@.subrange(1, i + 1)) =~= string_views(
                service.command@.subrange(1, i as int),
            ).push(service.command@[i as int]@));
        }
        i = i + 1;
    }
    proof {
        assert(service.command@.subrange(1, service.command@.len() as int)
            == service.command@.drop_first());
    }
    Ok((program, args))
}

} // verus!
