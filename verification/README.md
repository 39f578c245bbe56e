# minit_rs

A PID1 init system for embedded systems. The library in `src/` holds its
decisions, each proved against its contract with Verus:

- `config`: checks a configuration (names not blank and unique, commands not
  empty, respawn windows not zero).
- `deps`: the tokens each service provides and the order in which to start the
  services, refusing duplicate providers, missing providers and cycles.
- `supervisor`: restart policies and the exponential restart back-off.
- `runtime`: the supervisor's state machine: starts, exits, restarts that are
  due, and the two-step shutdown (SIGTERM in reverse start order, SIGKILL after
  the timeout).
- `trace`: the supervision loop as a sequence of steps, with its laws: the
  initial starts follow the start order, SIGTERM goes out once to every
  running child, SIGKILL once and only after the timeout, and a service is
  spawned again only after an exit that scheduled a restart.
- `service`, `text`: service defaults and command lines; white space and the
  debug switch.

`app/` is the program around it: it reads the JSON file, spawns and reaps
processes, sends signals and sleeps, and hands what happened to the library.
