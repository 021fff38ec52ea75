# load_balancer

A TCP load balancer whose decisions are verified with Verus.

- `src/` is the verified library:
  - `config.rs`: services, backends, strategies and health-check settings;
  - `pool.rs`: the backend pool (health flags, active connections, connection
    slots), modelled as a sequence of backend states, with its laws;
  - `balancing/`: the `BalancingStrategy` trait, round-robin and
    least-connections, and the strategy a service is configured with;
  - `health.rs`: what a health probe changes in the pool;
  - `server.rs`: the strategy of a service, the start-up check, and the
    admission decision for each accepted client;
  - `cli.rs`: the command-line options.
- `app/` is the program around it: clap, TOML files, Tokio sockets and tasks,
  the shared (locked) pool and the guard that gives a slot back when a
  connection ends.
- `tests/` exercises the library on concrete values.
