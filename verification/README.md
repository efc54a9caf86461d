# rivet

Small, sharp tools for running workloads, with their decision logic verified by Verus.

- `src/` is the verified library:
  - `text` — character-level string operations with exact specifications;
  - `digest` — SHA-256 (through the `sha2` crate) rendered as hex;
  - `exec` — `{name}`/`{node}` placeholder substitution in command templates;
  - `spec` — spec documents, instance/node/rollout records and spec hashing;
  - `state` — the reconciler's record of nodes, instances and rollouts, with
    read-after-write laws;
  - `scheduler` — first-fit and best-fit placement on the least-loaded node;
  - `config` — the nodes file and spec file names;
  - `reconciler` — the reconciliation pass and the node liveness pass, as step machines
    that ask their caller to run commands;
  - `pass` — what each step of a reconciliation pass does, stage by stage (the contract
    of `Reconciler::step`), and laws over whole runs of steps: the creates add exactly the
    missing instances, the deletes remove exactly the chosen excess ones, a spec's turn
    brings it to its replicas, and a rollout moves at most one phase per pass;
  - `plan` — plans of a pass (`--plan-only`) and carrying out their entries (`--plan-file`);
  - `iptlb` — iptables rule construction, backends file reading, change detection, and
    the chain, jump-rule and rule installations as step machines;
  - `merge` — JSON Merge Patch (RFC 7396) with its laws;
  - `podlet`, `health`, `cgroups` — the workload supervisor's parsing, port assignment,
    reported state, restart decisions, launch commands, health checks and cgroup files;
  - `probe` — target definitions and reports of the health prober.
- `app/` holds the command-line programs (`flockd`, `iptlb`, `merge`, `podlet`, `probe`,
  `sched`) in one multi-call binary: argument parsing, files, SQLite, processes,
  sockets, signals and timers.
- `tests/` exercises the library on concrete inputs.
