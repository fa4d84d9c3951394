# paros_sim

A verified core for the deterministic simulation of a Paxos cluster: the disk
the nodes boot from, the faults that may befall it, the scripts that provoke
recovery, and the oracles that judge a run.

- `src/` is the library. Verus proves every function of it against its
  contract. Chance enters it in two places only, the draws of `src/draws.rs`;
  every other coin is an argument.
- `app/` drives the library under the simulator: processes, workloads, fault
  injectors and campaigns. It takes the system under simulation as an
  implementation of its `System` trait.
- `tests/` runs the library on concrete values.

The parts of the library:

| Modules | What they hold |
| --- | --- |
| `records`, `disk`, `registry`, `ordered`, `names` | the data: records, disks, registries, ordered maps |
| `world`, `ledger`, `budget`, `gates` | the run's durable world, its fault ledgers and its budget |
| `storage`, `stage`, `writes`, `flush`, `sync`, `durability` | one node's store: staging, faults, flushing |
| `scan`, `rot`, `faults`, `probe`, `draws` | boot rot, the boot scan, fault rates |
| `matchmaker`, `matchmaking` | the matchmakers' registries and their client |
| `roles`, `quorum`, `shape`, `process`, `hooks`, `lifecycle` | who plays which role, and how it is perturbed |
| `oracle`, `workload`, `protocol_bounds` | agreement, the client's script, the protocol's bounds |
| `masks`, `chunk_masks`, `script`, `corpus` | scripted recovery cases and what they must come to |
