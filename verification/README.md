# jjs

The core logic of the JJS judging system, written in Verus with its
behaviour stated as `requires` / `ensures` contracts and proved.

## Layout

- `src/` — the verified library.
  - `pom`, `valuer_proto`, `cfg` — the problem object model, the messages
    between valuer and invoker, and the valuer configuration with its
    validation.
  - `group`, `ordered`, `fiber`, `valuer` — the simple valuer: subtask groups
    and their state machine, judge-log fibers, and the valuing loop as a
    step function from state and event to next state and action.
  - `ranker` — the contest monitor: party statistics, cells, colors.
  - `manifest` — problem manifests: tests specs, mappings, limits.
  - `importer`, `valuer_cfg` — decisions of the Polygon problem importer and
    of the valuer config import.
  - `ppc`, `pps_api`, `pps_cli`, `pps_server`, `problem_loader` — problem
    building plans and the problem cache.
  - `setup`, `components` — migrations, component states and upgrade plans
    of the setup tool.
  - `soft`, `jail`, `minion`, `userlist`, `text` — toolchain dependency
    collection and template selection, sandbox ids and cgroup readings,
    user list decoding, and the text helpers they share.
- `tests/` — tests that run the compiled library with the real outside
  crates linked.
- `app/` — ordinary Rust around the library: file and process I/O, the
  XML and serde front ends, and the drivers that perform the actions the
  library decides.
