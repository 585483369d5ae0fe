# rig-compose

A composable agent kernel, written in Verus. The decisions an agent runtime
makes are a verified library; the async runtime that performs the calls is
ordinary Rust around it.

## Layout

- `src/` — the verified library (crate `rig_compose`). Every public function
  carries a contract that Verus proves.
  - `text`, `json` — string helpers and the JSON value model (`JsonValue` and
    its view `Json`); parsing and rendering go through `serde_json`.
  - `lfm` — the parser for LFM-style `<|tool_call_start|>` blocks.
  - `normalizer` — tool invocations and the LFM / OpenAI-shaped normalizers.
  - `dispatch`, `trace` — the sequential tool-dispatch loop with hooks, as a
    state machine that records a dispatch trace.
  - `tool`, `envelope` — tool schemas, redaction policies, page tokens and
    the bounding of tool results into envelopes.
  - `context` — context items, rank-ordered packing under a character budget.
  - `reliability` — retry classes, invocation fingerprints, history repair,
    stuck-loop detection.
  - `budget` — unit and token budgets with reservations.
  - `agent`, `coordinator` — the skill chain of an agent step, signal routing.
  - `registry`, `manifest`, `instructions` — kernel errors, catalog order and
    authorisation, manifest materialisation plans, agent instructions.
  - Public `law_*` proof functions state properties that span functions.
- `app/` — the runtime: async `Tool`, `Skill` and `Agent` traits, the
  registries, the drivers of the dispatch machine and of the skill chain,
  delegates, YAML manifests, and the serde forms of the library's types.
- `tests/` — tests of the library.
