# oxide

A fine-grained reactive web framework whose core logic is verified with Verus.

## Layout

- `src/` — the verified library.
  - `runtime` — signals, effects, subscriptions and batching, modelled by
    `RuntimeState`; the laws of the model (read after write, tracked reads
    subscribe, batched writes run each effect once, ...).
  - `reactive` — the scheduler that owns effect code (`create_effect`,
    `memo`, `watch`, `batch`, `untrack`, `on_mount`, `on_cleanup`); its
    contracts say which effects run after a write or a batch, in what
    order, and that each run is a run of the effect's own closure.
  - `context`, `watch` — provided values and change detection.
  - `resiliency` — the circuit breaker's state machine, retry accounting and
    error messages.
  - `router` — path segments, `:param` matching, parameters, hash paths and
    navigation decisions; the router's outlet decision.
  - `server` — the development server's request path, file, content type,
    responses, live-reload injection and project templates.
  - `view`, `codegen` — the `view!` markup: tokens, parser, and the plan of
    steps it expands to.
  - `components` — what each UI component's builder produces.
  - `seqs`, `text` — sequence and text helpers.
- `tests/` — tests of the library.
- `app/` — the `oxide` command-line tool and the browser layer (DOM access,
  hooks, router outlet, component rendering, async resiliency helpers and the
  token-level `view!` expansion), which call the library.
