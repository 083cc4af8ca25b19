# fluxdi

A dependency injection container whose decisions are proved correct with Verus.

`src/` is the verified library:

- `registry` — the injector tree: where a binding lives, which provider and
  which cached instance a resolve finds, where a new instance is cached
  (root, module/scoped injector, or nowhere for transient providers), creation
  limits, async providers, overrides, sets and the metric counters.
- `resolve_guard` — the chain of services being resolved, refusing cycles.
- `graph` and `eager` — ordering the provider graph into waves for eager
  resolution, node names and the wave failure error.
- `lifecycle` — the module lifecycle: depth-first loading, sequential or
  parallel start, rollback after a failed start, shutdown in reverse order.
- `observability` — metric counters and their Prometheus text.
- `error`, `instance`, `scope`, `application`, `injectable`, `axum`, `actix`,
  `text`, `assoc` — the error model, resolved values, scopes, options, the
  rules of the `Injectable` derive, the extractor values, and shared helpers.

`app/` runs the work the library decides on: typed factories behind a mutex,
module hooks, timeouts, the web framework extractors, tracing layers and the
token generation of the derive. `tests/` exercises the library.
