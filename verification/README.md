# axum-governor

Rate limiting for axum services, backed by [governor](https://docs.rs/governor), with the
decisions verified by Verus.

- `src/` is the library: quotas, key extractors, limiters, trackers, the precedence rules,
  headers and bodies. Everything in it is verified; what it takes from other crates stands
  behind small wrappers whose contracts are stated beside them.
- `app/` is the tower plumbing around it: `Layer` and `Service`, futures, the background
  sweep, logging, and conversions of requests and responses.
- `tests/` runs the library with the real crates.

A request goes through `service::route`:

1. A whitelisted method, path or peer is forwarded untouched.
2. The extractor finds the key. Without one the request is answered 400 or 500, and no
   limiter is asked.
3. The primary limiter is that of the method, else that of the tier override, else the
   default one. If it refuses, the request is answered 429.
4. The stack is walked in order; the first refusal ends the walk.
5. An admitted response carries `RateLimit-Policy` for every policy, `RateLimit` and the
   `X-RateLimit-*` headers with the least that any limiter has left.

| Module | Holds |
| --- | --- |
| `quota`, `duration` | Quotas and spans of time |
| `limiter`, `limiters`, `cache` | One limiter, the stack, one limiter per tier override |
| `tracker`, `snapshot` | The keys a limiter has seen, and what is shown of them |
| `extractor` | Keys from peers, headers, cookies, extensions and proxies |
| `glob`, `headers`, `header_map`, `response`, `text` | Patterns, header values and bodies |
| `builder`, `layer`, `boxed` | Configuration and the state built from it |
| `service` | The request flow |
