# rustapi

The core of a Rust HTTP engine for Python web applications, written in Verus:
routing with 404/405 distinction and conflict detection, query-string
parsing, response building, and the per-request dispatch decision, each with
a contract proved by Verus.

Layout:

- `src/` — the verified library.
  - `text.rs`: byte splitting, text equality, UTF-8 helpers.
  - `params.rs`: `Params`, an ordered text-to-text map.
  - `headers.rs`: header names and values as `http` accepts them, and
    `http::HeaderMap` seen as its lines.
  - `method.rs`: HTTP methods.
  - `request.rs`: `Request` and query-string parsing.
  - `response.rs`: `Response` and its helpers.
  - `router.rs`: `Router`, one `matchit` tree per method.
  - `server.rs`: server configuration, body limits, dispatch decisions.
  - `bridge.rs`: the plain side of the Python bindings.
- `tests/` — tests of the library.
- `app/` — the runtime: the `Handler` trait, the tokio/hyper server loop and
  the PyO3 module.
