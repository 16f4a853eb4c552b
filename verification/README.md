# SimpleFetch

A network bridge for quick apps on a watch: a quick app sends its HTTP and
SSE requests over the interconnect channel, the plugin carries them out on
the phone and sends the answers back, framed for the channel.

## Layout

- `src/` — the verified library (Verus).
  - `protocol.rs` — the bridge protocol: what each message of a quick app,
    each timer and each connection step does, as actions for the host.
  - `bridge.rs` — the connection table: link state, awaited handshakes,
    signs of life.
  - `streams.rs` — the running event streams and their cancellation.
  - `state.rs` — the monitored apps, their counters, the devices and apps
    seen, and the page's state.
  - `refresh.rs` — refreshing devices and apps, and reconnecting.
  - `world.rs` — everything kept between callbacks, made on first use and
    then shared.
  - `ui.rs` — the page's events and the status card.
  - `http.rs`, `response.rs`, `sse.rs`, `json.rs` — headers, the request
    line, response decoding and framing, event streams, JSON values.
  - `text.rs`, `assoc.rs`, `icons.rs` — text helpers, association lists,
    the page's icons.
  - `laws.rs` — properties that span several operations.
  - `envelope.rs`, `page.rs` — the layout of outgoing messages; dates and
    short parsers for the page.
- `tests/` — tests of the library on concrete values.
- `app/` — the plugin around the library: the host API, the HTTP client,
  the saved file and the handlers that carry out the library's actions.
