# gatepost

GatePOST watches external MCP integrations for schema drift. At sign-off it
stores an approved snapshot of an integration's contract; later checks compare
the live contract with that snapshot, classify every difference, and move the
integration to `approved`, `drift_detected`, `blocked` or `error`.

## Layout

- `src/` — the library, written in Verus and verified:
  - `json`, `canonical`, `render`: the JSON document model, reading JSON text
    through `serde_json`, the canonical form (members ordered by key) and the
    compact text;
  - `drift`: the differences between an approved and a live document, their
    severity and the report summary;
  - `catalog`: the tool catalog profile an HTTP source must follow;
  - `http`: schema URLs, the schema request, and reading the response body
    (chunked or not);
  - `mcp`: the JSON-RPC messages of an MCP stdio session, reply matching, tool
    paging and ordering, and the captured contract;
  - `integration`, `request`, `lifecycle`: integrations, their configuration,
    registration, approval, baseline refresh and drift checks;
  - `cli`, `web`: command-line flags and the routes and framing of the
    built-in HTTP service;
  - `text`: text helpers with their specifications;
  - `laws`: properties of the library as a whole, proved.
- `app/` — the `gatepost` program: files, sockets, the MCP child process, the
  state file and the status page. It reads, hands what it read to the
  library, and writes out what the library decided.
- `tests/` — tests of the library on concrete values.

Apart from reading the clock, the library does no I/O. Where an operation
needs something read from the outside (a live contract, a snapshot file), it
takes the outcome as an argument, and its contract states the result for
every outcome.
