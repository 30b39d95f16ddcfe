# mpz_ts

The verified core of a small toolkit for running Bristol-format circuits under two-party garbled-circuit computation.

- `src/` is the library, verified with Verus:
  - `bristol.rs`, `circuit.rs`, `mpz_circuit_from_bristol.rs`: turning a
    parsed Bristol circuit (bits, or 32-bit words where it adds) into a node
    list whose outputs provably compute what the Bristol circuit's output
    wires carry, and evaluating that node list;
  - `value.rs`: integers as most-significant-bit-first bit arrays (both round
    trips proved) or as words;
  - `session.rs`, `setup_garble.rs`: roles, OT sizing and order, input and
    output handling of a session;
  - `js_conn.rs`, `js_fn_executor.rs`: the receive queue of the message
    connection and the decisions of the host task loop.
- `app/` is the host glue: WebAssembly bindings, the async protocol, the
  message connection, and the replay of a converted circuit into the
  garbling engine's circuit builder.
