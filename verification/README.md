# lector

Cascade distribution of a file to the machines of a classroom. The teacher's
console builds a tree over the selected machines; each daemon receives the
file from its parent and forwards it to its children, so the teacher sends
it only a few times.

`src/` is the verified library:

- `addr`: peer socket addresses, IPv4 and IPv6, their text form and its
  parser (the text of an IPv4 address reads back as the same address);
- `topology`, `tree_laws`: the breadth-first distribution tree, node removal,
  reattachment and healing, and what they keep;
- `app_state`: the console's peer selection;
- `orchestrator`, `digest`: the distribution plan (SHA-256 of the file, file
  id, one instruction per node) and the console's status lines;
- `discovery`, `monitor`: scan results, their listing order, and telemetry;
- `daemon`: the daemon's configuration, replies, one-transfer-at-a-time rule
  and the reading of an instruction;
- `transport`, `size`, `proto`: stream bookkeeping (byte counts and the
  SHA-256 of what was streamed), size units, messages.

`app/` holds the QUIC streaming, TLS setup, configuration file and the
asynchronous runs that use the library; `tests/` runs the library.
