# dvcdbg

Diagnostic tools for bringing up embedded boards: an I2C bus scanner, a
probe for which initialization commands a device answers, explorers that
order a device's initialization commands by their dependencies and send them,
hexadecimal and ASCII-safe formatting, and a 128-bit flag set.

The library in `src/` is written in Verus and proved by it; the functions
whose results matter to a caller carry contracts, and small helpers are
checked for safety alone.

- `scanner`: bus scan (`scan_i2c`) and command probe (`scan_init_sequence`).
  A bus keeps, as its specification, the log of the writes made through it;
  the contracts say which writes each function adds to it (address and
  bytes, in order) and what it returns for the answers those writes got.
- `explore`: the command graph (`graph`), Kahn's topological iterator and the
  prefixing command executor (`explorer`), and the two runners (`runner`).
- `explorer`: the index-based explorer: one topological sort, the permutation
  search (proved to end and to give every dependency order exactly once),
  and the exploration over all addresses, whose result is exactly the
  addresses that accepted a whole tried order.
- `compat`: the I2C and HAL-error traits, hexadecimal/ASCII formatting, the
  serial line splitter, the flag set, and the bounded device list.
- `error`, `logger`, `cmd_debug`: error kinds with their texts, loggers, and
  display command decoding.

`app/` holds what touches hardware crates and `core::fmt`: the embedded-hal
and embedded-io adapters, serial loggers, logging front-ends that pass on
the text the library writes, and the convenience macros.
