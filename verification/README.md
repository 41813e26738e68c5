# rusquitto

An MQTT broker whose core is verified with Verus: MQTT 3.1, 3.1.1 and 5 packets,
topic rules, and the in-memory state of the broker.

- `src/` is the library. Every function states what it returns and what it
  changes, over mathematical models of the data, and Verus proves it.
  - `wire`, `text`, `properties`, `cursor`, `packet`, `decode`, `encode`, `frame`:
    control packets as bytes, in both directions.
  - `topic`, `text_order`: topic names, topic filters and how they match; the order
    of texts.
  - `model`: what the broker does, as functions from one state to the next.
  - `integrity`: what holds of the broker at all times.
  - `session`, `session_steps`, `routing`, `string_map`, `packet_ids`, `clock`,
    `broker`: the broker itself.
  - `connection`: what a client's packets lead to, and what it is answered.
  - `scan`, `settings`, `persistence`: the command line, the configuration file,
    and retained messages on disk.
  - `packet_laws`, `topic_laws`, `broker_laws`, `session_laws`: what follows for
    the library as a whole. Further laws stand at the end of `connection`,
    `settings`, `scan` and `persistence`.
- `app/` is the program around it: sockets, threads, signals, and the `sqlite3`
  program that keeps retained messages.
- `tests/` runs the library on examples.

Four trusted statements about `std` are used besides those of `vstd`: what
`std::str::from_utf8` accepts, that the text of its error depends on the bytes
alone, what `String::from_utf8_lossy` makes of bytes, and what `String::push`
appends. The broker's clock is
`std::time::Instant`, of which nothing is claimed.
