# droidrun

Android device automation: an ADB client (wire protocol, sync protocol,
device commands and their replies) and a UI pipeline that turns the
accessibility tree reported by the DroidRun Portal app into indexed,
filtered elements.

The library under `src/` is written in Verus: each function carries a
`requires`/`ensures` contract over a mathematical model (sequences of
characters and bytes, a view of JSON values, the element forest), and the
laws that span several functions are stated as proof functions.

- `text`, `wire`, `sync`, `recv`: character and byte helpers, request
  framing, the `SEND`/`RECV`/`STAT`/`LIST` exchanges of the sync service.
- `models`, `device`, `server`, `adb_error`: ADB commands, reply parsing and
  error texts.
- `json`, `geometry`, `coord`, `state`, `sort`, `filter`, `formatter`,
  `search`: the UI pipeline.
- `driver`, `portal`, `manager`, `provider`, `error`: actions, Portal
  replies, version selection and the decisions of the setup and retry loops.
- `outside`: calls into std and `regex` whose contracts are trusted; the
  other trusted items stand beside their callers (`serde_json` in `json`,
  `base64` in `portal`, time in `models`). Each has a doc comment that says
  what is claimed of the outside function.

`app/` holds the command-line program and everything that does I/O (TCP,
HTTP, files, timers); it hands plain values to the library and performs
the actions the library decides on. `tests/` exercises the library on
concrete values.
