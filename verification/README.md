# pw_merger

Merges two or more PipeWire audio sinks into one virtual output: a null
audio sink whose monitor ports are linked, channel by channel, to the
playback ports of each target device.

- `src/` is the verified library (Verus):
  - `registry.rs` tracks the target nodes (present, linked, waiting to come
    back) and proves the laws of that bookkeeping;
  - `merger.rs` tracks ports and node ids and plans the links between the
    virtual sink and a device, and builds the properties of the objects to
    create;
  - `detector.rs` recognises audio sinks among registry globals, sorts them
    by name and renders the `--list` table;
  - `cli.rs` holds the options and resolves the devices named on the command
    line (numeric ids or node names);
  - `global.rs` is the plain form of a registry global and its properties;
  - `keyed.rs` lists the ids of a map keyed by global id and picks its
    entries id by id;
  - `text.rs` holds the text helpers (decimal numbers, name order, prefixes,
    channel suffixes, padding);
  - `error.rs` holds the user-facing error messages.
- `app/` is the program: command-line parsing, logging, and the PipeWire
  connection, registry listener, object creation and main loop.
- `tests/` exercises the library on concrete values.
