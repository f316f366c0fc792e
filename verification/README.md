# mixengine

The decisions behind MixEngine's command line, its daemon's shutdown and uninstall, and the
platform code that takes a home off a machine, written in Verus with their contracts proved.

## Layout

- `src/` — the verified library.
  - `text.rs`: the string operations the rest is written in, with their specifications.
  - `location.rs`: paths as sequences of parts, and the order they are sorted in.
  - `tombstone.rs`: renaming directories out of the way all or nothing, as a state machine whose
    every action is decided by the library and carried out by its caller.
  - `occupants.rs`: which processes stand in a directory, and which held files stop a removal.
  - `inventory.rs`: the rows an uninstall plan is made of.
  - `machine.rs`: the rows for what a home wired into the machine outside it.
  - `daemon.rs`: shutdown budgets and what the daemon says as it goes.
  - `logging.rs`: the note a log writes about itself, as text or as one JSON object per line.
  - `cli.rs`: what `mix` asks, refuses and prints.
- `tests/` — tests on concrete values, run against the compiled library.
- `app/` — the parts that touch the file system, processes and the terminal, handing the library
  plain values and acting on what it returns.
