# nadi_core

The core of a task system for river networks: a network of named nodes,
attributes on the nodes, the network and the environment, a small task
language that reads and sets those attributes or calls functions of
plugins, and tables that render attributes of nodes.

## Layout

- `src/` is the library, verified with Verus:
  - `attrs`, `values`, `convert`: attribute values, their text forms and
    conversions; `AttrMap` keeps keys unique.
  - `text`, `color`: string helpers and terminal colors.
  - `parser/`: the tokenizer and the parsers for task scripts, network
    files, attribute files and table files.
  - `network`, `node`, `timeseries`: the network (ordered from the outlet up,
    each node after a node it flows into), its nodes and their time series.
  - `functions`, `tasks`, `registry`: conditions, propagations, function
    calls and their contexts, and the registry of plugin functions.
  - `runner`: what a task that reads or sets attributes does.
  - `command`: the `nadi:var:key=value` lines that a command writes back.
  - `table`: tables of node attributes.
- `app/` is plain Rust around it: files, the terminal, floating-point
  numbers, templates, dates through `chrono`, and running tasks that call
  plugin functions.
- `tests/` holds the tests.
