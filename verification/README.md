# swift_topomap

A terminal map of a Linux machine's CPU topology — sockets, caches and cores —
with live per-core load, written in Verus.

- `src/` is the verified library:
  - `text`: the character-level model of the text that sysfs and procfs
    hold, with functions proved against `str::lines`, `split_whitespace`,
    `split`, `trim` and `parse` as spec functions.
  - `cpu_list`: CPU lists such as `0-3,8`.
  - `topology`: cores, caches and NUMA nodes, built from the texts of the
    sysfs files; caches are kept one entry per cache, cores sorted stably by
    logical id.
  - `collector`: the `/proc/stat` collector and the eBPF counter collector,
    each specified as a fold over its input, and the choice between them.
  - `ui`: the view's state and key handling, and what the map shows.
- `app/` walks sysfs, reads `/proc/stat` and the eBPF maps, and draws the
  view with ratatui.
- `tests/` runs the library on concrete inputs.
