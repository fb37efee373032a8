# rust_monitor

A terminal system monitor (CPU, memory, GPU, processes) whose decisions are
verified with Verus.

- `src/` is the verified library:
  - `text.rs`: character-sequence primitives (lines, fields, trimming, `u32`
    parsing, lexicographic order) with their specifications;
  - `gpu.rs`: reading `nvidia-smi` and CIM output, and the steps of a GPU probe
    through the command-line tools;
  - `json.rs`: the `serde_json` calls the library makes, with their contracts;
  - `control.rs`: the interactive view as a state machine over key presses;
  - `processes.rs`: which processes the table shows and the stable orders of its rows;
  - `display.rs`: the texts on screen.
- `app/` runs the program: it reads the system with `sysinfo` and NVML, runs
  the GPU tools, draws with `ratatui`, reads keys with `crossterm`, and hands
  what it reads to the library.
- `tests/` exercises the library on concrete values.
