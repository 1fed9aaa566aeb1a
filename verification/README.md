# stemwatch

Two tools share this crate:

- a task runner, `watch`, that serves file-system events over a websocket and runs the
  tasks of `tasks.toml` files when the files they watch change, in dependency order,
  keeping persistent tasks running. A task lists what it depends on in `deps`, as
  `[//][path]:name[?on_reload=none|rerun]` (a path starting with `//` is taken from the
  workspace root, any other from the task's own folder). The selected tasks and their
  dependencies run once at start; a task whose dependency failed is skipped, and so are
  the tasks of a folder whose task file last failed to load;
- the core of a multi-stem audio player: stem discovery beside an original file, mono
  down-mixing and memory-mapped sample decoding of WAV files, a min/max waveform pyramid
  and the per-stem registries of waveform data.

It also holds the function scanner of a small playground project.

## Layout

- `src/` is the library, written in Verus. Its functions carry contracts, except a few
  calls into the standard library and outside crates whose result depends on the disk,
  the machine or an outside error's text. The laws of the library (dependency order of
  runs, tasks on cycles never released, no runs for a folder whose task file failed to
  load, reachability of changes, the waveform pyramid, registry counts, index round
  trips) are proof functions there.
- `tests/` runs the library on concrete inputs.
- `app/` is the program around it: the websocket server, the file watcher, the task
  processes, reading task and audio files, and the floating-point signal processing.
