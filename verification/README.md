# CPM Scheduler

A Critical Path Method scheduler: activities with durations in whole days, linked by
Finish-to-Start, Start-to-Start, Finish-to-Finish and Start-to-Finish relationships with
lags, scheduled by a forward and a backward pass into earliest and latest dates, total and
free float, and a critical path. The library is verified with Verus; a small egui program
draws it.

## Layout

- `src/` — the verified library
  - `activity.rs` — activities, relationships and CPM results
  - `network.rs` — the precedence network of a list of activities, and the rules that a
    CPM schedule obeys, as spec functions
  - `passes.rs` — the forward pass, the project duration, the backward pass and the floats
  - `scheduler.rs` — `run_cpm`: validation, precedence ordering and the passes, with its
    errors (`EmptyProject`, `UnknownPredecessor`, `CycleDetected`)
  - `laws.rs` — properties proved of every schedule and of project edits
  - `project.rs` — project settings, adding, removing and updating activities, the title
  - `app_state.rs` — what each action of the window does: the activity and settings
    dialogs, scheduling, deleting, the status line
  - `display.rs` — float classes, the Gantt chart's day range, the network diagram's columns
  - `calendar.rs`, `input.rs`, `text.rs` — dates, reading typed text, writing numbers
- `tests/` — tests of the library
- `app/` — the window (egui/eframe) and JSON project files (serde)
