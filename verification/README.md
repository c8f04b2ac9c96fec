# tasklist

`t` is a local task list that understands dependencies: a task is ready when
every task it depends on is complete, urgency flows from a task down to its
prerequisites, and every change can be undone.

The library in `src/` holds the logic, each function with a contract that
Verus proves:

- `model`: tasks, dependencies and the scheduling graph: effective
  priority, readiness, the scheduler's order, the shuffle through a tier,
  the context chain of a task, and the least path between two tasks.
- `db`: the task store with its undo history. Every mutation either commits
  and records the rows it replaced, or refuses and changes nothing; the laws
  at the end of the file state what the mutations keep (readiness, the
  absence of cycles) and what `undo` gives back. `data_location` decides
  where the task list is stored, from `XDG_DATA_HOME` and `HOME`.
- `render`: the plain-text views (`ls`, `tree`, `find`, `show`, the context
  chain).
- `cli`: the commands: what each one does to the store and what it prints.
- `text`, `error`: character helpers and the error type.

`app/` is the program around it: argument parsing with clap, reading the
environment, the SQLite file that keeps the rows between runs, the clock, the
editor process, and shell completions.
