# rivers

The decision core of an asset orchestrator, verified with Verus: partition schemes and
the mappings between them, the plan of a run, the life of a step, and the records that a
run leaves behind.

- `src/` is the library. Everything in it is verified. The calls that it makes into other
  crates stand behind small trusted functions, each with a comment that says what is
  claimed of the call.
- `tests/` runs the library against the real crates.
- `app/` is the host: classes of the Python extension module, the log layer, and the loops
  that carry out what the library decides: of a plan, a window of instances, a worker, a step
  through its attempts here or in pods, the claim of slots, and the writing of records.

## Modules

| Module | What it decides |
| --- | --- |
| `partitions` | keys, ranges, schemes and mappings: what they hold, list, accept and map to |
| `executor` | which steps run, how they are tried again, and what is recorded of them |
| `job` | the nodes of a job and what it needs to run |
| `code_location`, `requests` | how requests are read and answered |
| `metadata`, `hooks`, `log_capture`, `net`, `gil_threads` | the values and small state machines around a run |
| `moment`, `names`, `text`, `errors` | points in time, ordered maps, texts and faults |

## What the host supplies

Floating-point numbers, the clock, what a key reads as under a format, and where a key
lies when it is shifted along a grid come in as plain values: `Interval`, `Real`,
`Moment`, `Readings` and `Shifts`. `keys_to_read` and `shifts_to_make` say which of them an
operation needs.
