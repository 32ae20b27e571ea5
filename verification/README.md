# alvr_telemetry

Local telemetry of a VR streamer, verified with Verus.

A client logs its input polls and its frames as rows of JSON. A logger takes rows without ever
waiting: they go into a bounded queue, and a row that finds it full is dropped and counted. A
writer takes the rows and appends them to a JSONL file; when a row would make the file too large,
the file gets a number and a new one is started. Every file begins with the same header line. The
files of a streaming session share a directory. Ten sessions are kept: a new one stays, and evicts
the oldest of the others by the times in their names.

The crate also holds the preset controls of the dashboard: a choice between named options, each of
which assigns values to a number of settings.

- `src/` is the verified library. It decides and computes. The operations of `serde_json` that it
  builds on are declared in `src/json.rs`, with what is taken to hold of them.
- `app/` holds the threads, the files and what is floating point.
- `tests/` runs the library.
