# du_app

The metrics reader and control-policy writer of a RAN distributed unit, as a verified
library.

- `src/` is the library, verified with Verus:
  - `text`: splitting at a separator, joining, and reading lines as `BufRead::lines` does;
  - `number`: reading decimal integers as `str::parse` does, and writing them;
  - `metrics`: reading a CSV metrics line into a record and building its report
    (CSV or JSON, full or the agent's preset);
  - `reports`: which metrics files and lines are read, and the text transmitted;
  - `policies`: control messages, the scheduling policy file and the slicing masks;
  - `clock`: the current time in milliseconds.
- `app/` holds the C entry points and the file, directory and clock I/O around the
  library, and the floating-point display of float metrics.
- `tests/` runs the library on concrete values.
