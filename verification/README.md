# rtk_filters

What is worth reading of the output of `find`, `bun run` and `bun test`, written in
Rust and verified with Verus.

- `src/` is the library. It decides which arguments a tool gets, what is kept of its
  output and how the result is shown. Every function has a contract that Verus proves.
  What the standard library, `quick-xml` and `regex` do is taken from the few items
  marked as trusted in `text`, `paths`, `listing`, `xml` and `patterns`.
- `tests/` holds the tests.
- `app/` is the program around the library: it walks the file system, runs `bun` and
  prints.

Durations stay as the text that the test runner wrote; `app/` turns them into
milliseconds.
