# runner

A verified library for a file-system test runner (pjdfstest-style `.t`
scripts run with `bash`), with the programs around it.

`src/` is the library, proved with Verus:

- `test_case`: the `desc=` line of a test script and the discovery of test
  cases from a listing of the test directory.
- `order`: lexicographic order on text and a stable order of indices by key.
- `process`, `run`, `report`: the errors a script run can end in, the
  decisions taken while waiting for a script, the result of a run and the
  counts of a run's report.
- `tap`: reading a text report of TAP output into per-group summaries.
- `http`, `websocket`: request routing, responses, the WebSocket handshake
  and framing.
- `paths`, `uname`, `text`: path parents, the `uname` stand-in, and the
  character-level text functions the parsers share.

`app/` holds what does I/O: reading the test directory, running `bash`,
the event thread, the command-line client, the report server, the report
converter and the `uname` program. `tests/` exercises the library.
