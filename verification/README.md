# gloryport

A minimal manager of listening TCP ports for the Windows tray: it lists the ports in
use, with the process and the workspace project behind each one, and terminates the
process holding a port in one click. The same program is a command line for
scripting (`list`, `list --json`, `kill <port> [--pid <PID>]`).

## Layout

- `src/` — the verified library (Verus): decoding of the system's TCP tables,
  deduplication and ordering of the rows, process labels (scripts run by
  interpreters, path normalization and shortening), project derivation and the
  configuration rules, the filter of user applications, the bounded process-name
  cache, the popup's geometry, hit-testing, scrolling and event state machine, the
  command-line parsers and output lines, and the kill rules.
- `tests/` — tests of the library on concrete values.
- `app/` — the Windows program around it: system calls, the tray icon, the popup
  window and its painting, the registry autostart and the console output.

Run-time files expected beside the executable: `assets\gloryport.ico` and the
fonts in `assets\fonts\` (system fallbacks are used without them).
