# rust_server

A small HTTP server for Linux: several virtual servers on one event loop, sessions by cookie,
file uploads, and scripts run through CGI. Its logic is a library verified with Verus; the
program around it does the input and output.

- `src/` is the library. Each module states in its contracts what its functions return, over
  mathematical models of requests, responses, sessions and tables. `src/laws/` states what
  holds across functions: that requests, cookies, uploads, script output and numbers are read
  back as they are written, that visits are counted, that idle sessions and connections go,
  that files are kept and shown only below the directory of uploads, that the first server to
  list an address gets it, and that the search for a script finds the one that answers.
- `app/` is the program. It reads `config.toml`, owns the sockets, the clock, the file system
  and the child processes, and asks the library what to do.
- `tests/` runs the library on concrete values.

Points in time are handed to the library in nanoseconds. Where the logic needs a finding from
outside (whether a path is a file, what a script wrote), the library returns a step that names
it, and is resumed with the finding.
