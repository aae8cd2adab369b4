# postflight

Flight recorder and graceful shutdown controller for coding agents, verified with Verus.

A session runs a command in a terminal of its own, records what it does, and can be asked to stop:
first by a message on its input, then, after a grace period, by signals. Afterwards a report tells
which files changed, which hosts were talked to and which processes ran.

## Layout

`src/` is the library. It does no input or output: it takes what was read as plain values, and says
what to do or to write.

- `shutdown`: when to send the message, and when the signals.
- `pty`: what to read and to pass on between the terminal and the child.
- `process`, `network`, `fs_watcher`: which processes, connections and file changes are new.
- `walk`, `diff`, `patch`: going through a workspace, comparing two states of it, and what makes a
  difference a patch.
- `session`, `config`, `cli`: names, files and messages; which sessions to list, find and remove.
- `report`, `report_layout`, `style`: the report, how its lines lie, and its colours.
- `events`, `time`: what is recorded.
- `text`, `number`, `order`, `path`, `path_set`, `glob`: the means for all of these.

Every function states in its contract what it returns or changes. Public proof functions, named
`lemma_..`, state what holds across functions: that a stop escalates in order and comes to its end,
that a connection is reported once, that a log reads back as it was written, that a section of the
report has a title where there is something in it, and so on.

What the library takes from outside (the clock, the home directory, dates, byte sizes, colours, line
differences, upper and lower case, UTF-8) goes through small functions marked
`#[verifier::external_body]`, and one `assume_specification`, each with a comment that says what is
believed of it.

`app/` is the program around the library: arguments, files, processes, threads and the terminal.

`tests/` runs the library.
