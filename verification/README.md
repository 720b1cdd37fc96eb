# kubjas

A cron-like daemon that starts jobs at intervals, inside optional time periods,
on file changes, or on notifications from other jobs (UDP port 2380).

The decisions of the daemon are a library verified with Verus (`src/`):

- `period` — the period expression language (`wd {mo-fr} hr {9am-5pm}, ...`):
  parsing and evaluation against a time.
- `config` — the job model, the parsers of interval and output values, the INI
  settings of a section and the `[*]` defaults, building the jobs of a set of
  configuration files, and choosing which files to read.
- `scheduler` — what a trigger (clock, file change, notification) does with each
  job: start, signal or skip; the table of running jobs; the order of jobs.
- `notify` — the notification message format, its parsing, and the filter that
  drops repeated messages.
- `executor` — the command line with its template parameters filled in and split
  into words, and the account and output settings to run it with.
- `watch` — which file events count as writes, and mapping event paths back to the
  configured paths.
- `report` — running times as the log shows them.

Public proof functions state the laws the library keeps (for example that an
interval reads back from its written form, that comma-separated sub-periods are
alternatives, that a started job has no running conflict, that job names are
unique).

`app/` is the daemon itself: command line, signals, daemonizing, reading files,
`fork`/`exec`, UDP sockets and the file watcher. It calls the library for every
decision.
