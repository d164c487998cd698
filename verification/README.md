# bract

Browse, build, and re-run a whole CLI toolchain from one guided TUI: bract
works out which framework a CLI was built with by inspecting the binary, reads
its `--help` with a parser per framework (Cobra, Clap, Knack, usage), shows the
commands in Miller columns, and builds a run form for the chosen command.

## Layout

- `src/` — the library, verified with Verus: the help-text parsers (and
  usage's own reader for specs in KDL, called through a trusted wrapper), the
  column browser and its lazy loading, the run form, form memory records,
  environment-variable parameters, shell quoting, the clipboard payload, the
  eager walk behind `--spec`, and the reading of Go build info, clap markers
  and interpreter lines out of program files. Each public function states
  in its contract what it returns, as far as the outside calls and the
  user-implemented traits (sources, loaders, form memory, environment) it
  goes through leave that determined; the laws that span several calls are
  public proof functions.
- `app/` — the program around it: the command line, the terminal loop and
  drawing, running tools and reading files, the background loader threads,
  the form-memory database, and writing usage specs.
- `tests/` — tests of the library on concrete inputs.
