# atp

`atp` builds Atmel Studio projects from the command line, on Windows or from inside
WSL, and tells what the compiler said. Atmel Studio writes nothing to the console, so
a build always writes a log file, which is read back: errors, warnings and memory
usage are printed, and the log alone decides whether the build succeeded.

## Layout

- `src/` is the library, written in Verus. Every function carries a contract that says
  exactly what it returns, and the public proof functions state what holds of the
  library as a whole.
- `app/` is the program: the command line, the configuration file's TOML, the disk and
  the processes that are started.
- `tests/` runs the library on concrete inputs.

| Module | What it holds |
| --- | --- |
| `host` | Translating paths between Windows and WSL |
| `path` | Paths as text, by the rules of either host |
| `solution` | `.atsln` and `.cproj` files, and where build output lands |
| `search` | Discovering a solution or project from a directory |
| `locate` | Finding the project that a command is about |
| `config` | The optional `atp.toml` |
| `builder` | What is started for a build, and what is made of its log |
| `report` | Build logs, and the lines that show them |
| `stale` | Telling whether artifacts are older than their sources |
| `app` | What each command decides and prints |
| `command` | The order in which things are done, and what is said on which stream |
| `text`, `list`, `number`, `order`, `error` | What the others are built on |

The library reads no file and starts no program. A function that needs what a file or
a directory holds takes it as an argument, and one that needs several in turn is a step
that says which it wants next.

## Trusted

Two functions of the standard library are believed to do what their documentation
says: `String::push` and `String::from_utf8_lossy`.
