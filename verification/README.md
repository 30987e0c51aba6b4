# cman

A Cargo-like build tool for C: a manifest (`cman.toml`), a conventional layout
(`src/`, optional `include/`, `target/<profile>/`), and a build that rebuilds only
what changed, including header dependencies read back from the compiler's `.d`
files and a fingerprint of the compiler flags.

The logic is a Verus-verified library under `src/`:

- `manifest` — the manifest's contents, the project layout, finding the project
  root, and the sorted list of `.c` sources;
- `paths` — paths as strings, read as `std::path` reads them on Unix: joining,
  components, stripping a directory, file names and extensions, and the order
  paths sort in;
- `depfile` — the parser for the `.d` dependency files the compiler writes;
- `fingerprint` — the rebuild and relink checks, and the flag hash: the compiler
  and each flag, framed by their lengths, fed to `DefaultHasher`;
- `compiler` — compiler command lines, and putting job outcomes back in job order;
- `commands` — the decisions of `new`/`init`, `build`, `check`, `clean` and `run`,
  including the order of a build's steps (`build_steps`: remove stale artifacts,
  compile, remove and relink the executable, record the flags);
- `editor`, `error`, `cli`, `text` — editor settings, failures and their
  messages, build profiles, and character and string helpers.

Proof functions named `law_*` state properties that hold across calls, such as
that a rebuild verdict is exactly the rebuild rule applied to the file system, or
that the debug and release profiles never share an artifact.

`app/` is the executable around the library: argument parsing (clap), reading the
manifest (toml, serde), the file system, processes and threads.
