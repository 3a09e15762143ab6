# knight_build

The core of Knight, a build executor that reads Ninja's files. It is a library in
Verus: every function has a contract, and Verus proves it. What is taken on trust
is what the `rapidhash` and `strip-ansi-escapes` crates and a few functions of the
standard library do; it is stated where they are called, in `collections`, `text`,
`deps_log`, `build_log`, `msvc` and `printer`.

- `src/` is the library.
  - `text`, `numbers`, `sorting`, `paths`, `spell`, `version`, `expand`: characters,
    numbers, sorted texts, canonical paths, spelling suggestions, versions and
    `$`-escapes.
  - `lines`, `build_line`, `statement`, `finalize`, `validate`, `loader`,
    `manifest`, `binding`, `cycle`, `diagnostic`: manifests, from logical lines to
    the edges, rules, pools and scopes that they declare, and what is said where
    one is wrong. `loader` names the file that it needs next and goes on when it
    gets it.
  - `depfile`, `dyndep`, `dyndep_apply`, `dyndep_plan`, `dyndep_files`, `msvc`,
    `relative`, `discovery`: dependencies that compilers and dyndep files tell.
  - `deps_log`, `build_log`, `build_log_compaction`: what builds leave behind.
  - `closure`, `reach`, `targets`, `render`, `command`, `policy`: what a build needs
    and the commands that it runs.
  - `freshness`, `staleness`, `dirty_plan`, `declared_dirt`, `completion`: what is
    out of date, before a build begins and as it goes on.
  - `schedule`, `pools`, `queue`, `links`, `board`, `soundness`, `scheduler`: in
    which order commands run. `board` says what a build does next in every state
    that it can be in, and `scheduler` does it; the caller runs the commands and
    tells how they ended.
  - `status`, `prediction`, `printer`, `elide`: what is printed meanwhile.
  - `manifest_laws`, `default_laws`, `escape_laws`, `deps_log_laws`, `deps_log_order`,
    `build_log_laws`, `scheduler_laws`, `pool_laws`, `progress_laws`, and the
    functions named `law_...` elsewhere: what holds of the library as a whole.
  - `asking`: questions to callers, such as which files there are.
  - `collections`: hash maps and sets of the `rapidhash` crate.
- `tests/` runs the library on examples.
- `app/` opens, reads and writes the files that the library asks for, and runs the
  commands.

Functions that depend on the system take it as an argument: whether paths are
those of Windows, and whether the program was invoked as `ninja`.
