# jvmfast

A dependency manager and build tool for Java projects, whose core is verified with
Verus.

- `src/` is the verified library. Dependency resolution (BOM tables, exclusions, the
  candidate graph of a workspace), the lockfile and its validity, the build order of
  the modules and the incremental-build decisions, the import of `pom.xml` and Gradle
  projects into `project.toml`, the edits of `project.toml`/`config.toml`, the
  checksums and paths of the content-addressed artifact cache, and the reports of
  `tree` and `why`. Each public function states its result in its `ensures`; the
  laws that relate several functions are the public `law_*` proof functions.
- Outside crates are called from `src/` only through trusted items, each with a doc
  comment saying what is assumed: `sha2`/`sha1` digests, `str::to_lowercase` and
  toml_edit's document (parse, set or remove an entry, print).
- `app/` is a library of I/O around the verified core: the `clap` definitions of
  the commands (without a dispatcher), files, processes, HTTP downloads (`reqwest`,
  `tokio`), the SQLite cache index (`rusqlite`), archive extraction (`flate2`,
  `tar`) and serde parsing into the library's types. The flows that need the
  workspace loader, the resolver or Maven's artifact naming are not there: those
  parts were not available.
- `tests/` runs the library on concrete values.
