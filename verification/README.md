# launcher_core

The rules of a Windows launcher that starts Unity with a process-creation hook
and routes Unity's C# compilations to a newer Roslyn compiler, proved with Verus.

## Layout

- `src/` — the verified library:
  - `args.rs`: Windows CRT quoting and splitting of command lines and response
    files; splitting gives back exactly what quoting joined.
  - `options.rs`: language-version switches, the arguments handed to the
    replacement compiler, and removal of define symbols.
  - `response.rs`: decoding (UTF-8, UTF-16 with a byte order mark) and nested
    expansion of `@file` arguments, with the nesting limit and the treatment of
    Unity's own generated response files.
  - `paths.rs`, `package.rs`: Windows path comparison and joining, Unity's
    generated response files, and package assemblies that opt in by `csc.rsp`.
  - `session.rs`, `hook.rs`, `environment.rs`: the launch session, what the
    hooked process creation does with each request, and the environment block
    that carries the session to child processes.
  - `launcher.rs`, `fingerprint.rs`: the launcher's command line and
    configuration checks, editor discovery, and the fingerprint of the compiler
    setup (SHA-256 through the `sha2` crate).
- `tests/` — tests of the library on concrete values.
- `app/` — the programs around the library: the launcher, the compiler proxy,
  the chain probe and the injected hook, with their file, process and Windows
  I/O and the JSON forms of the configuration and session.
