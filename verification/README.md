# rs_prompt

A shell prompt generator for zsh, bash and fish, written in Verus.

The prompt shows the user and host (host name shortened at the first `.`,
digit runs underlined), the active Python virtual environment, the working
directory (abbreviated; `~` below the home directory; from the outermost
jj, git or repo working-copy root on, roots highlighted), a nonzero exit
status, and the shell's end marker (`#` for root).

Layout:

- `src/` — the verified library. Every function states what it returns in
  its `ensures`, over spec functions on character sequences; the properties
  that span functions are proved as `law_*` proof functions.
  - `path.rs`, `host.rs`, `venv.rs`, `vcs.rs`, `prompt.rs`: the prompt parts;
  - `prompt_escape.rs`: zero-width markers for the shell;
  - `cli.rs`: the command line and the shell integration scripts;
  - `text.rs`, `ansi.rs`: character helpers and colour sequences.
- `app/` — the program: reads the environment and the file system (the
  working-copy markers), calls the library, prints.
- `tests/` — tests of the library on concrete values.
