# git_template

Create new repositories from template repositories, with `{{ variable }}`
interpolation.  `git template init <url>` vendors a template repository,
selects its template files, asks for the values of its variables in an
editor, renders the files and commits.

## Layout

- `src/` — the verified library (Verus): what `init` decides and computes.
  - `render.rs`: variable extraction, scanning, file selection, unresolved
    expressions, rendering through minijinja.
  - `editor.rs`: the parameter file the editor opens, its parsing, the
    parameter map.
  - `exe.rs`: the decisions of `init` (history check, template name,
    variables, cleanup, commit message and parents, the final report).
  - `paths.rs`: the path order of the file list; `text.rs`: character
    helpers; `glob.rs`: the globset calls.
  - `cli.rs`, `config.rs`: the argument and configuration types.
- `app/` — the command around it: argument parsing, `.gittemplate` loading,
  the working tree walk, file reads and writes, the editor, Git.
- `tests/` — tests of the library.
