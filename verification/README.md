# termrec

Record a terminal session, replay it through a real terminal emulator, and
get back a readable transcript: one section per command, output as it
appeared on screen.

## Layout

- `src/` — the library, verified with Verus:
  - `transcript/parser.rs` splits a raw session on the OSC 777 markers that
    the shell hooks print (`Commands`, `collect_commands`, `find_subslice`);
  - `transcript/screen.rs` replays a command's output on Alacritty's
    terminal emulator and reads the screen back as tidy text;
  - `transcript/builder.rs` assembles the `Transcript`;
  - `transcript/hooks.rs` states the byte stream the hooks write and proves
    that splitting it gives back what was recorded, for every command whose
    line holds no BEL or trailing whitespace and whose output holds no
    whole marker;
  - `config.rs`, `paths.rs`, `ui.rs`, `commands/` hold the settings
    precedence, the file names, the status lines and the decisions of the
    `run` and `render` subcommands;
  - `template.rs` gives the name under which a template is chosen;
  - `text.rs` holds whitespace, trimming and decimal helpers.
- `app/` — the program: command-line parsing (clap), the XDG directories,
  the config file (TOML), the recording shell (`script`), the JSON store,
  the templates (minijinja) and the interactive picker (dialoguer).
- `tests/` — tests of the library.
