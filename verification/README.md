# rustyshell

A terminal game that teaches shell commands. A TOML configuration lists
games; each game has items whose goals are a command line to type, a text a
command must print, or a directory to reach.

- `src/` is the verified library (Verus):
  - `text.rs`: Unicode whitespace, trimming, splitting on a separator.
  - `path.rs`: absolute paths as component sequences; joining, walking
    `cd` pieces, prefix and suffix tests.
  - `config.rs`: the configuration model, goal kinds by name, and the date
    placeholder of expectations (today's date comes from `chrono`).
  - `game.rs`: the decisions taken while a game is played: environment
    set-up, hints for an item, what a line of input asks for, where `cd`
    leads, the output of a command, and whether a goal is reached.
  - `player.rs`: games placed in slots by id, and the order they are played in.
- `app/` is the terminal program: TOML loading with serde, reading input,
  running commands, changing and copying directories.
- `tests/` runs the library on concrete values.
