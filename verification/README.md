# menu

A set of small launchers driven by `dmenu`: a configurable menu with
submenus, an emoji picker, a file browser, a song picker, a password
picker, a command runner, a note picker and two video launchers that keep
track of the episode reached in each playlist.

The crate is written in Verus. `src/` is the verified library: what each
launcher offers, how it reads the answer of the menu program, and how it
updates what it keeps on disk, each function with a contract that Verus
proves. `app/` holds the programs around it: reading the environment and
the files, running `dmenu` and the programs picked, and the on-disk
formats (YAML and JSON, through serde).

Layout of `src/`:

- `lib.rs`: the exchange with the menu program (`menu_input`,
  `menu_answer`) and the configuration directory.
- `text.rs`, `paths.rs`, `sort.rs`, `strmap.rs`: character-level string
  operations, Unix path names, a stable sort, and a map keyed by strings.
- `menu.rs`, `json_menu.rs`: the configurable menus.
- `emojis.rs`: the emoji list, its counts and how it is rebuilt.
- `playlist.rs`, `menu_videos.rs`, `videos.rs`: playlists, the episode
  question and the progress file.
- `music.rs`, `menu_music.rs`, `notes.rs`, `pass.rs`, `run.rs`,
  `files.rs`: the other pickers.
