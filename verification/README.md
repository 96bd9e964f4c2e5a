# omafiles

The model of a keyboard-first file explorer for Omarchy, written in Verus:
every decision the explorer makes about directories, files, git, places,
keys and previews is a function with a contract, proved.

## Layout

- `src/` — the verified library.
  - `text`, `split`, `numfmt`, `path`, `table`, `natural`: strings, lines,
    numbers, `std::path`'s rules on `/`-separated paths (compared by their
    components, in normal form), a small ordered map,
    and the natural (digit-aware, case-insensitive) name order.
  - `entry`, `listing`, `selection`, `cursor`, `navigation`: a directory's
    entries, their sorted and filtered view, marks, cursor movement, and the
    back/forward history with per-directory cursor memory.
  - `diff`, `git`, `highlight`: `git status` and `git diff` output, the
    per-directory rollup, where `HEAD` is, the branch switcher, and how a
    diff's rows borrow their colours from the whole file.
  - `preview`, `family`, `imageops`, `presentation`: what a file is, how it
    previews, the fact table, hex dumps, and the PNG variants a picture is
    copied at.
  - `places`, `network`, `pathpick`: the sidebar's places and pins, GVfs
    network locations, and the location picker's completion.
  - `keymap`, `palette`, `config`: key bindings with the user's overrides,
    the command palette and the shortcut sheet's filter, settings.
  - `actions`, `fileops`, `grep`, `probe`: the command lines Omarchy's
    scripts are run with, copy/move/create/trash plans, ripgrep's output,
    and the few filesystem questions the model asks.
- `tests/` — the library's tests.
- `app/` — the program around the library: reading the disk, running `git`,
  `rg`, `gio`, `ffmpeg` and the scripts, the files' serde shapes, and a
  command-line front end that prints a directory the way the explorer lists
  it.
