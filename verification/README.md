# ff

A filesystem tool for Linux: find files, hash everything, detect changes, and
monitor the filesystem in real time. What the tool decides and computes is a
library verified with Verus; a thin program around it walks directories, reads
files and talks to the kernel.

## Layout

- `src/` is the verified library.
  - `find`, `hash`, `diff`, `watch`: the four commands, from what they are given
    to what they report.
  - `matcher`, `skip`: which paths a command works on.
  - `snapshot`, `catalog`, `listing`: the snapshot file, its name and place, and
    the list of all snapshots.
  - `fanotify`, `bytes`: the kernel's events, byte by byte.
  - `output`, `json`, `binary64`: what is shown, down to the rounding of
    floating-point numbers, which are computed with integers.
  - `text`, `lines`, `number`, `order`, `path`, `pathmap`, `duration`,
    `localtime`: what the rest is built of.
- `tests/` runs the library on concrete values.
- `app/` is the program.

Proof functions whose names begin with `law_` state what holds of the library as
a whole, such as that loading a snapshot gives back what was written, or that
comparing files with a fresh snapshot of them shows no change.

## What is trusted

The library calls a few functions that are not verified, each behind a contract
that its doc comment explains: the compilation and the search of regular
expressions (`regex`), the XXH3 hash (`xxhash-rust`), colored text
(`crossterm`), and from the standard library lower case, UTF-8 decoding and
appending a character.
