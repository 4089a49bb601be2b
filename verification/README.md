# SpaceMind

SpaceMind looks at what takes up space in a folder, finds what is stored twice, connects
what belongs together and points out what is worth a look. It reads only: nothing is
deleted, moved or uploaded.

The logic is a library verified with Verus. The functions of `src/` state what they return
in `requires` and `ensures` clauses, and the promises that span several functions stand
beside them as public proof functions whose names begin with `law_`. Two things are left
open, because they rest on the machine and on other threads: what the clock says, and when
a token is cancelled. The contracts say that the clock is read, and that the flag which the
clones of a token share is read and written. Work that can be stopped takes a signal, and
its contract says what comes of every answer that the signal may give.

## Layout

- `src/` is the verified library: paths and path rules (`path`, `spelling`, `policy`), the
  walk over a directory tree (`scanner`), hashing and duplicates (`hashing`, `duplicates`),
  connections between items (`relationships`), recommendations (`rules`), explanations by a
  local model (`ai`, `request`, `endpoint`), local history (`storage`, `archive`, `tables`),
  and everything that is shown (`canvas`, `menu`, `history`, `review`, `report` and the
  modules they use).
- `tests/` runs the library.
- `app/` is the command-line program around it: arguments, the filesystem, the database,
  the terminal and HTTP.

## Trust

What the library takes from outside it states in the contracts of a few small functions
marked `external_body`: BLAKE3 hashing, the width of text on a terminal, lists of strings
as JSON, UTF-8 decoding, the lower case and the quoting of text, and the clock. One more,
that `String::push` appends a character, is an `assume_specification`.
