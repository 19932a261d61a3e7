# konnect

Tools for KiCad boards and schematics: placing, moving, rotating and deleting
footprints, routing tracks, vias and zones, nets and net classes, and the symbols
of a schematic with their fields.

A tool first asks the live KiCad session. Where there is none, it edits the file
as text: it replaces, inserts or removes just the bytes that it is about and
leaves the rest as it is.

## Layout

`src/` is the library, verified with Verus.

- Text: `text` (bytes and characters), `words`, `numbers`, `lines` (nodes written
  on lines), `edits` (several edits on one text).
- S-expressions: `scan` (blocks without parsing), `tree`, `parser`.
- Boards: `board`, `footprint`, `property`, `placing`, `components`, `nets`,
  `tracks`, `routing`, `reading`, `fplib`.
- Schematics: `schematic`, `symlib`, `flatten`, `instances`, `fields`,
  `autoplace`.
- The session and the answers: `ipc`, `types`, `answer`, `views`.
- What holds of several of these together: `grammar`, `swapping`, `steady`,
  `offsets` and `balance` relate the text of a board to the tree it says;
  `reread`, `findable`, `undo`, `moving`, `intact` and `ready` state what is read
  back or found after an edit, what an edit undoes and what it leaves alone.

Proof functions whose names begin with `law_` say what the library promises
beyond the contracts of single functions.

Coordinates and angles are handed to the library as they are written, because
they are floating point. What computes with them is in `app/`, with the files, the
environment, the JSON of arguments and answers, and the call to the session.
`tests/` runs the library on concrete boards and schematics.
