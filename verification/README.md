# yata-reader

The reader for Yata: it reads the player's own souls from the running Onmyoji desktop game,
from outside and with read rights only, and hands them to Yata's daemon over a named pipe, or
writes one reading to an export file.

The library in `src/` is verified with Verus; every function there has a contract, and the
laws the library keeps are proof functions beside the code they are about.

- `layout/`: memory as the parsers see it (`memory`: regions, reads, the block cache), the
  word scan (`scan`), the CPython object decoder and runtime discovery (`cpython`), the souls
  scope (`souls`), and synthetic runtimes built from values (`synthetic`, `fixture`), with the
  laws that a finished builder's image holds what the builder laid out, and that the decoder
  reads those bytes back as the values they were made from, given the runtime's types. That
  runtime discovery finds the builder's types in its image is checked by the tests, not proved.
- `desktop`, `platform`: choosing the game process and classifying the system's answers.
- `session`, `backend`, `export`: the decisions of a session, the backends that attach and
  read, and export mode.
- `probe`, `clock`, `text`: the values a reading reports, UTC timestamps, and text helpers.

`app/` is the program around it: argument handling, the Win32 calls, the pipe and its frames,
the log file, and the export file. `tests/` runs the library on synthetic memory.
