# captu

Captions of Japanese television recordings, made searchable.

The library in `src/` is verified with Verus. It works on plain values: bytes of
a transport stream in, captions, programme information, statements and commands
out.

- `ts/`: transport stream packets, program tables, timestamps, caption packets,
  programme information, broadcast text, captions and their pictures
- `media/`: which frames to cut for a caption, the command that cuts them, where
  the images are kept, and which of them to throw away
- `routes/`: what is asked for, the statements that answer it, what is shown
- `ingest.rs`: which recordings to read, and what to record of each
- `double.rs`: numbers of double precision, worked out in whole numbers
- `config.rs`, `cli.rs`, `paths.rs`, `text.rs`: settings, arguments, paths, text

`app/` reads files, runs the database, the web server and ffmpeg, and calls the
library for every decision. `tests/` runs the library.

What the proofs rest on besides Verus is marked in the source: each call into
another crate stands in a small function of its own, whose comment says what is
taken for granted of it.
