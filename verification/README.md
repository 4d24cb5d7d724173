# exportsnap

Recovers a Snapchat data export: pairs the media with the history that names it, dates and places
it, and keeps a manifest of what has been written so that a run can be resumed.

- `src/` is the library, verified with Verus: parsing, planning, the manifest's rules, the rules of
  the interface, Exif and its directories. Each function's contract says what it returns; the public
  proof functions whose names begin with `law_` relate several of them.
- `app/` is the part that touches the machine: files, the sqlite database, ffmpeg, the terminal.
- `tests/` runs the library on concrete values.

What the library takes from outside (chrono, blake3, toml, little_exif) goes through small functions
marked `external_body`, each with a comment that says what is claimed of the outside call.
