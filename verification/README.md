# krkr_tools

Tools for the file formats of the KiriKiri (krkr) engine, with their logic
verified by Verus:

- `src/encoding.rs`: UTF-8 and UTF-16 (little-endian) conversions.
- `src/header.rs`, `src/scramble.rs`, `src/ksd.rs`: scrambled text files
  (modes 0, 1 and 2) and their five-byte header.
- `src/zlib.rs`: zlib compression through `flate2`, Adler-32 through `adler`,
  and the frame of mode 2 text.
- `src/paths.rs`: paths as the archive index writes them, relative paths.
- `src/xp3/`: the XP3 archive: the index records, reading an archive
  (`XP3Parser`) and writing one (`pack_archive`).
- `src/psb.rs`: the header of PSB scene files.

`app/` holds the command-line program (file I/O, directory walking,
argument parsing): `descramble`, `scramble`, `xp3pack` and `xp3unpack`.
