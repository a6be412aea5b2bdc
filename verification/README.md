# music_rust

A player for numbered-notation scores (TXT), MIDI files and audio files,
with a verified core.

- `src/` is the library, written in Verus and verified: the score formats
  (legacy two-hand, multi-track and the absolute-tick v3 format), event
  ordering, MIDI tempo maps and lengths, note display, instrument-switch
  rules, soundfont checks, the command line, key decoding, the log ring,
  console capabilities, text layout of the player screen, and the
  decisions of interactive playback, and what parsing reports along the
  way (tempo changes, skipped lines, clamped octaves, unknown characters).
  Ordered maps and sets are std's `BTreeMap` and `BTreeSet`, whose
  iteration order vstd specifies. Each public function states its result
  exactly in its `ensures`; laws that relate several functions are public
  proof functions (`lemma_*`).
- `app/` is the program around it: argument and file I/O, the FluidSynth
  and audio-file bindings, the terminal, threads, and everything computed
  in floating point (gains, cover scaling, percentages).
- `tests/` exercises the library on concrete values.
