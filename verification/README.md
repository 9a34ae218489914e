# clippy_lib

The engine of the Clippy clip editor and replay buffer, written in Verus.

- `src/` is the verified library. Every module states its behaviour as
  `requires`/`ensures` contracts over spec functions, and the properties that
  span several calls (pruning meets the cap, a trimmed buffer starts on a
  keyframe, the allowlist remembers what was added, and so on) are public
  proof functions whose names start with `law_`.
  - `export`, `extract`, `encoder_cascade`, `frame`, `media`, `ffmpeg`: the
    ffmpeg command lines, filter graphs, cache names, range replies and
    refusals of the editor.
  - `probe`, `waveform`: reading what ffprobe and ffmpeg report.
  - `storage`: listing, measuring and pruning saved replays.
  - `replay`: the replay buffer's decisions: which worker captures which
    window, how long the buffers are, how audio is planned and trimmed, how a
    save is named and muxed, and the game allowlist.
  - `diag`, `selftest`, `state`, `text`, `helpers`: the diagnostics ring,
    dates, the smoke test's tally and shared text routines.
- `app/` is the command-line front end: it reads files, runs ffmpeg, serves
  media over localhost and uses the clipboard, handing the library plain
  values.
- `tests/` runs the library on concrete inputs.
