# cahill

A small audio player and the timeline logic behind it, with the logic
verified by Verus.

A *source* is a track (whole, or cut into segments), a list of sources, a
folder of tracks, or a clip of another source between two times. Flattening a
source gives its *timeline*: the plays in order, each a file with the span of
it to play, and the total length where every play has a known end.

## Layout

- `src/` — the verified library.
  - `time`, `source`, `error`: spans of time, the shape of a source, errors.
  - `timeline`: flattening, with its model as spec functions; `laws`: what
    holds of every flattening (totals, windows of clips, order of lists).
  - `resolve`: the schedule of a source once every file's length is known.
  - `queue`, `playback`, `transport`: the play queue, the player over an
    engine, and the state changes of the threaded player.
  - `media`, `tags`, `scan`, `playlist`: what is read of a file and which
    files a folder offers.
  - `audio`, `cover`, `text`, `style`, `cli`: output configuration, frame
    windows, base64 covers, clock text, the stylesheet and command output.
- `tests/` — tests run against the compiled library.
- `app/` — the `cahill` program: files, decoding, audio output and the
  desktop interface, around the library.
