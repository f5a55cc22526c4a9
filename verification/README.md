# loom_core

A lossless audio codec and multitrack session container, written in Verus: the
library's behaviour is stated in `requires` / `ensures` contracts and proved.

Track 0 of a session is stored as FLAC frames after FLAC metadata (STREAMINFO,
Vorbis comments, a picture, padding); the session header, seek table, edit
overlays and the frames of the other tracks, which may be predicted from track
0's residuals, travel in FLAC application blocks. Session diffs record which
frames of a base session are kept and which are new.

## Layout

- `src/` — the verified library.
  - `bitstream`, `crc`, `entropy` — bit I/O, CRC-8/16, Rice, rANS and tANS coding.
  - `predict`, `decorrelate`, `transform`, `analyze` — fixed and LPC prediction,
    stereo and cross-track decorrelation, KLT, the integer wavelet, transient
    detection.
  - `container` — frames, metadata blocks, the session header, the encoder and
    the session reader; `frame_roundtrip`, `session_roundtrip` and `readable`
    hold the proofs that what is written reads back.
  - `diff`, `edit`, `render`, `verify` — session diffs, edit overlays, track
    mixing and the MD5 of the PCM.
- `tests/` — the test suite.
- `app/` — the command-line program: file I/O, the floating-point LPC
  coefficient search and MDCT, and the edit overlays that work on floats.

## What is proved

Among others: every frame, metadata block, header, seek table, edit block and
diff the library writes reads back as written; prediction, stereo and
cross-track decorrelation, the KLT and the wavelet undo exactly; and a
single-track session whose samples fit a bit depth of at most 26 decodes back
to its samples, header, edits, tags and picture.
