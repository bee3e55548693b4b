# smartcut_core

The decisions behind cutting a recording without re-encoding it, as a Verus
library: what a range is made of, which tables a finished cut carries, how
subtitles are carried across a cut, where a programme's breaks are, what is
kept about a recording and what is thrown away.

Every function under `src/` carries a contract that Verus proves. Laws that
relate several functions are public proof functions whose names begin with
`law_`.

## Layout

- `src/plan.rs` -- a kept range as stretches that are copied and made again.
- `src/recording.rs`, `src/recording/` -- what is in a recording, and the places
  a cut can start from.
- `src/si.rs`, `src/si/` -- the tables a broadcast carries about itself, read
  and put back.
- `src/pgs.rs`, `src/pgs/` -- a disc's drawn subtitles; `src/subs.rs` -- the
  subtitle that stands at a moment; `src/ttml.rs`, `src/ttml/`,
  `src/caption.rs` -- written ones.
- `src/restamp.rs` -- a clip of several stretches read as one.
- `src/logo.rs`, `src/logo/` -- the station logo and the stretches it is
  missing from.
- `src/thumbs.rs`, `src/thumbs/`, `src/preview.rs`, `src/preview/`,
  `src/seek_index.rs` -- pictures to find one's way by.
- `src/proxy.rs`, `src/proxy/`, `src/cache.rs` -- files kept about a recording.
- `src/sound.rs`, `src/sound/`, `src/playback_audio.rs`,
  `src/playback_audio/` -- the sound of a cut, written and heard.
- `src/transition.rs`, `src/series.rs`, `src/netpath.rs`, `src/text.rs`,
  `src/nice.rs` -- crossings, names, shares, broadcast text, priority.
- `src/naming.rs` -- files named after one another.
- `src/time.rs`, `src/bytes.rs`, `src/chars.rs`, `src/decimal.rs`, `src/le.rs`,
  `src/rank.rs` -- what the rest is written with.
- `app/` -- ordinary Rust around the library: files, libav, the sound card.
- `tests/` -- the library run on concrete values.

## Time

A moment is a whole number of ticks, 705,600,000 to the second: a clock on
which frames, samples and 90 kHz stamps all fall on whole numbers. Rates are
fractions. Samples and levels are carried as the bits of their values.
