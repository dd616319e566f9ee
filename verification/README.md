# retro_aio

The mascot daemon for the Thermalright Hyper Vision 360 ARGB LCD cooler. It
watches the machine's telemetry, drives a pixel mascot through its moods,
renders a 480x480 CRT-style frame about thirty times a second and sends it to
the panel over USB.

## Layout

* `src/` — the library. Everything the daemon decides or computes, written in
  Verus with contracts that are proved.
  * `daemon` — the loop's state and one turn of the loop
  * `mascot` — the mood machine, the scream lock and cooldown, idle poses
  * `quotes` — the quotes and the choice of their language
  * `render`, `rain`, `canvas` — layout, HUD, Matrix rain, pixel buffers
  * `png` — what a sprite file must hold before it is decoded
  * `screen`, `jpeg`, `error` — the panel's protocol
  * `telemetry` — sensor discovery and the snapshot
  * `prng`, `single`, `text` — generators, single-precision rounding, text
* `app/` — the program: USB transfers, sysfs, `nvidia-smi`, the clock.
* `tests/` — tests of the library.

## Conventions

* The clock, the seeds and the mascot's bounce are arguments, so every function
  of the library gives the same result for the same arguments. The one
  exception is `quotes::system_quotes`, which asks the host for its locale.
* Single-precision quantities are kept as integers: drop positions as multiples
  of `2^-21` px, sensor readings as binary32 bit patterns. `single` holds the
  rounding rules.
* A text is refused only where what it measures leaves the range in which the
  drawing call is safe (`canvas::text_fits`).
* A sprite is a PNG file. An indexed one whose palette ends in part of a color
  is refused before it is decoded (`png::readable`).
* Text, sprites, rectangles and JPEG come from `ab_glyph`, `imageproc` and
  `image`. `canvas` has one small function per call, and its doc comment says
  what is relied on.

The program reads its font and sprites from an `assets` directory: `font.ttf`,
`normal.png`, `angry.png`, `angry_scream.png`, `smile.png`, `squints.png` and
`smoke.png`.
