# coin612

The verified core of a live viewer for Coin612-family USB thermal cameras (`04B4:F7F7`, 640x512),
with the viewer around it.

The camera streams raw interleaved Y16 and UYVY lines over USB bulk transfer, with no frame markers.
`src/` finds the frames in the stream, splits them into planes, maps levels to colors and draws the
displayed picture; its functions carry contracts that Verus proves. What is believed without proof is
the contracts of three functions in `src/screenshot.rs`, which call the `png` and `time` crates.
`app/` is the program: it talks to USB, SDL, ffmpeg and the file system, and asks the library what to
do.

Floating point formulas are evaluated on integers: `src/float.rs` computes binary32 and binary64
with exact rounding, so that the contracts can say what comes out.

## Assets

The program reads four tables from `assets/` in the crate directory: `font8x8.bin` (95 glyphs from
the space on, 8 rows each, the lowest bit on the left) and `jet.bin`, `inferno.bin` and `turbo.bin`
(256 colors, red, green and blue bytes).

## Controls

| Key | Action |
|---|---|
| Q / ESC | Quit |
| C / 1-9 | Cycle / select palette |
| P | Palette on/off (raw grayscale) |
| H | Histogram equalization |
| T | Toggle Y16 (raw) / UYVY (processed) source |
| F | Fullscreen |
| +/- | Contrast |
| S | Screenshot (PNG and raw Y16) |
| R | Record MP4 |
| SPACE | Quick NUC (shutter compensation) |
| N | Extended NUC (better ghost removal) |
| G | Low-noise gain mode |
| V | VSync toggle (off by default for latency) |

`--latency-debug` prints the latency from read to display once per second. `--capture-raw <file>`
saves the bytes of the first alignment.
