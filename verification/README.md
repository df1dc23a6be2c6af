# Audio visualizer

A real-time visualizer for system audio: captured sound is analysed into a
spectrum, grouped into log-spaced bands, and drawn as one of six full-window
visuals, with a debug HUD on top.

The library under `src/` holds the logic and is verified with Verus. The program
under `app/` is ordinary Rust around it: audio capture, the FFT, the window and
the GPU.

## Values

The library computes in integers.

- Lengths, levels, colors and milliseconds are fixed-point numbers of billionths
  (`number::ONE` is one).
- Times are nanoseconds.
- Raw audio comes in as the bits of single-precision floats (`number::Sample`);
  whatever those bits are, infinities and NaN included, the drawing code has
  stated results.
- Transcendental curves (exponential easing, powers, sines and cosines, the
  hyperbolic tangent) are handed in as closures, and the contracts are stated over
  what the closures return.

## Layout

| Module | What it holds |
|---|---|
| `number`, `spline`, `srgb`, `color`, `palette` | arithmetic, curves and colors |
| `geometry`, `mesh`, `shape` | strokes and fills as indexed triangles, display lists |
| `motion` | frame clock, contrast window, easing |
| `bars`, `ridge`, `area`, `radial`, `scope`, `visuals` | the visuals |
| `bands`, `capture` | band grouping, the sample ring, the analysis schedule |
| `font`, `stats`, `text`, `hud`, `panel`, `summary`, `overlay` | the debug HUD |
| `settings`, `controls`, `gpu`, `bloom`, `session` | decisions of the program |

Functions named `law_…` are proofs of properties that span functions: curves
never overshoot their data, ramps brighten with height, motion does not depend on
the frame rate, and so on.

## Running

| Variable | Effect |
|---|---|
| `AUDIO_SOURCE=<name>.monitor` | source to capture |
| `MSAA=1\|2\|4\|8` | multisampling, off by default |
| `START_VISUAL=<n>` | visual to start with |
| `HUD_AUTODUMP=<seconds>` | print the HUD summary at an interval |
| `BLOOM_INTENSITY=<x>` | strength of the glow |

| Key | Action |
|---|---|
| `Space`, `→`, `←`, `1`–`9` | choose a visual |
| `F1`, `F2`, `F3` | toggle, reset, print the HUD |
| `F11` | fullscreen |
| `P` | next palette |
| `Esc` | quit |
