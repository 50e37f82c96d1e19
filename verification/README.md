# macroquad_toolkit

Building blocks for small games, with the logic proved correct by Verus.

`src/` is the verified library:

- `rng` — the legacy multiply/add generator whose streams older games shipped.
- `score` — musical scales: degrees to semitones, and pitch-class membership.
- `series` — a bounded time series that keeps every extreme exactly.
- `source_gate` — the per-file line limit: counting lines, ranking offenders,
  and the report with its shrinking exception list.
- `strip` — how far a spinning strip travels (always whole revolutions plus
  the distance to its stop) and which stops a tick announces.
- `synth` — oscillator shapes and the WAV container for 16-bit mono PCM.
- `settings` — the reduced-motion and screen-shake switches.
- `ui` — grouped and compact numbers, money, clock, durations, names, pseudolocalised
  text with its per-thread switch state, literal and word wrapping against a
  caller's fit test, and the contrast levels; `ui::binary32` writes a quotient exactly as
  single-precision arithmetic would.
- `text` — decimal numerals and character helpers shared by the above.

`app/` holds what cannot be verified: reading files and directories, the
process-wide and thread-local switches, serde encodings, and arithmetic on
`f32`/`f64` (timers, hertz, amounts, the real-valued series wrapper).

Out of scope: drawing and input (widgets, panels, plaques, tab bars, scroll
areas, fonts, tooltips, the virtual canvas, touch-target and text-bounds
audits), which is macroquad work over `f32` geometry, and the real-valued
animation and audio code (strip easing, sprite recolouring, synth
oscillators and envelopes, score rendering, the settings model with its
panel, preview and session), which needs easing, colour, input, persistence
and random-number modules that this library does not include. The integer
and text logic those parts rest on is in `src/`: strip travel and stop
announcements, literal and word wrapping, the pseudolocalisation switch
state.

`tests/` exercises the library on concrete values.
