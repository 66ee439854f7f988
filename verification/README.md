# Matrix telemetry

Glyphs rain down the terminal; the more memory is in use, the redder they get. An
overlay shows RAM and CPU use.

The engine under `src/` is verified with Verus. `app/` is the program around it:
keyboard, clock, system readings, terminal.

| module | what it holds |
| --- | --- |
| `rounding` | what it means to round to single precision, and the rounding itself |
| `single` | single-precision arithmetic on bit patterns, that of the hardware bit for bit, but for the bits of a NaN |
| `single_laws` | order and bounds of single-precision results |
| `draw` | random draws (`rand`) and points of a single-precision range |
| `rain` | drops, columns, the field, and the cells to be painted (in parallel, with `rayon`) |
| `rain_laws` | what every frame keeps, what is visible when, how drops fall |
| `colour` | the colour of a cell, and how it depends on brightness and RAM use |
| `overlay` | the text of the overlay |
| `screen` | painting into a `ratatui` buffer |
| `stats` | RAM and CPU percentages, and the CPU temperature |
| `sensor` | which sensor tells the CPU temperature |
| `frame` | the decisions of the frame loop |

The items that stand for `rand`, `rayon` and `ratatui` are trusted; each says in its
comment what it claims.
