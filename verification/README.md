# ascii-world

An image-to-ASCII engine: pictures become text, colored terminal art, JSON, painted images,
animations and video. The library under `src/` is written in Verus, and every function of it is
proved to do what its contract says.

## Layout

| Path | What lives there |
|---|---|
| `src/engine.rs`, `src/engine/` | Image to grid of (character, color, alpha) cells: geometry, sampling, braille dots and dithering |
| `src/charset.rs` | Built-in ramps, custom ramps, sorting by measured glyph density |
| `src/font.rs` | The font stack: where a glyph comes from, cell metrics, coverage |
| `src/paint.rs`, `src/paint/` | Painting a grid to pixels, cropping, transparent backgrounds |
| `src/render.rs`, `src/json.rs` | Text, ANSI and JSON output |
| `src/input.rs` | What a file is, and what it decodes to |
| `src/anim.rs` | Animated GIF files |
| `src/video.rs` | Probing, frames, overlay and encoder arguments of a video |
| `src/pipeline.rs` | The commands, from bytes to output |
| `src/mcp.rs` | The MCP server, one line at a time |
| `src/web.rs` | What a browser calls |
| `src/float.rs`, `src/float/` | Floating-point arithmetic on encodings |
| `src/pixels.rs`, `src/text.rs`, `src/paths.rs` | Images, strings and file names |
| `app/` | The program: arguments, files, SVG documents and what they refer to, processes, standard streams, browser bindings |
| `tests/` | Tests of the library |

Proof functions named `law_..` say what is true of several functions together: that opaque pictures
ignore the matte, that inverting is reversing the ramp, that cells tile the picture, that a crop
keeps every drawn pixel, that every frame of an animation has one size, that a reply of the server
is one line. Most of them stand in files named `laws.rs`.

## Numbers

The engine averages, dithers and blends with 32-bit and 64-bit floating-point numbers. `Single` and
`Double` hold their encodings, and their operations are proved to round as IEEE 754 says. That is
what makes it possible to state which character a cell gets, and which value a pixel has, exactly.

## What is trusted

Font outlines, image files, JSON parsing and the parallel loop over rows come from other crates.
Each call stands in one small function marked `external_body`, whose doc comment says
what is claimed of it. Where the result of a call takes pages to state, it has a name, and contracts
speak of that name.

## Fonts

The program reads its fonts from `assets/fonts`, or from the directory that `ASCII_WORLD_FONTS`
names: `DejaVuSansMono-Bold.ttf`, and `NotoSansMonoCJK-Subset-Bold.otf` for the Chinese, Korean and
Japanese sets.
