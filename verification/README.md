# Brass Engine

A small 2D/3D game engine. This crate is its verified core, written in Verus: every
function in `src/` carries a contract that Verus proves, and the properties that tie
several functions together are stated and proved as `law_*` proof functions.

## Layout

- `src/ecs` — the entity registry (`World`): spawning, deferred destruction, component
  stores, tag lookup and component queries; script components; the cleanup system.
- `src/input.rs` — held / pressed / released keys and mouse buttons, per frame.
- `src/tilemap.rs` — tile sets, tile layers, tile maps and the text map builder.
- `src/animation.rs` — animation parameters, transitions chosen by priority, and the
  discrete part of the animation state machine (states, frame stepping, one-shot stops).
- `src/physics2d.rs` — the solid-tile collision grid (also read from text), the body
  registry, and which bodies a collision moves.
- `src/render` — colour bytes, sprite-sheet cells, frame animation, tile grids, draw
  order by layer, index buffers of quads, fans, cubes and spheres, the texture registry
  with its load-key cache and image decoding (through the `image` crate), and the window settings.
- `tests/` — tests of the library on concrete values.
- `app/` — the program around the core: window and event loop (winit), the GPU
  renderers (wgpu), float-valued components and physics, and a small
  platformer demo.
