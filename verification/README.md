# exey_engine

The core of a 2D isometric sprite engine, verified with Verus, and a demo that
draws a small world with it on Vulkan.

- `src/` is the library. Its functions are verified against the contracts in
  their headers, but for the few that call outside crates (see below).
  - `render/sort/`: the draw order. A left-to-right sweep links sprites that
    overlap on screen, and a topological sort of the links gives the order.
    `depth_laws.rs` states when that order is back to front.
  - `render/`: what the renderers record. The streaming renderer packs many
    sprites into one buffer and draws once per texture change.
  - `draw/`: vertices and frame animation.
  - `gfx/`: decisions of the Vulkan layer on plain values, and textures.
  - `engine.rs`: the frame loop as a state machine.
  - `demo/`: textures, font, placement and input of the demo world.
- `tests/` runs the library.
- `app/` is the demo: window, Vulkan calls, and everything that computes with
  floats. It reads compiled shaders from `shaders/spv/` and, if present, the wolf
  sheet `assets/wolf-all.png`.

The library computes with integers only. Floats pass through it as bit
patterns; where the textures need their arithmetic, `demo/single.rs` carries it
out on significand and exponent, rounding included. Logic coordinates are
integers in a scale of the caller's choosing.

Not verified are the contracts of the calls into outside crates, which are
believed: the wrappers `words_as_bytes` and `indices_as_bytes` (`bytemuck`) and
`decode_rgba` (`image`), and the version functions of `vulkanalia` in
`gfx/version.rs`. Each says in its comment what is claimed.
