# Particle Playground

A 2D particle sandbox: Verlet integration, circle and box colliders, magnets, direct and
Barnes-Hut n-body gravity, drawn with wgpu behind an egui launcher.

## Layout

- `src/` — the verified library (Verus):
  - `grid.rs`: the uniform grid over integer cells; neighbour candidates of a particle and
    the sorted, repetition-free list of pairs that the collision pass examines.
  - `quadtree.rs`: the shape of the Barnes-Hut quadtree (children, walk order, split order)
    over any node payload, and the numbering of quadrants.
  - `scene_type.rs`: the scenes offered by the launcher, with titles and descriptions.
  - `app_state.rs`: launcher / running scene, Escape, the start button, window resizing.
- `app/` — the program around it: floating-point physics (`physics/`), the scenes
  (`scenes/`), the wgpu renderer (`render.rs`), the winit/egui window (`window.rs`).
- `tests/` — tests of the library.
