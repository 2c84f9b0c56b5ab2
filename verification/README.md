# rusty_pixels

A swarm of particles that drift over a 640 by 360 RGBA frame, climb a tree, fork, fade
and die, together with the pixel buffers they are drawn into.

- `src/world/particle.rs`: the particle, its one-step evolution (drift, projection onto
  the frame, new velocity, forking, death) and its colour.
- `src/world/linebuf.rs`: a frame held as separate rows, with scrolling, fading, plotting
  and copying to and from a flat frame.
- `src/world.rs`: the world (particles, pending-dead count, line buffer, frame counter),
  its update step, and the flat-frame operations (fade, scroll, plot).
- `src/rotation.rs`: rotation of sequences, vectors and byte ranges.
- `src/chance.rs`: the random draws, taken from the `rand` crate.
- `app/`: timing and reports around drawing, the time-varying perspective projection,
  and the parallel copy of the line buffer into a frame.

Every function in `src/` carries a contract checked by Verus; the proof functions state
how the operations relate (scrolling is undone by the opposite scroll, the line buffer and
the flat frame scroll and fade alike, loading and copying a frame give it back).
