# pvz_overlay

An overlay for Plants vs. Zombies (Chinese edition) that draws a frame around
every zombie on the lawn, built around a library verified with Verus.

- `src/` is the verified library:
  - `chain.rs`: resolving a multi-level pointer in the game's memory, one
    read at a time (`PointerChain`);
  - `scan.rs`: the scan of the zombie table, from the six field chains to the
    list of live zombies (`ZombieScan`), and the liveness rule;
  - `wide.rs`: UTF-16 encoding of window-system strings and unit search;
  - `locate.rs`: recognising the game's process and window;
  - `window.rs`: the overlay's answer to window messages and its position.
- `app/` is the Windows program: it performs the memory reads and the
  window-system calls that the library asks for, and draws the frames.
- `tests/` runs the library on simulated game memory and sample texts.
