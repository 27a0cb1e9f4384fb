# steel-provider

A server that generates decorated chunks of Minecraft worlds for its clients. A
client sends 16 bytes (a world seed and two chunk coordinates) and gets back a
length-prefixed response with the chunk's sections in the network format.

- `src/` is the library, verified with Verus. It holds the wire format, the
  serial request and response cycle of a connection, the cache of world
  generation contexts, the cache of chunk holders with its eviction, the
  decoration passes, and the steps of the generation of one chunk.
- `tests/` runs the library.
- `app/` is the program around it: sockets, threads, locks, the clock, the C
  interface, and the calls into the SteelMC world generator. The SteelMC crates
  do not come from the package registry, so `app/` builds where they are at hand.

The library rests on the hash tables of `rustc_hash`; what it takes for granted
of them is stated in `src/position_maps.rs`.
