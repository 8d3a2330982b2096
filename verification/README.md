# Aurora

The verified core of the Aurora game runtime, with the C surface compiled programs
call around it.

- `src/` is the library. Everything in it is verified: what each function returns or
  changes is stated next to it, and the `law_*` proof functions state what holds of
  several functions together.
- `app/` is the C surface: pointers, files, sockets, threads, the physics solver, the
  font rasterizer and the audio decoders, and the float arithmetic between them and
  the library.
- `tests/` runs the library, with the real outside crates linked.

Floats cross into the library as their bit patterns. The library stores, sends and
orders them but never computes with them.

| Modules | What they hold |
|---|---|
| `wire`, `session`, `host`, `guest`, `events`, `inbox` | networked games: packets, prediction, reconciliation, authority |
| `world`, `scene`, `schedule` | entities, their file, parallel batches and the fixed clock |
| `slot`, `bodies` | generation-tagged handles and the bodies behind them |
| `graph`, `nav`, `navmesh` | routes over grids and meshes |
| `terrain` | heightfields and their file |
| `json` | documents behind handles |
| `canvas`, `font`, `typeface`, `images` | the framebuffer, text, loaded fonts and pictures that are measured |
| `sound`, `decode` | what was played, and driving a decoder |
| `input` | actions and the inputs bound to them |
| `arena`, `vstack` | frame memory and the value stack |
| `rng`, `text`, `bytes` | random numbers, strings and byte order |
| `debug`, `prof` | the debugger and profiler hooks |
| `span`, `prelude`, `shader` | source positions, the prelude, shader lowering |
