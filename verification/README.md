# euclider

A non-euclidean ray tracer. The verified library (`src/`) holds the logic that decides
rather than computes on floats:

- `shape`: shapes combined by set operations, which points they contain, and the walk that
  merges the intersections of two shapes along a ray into those of their combination;
- `scene`: the JSON model of a scene file and the parser that resolves its constructors,
  fields and values;
- `input`, `controls`, `simulation`: the state that the window's events drive, the camera
  controls read from it, and the simulation that is built around an environment;
- `render`: pixel layout, the debugging marker, the checkerboard, ray offsets and the choice
  of the nearest hit;
- `material`, `surface`: media that bend rays by series of transformations;
- `util`: lazily evaluated and remembered iterators, integer remainders, set filtering and
  the bracket trimming of generic type names.

`app/` is the program: it reads the scene file, does the floating-point geometry, colour and
camera work, renders frames on a thread pool and shows them in a window.

Run it with `euclider --scene <file.json> [--debug]`. Controls: mouse to look around, mouse
wheel to change the resolution, `W`/`A`/`S`/`D`/`Shift`/`Control` to move, `Esc` to exit.
