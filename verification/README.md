# cs2_dumper

A library that recovers offsets, interfaces, schemas and live tables from a copy
of a game process, and a small program around it.

The library (`src/`) is written in Verus. Its public functions state in
`requires` and `ensures` what they expect and what they return, over mathematical
models, and Verus proves the code against these statements. It does no input or output: it
works on a `Memory`, a sparse copy of the address space, and on copies of the
modules' images.

- `memory`: the copy of memory, relative addresses, an image builder, and what
  the records of the system's process lists mean.
- `text`, `paths`, `strmap`, `order`: strings, paths by the rules of Windows and
  Unix, a map ordered by name, sorting by name.
- `analysis`: the walkers. `read` and `wire` decode numbers and fields, `pe`
  and `module_data` deal with images, `global_anchor` finds a global by
  describing the object it points at, and the others read one table each.
- `dump`, `process`: put the results of the walkers together.
- `loadlib`, `cli`, `report`: find an install, choose what to do, and report it.

What `pelite` and the standard library compute, and Verus does not read, is
called through a few functions whose contracts are trusted. Each says so above
its header. Numbers that the game keeps as floats are carried as their bits.

The program (`app/`) attaches with memflow, reads the process into the library's
types, and writes JSON. `tests/` runs the library on hand-made memory images.
