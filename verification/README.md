# rust_ising

Ising models on periodic grids, with simulated annealing in mind.

`src/` is a library verified with Verus. It holds everything about a model
that is not a real number:

- `lattice`: the geometry of a periodic grid (mixed-radix point numbers,
  coordinates, the two neighbours of a point along each axis) and its laws:
  coordinates and point numbers convert back and forth, neighbours stay in
  the grid and come in opposite pairs.
- `ising`: the discrete state of a model (side lengths, edge slots, spins,
  starting configurations, generator), filling edge slots from neighbours,
  drawing and flipping spins, counting the flipped points of a cluster.
- `bits`, `rng`: spin configurations held in `bitvec`'s `BitVec`, and the
  seeded `rand_pcg` generator.
- `text`, `config_hex`: tokens, trimming, unsigned integers in a radix, and
  the hex text form of a configuration, which reads back as written.
- `ising_file`, `ising_file_gen`, `ground_state_file`: the model file format,
  read into tokens and indices, written from text, and extended with a
  ground state that reads back as written.
- `dist_spec`: the text form `KIND:A,B` of a weight distribution.

`app/` is the program around it: file I/O, the command line, and everything
that computes with real numbers (weights, fields, costs, sampling).
