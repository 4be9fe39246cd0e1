# hb_high

High-frequency stochastic seismograms for finite-fault earthquakes: a verified library of the
decisions such a simulation makes, and a program around it.

- `src/` is the library. It reads decks, lays out rays, seeds and draws random streams, chooses
  transform lengths, walks the subfaults of a rupture, places contributions in the record and
  reports what did not fit. Every function has a contract, and Verus proves it, but for the
  trusted base below. Reals are carried as bit patterns: the library compares, cuts, widens and
  selects them, and computes none.
- `app/` is the program. It computes with reals (spectra, geodesics, transforms, radiation
  patterns) and reads and writes files, and asks the library what to do.
- `tests/` runs the library on given values.

Three contracts are believed, not proved: those of `seed_generator` and `next_of_generator` in
`src/rng.rs`, which call the PCG generator of `rand_pcg` through `rand_core`, and that of
`String::push` in `src/text.rs`. What such a generator holds is named by `generator_words`.

`src/lib.rs` has a table of the modules. Laws that relate several functions stand beside them, as
public proof functions.
