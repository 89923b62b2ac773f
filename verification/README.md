# hecras

A 1D/2D open-channel hydraulics engine (steady standard-step profiles, unsteady
Saint-Venant routing with the Preissmann scheme, and a 2D shallow-water finite-volume
model), with Python bindings.

- `src/` is the verified library: the parts of the engine decided on indices and
  counts alone. It checks cross-section point counts and reach lengths, lays out the
  unsteady router's state vector and result rows, builds its downstream boundary
  condition from a request, and holds the 2D model's padded grid, ghost-cell fill
  and face sweep, with their laws (padding round trip, stored levels round trip,
  ghost cells read the interior and write the ghost layer, each interior cell takes
  the flux of each of its faces exactly once).
- `app/` is the floating-point engine and the PyO3/numpy bindings, built on the
  library.
- `tests/` exercises the library on concrete values.
