# gaussian_integral

The verified integer core of an interactive viewer for the Gaussian surface
e^{-(x²+y²)} and the integral ∫ e^{-x²} dx = √π.

`src/` (verified with Verus) holds the decisions that do not depend on floating point:

- `simpson`: the interval count and sample weights of the composite Simpson rule, with
  the proof that the weights integrate every cubic exactly and are symmetric;
- `grid`: the walk over the n×n sampling grid shared by the surface mesh and the
  midpoint integrator, with the proofs that it visits each cell once and that
  neighbouring cells share edges;
- `painter`: order-preserving integer keys for face depths and the stable
  farthest-first drawing order, proved to be a permutation and unique;
- `controls`: which camera controls the pointer drives in a frame.

`app/main.rs` is the program: the window, the egui panel, drawing, and all
floating-point arithmetic (camera, projection, exponentials, colour ramp, the
numerical sums), which calls the library for the decisions above.
