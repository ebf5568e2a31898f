# iris_rust

Iris recognition after Daugman: boundary search, eyelid and eyelash
masking, rubber-sheet normalisation, log-Gabor phase coding and shifted
Hamming matching, with the integer and bit-level core verified by Verus.

## Layout

- `src/` — the verified library.
  - `bits.rs` — the `bitvec` bit-vector that holds codes and masks, behind
    trusted wrappers whose contracts speak of its contents.
  - `arrays.rs` — the `ndarray` arrays (8-bit image, masked image, response
    grid) behind trusted wrappers.
  - `types.rs` — sizes, image identifiers, templates and masks.
  - `daugman.rs` — contour sums, radial derivative, box blur and peak search
    of the boundary search, with the `i64` range checks that guard them.
  - `eyelid.rs` — edge points and the Hough vote for eyelid lines.
  - `segment.rs` — the noise mask (eyelids, eyelashes).
  - `encode.rs` — packing quantised phases into a template and a mask.
  - `matching.rs` — row rotation and the shifted Hamming score, as an exact
    fraction; `matching_laws.rs` — its proved properties.
  - `layout.rs` — row-major layout facts shared by the grids and codes.
  - `casia.rs` — the CASIA v1.0 image listing, file names, and decoding an
    image file's bytes into 8-bit grey through the `image` crate.
  - `pairs.rs` — the intra- and inter-class pairs of a matching run and
    their counts.
- `app/` — the command-line program: reading files, the floating-point
  stages (boundary geometry, edge detection, trigonometry, normalisation,
  FFT, error rates), parallelism and serialisation.
- `tests/` — tests of the library on concrete values.
