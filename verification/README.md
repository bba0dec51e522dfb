# mandelbrot_blocks

Counting the points of the generalised Mandelbrot set `z -> z^e + c` on a
1923 x 1447 pixel grid, for exponents `e` in `[2, 3)`. A GPU pass classifies
the grid's 8x8 blocks per exponent range as full (every pixel in the set for
every exponent of the range), interesting (some pixel in the set for some
exponent) or empty, and stores the full and interesting block flags
run-length coded. A count for one exponent then only iterates the pixels of
the interesting blocks.

- `src/` is the verified library (Verus):
  - `grid.rs`: the grid and block geometry, pixel-to-block lookup, growing a
    block set by its neighbours;
  - `rle.rs`: the run-length code of block flags (`compress`, `decompress`)
    and the proof that decoding gives back what was encoded;
  - `stats.rs`: counts and classifications of the GPU's result words;
  - `shade.rs`: grey levels of the block and pixel maps;
  - `text.rs`: the text form of stored results and the C++ header export;
  - `parse.rs`: reading those texts back, and the proof that a written
    results literal reads back to the block tables it was made from;
  - `device.rs`: the choice of compute device and queue family.
- `app/` is the program around it: the floating-point orbits, the parallel
  counting, the Vulkan plumbing, files and images.
- `tests/` runs the library on concrete values.
