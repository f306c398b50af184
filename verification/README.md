# jpeg_encoder

A baseline JPEG encoder whose core is verified with Verus: bit streams, byte stuffing,
Huffman coding (package-merge code lengths, code trees, a canonical decoder), chroma
downsampling, splitting channels into 8x8 blocks, zigzag sampling, DC/AC coefficient coding
and the JPEG segment writer.

* `src/` is the verified library. Each public function states its result in its contract;
  proof functions state the laws that tie functions together (for example that decoding
  gives back what the encoder wrote, or that downsampling a channel in chunks of even
  length gives the same rows as downsampling it whole).
* `tests/` runs the library on concrete values.
* `app/` is the command-line program: it reads a P3 PPM file, does the floating-point steps
  (colour conversion, DCT, quantization) and the threading, and writes `output.jpg`.

Usage: `jpeg_encoder /path/to/image.ppm`.
