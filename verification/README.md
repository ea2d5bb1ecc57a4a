# snark_stream

Out-of-core SNARK proving primitives, verified with Verus. A prover's memory is dominated by
buffers that grow with the circuit: the bases of its multi-scalar multiplications and the
extended cosets of its quotient. Each primitive here streams or tiles such a buffer, and its
contract says that the result is the in-core one.

- `pippenger`: the bucket method over any group, in core and streaming.
- `msm`, `kzg`: multi-scalar multiplication and KZG commitment over arkworks' BN254.
- `halo2::msm`: the same over `halo2curves`' BN254, the scalars resident.
- `halo2::fft`, `halo2::scratch`, `four_step`: the four-step transform, in core and over
  scratch files of records.
- `halo2::tiled`, `halo2::disk`, `halo2::records`: windows of cosets, in memory and as runs of
  records.
- `plonk`: expressions compiled to graphs of calculations; the quotient of a constraint system
  in core, in tiles and with its cosets spilled; sample circuits and a benchmark key.
- `interpolate`: the inverse transform.
- `field`: the scalar field, as the integers modulo its prime.

Field elements and points stay the outside crates' own. What the library takes from those
crates is behind small functions whose contracts are stated next to them; everything else is
proved.

`app/` is the command-line demo: it reads and writes the files, and computes with the
library's functions.
