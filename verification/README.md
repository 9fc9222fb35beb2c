# tei_fabric

The core of a thermodynamic compute fabric, verified with Verus: a dispatcher
that routes work to the substrate with the lowest energy cost, functional
simulators of the substrates, and the firmware build service's decisions.

| Directory | What it holds |
|---|---|
| `src/` | The library. Every item is verified. |
| `tests/` | Tests in ordinary Rust, at double precision. |
| `app/` | Hosts: JSON jobs, generators, files and processes, the graphics device, the browser. |

## Modules

| Module | What it does |
|---|---|
| `cost` | Prices primitives on six substrates, dispatches workloads, lists presets. |
| `field` | FDTD on 2D and 3D Yee grids: absorbing layers, dispersive media, guided modes, ports, scattering parameters, what a compute shader is fed, whole jobs. |
| `forge` | Validates app sources, names build targets, decides each step of a build. |
| `gaussian` | Gaussian states: symplectic maps, homodyne measurement, Williamson spectrum, fidelity. |
| `photonic` | Interferometer meshes: components, star product, Clements decomposition, optical products. |
| `spiking` | Leaky integrate-and-fire networks, spike-timing-dependent plasticity, spike statistics. |
| `stochastic` | Ising models: chromatic Gibbs sampling, annealing, replica exchange, Max-Cut. |
| `scalar`, `complex`, `exact`, `matrix`, `sparse`, `sorting`, `text`, `parallel`, `progress` | What they share. |

## Numbers

A simulator is generic over `scalar::Scalar`, whose operations have no laws:
`plus` is some sum, `times` some product. Contracts state the exact expression
that a result is, operation by operation, so they hold of floating point as they
hold of integers. Square roots, exponentials, random draws and the like are
functions that the caller hands in; a contract says what they are called on and
where their results go.

Laws that need real arithmetic are stated for scalars that compute exactly: a
commutative ring, or one whose complex numbers are a ring with a conjugation
(`exact`). Wrapping integers are such scalars. These laws are proved for them all:

- `photonic::nulling` and `photonic::rebuild`: the nulling angles null, and the
  mesh into which a unitary is decomposed has that unitary as its matrix.
- `photonic::lossless`: segments, couplers, phase shifters, interferometers and
  whole meshes are unitary; rings without loss conserve power.
- `photonic::acting`: a mesh acts on amplitudes as its matrix.
- `photonic::solving` and `photonic::star`: elimination solves its system and
  nothing else does; the star product is associative, and a through connection
  is neutral on both sides.
- `gaussian::symplectic`: every operation keeps the symplectic form.

What rounding makes of them, and that energy decays in an absorbing layer, are
not theorems of the library. The tests measure them at double precision.

## What is believed without proof

- `parallel::par_indexed`: rayon's indexed map and collect keeps index order.
- `forge::hash::sha256`: sha2's digest is a function of the bytes, 32 bytes long.
- `field::gpu::word_bytes`: bytemuck's cast of words to bytes, in the byte order
  of the machine.
- `String::push` of std.
