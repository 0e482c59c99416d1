# cascadia-engine-sparse-moe

The logic of a sparse mixture-of-experts inference engine, verified with Verus: how experts are
routed, read, cached, placed and served, and how the state of each sequence is kept.

## Layout

- `src/inkling/` - the Inkling models: routing, the expert cache, block plans, attention caches and
  short convolutions, layers and pipeline ranks, the wire between a driver and its expert workers,
  the device backends, and the capture of streams.
- `src/k3/` - the K3 models: the residual wire between ranks, the recurrent and latent state, the
  packed expert format, pinning from recorded traffic, and the prefix store.
- `src/*.rs` - what both share: text, bytes, ranges, ranking, the bits of floating-point numbers
  and a table of costs in order of use.
- `app/` - the engine around the library: kernels in floating point, files and memory maps,
  settings, links and devices. It carries out what the library decides.
- `tests/` - scenarios on concrete values.

## Reading the contracts

Floating-point values are held as their bits; arithmetic on them happens in `app/`. A call that
needs outside work is split in two: one function says what to do, the next takes what came back and
settles it. Proof functions whose names begin with `law_` state what holds across functions.

Items marked `external_body`, the declared types beside them and one `assume_specification` are
taken on trust: they call the `lru` and `serde_json` crates and a few functions of the standard
library, and their doc comments say what is claimed.
