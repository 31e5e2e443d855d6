# simd-brotli

Verified building blocks of a Brotli encoder.

| Module | What it does |
| --- | --- |
| `vectorization` | Lane-wise primitives, taken from `fearless_simd` |
| `static_dict` | Unaligned loads and common prefixes |
| `backward_references` | The tagged match finder (H58 and H68) and its searches |
| `histogram`, `bit_cost` | Histograms, and what their populations cost |
| `block_split`, `block_splitter` | Splitting the streams of a metablock into blocks |
| `threading` | Compressing in chunks on several threads, and putting the chunks together |
| `writer` | The decisions of a compressing writer |

Everything under `src/` is checked by [Verus](https://github.com/verus-lang/verus). Costs are
floating-point numbers; where the library only compares them it takes their keys (`cost_key`), and
where they are summed it works out what is summed and in which order.

`app/` holds what surrounds the library: instruction sets and floating-point sums, threads and locks,
and `std::io` writers. The parts of an encoder that live elsewhere (the stream encoder itself, the
clustering of histograms, the static dictionary) come in through the traits of `app/backend.rs`.
