# lance_autoresearch

Kernels that a vector and full-text index spends its time in, each with a slow and plain reference,
and the experiments that hold the two against each other and time them. The library is written in
Verus: the contracts state what the functions return, and Verus proves it. What the clock and the
hardware counters read is up to the machine; the contracts say when they are read, which calls are
carried out in each window that is measured, and what each reported figure is of the measurements.

| Module | What it holds |
|---|---|
| `posting_intersect` | Intersection of sorted lists of document ids: merging, galloping and blocks of four, chosen by the lengths of the lists. |
| `posting_seek` | Seeking forward in a list of blocks: a few linear steps, then galloping and bisection. |
| `pq` | Distances of quantized vectors from a query: distance tables, sums over them, and selection of the nearest. |
| `prng`, `sorted`, `text`, `functions` | Random numbers from a seed, searching and sorting, decimal numbers, closures and the functions that they compute. |
| `clock`, `counter`, `perf` | The wall clock and the hardware counters, with ghost records of what is read of them, and measuring with both. |
| `stopwatch` | Measurements tied to the calls that were carried out between start and stop. |
| `stats`, `timing` | Means, medians and bootstrap intervals; measurements per workload. |
| `cli` | The command line and the layout of the report. |

The kernel and the reference of an experiment have the same contract, so that they agree on all
inputs. The inputs are functions of a seed: a run can be repeated.

Floating point stays outside the library. The distance kernels are written over any arithmetic that
is handed to them, and means over any function that computes the exponential of the mean logarithm;
the program in `app/` hands them single-precision numbers and the real logarithm.

The contracts of the clock, of the hardware counters, of `black_box` and of the sorting of the
standard library are taken on trust; nothing else is.
