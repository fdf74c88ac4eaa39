# resonance

Memory hierarchy characterisation: pointer-chase chains that defeat
hardware prefetching, sweep schedules over working-set ranges and strides,
bandwidth and latency workloads, and the parsing of what the kernel reports
about caches and memory.

- `src/` is the library, verified with Verus: every public function states
  what it returns or changes, and the laws of the chains (a single cycle over
  every slot), of the buffer layout (no overlap, distinct L1 sets) and of the
  schedules are proved.
- `app/` is the `resonance` command: the command line, the OS calls
  (pinning, `mlockall`, the monotonic clock, allocation), the timing around
  the library's workloads, the floating-point statistics and the report.
- `tests/` runs the library on concrete values.
