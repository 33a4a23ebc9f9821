# diskann_cxl

Graph indexes for nearest-neighbour search that live in CXL memory: a library whose
behaviour is stated in contracts and proved with Verus, and a benchmark program on top.

- `src/` is the verified library.
  - Layout: `rounding`, `cxl_sector_graph` (where nodes stand), `le_bytes`, `node_record`.
  - Access: `mapped_region`, `cxl_mmap_reader`, `cxl_vertex_provider` (cache and prefetch plans),
    `cxl_data_provider` (DRAM and CXL tiers), `multi_device`, `searchable_index`, `extract`.
  - Search: `min_heap`, `search` (best-first search and its laws), `pq` (search by PQ codes).
  - Benchmark: `bench_args`, `bench_plan`, `sweep`, `bench_report`, `index_header`, `queries`,
    `ground_truth`, `numa`, `meminfo`, with `text` and `display_number` below them.
- `tests/` runs the library on concrete values.
- `app/` is the benchmark: files, devices, NUMA binding, timing and floating-point distances.

Distances enter the library as integer ranks. The program computes a distance in floating
point and hands over its bits, which order non-negative numbers as their values do.

What is not proved is marked in `mapped_region`: the type `memmap2::Mmap`, and that its
`as_ref` hands out its bytes.
