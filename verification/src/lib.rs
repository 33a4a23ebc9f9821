//! CXL-resident graph indexes for nearest-neighbour search.

pub mod bench_args;
pub mod bench_plan;
pub mod bench_report;
pub mod cxl_data_provider;
pub mod cxl_mmap_reader;
pub mod cxl_sector_graph;
pub mod cxl_vertex_provider;
pub mod display_number;
pub mod error;
pub mod extract;
pub mod ground_truth;
pub mod index_header;
pub mod le_bytes;
pub mod mapped_region;
pub mod meminfo;
pub mod min_heap;
pub mod multi_device;
pub mod node_record;
pub mod numa;
pub mod pq;
pub mod queries;
pub mod rounding;
pub mod search;
pub mod searchable_index;
pub mod sweep;
pub mod text;
