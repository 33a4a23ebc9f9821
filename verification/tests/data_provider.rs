use diskann_cxl::cxl_data_provider::{
    check_file_size, BufferPlan, CxlAccessMode, CxlBenchmarkConfig, CxlDataProvider, CxlProviderConfig,
    MemoryStats, NumaNodeInfo, NumaPolicy, SharedCxlProvider,
};
use diskann_cxl::cxl_mmap_reader::PrefetchSpan;
use diskann_cxl::display_number::{tenths_of, GIGA, MEGA};
use diskann_cxl::error::CxlError;
use diskann_cxl::meminfo::{meminfo_kb, meminfo_path, node_path, parse_meminfo_value};
use memmap2::{Mmap, MmapMut};

fn mapped(content: &[u8]) -> Mmap {
    let mut map = MmapMut::map_anon(content.len()).unwrap();
    map.copy_from_slice(content);
    map.make_read_only().unwrap()
}

#[test]
fn test_memory_stats_display() {
    let stats = MemoryStats {
        local_dram_bytes: 32_000_000 + 1_000_000,
        cxl_bytes: 512_000_000 + 256_000_000,
        pq_codes_bytes: 32_000_000,
        pq_codebook_bytes: 1_000_000,
        vector_bytes: 512_000_000,
        graph_bytes: 256_000_000,
    };
    let display = stats.display();
    assert!(display.contains("Local DRAM"));
    assert!(display.contains("CXL Memory"));
    assert_eq!(
        display,
        "Local DRAM: 33.0 MB (PQ codes: 32.0 MB, codebook: 1.0 MB)\n\
         CXL Memory: 768.0 MB (vectors: 512.0 MB, graph: 256.0 MB)"
    );
}

#[test]
fn test_align_calculation() {
    let n = 1_000_000usize;
    let d = 128usize;
    let m = 32usize;
    let r = 64usize;

    let config = CxlProviderConfig {
        local_numa_node: 0,
        cxl_numa_node: 2,
        mode: CxlAccessMode::NumaBuffers,
        pq_subspaces: m,
        pq_centroids: 256,
        max_degree: r,
        dimensions: d,
    };
    let (vector_bytes, graph_bytes) = config.cxl_sizes(n, 4).unwrap();
    let (pq_bytes, _codebook) = config.pq_sizes(n).unwrap();
    assert_eq!(vector_bytes, n * d * 4);
    assert_eq!(graph_bytes, n * (4 + r * 4));
    assert_eq!(pq_bytes, n * m);

    assert!(vector_bytes + graph_bytes > 700_000_000);
    assert!(pq_bytes < 40_000_000);
}

#[test]
fn test_numa_node_info_display() {
    let info = NumaNodeInfo {
        node: 2,
        total_bytes: 64_000_000_000,
        free_bytes: 60_000_000_000,
    };
    let display = info.display();
    assert!(display.contains("NUMA node 2"));
    assert!(display.contains("64.0 GB"));
    assert_eq!(display, "NUMA node 2: 64.0 GB total, 60.0 GB free");
}

#[test]
fn test_numa_policy_variants() {
    let _bind = NumaPolicy::Bind(2);
    let _pref = NumaPolicy::Preferred(0);
    let _inter = NumaPolicy::Interleave(vec![0, 1, 2]);
    let _def = NumaPolicy::Default;
}

#[test]
fn sizes_are_shown_as_doubles_are() {
    let shown = |n: u64, unit: u64| {
        let t = tenths_of(n, unit);
        format!("{}.{}", t / 10, t % 10)
    };
    let mut values: Vec<u64> = (0..400).map(|i| i * 50_000).collect();
    values.extend((0..400).map(|i| i * 50_000_000));
    values.extend((0..64).flat_map(|s| [1u64 << s, (1u64 << s) - 1, (1u64 << s) + 1]));
    let mut x = 88172645463325252u64;
    for _ in 0..20_000 {
        x ^= x << 13;
        x ^= x >> 7;
        x ^= x << 17;
        values.push(x);
        values.push(x >> 20);
        values.push(x >> 40);
    }
    values.extend((0..2000).map(|i| u64::MAX - i * 977));
    for n in values {
        assert_eq!(shown(n, MEGA), format!("{:.1}", n as f64 / 1e6), "{}", n);
        assert_eq!(shown(n, GIGA), format!("{:.1}", n as f64 / 1e9), "{}", n);
    }
}

fn config(mode: CxlAccessMode) -> CxlProviderConfig {
    CxlProviderConfig {
        local_numa_node: 0,
        cxl_numa_node: 2,
        mode,
        pq_subspaces: 2,
        pq_centroids: 2,
        max_degree: 2,
        dimensions: 5,
    }
}

fn parts() -> (Vec<u8>, Vec<u8>, Vec<u8>, Vec<u8>) {
    let vectors: Vec<u8> = (0..15u8).collect();
    let mut graph = Vec::new();
    for n in [2u32, 1, 2, 9, 0, 0, 1, 0, 0] {
        graph.extend_from_slice(&n.to_le_bytes());
    }
    let codes: Vec<u8> = vec![10, 11, 20, 21, 30, 31];
    let codebook: Vec<u8> = (0..32u8).collect();
    (vectors, graph, codes, codebook)
}

#[test]
fn numa_provider_holds_everything() {
    let (vectors, graph, codes, codebook) = parts();
    let config = config(CxlAccessMode::MmapDax);
    let p = CxlDataProvider::<u8>::from_numa_buffers(
        mapped(&vectors),
        mapped(&graph),
        mapped(&codes),
        mapped(&codebook),
        3,
        &config,
    )
    .unwrap();
    assert_eq!(p.mode(), CxlAccessMode::NumaBuffers);
    assert_eq!((p.num_vectors(), p.dimensions(), p.max_degree()), (3, 5, 2));
    for id in 0..3 {
        assert!(p.has_vector(id) && p.has_list(id));
    }
    assert!(!p.has_vector(3) && !p.has_list(3));
    assert_eq!(p.get_full_vector(1), &[5, 6, 7, 8, 9]);
    assert_eq!(p.get_pq_codes(2), &[30, 31]);
    assert_eq!(p.get_codebook(), &codebook[..]);
    assert_eq!((p.vectors(), p.graph()), (&vectors[..], &graph[..]));
    assert_eq!(p.get_neighbors(0), vec![1, 2]);
    // The count says nine.
    assert_eq!(p.get_neighbors(1), vec![0, 0]);
    assert_eq!(p.get_neighbors(2), vec![0]);
    assert_eq!(p.prefetch_vector(2), Some(PrefetchSpan { offset: 10, num_lines: 1 }));
    assert_eq!(p.prefetch_neighbors(2), Some(PrefetchSpan { offset: 24, num_lines: 1 }));
    assert_eq!(p.prefetch_vector(3), None);
    assert_eq!(p.prefetch_neighbors(3), None);
    let stats = p.memory_stats();
    assert_eq!(
        stats,
        MemoryStats {
            local_dram_bytes: 38,
            cxl_bytes: 51,
            pq_codes_bytes: 6,
            pq_codebook_bytes: 32,
            vector_bytes: 15,
            graph_bytes: 36,
        }
    );
    let shared: SharedCxlProvider<u8> = SharedCxlProvider::new(p);
    assert_eq!(shared.num_vectors(), 3);
}

#[test]
fn short_files_are_refused() {
    let (vectors, graph, codes, codebook) = parts();
    let config = config(CxlAccessMode::NumaBuffers);
    let numa = |v: &[u8], g: &[u8], c: &[u8], b: &[u8]| {
        CxlDataProvider::<u8>::from_numa_buffers(
            mapped(v), mapped(g), mapped(c), mapped(b), 3, &config,
        )
        .err()
    };
    let small = |size: u128, expected: u128| Some(CxlError::FileTooSmall { size, expected });
    assert_eq!(numa(&vectors, &graph, &codes[..5], &codebook[..3]), small(5, 6));
    assert_eq!(numa(&vectors[..1], &graph, &codes, &codebook[..31]), small(31, 32));
    assert_eq!(numa(&vectors[..14], &graph[..1], &codes, &codebook), small(14, 15));
    assert_eq!(numa(&vectors, &graph[..35], &codes, &codebook), small(35, 36));
    assert_eq!(numa(&vectors, &graph, &codes, &codebook), None);

    // Mapped files are not held to their length.
    let p = CxlDataProvider::<u8>::from_dax_files(
        mapped(&vectors[..14]), mapped(&graph[..30]), mapped(&codes), mapped(&codebook), 3, &config,
    )
    .unwrap();
    assert_eq!(p.mode(), CxlAccessMode::MmapDax);
    assert!(p.has_vector(1) && !p.has_vector(2));
    assert!(p.has_list(1) && !p.has_list(2));
    assert_eq!(p.get_full_vector(0), &[0, 1, 2, 3, 4]);
    assert_eq!(
        CxlDataProvider::<u8>::from_dax_files(
            mapped(&vectors), mapped(&graph), mapped(&codes[..1]), mapped(&codebook), 3, &config,
        )
        .err(),
        small(1, 6)
    );
}

#[test]
fn sizes_are_checked() {
    assert_eq!(check_file_size(10, 10), Ok(()));
    assert_eq!(check_file_size(9, 10), Err(CxlError::FileTooSmall { size: 9, expected: 10 }));
    let mut c = config(CxlAccessMode::MmapDax);
    assert_eq!(c.pq_sizes(3), Some((6, 32)));
    assert_eq!(c.cxl_sizes(3, 4), Some((60, 36)));
    assert_eq!(c.pq_sizes(usize::MAX), None);
    assert_eq!(c.cxl_sizes(usize::MAX, 1), None);
    c.pq_subspaces = 0;
    assert_eq!(c.pq_sizes(3), None);
}

#[test]
fn buffers_go_to_their_nodes() {
    let c = config(CxlAccessMode::MmapDax);
    let local = |len: usize| BufferPlan { len, node: 0 };
    let cxl = |len: usize| BufferPlan { len, node: 2 };
    assert_eq!(
        c.load_plan(CxlAccessMode::MmapDax, 3, 4),
        Some(vec![local(6), local(32)])
    );
    assert_eq!(
        c.load_plan(CxlAccessMode::NumaBuffers, 3, 4),
        Some(vec![local(6), local(32), cxl(60), cxl(36)])
    );
    assert_eq!(c.load_plan(CxlAccessMode::NumaBuffers, usize::MAX / 4, 4), None);
    assert!(c.load_plan(CxlAccessMode::MmapDax, usize::MAX / 4, 4).is_some());
    assert_eq!(c.load_plan(CxlAccessMode::MmapDax, usize::MAX, 4), None);
}

#[test]
fn meminfo_is_parsed() {
    let text = "MemTotal:  2048 kB\r\nMemFree:\t 1024 kB\nMemFreeish: x\n";
    assert_eq!(meminfo_kb(text), (2048, 0));
    assert_eq!(meminfo_kb("MemTotal: 5 kB\nMemFree: 6 kB"), (5, 6));
    assert_eq!(meminfo_kb(""), (0, 0));
    let kernel = "\nNode 2 MemTotal:       65536000 kB\nNode 2 MemFree:        60000000 kB\n\
                  Node 2 MemUsed:         5536000 kB\n";
    assert_eq!(meminfo_kb(kernel), (65_536_000, 60_000_000));
    assert_eq!(meminfo_kb("Node 2 MemTotal: kB\nNode 2 MemFree 7 MemFree 8"), (0, 7));
    let line: Vec<char> = "a 12x +7 8".chars().collect();
    assert_eq!(parse_meminfo_value(&line), 7);
    assert_eq!(parse_meminfo_value(&[]), 0);
    assert_eq!(node_path(3), "/sys/devices/system/node/node3");
    assert_eq!(meminfo_path(12), "/sys/devices/system/node/node12/meminfo");
    let info = NumaNodeInfo::from_meminfo(1, "MemTotal: 5 kB\nMemFree: 6 kB").unwrap();
    assert_eq!(info, NumaNodeInfo { node: 1, total_bytes: 5120, free_bytes: 6144 });
    let node = "Node 2 MemTotal: 65536000 kB\nNode 2 MemFree: 60000000 kB\n";
    assert_eq!(
        NumaNodeInfo::from_meminfo(2, node),
        Some(NumaNodeInfo {
            node: 2,
            total_bytes: 67_108_864_000,
            free_bytes: 61_440_000_000,
        })
    );
    assert!(NumaNodeInfo::from_meminfo(1, "MemTotal: 18446744073709551615 kB").is_none());
}

#[test]
fn benchmark_config_holds_paths() {
    let c = CxlBenchmarkConfig {
        local_numa_node: 0,
        cxl_numa_node: 2,
        mode: CxlAccessMode::MmapDax,
        vectors_path: "v".to_string(),
        graph_path: "g".to_string(),
        pq_codes_path: "c".to_string(),
        pq_codebook_path: "b".to_string(),
    };
    assert_eq!(c.clone().graph_path, "g");
}
