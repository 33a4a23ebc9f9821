use diskann_cxl::cxl_mmap_reader::{CxlMmapConfig, CxlMmapReader, PrefetchSpan};
use diskann_cxl::cxl_sector_graph::NodeOffsetCalculator;
use diskann_cxl::cxl_vertex_provider::{
    vertex_search, CachedNode, CxlVertexProvider, CxlVertexProviderConfig,
    CxlVertexProviderFactory, HotNodeCache,
};
use diskann_cxl::error::CxlError;
use memmap2::{Mmap, MmapMut};

fn mapped(content: &[u8]) -> Mmap {
    let mut map = MmapMut::map_anon(content.len()).unwrap();
    map.copy_from_slice(content);
    map.make_read_only().unwrap()
}

fn first_f32(bytes: &[u8]) -> f32 {
    f32::from_le_bytes([bytes[0], bytes[1], bytes[2], bytes[3]])
}

/// Three nodes of four `f32` elements, with at most two neighbors, 64 bytes each.
fn small_index() -> Vec<u8> {
    let aligned_node_len = 64;
    let num_nodes = 3u32;
    let mut data = vec![0u8; aligned_node_len * num_nodes as usize];
    for node_id in 0..num_nodes {
        let offset = node_id as usize * aligned_node_len;
        let vec_val = node_id as f32;
        data[offset..offset + 4].copy_from_slice(&vec_val.to_le_bytes());
        let num_nbrs = if node_id == 0 { 2u32 } else { 1u32 };
        data[offset + 16..offset + 20].copy_from_slice(&num_nbrs.to_le_bytes());
        let nbr1 = (node_id + 1) % num_nodes;
        data[offset + 20..offset + 24].copy_from_slice(&nbr1.to_le_bytes());
        if num_nbrs > 1 {
            let nbr2 = (node_id + 2) % num_nodes;
            data[offset + 24..offset + 28].copy_from_slice(&nbr2.to_le_bytes());
        }
    }
    data
}

fn provider(data: &[u8], config: CxlVertexProviderConfig) -> CxlVertexProvider<f32> {
    let reader = CxlMmapReader::with_config(
        mapped(data),
        CxlMmapConfig { prefault: false, advise_random: false, use_huge_pages: false },
    );
    CxlVertexProvider::<f32>::new(reader, NodeOffsetCalculator::new(64, 16, 2, 0), 4, 2, config)
}

#[test]
fn test_config_defaults() {
    let config = CxlVertexProviderConfig::default();
    assert_eq!(config.prefetch_ahead, 3);
    assert!(config.cache_enabled);
    assert_eq!(config.cache_size, 64);
}

#[test]
fn test_config_no_cache() {
    let config = CxlVertexProviderConfig::no_cache();
    assert!(!config.cache_enabled);
    assert_eq!(config.cache_size, 0);
}

#[test]
fn test_hot_node_cache() {
    let mut cache = HotNodeCache::new(2);
    assert!(!cache.contains(&0));

    cache.insert(
        0,
        CachedNode {
            vector: vec![1, 2, 3, 4],
            neighbors: vec![1, 2],
        },
    );
    assert!(cache.contains(&0));
    assert!(!cache.contains(&1));

    let node = cache.get(0).unwrap();
    assert_eq!(node.neighbors, vec![1, 2]);

    cache.insert(
        1,
        CachedNode {
            vector: vec![5, 6, 7, 8],
            neighbors: vec![0, 3],
        },
    );

    // Over capacity — should not insert
    cache.insert(
        2,
        CachedNode {
            vector: vec![9, 10],
            neighbors: vec![0],
        },
    );
    assert!(!cache.contains(&2));
}

#[test]
fn full_cache_keeps_what_it_has() {
    let mut cache = HotNodeCache::new(1);
    cache.insert(4, CachedNode { vector: vec![1], neighbors: vec![] });
    cache.insert(4, CachedNode { vector: vec![2], neighbors: vec![] });
    assert_eq!(cache.get(4).unwrap().vector, vec![1]);
    let mut none = HotNodeCache::new(0);
    none.insert(4, CachedNode { vector: vec![1], neighbors: vec![] });
    assert!(none.get(4).is_none());
}

#[test]
fn test_vertex_provider_with_tempfile() {
    let data = small_index();
    let provider = provider(&data, CxlVertexProviderConfig::no_cache());

    // Verify zero-copy vector read
    let vec0 = provider.get_vector(0);
    assert_eq!(first_f32(vec0), 0.0f32);

    let vec1 = provider.get_vector(1);
    assert_eq!(first_f32(vec1), 1.0f32);

    let vec2 = provider.get_vector(2);
    assert_eq!(first_f32(vec2), 2.0f32);

    // Verify adjacency list
    let adj0 = provider.get_adjacency_list(0);
    assert_eq!(adj0.len(), 2);
    assert_eq!(adj0[0], 1);
    assert_eq!(adj0[1], 2);

    let adj1 = provider.get_adjacency_list(1);
    assert_eq!(adj1.len(), 1);
    assert_eq!(adj1[0], 2);
}

#[test]
fn cache_does_not_change_what_is_read() {
    let data = small_index();
    let plain = provider(&data, CxlVertexProviderConfig::no_cache());
    let mut cached = provider(&data, CxlVertexProviderConfig::default());
    assert_eq!(cached.warm_cache(0, &[1, 2]), Ok(()));
    for id in 0..3 {
        assert!(cached.is_cached(id));
        assert!(!plain.is_cached(id));
        assert_eq!(cached.get_vector(id), plain.get_vector(id));
        assert_eq!(cached.get_adjacency_list(id), plain.get_adjacency_list(id));
    }
}

#[test]
fn warming_stops_at_the_capacity() {
    let data = small_index();
    let config =
        CxlVertexProviderConfig { prefetch_ahead: 3, cache_enabled: true, cache_size: 2 };
    let mut two = provider(&data, config.clone());
    assert_eq!(two.warm_cache(1, &[2, 0]), Ok(()));
    assert!(two.is_cached(1) && two.is_cached(2) && !two.is_cached(0));
    // The third node is not read, so it does not matter that it is not there.
    let mut again = provider(&data, config);
    assert_eq!(again.warm_cache(1, &[2, 77]), Ok(()));
    assert!(!again.is_cached(77));
    let mut off = provider(&data, CxlVertexProviderConfig::no_cache());
    assert_eq!(off.warm_cache(77, &[]), Ok(()));
}

#[test]
fn warming_fails_on_a_missing_node() {
    let data = small_index();
    let mut p = provider(&data, CxlVertexProviderConfig::default());
    assert_eq!(
        p.warm_cache(0, &[1, 3, 2]),
        Err(CxlError::NodeOutOfBounds { node_id: 3, mapped_len: 192 })
    );
    assert!(!p.is_cached(0) && !p.is_cached(1));
    assert!(p.has_node(2) && !p.has_node(3));
    let node = p.read_and_parse_node(0).unwrap();
    assert_eq!(node.vector.len(), 16);
    assert_eq!(node.neighbors, vec![1, 2]);
    assert!(p.read_and_parse_node(u32::MAX).is_err());
    assert!(p.has_vector(2) && !p.has_vector(3));
}

#[test]
fn degree_is_clamped() {
    let mut data = small_index();
    data[16..20].copy_from_slice(&1000u32.to_le_bytes());
    let p = provider(&data, CxlVertexProviderConfig::no_cache());
    assert_eq!(p.get_adjacency_list(0), vec![1, 2]);
}

#[test]
fn loading_plans_prefetches_ahead() {
    let data = small_index();
    let config =
        CxlVertexProviderConfig { prefetch_ahead: 1, cache_enabled: true, cache_size: 1 };
    let mut p = provider(&data, config);
    p.warm_cache(1, &[]).unwrap();
    let spans = p.load_vertices_prefetched(&[0, 1, 2, 9]);
    // The first is not fetched, node 1 is cached, node 9 is not there.
    assert_eq!(spans, vec![PrefetchSpan { offset: 128, num_lines: 1 }]);
    assert_eq!(p.io_operations(), 4);
    let spans = p.prefetch_candidates(&[0, 1, 2]);
    assert_eq!(spans, vec![PrefetchSpan { offset: 0, num_lines: 1 }]);
    assert_eq!(p.mapped(), &data[..]);
    p.clear();
    assert_eq!(p.io_operations(), 0);
    assert!(p.is_cached(1));
    assert!(p.load_vertices_prefetched(&[0]).is_empty());
    assert_eq!(p.io_operations(), 1);
}

#[test]
fn factory_makes_providers() {
    let factory = CxlVertexProviderFactory::new(
        "index".to_string(),
        64,
        16,
        2,
        4,
        0,
        CxlVertexProviderConfig::no_cache(),
    );
    assert_eq!(factory.index_path, "index");
    let p: CxlVertexProvider<f32> = factory.create(mapped(&small_index()));
    assert_eq!(first_f32(p.get_vector(2)), 2.0);
    assert_eq!(p.get_adjacency_list(2), vec![0]);
}

#[test]
fn provider_search_finds_the_nearest() {
    let p = provider(&small_index(), CxlVertexProviderConfig::default());
    let score = |b: &[u8]| -> u32 {
        let d = first_f32(b) - 2.0;
        (d * d).to_bits()
    };
    assert_eq!(vertex_search(&p, &score, 2, 3, 3), (vec![2, 1], 3, 3));
    assert_eq!(vertex_search(&p, &score, 5, 1, 3), (vec![0], 3, 3));
}
