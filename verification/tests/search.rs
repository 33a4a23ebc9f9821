use std::cmp::Reverse;
use std::collections::{BinaryHeap, HashSet};

use diskann_cxl::cxl_mmap_reader::CxlMmapReader;
use diskann_cxl::cxl_sector_graph::NodeOffsetCalculator;
use diskann_cxl::cxl_vertex_provider::{CxlVertexProvider, CxlVertexProviderConfig};
use diskann_cxl::extract::{extract_nodes, widen, widened_bits, SplitPlan};
use diskann_cxl::mapped_region::MappedRegion;
use diskann_cxl::min_heap::MinHeap;
use diskann_cxl::multi_device::{
    device_map_len, multi_device_search, MultiDeviceIndex, MultiMmap,
};
use diskann_cxl::node_record::{adjacency_fits, full_record_fits, read_adjacency};
use diskann_cxl::pq::{pq_split_search, CodedGraph, PqCodes};
use diskann_cxl::error::CxlError;
use diskann_cxl::search::{
    guarded_search, guarded_split_search, sort_by_rank, try_beam_search, Candidate,
};
use diskann_cxl::searchable_index::{full_l2_search, SearchableIndex};
use memmap2::{Mmap, MmapMut};

fn mapped(content: &[u8]) -> Mmap {
    let mut map = MmapMut::map_anon(content.len()).unwrap();
    map.copy_from_slice(content);
    map.make_read_only().unwrap()
}

struct Dice(u64);

impl Dice {
    fn roll(&mut self, n: u32) -> u32 {
        self.0 = self.0.wrapping_mul(6364136223846793005).wrapping_add(1442695040888963407);
        ((self.0 >> 33) % n as u64) as u32
    }
}

/// One-dimensional points with random edges.
struct Graph {
    points: Vec<i32>,
    edges: Vec<Vec<u32>>,
    degree: usize,
}

fn random_graph(seed: u64, num: usize, degree: usize, spread: u32) -> Graph {
    let mut dice = Dice(seed);
    let points = (0..num).map(|_| dice.roll(spread) as i32).collect();
    let edges = (0..num)
        .map(|_| (0..dice.roll(degree as u32 + 1)).map(|_| dice.roll(num as u32 + 2)).collect())
        .collect();
    Graph { points, edges, degree }
}

fn split_buffers(g: &Graph) -> (Vec<u8>, Vec<u8>) {
    let stride = 4 + 4 * g.degree;
    let mut vectors = Vec::new();
    let mut graph = vec![0u8; stride * g.points.len()];
    for (i, p) in g.points.iter().enumerate() {
        vectors.extend_from_slice(&(*p as f32).to_le_bytes());
        let at = i * stride;
        graph[at..at + 4].copy_from_slice(&(g.edges[i].len() as u32).to_le_bytes());
        for (j, e) in g.edges[i].iter().enumerate() {
            graph[at + 4 + 4 * j..at + 8 + 4 * j].copy_from_slice(&e.to_le_bytes());
        }
    }
    (vectors, graph)
}

fn index_of(g: &Graph) -> SearchableIndex {
    let (vectors, graph) = split_buffers(g);
    SearchableIndex::new(mapped(&vectors), mapped(&graph), 1, g.degree, 4 + 4 * g.degree)
}

fn rank(bytes: &[u8], target: f32) -> u32 {
    let v = f32::from_le_bytes([bytes[0], bytes[1], bytes[2], bytes[3]]);
    ((v - target) * (v - target)).to_bits()
}

fn expected_visits(g: &Graph, target: f32, width: usize) -> (Vec<(u32, u32)>, u32) {
    let score = |id: u32| {
        let d = g.points[id as usize] as f32 - target;
        (d * d).to_bits()
    };
    let mut heap = BinaryHeap::new();
    let mut seen = HashSet::new();
    let mut order = Vec::new();
    let mut ops = 1;
    heap.push(Reverse((score(0), 0u32)));
    while let Some(Reverse((r, id))) = heap.pop() {
        if seen.contains(&id) {
            continue;
        }
        if seen.len() >= width {
            break;
        }
        seen.insert(id);
        for &nb in &g.edges[id as usize] {
            if nb as usize >= g.points.len() || seen.contains(&nb) {
                continue;
            }
            ops += 1;
            heap.push(Reverse((score(nb), nb)));
        }
        order.push((r, id));
    }
    (order, ops)
}

#[test]
fn full_search_agrees_with_a_plain_one() {
    for seed in 0..30 {
        let g = random_graph(seed, 60, 6, if seed % 2 == 0 { 1000 } else { 8 });
        let idx = index_of(&g);
        assert!(idx.covers(60));
        assert!(!idx.covers(61));
        for width in [0usize, 1, 5, 20, 100] {
            let target = 400.0f32;
            let score = |b: &[u8]| -> u32 { rank(b, target) };
            let (mut order, ops) = expected_visits(&g, target, width);
            let (visited, counted) = try_beam_search(&idx, &score, width, 60).unwrap();
            let pairs: Vec<(u32, u32)> = visited.iter().map(|c| (c.rank, c.id)).collect();
            assert_eq!(pairs, order);
            assert_eq!(counted, ops);
            order.sort_by_key(|c| c.0);
            order.truncate(10);
            let ids: Vec<u32> = order.iter().map(|c| c.1).collect();
            assert_eq!(full_l2_search(&idx, &score, 10, width, 60), (ids, ops, ops));
        }
    }
}

#[test]
fn results_are_distinct_and_nearest_first() {
    let g = random_graph(7, 80, 8, 500);
    let idx = index_of(&g);
    let score = |b: &[u8]| -> u32 { rank(b, 100.0) };
    let (ids, _, _) = full_l2_search(&idx, &score, 10, 40, 80);
    let set: HashSet<u32> = ids.iter().copied().collect();
    assert_eq!(set.len(), ids.len());
    let ranks: Vec<u32> = ids.iter().map(|&i| score(idx.get_vector(i))).collect();
    assert!(ranks.windows(2).all(|w| w[0] <= w[1]));
    let (narrow, _) = try_beam_search(&idx, &score, 10, 80).unwrap();
    let (wide, _) = try_beam_search(&idx, &score, 20, 80).unwrap();
    assert_eq!(narrow[..], wide[..narrow.len()]);
    assert_eq!(narrow[0].id, 0);
}

#[test]
fn ties_go_to_the_smaller_id() {
    let g = Graph { points: vec![5, 3, 3, 3], edges: vec![vec![3, 1, 2], vec![], vec![], vec![]], degree: 3 };
    let idx = index_of(&g);
    let score = |b: &[u8]| -> u32 { rank(b, 3.0) };
    let (visited, ops) = try_beam_search(&idx, &score, 4, 4).unwrap();
    let ids: Vec<u32> = visited.iter().map(|c| c.id).collect();
    assert_eq!(ids, vec![0, 1, 2, 3]);
    assert_eq!(ops, 4);
    // Node 3 is no point here.
    assert_eq!(full_l2_search(&idx, &score, 10, 10, 3), (vec![1, 2, 0], 3, 3));
}

#[test]
fn split_search_ranks_again() {
    let g = Graph {
        points: vec![10, 20, 30, 40, 50],
        edges: vec![vec![1, 2, 3, 4], vec![], vec![], vec![], vec![]],
        degree: 4,
    };
    let idx = index_of(&g);
    let mut file = Vec::new();
    file.extend_from_slice(&5u32.to_le_bytes());
    file.extend_from_slice(&1u32.to_le_bytes());
    file.extend_from_slice(&[4, 3, 2, 1, 0]);
    let codes = PqCodes::from_file(file).unwrap();
    assert_eq!((codes.num_points(), codes.num_chunks()), (5, 1));
    let coded = CodedGraph { graph: &idx, codes: &codes };
    let code_score = |b: &[u8]| -> u32 { b[0] as u32 };
    let score = |b: &[u8]| -> u32 { rank(b, 0.0) };
    // By code the nearest are 4, 3, 2, 1; of these two are asked for, ranked by vector.
    let (ids, ops, reads) = pq_split_search(&coded, &code_score, &score, 2, 5, 5);
    assert_eq!(ids, vec![1, 2]);
    assert_eq!(ops, 5 + 4);
    assert_eq!(reads, 4);
    let (ids, ops, reads) = pq_split_search(&coded, &code_score, &score, 1, 5, 5);
    assert_eq!((ids, ops, reads), (vec![3], 7, 2));
    let (ids, ops, reads) = pq_split_search(&coded, &code_score, &score, 10, 5, 5);
    assert_eq!((ids, ops, reads), (vec![0, 1, 2, 3, 4], 10, 5));
}

#[test]
fn pq_codes_are_read_and_counted() {
    let mut file = Vec::new();
    file.extend_from_slice(&3u32.to_le_bytes());
    file.extend_from_slice(&2u32.to_le_bytes());
    file.extend_from_slice(&[1, 255, 1, 7, 9, 255]);
    let mut longer = file.clone();
    longer.push(1);
    let codes = PqCodes::from_file(longer).unwrap();
    assert_eq!(codes.get(1), &[1, 7]);
    assert!(codes.covers(3) && !codes.covers(4));
    let counts = codes.code_counts(3);
    assert_eq!(counts.len(), 512);
    assert_eq!(counts[1], 2);
    assert_eq!(counts[9], 1);
    assert_eq!(counts[256 + 255], 2);
    assert_eq!(counts[256 + 7], 1);
    assert_eq!(counts.iter().sum::<u32>(), 6);
    assert_eq!(codes.code_counts(1)[1], 1);

    file.pop();
    assert_eq!(
        PqCodes::from_file(file).err(),
        Some(CxlError::FileTooSmall { size: 13, expected: 14 })
    );
    assert_eq!(
        PqCodes::from_file(vec![0; 7]).err(),
        Some(CxlError::FileTooSmall { size: 7, expected: 8 })
    );
}

#[test]
fn heap_hands_out_keys_in_order() {
    let mut dice = Dice(3);
    let mut heap = MinHeap::new();
    assert_eq!(heap.pop(), None);
    let mut keys: Vec<u64> = (0..500).map(|_| dice.roll(100) as u64).collect();
    for &k in &keys {
        heap.push(k);
    }
    keys.sort();
    for k in keys {
        assert_eq!(heap.pop(), Some(k));
    }
    assert_eq!(heap.pop(), None);
}

#[test]
fn sorting_is_stable() {
    let c = |rank: u32, id: u32| Candidate { rank, id };
    let sorted = sort_by_rank(&[c(2, 9), c(1, 5), c(2, 3), c(1, 8), c(0, 1)]);
    assert_eq!(sorted, vec![c(0, 1), c(1, 5), c(1, 8), c(2, 9), c(2, 3)]);
    assert!(sort_by_rank(&[]).is_empty());
}

fn disk_index(elem_size: usize, nodes: &[(Vec<u8>, Vec<u32>)], degree: usize, dims: usize) -> Vec<u8> {
    let calc = NodeOffsetCalculator::new(64, dims * elem_size, degree, 64);
    let mut data = vec![0u8; calc.node_offset(nodes.len() as u32)];
    for (i, (vector, list)) in nodes.iter().enumerate() {
        let at = calc.node_offset(i as u32);
        data[at..at + vector.len()].copy_from_slice(vector);
        let list_at = at + dims * elem_size;
        data[list_at..list_at + 4].copy_from_slice(&(list.len() as u32).to_le_bytes());
        for (j, n) in list.iter().enumerate() {
            data[list_at + 4 + 4 * j..list_at + 8 + 4 * j].copy_from_slice(&n.to_le_bytes());
        }
    }
    data
}

#[test]
fn devices_take_turns() {
    let nodes = vec![
        (vec![1u8, 2], vec![1u32, 2]),
        (vec![3u8, 4], vec![2u32]),
        (vec![250u8, 6], vec![0u32]),
    ];
    let data = disk_index(1, &nodes, 2, 2);
    let mut other = data.clone();
    other[128] = 99;
    let multi = MultiMmap::new(
        vec![MappedRegion::new(mapped(&data)), MappedRegion::new(mapped(&other))],
        data.len(),
    );
    assert_eq!(multi.num_devices(), 2);
    assert_eq!(multi.len(), 2 * 1024 * 1024);
    assert_eq!(multi.ptr_at(128, 0)[0], 3);
    assert_eq!(multi.ptr_at(128, 1)[0], 99);
    assert_eq!(multi.ptr_at(128, 2)[0], 3);
    let calc = NodeOffsetCalculator::new(64, 2, 2, 64);
    let idx = MultiDeviceIndex::new(multi, calc, 2, 2, 2, 1);
    assert_eq!(idx.vector_bytes(1), &[99, 4]);
    assert_eq!(idx.vector_bytes(2), &[250, 6]);
    assert_eq!(idx.get_neighbors(0), vec![1, 2]);
    assert!(idx.has_vector(2) && idx.has_list(2) && !idx.has_vector(3) && !idx.has_list(3));
    assert_eq!(idx.devices().num_devices(), 2);
    let score = |b: &[u8]| -> u32 { (b[0] as i8 as i32 + 10) as u32 };
    assert_eq!(multi_device_search(&idx, &score, 10, 10, 3), (vec![2, 0, 1], 3, 3));
}

#[test]
fn device_maps_are_whole_pieces() {
    assert_eq!(device_map_len(0), 0);
    assert_eq!(device_map_len(1), 2_097_152);
    assert_eq!(device_map_len(2_097_152), 2_097_152);
    assert_eq!(device_map_len(2_097_153), 4_194_304);
}

#[test]
fn widening_is_exact() {
    for b in 0..=255u8 {
        assert_eq!(widened_bits(b), (b as i8 as f32).to_bits());
    }
    assert_eq!(widen(&[1, 255]), [1.0f32.to_le_bytes(), (-1.0f32).to_le_bytes()].concat());
}

#[test]
fn splitting_keeps_nodes() {
    for elem_size in [1usize, 4] {
        let dims = 3;
        let vector = |v: u8| -> Vec<u8> {
            if elem_size == 1 {
                vec![v, v + 1, 0u8.wrapping_sub(v)]
            } else {
                [v as f32, v as f32 + 1.0, -(v as f32)].iter().flat_map(|f| f.to_le_bytes()).collect()
            }
        };
        let nodes = vec![(vector(1), vec![1, 2]), (vector(5), vec![]), (vector(9), vec![7])];
        let data = disk_index(elem_size, &nodes, 2, dims);
        let calc = NodeOffsetCalculator::new(64, dims * elem_size, 2, 64);
        let plan = SplitPlan::new(4, dims, 2, elem_size).unwrap();
        assert_eq!((plan.dst_vec_bytes, plan.graph_stride), (12, 12));
        assert_eq!((plan.vectors_len, plan.graph_len), (48, 48));
        let mut vectors = vec![0xeeu8; plan.vectors_len];
        let mut graph = vec![0xeeu8; plan.graph_len];
        // The fourth node is not in the index.
        assert_eq!(extract_nodes(&data, &calc, 2, &plan, &mut vectors, &mut graph, &|_: usize| {}), 3);
        assert_eq!(&vectors[36..], &[0xee; 12]);
        assert_eq!(&graph[36..], &[0xee; 12]);
        let idx = SearchableIndex::new(mapped(&vectors), mapped(&graph), dims, 2, plan.graph_stride);
        let expect: Vec<u8> =
            [5.0f32, 6.0, -5.0].iter().flat_map(|f| f.to_le_bytes()).collect();
        assert_eq!(idx.get_vector(1), &expect[..]);
        assert_eq!(idx.get_neighbors(0), vec![1, 2]);
        assert_eq!(idx.get_neighbors(1), Vec::<u32>::new());
        assert_eq!(idx.get_neighbors(2), vec![7]);
    }
    assert_eq!(SplitPlan::new(usize::MAX, 2, 1, 1), None);
    assert_eq!(SplitPlan::new(1, 2, usize::MAX, 1), None);
}

#[test]
fn neighbor_lists_are_bounded() {
    let mut list = Vec::new();
    for n in [3u32, 10, 11, 12] {
        list.extend_from_slice(&n.to_le_bytes());
    }
    assert_eq!(read_adjacency(&list, 0, 8), vec![10, 11, 12]);
    assert_eq!(read_adjacency(&list, 0, 2), vec![10, 11]);
    assert!(adjacency_fits(&list, 0, 0, 8));
    assert!(!adjacency_fits(&list, 4, 0, 8));
    assert!(adjacency_fits(&list, 4, 0, 2));
    assert!(!adjacency_fits(&list, usize::MAX, 1, 0));
    assert!(full_record_fits(0, 0, 3, 16) && !full_record_fits(0, 1, 3, 16));
}

#[test]
fn all_engines_agree() {
    let dims = 2;
    let mut dice = Dice(11);
    let nodes: Vec<(Vec<u8>, Vec<u32>)> = (0..40)
        .map(|_| {
            let vector = (0..dims)
                .flat_map(|_| (dice.roll(100) as f32).to_le_bytes())
                .collect::<Vec<u8>>();
            let list = (0..dice.roll(5)).map(|_| dice.roll(42)).collect();
            (vector, list)
        })
        .collect();
    let data = disk_index(4, &nodes, 4, dims);
    let calc = NodeOffsetCalculator::new(64, dims * 4, 4, 64);
    let score = |b: &[u8]| -> u32 { rank(b, 50.0) };

    let provider = CxlVertexProvider::<f32>::new(
        CxlMmapReader::new(mapped(&data)),
        calc.clone(),
        dims,
        4,
        CxlVertexProviderConfig::default(),
    );
    let single = guarded_search(&provider, &score, 10, 15, 40).unwrap();

    let copies = (0..3).map(|_| MappedRegion::new(mapped(&data))).collect();
    let multi =
        MultiDeviceIndex::new(MultiMmap::new(copies, data.len()), calc.clone(), dims, 4, 8, 4);
    assert_eq!(guarded_search(&multi, &score, 10, 15, 40).unwrap(), single);

    let plan = SplitPlan::new(40, dims, 4, 4).unwrap();
    let mut vectors = vec![0u8; plan.vectors_len];
    let mut graph = vec![0u8; plan.graph_len];
    assert_eq!(extract_nodes(&data, &calc, 4, &plan, &mut vectors, &mut graph, &|_: usize| {}), 40);
    let split = SearchableIndex::new(mapped(&vectors), mapped(&graph), dims, 4, plan.graph_stride);
    assert_eq!(guarded_search(&split, &score, 10, 15, 40).unwrap(), single);
    assert!(single.0.len() <= 10 && single.1 >= 10.min(single.0.len() as u32));
}

#[test]
fn searches_need_only_what_they_read() {
    // Node 1 leads to node 9, which is not there; nothing leads to node 1 but node 0.
    let g = Graph {
        points: vec![10, 20, 30],
        edges: vec![vec![1, 2], vec![9], vec![0]],
        degree: 2,
    };
    let idx = index_of(&g);
    assert!(idx.has_vector(2) && idx.has_list(2) && !idx.has_vector(3) && !idx.has_list(3));
    let near = |b: &[u8]| -> u32 { rank(b, 30.0) };
    // Nodes 0 and 2 are visited, so the list of node 1 is not read.
    assert_eq!(guarded_search(&idx, &near, 10, 2, 10), Some((vec![2, 0], 3, 3)));
    // With a third visit it is, and node 9 is a point that cannot be read.
    assert_eq!(guarded_search(&idx, &near, 10, 3, 10), None);
    // Node 9 is no point here.
    assert_eq!(guarded_search(&idx, &near, 10, 3, 9), Some((vec![2, 1, 0], 3, 3)));
    // Without points the start is still read.
    assert_eq!(guarded_search(&idx, &near, 10, 3, 0), Some((vec![0], 1, 1)));
    assert_eq!(guarded_search(&idx, &near, 10, 0, 0), Some((vec![], 1, 1)));
    // However many visits are allowed, no more are made than there are nodes.
    assert_eq!(guarded_search(&idx, &near, 10, usize::MAX, 3), Some((vec![2, 1, 0], 3, 3)));
    let empty = SearchableIndex::new(mapped(&[0; 3]), mapped(&[0; 12]), 1, 2, 12);
    assert_eq!(guarded_search(&empty, &near, 10, 3, 3), None);
    let no_list = SearchableIndex::new(mapped(&[0; 4]), mapped(&[0; 3]), 1, 2, 12);
    assert_eq!(guarded_search(&no_list, &near, 10, 1, 1), None);
    assert_eq!(guarded_search(&no_list, &near, 10, 0, 1), Some((vec![], 1, 1)));
}

#[test]
fn split_searches_need_only_what_they_read() {
    let g = random_graph(5, 10, 3, 100);
    let idx = index_of(&g);
    let score = |b: &[u8]| -> u32 { rank(b, 1.0) };
    let codes_for = |n: u32| {
        let mut file = Vec::new();
        file.extend_from_slice(&n.to_le_bytes());
        file.extend_from_slice(&1u32.to_le_bytes());
        file.extend_from_slice(&vec![0; n as usize]);
        PqCodes::from_file(file).unwrap()
    };
    let code_score = |b: &[u8]| -> u32 { b[0] as u32 };
    let codes = codes_for(10);
    assert!(codes.has(9) && !codes.has(10));
    let coded = CodedGraph { graph: &idx, codes: &codes };
    let found = guarded_split_search(&coded, &code_score, &idx, &score, 2, 5, 10).unwrap();
    assert_eq!(found, pq_split_search(&coded, &code_score, &score, 2, 5, 10));
    let none = codes_for(0);
    let uncoded = CodedGraph { graph: &idx, codes: &none };
    assert_eq!(guarded_split_search(&uncoded, &code_score, &idx, &score, 2, 5, 10), None);
    // The vectors that are ranked again must be there, unless there are none.
    let bare = SearchableIndex::new(mapped(&[0; 3]), mapped(&[0; 12]), 1, 2, 12);
    assert_eq!(guarded_split_search(&coded, &code_score, &bare, &score, 2, 5, 10), None);
    assert!(guarded_split_search(&coded, &code_score, &bare, &score, 0, 5, 10).is_some());
}
