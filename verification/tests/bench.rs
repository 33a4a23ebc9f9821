use diskann_cxl::bench_args::{ArgsOutcome, BenchArgs, BenchMode, RunShape};
use diskann_cxl::bench_plan::{
    copy_blocks, device_list, is_pq_codes_name, DiskEngine, DiskPlan, NumaPlan, NumaRun,
};
use diskann_cxl::bench_report::{render_report, BenchResult, IndexFacts, MetricsRow};
use diskann_cxl::error::CxlError;
use diskann_cxl::ground_truth::GroundTruth;
use diskann_cxl::index_header::ParsedHeader;
use diskann_cxl::multi_device::{is_devdax, map_kind, MapKind};
use diskann_cxl::numa::{
    buffer_len, node_request, nodes_to_mask, parse_node_spec, spread_request, BindRequest,
    NodeSpecError, MPOL_BIND, MPOL_INTERLEAVE, MPOL_MF_MOVE,
};
use diskann_cxl::queries::{Queries, QueryFormat};
use diskann_cxl::sweep::{
    result_count, run_pass, search_widths, sweep, Recall, SearchOutcome, SweepTotals,
};
use diskann_cxl::text::{chars_of, contains, find, push_decimal, same_text, split, trim, Stretch};

fn args(list: &[&str]) -> Vec<String> {
    let mut all = vec!["cxl_bench".to_string()];
    all.extend(list.iter().map(|s| s.to_string()));
    all
}

fn run(list: &[&str]) -> BenchArgs {
    match BenchArgs::from_args(&args(list)) {
        ArgsOutcome::Run(a) => a,
        _ => panic!("not a run"),
    }
}

#[test]
fn arguments_have_defaults() {
    let a = run(&["--index", "i.bin"]);
    assert_eq!(a.mode, "disk");
    assert_eq!(a.index_path, "i.bin");
    assert_eq!(a.device, "");
    assert_eq!((a.dim, a.max_degree, a.block_size, a.data_start, a.num_points), (0, 0, 0, 0, 0));
    assert_eq!((a.reps, a.skip_copy, a.local_node), (3, false, 0));
    assert_eq!(a.cxl_nodes, vec![2]);
}

#[test]
fn arguments_are_taken() {
    let a = run(&[
        "--mode", "numa", "--device", "/dev/dax0.0", "--index", "x", "--queries", "q",
        "--pq-codes", "p", "--groundtruth", "g", "--output", "o", "--dim", "96", "--max-degree",
        "+32", "--block-size", "64", "--data-start", "128", "--num-points", "1000", "--reps", "1",
        "--skip-copy", "--local-node", "1", "--cxl-nodes", "5-3,4, 3 ,4",
    ]);
    assert_eq!(a.mode, "numa");
    assert_eq!(a.bench_mode(), Some(BenchMode::Numa));
    assert_eq!(a.device, "/dev/dax0.0");
    assert_eq!((a.queries_path.as_str(), a.pq_codes_path.as_str()), ("q", "p"));
    assert_eq!((a.gt_path.as_str(), a.output_path.as_str()), ("g", "o"));
    assert_eq!((a.dim, a.max_degree, a.block_size), (96, 32, 64));
    assert_eq!((a.data_start, a.num_points, a.reps), (128, 1000, 1));
    assert!(a.skip_copy);
    assert_eq!(a.local_node, 1);
    assert_eq!(a.cxl_nodes, vec![3, 4]);
}

#[test]
fn arguments_can_be_wrong() {
    let out = |list: &[&str]| BenchArgs::from_args(&args(list));
    assert!(matches!(out(&["--help"]), ArgsOutcome::Help));
    assert!(matches!(out(&["--bad", "-h"]), ArgsOutcome::Unknown(_)));
    assert!(matches!(out(&["-h", "--bad"]), ArgsOutcome::Help));
    assert!(matches!(out(&[]), ArgsOutcome::IndexRequired));
    assert!(matches!(out(&["--mode"]), ArgsOutcome::MissingValue(f) if f == "--mode"));
    assert!(matches!(out(&["--reps", "x"]), ArgsOutcome::BadNumber(f) if f == "--reps"));
    assert!(matches!(out(&["--reps", ""]), ArgsOutcome::BadNumber(_)));
    assert!(matches!(
        out(&["--local-node", "4294967296"]),
        ArgsOutcome::BadNumber(f) if f == "--local-node"
    ));
    assert!(matches!(out(&["--cxl-nodes", "a"]), ArgsOutcome::BadNodes(NodeSpecError::BadNode)));
    assert!(matches!(out(&["--cxl-nodes"]), ArgsOutcome::MissingValue(_)));
    assert!(matches!(out(&["what"]), ArgsOutcome::Unknown(f) if f == "what"));
    assert_eq!(run(&["--index", "i", "--mode", "other"]).bench_mode(), None);
    assert_eq!(run(&["--index", "i"]).bench_mode(), Some(BenchMode::Disk));
}

#[test]
fn node_lists_are_parsed() {
    assert_eq!(parse_node_spec("3,4"), Ok(vec![3, 4]));
    assert_eq!(parse_node_spec("3-5"), Ok(vec![3, 4, 5]));
    assert_eq!(parse_node_spec(" 9 , 2 - 3,2"), Ok(vec![2, 3, 9]));
    assert_eq!(parse_node_spec("1-2-3,7"), Ok(vec![7]));
    assert_eq!(parse_node_spec("4294967295-4294967295"), Ok(vec![u32::MAX]));
    assert_eq!(parse_node_spec("5-3"), Err(NodeSpecError::Empty));
    assert_eq!(parse_node_spec("x-3"), Err(NodeSpecError::BadRangeStart));
    assert_eq!(parse_node_spec("3-"), Err(NodeSpecError::BadRangeEnd));
    assert_eq!(parse_node_spec("3-y,z"), Err(NodeSpecError::BadRangeEnd));
    assert_eq!(parse_node_spec(""), Err(NodeSpecError::BadNode));
    assert_eq!(parse_node_spec("3,,4"), Err(NodeSpecError::BadNode));
    assert_eq!(parse_node_spec("4294967296"), Err(NodeSpecError::BadNode));
}

#[test]
fn masks_and_bind_requests() {
    assert_eq!(nodes_to_mask(&[]), 0);
    assert_eq!(nodes_to_mask(&[0, 3, 3, 63]), 1 | 8 | (1 << 63));
    assert_eq!(buffer_len(1), 4096);
    assert_eq!(buffer_len(5000), 5000);
    assert_eq!(
        spread_request(10, &[2]),
        BindRequest { len: 4096, policy: MPOL_BIND, mask: 4, flags: 0 }
    );
    assert_eq!(
        spread_request(10_000, &[2, 3]),
        BindRequest { len: 10_000, policy: MPOL_INTERLEAVE, mask: 12, flags: 0 }
    );
    assert_eq!(
        node_request(100, 5),
        Ok(BindRequest { len: 100, policy: MPOL_BIND, mask: 32, flags: MPOL_MF_MOVE })
    );
    let limit = isize::MAX as usize;
    assert!(node_request(limit - 63, 0).is_ok());
    assert_eq!(
        node_request(limit - 62, 0),
        Err(CxlError::LayoutTooLarge { requested: limit - 62 })
    );
}

fn header_bytes(num: u64, dims: u64, node_len: u64, block: u64, assoc: u64) -> Vec<u8> {
    let mut file = vec![0u8; 104];
    file[8..16].copy_from_slice(&num.to_le_bytes());
    file[16..24].copy_from_slice(&dims.to_le_bytes());
    file[24..32].copy_from_slice(&77u64.to_le_bytes());
    file[32..40].copy_from_slice(&node_len.to_le_bytes());
    file[80..88].copy_from_slice(&assoc.to_le_bytes());
    file[88..96].copy_from_slice(&block.to_le_bytes());
    file
}

#[test]
fn headers_are_parsed() {
    let hdr = ParsedHeader::from_bytes(&header_bytes(1000, 128, 512 + 4 + 4 * 64, 4096, 0)).unwrap();
    assert_eq!((hdr.num_pts, hdr.dims, hdr.medoid), (1000, 128, 77));
    assert_eq!((hdr.node_len, hdr.block_size, hdr.associated_data_length), (772, 4096, 0));
    assert_eq!(hdr.max_degree(4), 64);
    assert_eq!(hdr.detect_elem_size(), 4);
    let small = ParsedHeader::from_bytes(&header_bytes(9, 100, 100 + 8 + 4 + 4 * 32, 64, 8)).unwrap();
    assert_eq!(small.max_degree(1), 32);
    assert_eq!(small.max_degree(4), 0);
    assert_eq!(small.detect_elem_size(), 1);
    let none = ParsedHeader::from_bytes(&header_bytes(9, 100, 0, 64, 8)).unwrap();
    assert_eq!(none.detect_elem_size(), 4);
    assert_eq!(
        ParsedHeader::from_bytes(&[0; 103]),
        Err(CxlError::FileTooSmall { size: 103, expected: 104 })
    );

    let a = run(&["--index", "i"]);
    assert_eq!(
        a.run_shape(&small),
        RunShape { num_points: 9, dims: 100, elem_size: 1, max_degree: 32 }
    );
    let b = run(&["--index", "i", "--dim", "5", "--num-points", "6", "--max-degree", "7"]);
    assert_eq!(
        b.run_shape(&hdr),
        RunShape { num_points: 6, dims: 5, elem_size: 4, max_degree: 7 }
    );
}

#[test]
fn disk_plans() {
    let hdr = ParsedHeader::from_bytes(&header_bytes(1000, 128, 772, 4096, 0)).unwrap();
    let shape = RunShape { num_points: 1000, dims: 128, elem_size: 4, max_degree: 64 };
    let plan = DiskPlan::new(&run(&["--index", "i"]), &hdr, &shape);
    assert_eq!((plan.block_size, plan.data_start, plan.src_vec_bytes), (4096, 4096, 512));
    assert_eq!(plan.devices, vec!["i".to_string()]);
    assert!(!plan.copy && !plan.is_multi && !plan.is_devdax);
    assert_eq!(plan.engine, DiskEngine::Provider);
    assert_eq!(plan.label, "disk_1dev");

    let many = run(&["--index", "i", "--device", " a , /dev/dax1.0", "--block-size", "64"]);
    let plan = DiskPlan::new(&many, &hdr, &shape);
    assert_eq!(plan.devices, vec!["a".to_string(), "/dev/dax1.0".to_string()]);
    assert!(plan.copy && plan.is_multi && plan.is_devdax);
    assert_eq!(plan.engine, DiskEngine::MultiDevice);
    assert_eq!((plan.block_size, plan.data_start), (64, 64));
    assert_eq!(plan.label, "disk_2dev");

    let one = run(&["--index", "i", "--device", "d", "--skip-copy", "--data-start", "9"]);
    let plan = DiskPlan::new(&one, &hdr, &RunShape { elem_size: 1, ..shape });
    assert!(!plan.copy && !plan.is_devdax);
    assert_eq!(plan.engine, DiskEngine::MultiDevice);
    assert_eq!(plan.data_start, 9);
    assert_eq!(plan.src_vec_bytes, 128);
}

#[test]
fn numa_plans() {
    let hdr = ParsedHeader::from_bytes(&header_bytes(1000, 128, 772, 4096, 0)).unwrap();
    assert_eq!(
        NumaPlan::new(&run(&["--index", "i"]), &hdr),
        NumaPlan { block_size: 4096, data_start: 4096 }
    );
    assert_eq!(
        NumaPlan::new(&run(&["--index", "i", "--block-size", "64"]), &hdr),
        NumaPlan { block_size: 64, data_start: 64 }
    );
    assert_eq!(
        NumaPlan::new(&run(&["--index", "i", "--data-start", "128"]), &hdr),
        NumaPlan { block_size: 4096, data_start: 128 }
    );
    let labels: Vec<String> = NumaRun::all().iter().map(|r| r.label()).collect();
    assert_eq!(labels, vec!["ALL_DRAM", "ALL_CXL", "PQ_SPLIT_DRAM_CXL"]);
}

#[test]
fn devices_and_names() {
    assert_eq!(device_list("", "idx"), vec!["idx".to_string()]);
    assert_eq!(device_list("a,,b ", "idx"), vec!["a".to_string(), String::new(), "b".to_string()]);
    assert!(is_devdax("/dev/dax0.0") && is_devdax("x/dev/dax") && !is_devdax("/dev/da"));
    assert_eq!(map_kind("/dev/dax0.0", 5), MapKind::Device { len: 2_097_152 });
    assert_eq!(map_kind("/tmp/dax", 5), MapKind::File);
    assert!(is_pq_codes_name("a_pq_compressed.bin") && !is_pq_codes_name("pq.bin"));
    assert_eq!(copy_blocks(0), 0);
    assert_eq!(copy_blocks(1), 1);
    assert_eq!(copy_blocks(4_194_304), 1);
    assert_eq!(copy_blocks(4_194_305), 2);
    assert_eq!(copy_blocks(u64::MAX), 1 << 42);
}

#[test]
fn sweeps_stay_within_the_points() {
    assert_eq!(search_widths(1_000_000), vec![10, 20, 50, 100, 200]);
    assert_eq!(search_widths(60), vec![10, 20, 50, 60, 60]);
    assert_eq!(result_count(5), 5);
    assert_eq!(result_count(500), 10);
}

#[test]
fn passes_add_up() {
    let mut file = Vec::new();
    for n in [1u32, 2, 10, 11] {
        file.extend_from_slice(&n.to_le_bytes());
    }
    let truth = Some(GroundTruth::load(file).unwrap());
    let search = |q: usize, width: usize| -> (Vec<u32>, u32, u32) {
        (vec![11, 12, 10], 5 + q as u32, width as u32)
    };
    let outcomes = run_pass(&search, 3, 2, 2, &truth, 2);
    let first = SearchOutcome { dist_comps: 5, vec_reads: 3, hits: Some(1) };
    let second = SearchOutcome { dist_comps: 6, vec_reads: 3, hits: None };
    assert_eq!(outcomes, vec![first, second, first, second]);
    let totals = SweepTotals::of(&outcomes);
    assert_eq!(totals, SweepTotals { searches: 4, dist_comps: 22, vec_reads: 12, hits: 2 });
    assert_eq!(totals.recall(true, 2), Some(Recall { hits: 2, wanted: 8 }));
    assert_eq!(totals.recall(false, 2), None);
    assert_eq!(SweepTotals::of(&vec![]).recall(true, 2), None);
    let blind = run_pass(&search, 9, 1, 1, &None, 2);
    assert_eq!(blind, vec![SearchOutcome { dist_comps: 5, vec_reads: 9, hits: None }]);
    assert!(run_pass(&search, 3, 2, 0, &None, 2).is_empty());
}

#[test]
fn sweeps_run_every_width() {
    let mut file = Vec::new();
    for n in [1u32, 2, 10, 11] {
        file.extend_from_slice(&n.to_le_bytes());
    }
    let truth = Some(GroundTruth::load(file).unwrap());
    let search = |q: usize, width: usize| -> (Vec<u32>, u32, u32) {
        (vec![11, 10], width as u32, q as u32)
    };
    let rows = sweep(&search, 60, 2, 3, &truth);
    let widths: Vec<usize> = rows.iter().map(|r| r.search_l).collect();
    assert_eq!(widths, vec![10, 20, 50, 60, 60]);
    for row in &rows {
        assert_eq!(row.outcomes.len(), 6);
        for (i, outcome) in row.outcomes.iter().enumerate() {
            let hits = if i % 2 == 0 { Some(2) } else { None };
            let expected = SearchOutcome {
                dist_comps: row.search_l as u32,
                vec_reads: (i % 2) as u32,
                hits,
            };
            assert_eq!(*outcome, expected);
        }
    }
    // With a single point one result is asked for, and held against the nearest neighbor.
    let narrow = sweep(&search, 1, 1, 1, &truth);
    assert!(narrow.iter().all(|r| r.search_l == 1 && r.outcomes[0].hits == Some(0)));
}

#[test]
fn queries_are_read() {
    let mut file = Vec::new();
    file.extend_from_slice(&2u32.to_le_bytes());
    file.extend_from_slice(&3u32.to_le_bytes());
    let mut floats = file.clone();
    for f in [1.0f32, 2.0, 3.0, -4.0, 5.5, 6.0] {
        floats.extend_from_slice(&f.to_le_bytes());
    }
    let q = Queries::from_file(floats).unwrap();
    assert_eq!((q.len(), q.dims(), q.format()), (2, 3, QueryFormat::Float32));
    assert_eq!(q.get(1), [-4.0f32, 5.5, 6.0].iter().flat_map(|f| f.to_le_bytes()).collect::<Vec<u8>>());

    let mut bytes = file.clone();
    bytes.extend_from_slice(&[1, 2, 3, 252, 127, 128]);
    let q = Queries::from_file(bytes).unwrap();
    assert_eq!(q.format(), QueryFormat::Int8);
    assert_eq!(
        q.get(1),
        [-4.0f32, 127.0, -128.0].iter().flat_map(|f| f.to_le_bytes()).collect::<Vec<u8>>()
    );

    let mut odd = file.clone();
    odd.extend_from_slice(&[0; 10]);
    assert_eq!(
        Queries::from_file(odd).err(),
        Some(CxlError::UnknownQueryFormat { bytes: 10, num: 2, dims: 3 })
    );
    assert_eq!(Queries::from_file(vec![0; 8]).err(), Some(CxlError::NoQueries));
    assert_eq!(
        Queries::from_file(vec![0; 3]).err(),
        Some(CxlError::FileTooSmall { size: 3, expected: 8 })
    );
}

#[test]
fn recall_counts_hits() {
    let mut file = Vec::new();
    for n in [2u32, 3, 10, 11, 12, 20, 21, 22] {
        file.extend_from_slice(&n.to_le_bytes());
    }
    let truth = GroundTruth::load(file.clone()).unwrap();
    assert_eq!((truth.len(), truth.k()), (2, 3));
    assert_eq!(truth.recall_hits(0, &[12, 99, 10], 3), Some(2));
    assert_eq!(truth.recall_hits(0, &[12, 99, 10], 2), Some(0));
    assert_eq!(truth.recall_hits(1, &[20, 21, 22], 3), Some(3));
    assert_eq!(truth.recall_hits(1, &[20, 21, 22, 22], 10), Some(4));
    assert_eq!(truth.recall_hits(1, &[], 3), Some(0));
    assert_eq!(truth.recall_hits(2, &[20], 3), None);
    file.pop();
    assert_eq!(
        GroundTruth::load(file).err(),
        Some(CxlError::FileTooSmall { size: 31, expected: 32 })
    );
    assert!(GroundTruth::load(vec![]).is_err());
}

fn row(search_l: usize, qps: &str) -> MetricsRow {
    MetricsRow {
        search_l,
        recall_at_10: "0.500000".to_string(),
        qps: qps.to_string(),
        avg_us: "1.00".to_string(),
        p50_us: "2.00".to_string(),
        p95_us: "3.00".to_string(),
        p99_us: "4.00".to_string(),
        avg_dist_comps: "5.0".to_string(),
        avg_vec_reads: "6.0".to_string(),
    }
}

#[test]
fn report_is_json() {
    let facts = IndexFacts {
        num_points: 10,
        dims: 2,
        max_degree: 3,
        node_len: 24,
        block_size: 64,
        elem_size: 1,
    };
    let results = vec![
        BenchResult { name: "a".to_string(), rows: vec![row(10, "7.0"), row(20, "8.0")] },
        BenchResult { name: "b".to_string(), rows: vec![] },
    ];
    let one = |l: usize, q: &str| {
        format!(
            "        {{\n          \"search_L\": {},\n          \"recall_at_10\": 0.500000,\n          \"qps\": {},\n          \"avg_us\": 1.00,\n          \"p50_us\": 2.00,\n          \"p95_us\": 3.00,\n          \"p99_us\": 4.00,\n          \"avg_dist_comps\": 5.0,\n          \"avg_vec_reads\": 6.0\n        }}",
            l, q
        )
    };
    let expected = format!(
        "{{\n  \"index\": {{\n    \"num_points\": 10,\n    \"dims\": 2,\n    \"max_degree\": 3,\n    \"node_len\": 24,\n    \"block_size\": 64,\n    \"elem_size\": 1,\n    \"data_type\": \"int8\"\n  }},\n  \"benchmarks\": [\n    {{\n      \"name\": \"a\",\n      \"results\": [\n{},\n{}\n      ]\n    }},\n    {{\n      \"name\": \"b\",\n      \"results\": [\n      ]\n    }}\n  ]\n}}\n",
        one(10, "7.0"),
        one(20, "8.0")
    );
    assert_eq!(render_report(&facts, &results), expected);
    let floats = render_report(&IndexFacts { elem_size: 4, ..facts }, &vec![]);
    assert!(floats.contains("\"data_type\": \"float32\""));
    assert!(floats.ends_with("  \"benchmarks\": [\n  ]\n}\n"));
}

#[test]
fn text_is_split_and_trimmed() {
    let text = chars_of(" a\u{3000}, b ,");
    let whole = Stretch { from: 0, to: text.len() };
    let parts = split(&text, whole, ',');
    assert_eq!(parts.len(), 3);
    let inner: Vec<String> = parts
        .iter()
        .map(|&p| {
            let t = trim(&text, p);
            text[t.from..t.to].iter().collect()
        })
        .collect();
    assert_eq!(inner, vec!["a", "b", ""]);
    assert!(contains(&text, "b ,") && !contains(&text, "ab") && contains(&text, ""));
    assert_eq!((find(&text, ","), find(&text, "x")), (Some(3), None));
    assert!(same_text("é", "é") && !same_text("e", "é") && !same_text("e", "ee"));
    let mut out = String::from("n=");
    for n in [0u64, 9, 10, 18446744073709551615] {
        push_decimal(&mut out, n);
        out.push(' ');
    }
    assert_eq!(out, "n=0 9 10 18446744073709551615 ");
}
