use diskann_cxl::cxl_sector_graph::{
    CxlBuildConfig, CxlLayoutInfo, NodeLayoutMode, NodeOffsetCalculator,
};
use diskann_cxl::rounding::{align_up, div_ceil, min_usize};

const SIFT128_VECTOR_SIZE: usize = 512;
const DEGREE_64: usize = 64;
const HEADER_OFFSET: usize = 4096;

#[test]
fn test_cxl_layout_offset() {
    let calc = NodeOffsetCalculator::new(64, SIFT128_VECTOR_SIZE, DEGREE_64, HEADER_OFFSET);

    assert_eq!(calc.raw_node_len(), 772);
    let aligned = align_up(772, 64);
    assert_eq!(aligned, 832);

    assert_eq!(calc.node_offset(0), HEADER_OFFSET);
    assert_eq!(calc.node_offset(1), HEADER_OFFSET + 832);
    assert_eq!(calc.node_offset(100), HEADER_OFFSET + 100 * 832);
}

#[test]
fn test_ssd_layout_offset() {
    let calc = NodeOffsetCalculator::new(4096, SIFT128_VECTOR_SIZE, DEGREE_64, HEADER_OFFSET);

    assert_eq!(calc.node_offset(0), HEADER_OFFSET);
    assert_eq!(calc.node_offset(4), HEADER_OFFSET + 4 * 772);
    assert_eq!(calc.node_offset(5), HEADER_OFFSET + 4096);
}

fn efficiency(calc: &NodeOffsetCalculator) -> f64 {
    calc.raw_node_len() as f64 / calc.read_len(0) as f64
}

#[test]
fn test_cxl_efficiency_vs_ssd() {
    let cxl = NodeOffsetCalculator::new(64, SIFT128_VECTOR_SIZE, DEGREE_64, 0);
    let ssd = NodeOffsetCalculator::new(4096, SIFT128_VECTOR_SIZE, DEGREE_64, 0);

    let cxl_eff = efficiency(&cxl);
    let _ssd_eff = efficiency(&ssd);

    assert!(cxl_eff > 0.90, "CXL efficiency={}", cxl_eff);
    println!("CXL efficiency: {:.1}%", cxl_eff * 100.0);
    println!("SSD efficiency: {:.1}%", _ssd_eff * 100.0);
}

#[test]
fn test_layout_detection() {
    let info_cxl = CxlLayoutInfo::from_block_size(64, 772);
    assert!(info_cxl.is_cxl_layout);
    assert_eq!(info_cxl.alignment, 64);

    let info_ssd = CxlLayoutInfo::from_block_size(4096, 772);
    assert!(!info_ssd.is_cxl_layout);
    assert_eq!(info_ssd.alignment, 4096);
}

#[test]
fn test_large_node_multi_sector() {
    let calc = NodeOffsetCalculator::new(4096, 4096, 128, 0);
    assert_eq!(calc.raw_node_len(), 4612);

    assert_eq!(calc.node_offset(0), 0);
    assert_eq!(calc.node_offset(1), 8192);

    let cxl = NodeOffsetCalculator::new(64, 4096, 128, 0);
    assert_eq!(cxl.node_offset(0), 0);
    assert_eq!(cxl.node_offset(1), 4672);
}

#[test]
fn test_align_up() {
    assert_eq!(align_up(0, 64), 0);
    assert_eq!(align_up(1, 64), 64);
    assert_eq!(align_up(64, 64), 64);
    assert_eq!(align_up(65, 64), 128);
    assert_eq!(align_up(772, 64), 832);
}

#[test]
fn rounding_to_any_multiple() {
    assert_eq!(align_up(10, 3), 12);
    assert_eq!(align_up(align_up(10, 3), 3), 12);
    assert_eq!(div_ceil(0, 64), 0);
    assert_eq!(div_ceil(64, 64), 1);
    assert_eq!(div_ceil(65, 64), 2);
    assert_eq!(min_usize(3, 4), 3);
}

#[test]
fn lengths_and_modes() {
    let cxl = NodeOffsetCalculator::new(64, 512, 64, 0);
    assert_eq!(cxl.mode(), NodeLayoutMode::CxlCacheLineAligned { aligned_node_len: 832 });
    assert_eq!(cxl.read_len(7), 832);
    assert_eq!(cxl.effective_node_len(), 832);

    let ssd = NodeOffsetCalculator::from_block_size(4096, 512, 64, 0);
    assert_eq!(
        ssd.mode(),
        NodeLayoutMode::SsdSectorAligned { block_size: 4096, nodes_per_sector: 5 }
    );
    assert_eq!(ssd.read_len(7), 4096);
    assert_eq!(ssd.effective_node_len(), 819);

    let large = NodeOffsetCalculator::new(4096, 4096, 128, 0);
    assert_eq!(large.read_len(0), 8192);
    assert_eq!((large.checked_read_len(), ssd.checked_read_len()), (Some(8192), Some(4096)));
    assert_eq!(cxl.checked_read_len(), Some(832));
    let huge = NodeOffsetCalculator::new(4096, usize::MAX - 100, 4, 0);
    assert_eq!(huge.checked_read_len(), None);
    assert_eq!(large.effective_node_len(), 8192);
}

#[test]
fn offsets_are_checked() {
    let calc = NodeOffsetCalculator::new(64, 512, 64, usize::MAX - 832);
    assert_eq!(calc.checked_node_offset(0), Some(usize::MAX - 832));
    assert_eq!(calc.checked_node_offset(1), Some(usize::MAX));
    assert_eq!(calc.checked_node_offset(2), None);

    let ssd = NodeOffsetCalculator::new(4096, 512, 64, 64);
    assert_eq!(ssd.checked_node_offset(11), Some(64 + 2 * 4096 + 772));
    let large = NodeOffsetCalculator::new(4096, 4096, 128, 64);
    assert_eq!(large.checked_node_offset(3), Some(64 + 3 * 8192));
    assert_eq!(large.clone().checked_node_offset(3), large.checked_node_offset(3));
}

#[test]
fn nodes_do_not_overlap() {
    for block in [64usize, 512, 4096] {
        for vector in [16usize, 500, 5000] {
            let calc = NodeOffsetCalculator::new(block, vector, 16, 100);
            for id in 0..50u32 {
                assert!(calc.node_offset(id) + calc.raw_node_len() <= calc.node_offset(id + 1));
            }
        }
    }
}

#[test]
fn layout_info_and_build_config() {
    let info = CxlLayoutInfo::from_block_size(64, 772);
    assert_eq!(info.aligned_node_size, 832);
    let config = CxlBuildConfig::default();
    assert_eq!(config.block_size, 64);
}
