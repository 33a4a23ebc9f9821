use diskann_cxl::cxl_mmap_reader::{
    CxlMmapConfig, CxlMmapReader, CxlReaderType, MmapAdvice, PrefetchSpan, ReadRequest,
    CXL_CACHE_LINE,
};
use diskann_cxl::error::CxlError;
use diskann_cxl::le_bytes::{copy_range, push_u32, read_u32, read_u32s, read_u64};
use diskann_cxl::mapped_region::MappedRegion;
use memmap2::{Mmap, MmapMut};

fn mapped(content: &[u8]) -> Mmap {
    let mut map = MmapMut::map_anon(content.len()).unwrap();
    map.copy_from_slice(content);
    map.make_read_only().unwrap()
}

fn quiet() -> CxlMmapConfig {
    CxlMmapConfig { prefault: false, advise_random: true, use_huge_pages: false }
}

#[test]
fn test_basic_mmap_read() {
    let data: Vec<u8> = (0..4096).map(|i| (i % 256) as u8).collect();
    let reader = CxlMmapReader::with_config(mapped(&data), quiet());

    assert_eq!(reader.mapped_len(), 4096);
    assert_eq!(reader.io_operations(), 0);

    let slice = reader.slice_at(0, 256);
    for i in 0..256 {
        assert_eq!(slice[i], i as u8);
    }
}

#[test]
fn test_aligned_file_reader_trait() {
    let data: Vec<u8> = (0..4096).map(|i| (i % 256) as u8).collect();
    let mut reader = CxlMmapReader::with_config(mapped(&data), quiet());

    let mut requests = vec![ReadRequest::new(0, 128)];
    reader.read(&mut requests).unwrap();
    let buf = &requests[0].buf;

    for i in 0..128 {
        assert_eq!(buf[i], i as u8);
    }
}

#[test]
fn test_prefetch_no_panic() {
    let data = vec![0u8; 4096];
    let reader = CxlMmapReader::with_config(mapped(&data), quiet());

    reader.prefetch_node(0, 960);
    reader.prefetch_node(3000, 960);
    reader.prefetch_node(5000, 960); // Beyond file — silently skipped
}

#[test]
fn test_io_counter() {
    let data = vec![0u8; 4096];
    let mut reader = CxlMmapReader::with_config(mapped(&data), quiet());

    assert_eq!(reader.io_operations(), 0);
    reader.reset_io_count();
    assert_eq!(reader.io_operations(), 0);
}

#[test]
fn test_multiple_reads_at_offsets() {
    let node_size = 960;
    let total = node_size * 3;
    let mut data = vec![0u8; total];
    for i in 0..3 {
        data[i * node_size] = (i + 1) as u8;
    }

    let reader = CxlMmapReader::with_config(mapped(&data), quiet());

    assert_eq!(reader.slice_at(0, 1)[0], 1);
    assert_eq!(reader.slice_at(960, 1)[0], 2);
    assert_eq!(reader.slice_at(1920, 1)[0], 3);
}

#[test]
fn prefetch_covers_the_node() {
    let reader = CxlMmapReader::with_config(mapped(&[0u8; 4096]), quiet());
    assert_eq!(reader.prefetch_node(0, 960), Some(PrefetchSpan { offset: 0, num_lines: 15 }));
    assert_eq!(reader.prefetch_node(3000, 961), Some(PrefetchSpan { offset: 3000, num_lines: 16 }));
    assert_eq!(reader.prefetch_node(4096, 0), Some(PrefetchSpan { offset: 4096, num_lines: 0 }));
    assert_eq!(reader.prefetch_node(5000, 960), None);
    assert_eq!(reader.prefetch_node(usize::MAX, usize::MAX), None);
    assert_eq!(CXL_CACHE_LINE, 64);
}

#[test]
fn reads_stop_at_the_first_bad_request() {
    let data: Vec<u8> = (0..100).collect();
    let mut reader = CxlMmapReader::new(mapped(&data));
    let mut requests = vec![
        ReadRequest::new(90, 10),
        ReadRequest::new(5, 2),
        ReadRequest::new(91, 10),
        ReadRequest::new(0, 1),
    ];
    assert_eq!(
        reader.read(&mut requests),
        Err(CxlError::OutOfBounds { offset: 91, len: 10, mapped_len: 100 })
    );
    assert_eq!(requests[0].buf, (90..100).collect::<Vec<u8>>());
    assert_eq!(requests[1].buf, vec![5, 6]);
    assert_eq!(requests[2].buf, vec![0; 10]);
    assert_eq!(requests[3].buf, vec![0]);
    assert_eq!(requests[3].offset, 0);
    assert_eq!(reader.io_operations(), 2);
    reader.reset_io_count();
    assert_eq!(reader.io_operations(), 0);

    let mut far = vec![ReadRequest::new(u64::MAX, 1)];
    assert!(reader.read(&mut far).is_err());
    assert_eq!(reader.read(&mut Vec::new()), Ok(()));
}

#[test]
fn tails_and_slices() {
    let data: Vec<u8> = (0..100).collect();
    let reader = CxlMmapReader::new(mapped(&data));
    assert_eq!(reader.ptr_at(97), &[97, 98, 99]);
    assert_eq!(reader.slice_at(100, 0), &[] as &[u8]);
    assert_eq!(reader.all(), &data[..]);
}

#[test]
fn advice_follows_the_config() {
    let reader = CxlMmapReader::new(mapped(&[1]));
    assert_eq!(
        reader.advice(),
        vec![MmapAdvice::Random, MmapAdvice::HugePage, MmapAdvice::WillNeed]
    );
    let config = CxlMmapConfig { prefault: true, advise_random: false, use_huge_pages: false };
    let reader = CxlMmapReader::with_config(mapped(&[1]), config.clone());
    assert_eq!(reader.advice(), vec![MmapAdvice::WillNeed]);
    assert_eq!(
        CxlMmapReader::with_config(mapped(&[1]), quiet()).advice(),
        vec![MmapAdvice::Random]
    );
    let standard = CxlMmapConfig::default();
    assert!(standard.prefault && standard.advise_random && standard.use_huge_pages);
    assert_ne!(CxlReaderType::MmapRandom, CxlReaderType::MmapSequential);
}

#[test]
fn regions_hand_out_their_bytes() {
    let region = MappedRegion::new(mapped(&[7, 8, 9]));
    assert_eq!(region.len(), 3);
    assert_eq!(region.bytes(), &[7, 8, 9]);
}

#[test]
fn integers_are_little_endian() {
    let bytes = [1u8, 2, 3, 4, 5, 6, 7, 8, 0xff, 0xff, 0xff, 0xff];
    assert_eq!(read_u32(&bytes, 0), 0x0403_0201);
    assert_eq!(read_u32(&bytes, 8), u32::MAX);
    assert_eq!(read_u64(&bytes, 0), 0x0807_0605_0403_0201);
    assert_eq!(read_u32s(&bytes, 4, 2), vec![0x0807_0605, u32::MAX]);
    assert_eq!(copy_range(&bytes, 2, 4), vec![3, 4]);
    let mut out = vec![9u8];
    push_u32(&mut out, 0xa1b2_c3d4);
    assert_eq!(out, vec![9, 0xd4, 0xc3, 0xb2, 0xa1]);
    assert_eq!(read_u32(&out, 1), 0xa1b2_c3d4);
}
