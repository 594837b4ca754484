use corrosion::allocator::{
    alloc_bytes, alloc_pages, alloc_pages_zeroed, free_bytes, init, Heap, HEADER_SIZE, POOL_PAGES,
};
use corrosion::config::PAGE_SIZE;
use corrosion::debug::{debug_heap, fs, fs_cache, ChunkRow, PageRun};
use corrosion::disk::Disk;
use corrosion::virtio::{classify, DeviceTable, Dispatch, Probe, BLOCK, GPU, VIRTIO_START};

const BASE: usize = 0x8000_0000;

#[test]
fn heap_report_lists_runs_and_chunks() {
    let mut heap = Heap::new(BASE, 600 * PAGE_SIZE).expect("layout fits");
    init(&mut heap);
    let start = heap.byte_grain_allocator().get_start();
    assert_eq!(heap.byte_grain_allocator().get_head_u8(), start);
    let three = alloc_pages(&mut heap, 3);
    let one = alloc_pages_zeroed(&mut heap, 1);
    let a = alloc_bytes(&mut heap, 10);
    let b = alloc_bytes(&mut heap, 100);
    free_bytes(&mut heap, a);
    let report = corrosion::debug::heap(&heap);
    assert_eq!(report.pages.metadata_start, BASE);
    assert_eq!(report.pages.metadata_end, BASE + 600);
    assert_eq!(report.pages.metadata_pages, 1);
    assert_eq!(report.pages.pages_start, start);
    assert_eq!(report.pages.pages_end, BASE + 600 * PAGE_SIZE);
    assert_eq!(report.pages.avail_pages, 599);
    assert_eq!(report.pages.allocated, 516);
    let pool_end = start + POOL_PAGES * PAGE_SIZE;
    assert_eq!(
        report.pages.runs,
        vec![
            PageRun { pool: true, first: start, last: pool_end - 1, pages: 512 },
            PageRun { pool: false, first: three, last: three + 3 * PAGE_SIZE - 1, pages: 3 },
            PageRun { pool: false, first: one, last: one + PAGE_SIZE - 1, pages: 1 },
        ]
    );
    assert_eq!(
        report.bytes.chunks,
        vec![
            ChunkRow { taken: false, start, end: start + 24, size: 24 },
            ChunkRow { taken: true, start: b - HEADER_SIZE, end: b + 104, size: 112 },
            ChunkRow { taken: false, start: b + 104, end: pool_end, size: pool_end - b - 104 },
        ]
    );
    assert_eq!(report.bytes.used_bytes, 112);
    assert_eq!(report.bytes.total_bytes, POOL_PAGES * PAGE_SIZE);
    let again = debug_heap(&heap);
    assert_eq!(again.pages.runs, report.pages.runs);
}

#[test]
fn heap_before_init_has_neither_runs_nor_chunks() {
    let heap = Heap::new(BASE, 16 * PAGE_SIZE).expect("layout fits");
    let report = debug_heap(&heap);
    assert!(report.pages.runs.is_empty());
    assert!(report.bytes.chunks.is_empty());
    assert_eq!(report.pages.allocated, 0);
    assert_eq!(report.bytes.total_bytes, 0);
}

#[test]
fn heap_over_given_memory_needs_the_length_of_the_layout() {
    let len = 600 * PAGE_SIZE;
    assert!(Heap::over(BASE, len, vec![0xa5u8; len - 1]).is_none());
    assert!(Heap::over(BASE, len, vec![0xa5u8; len + 4096]).is_none());
    let mut heap = Heap::over(BASE, len, vec![0xa5u8; len]).expect("length fits");
    assert_eq!(heap.size(), len);
    assert_eq!(heap.page_count(), 599);
    assert_eq!(heap.load(BASE), Some(0xa5));
    init(&mut heap);
    assert_eq!(heap.load(BASE), Some(1));
    assert_eq!(heap.load(BASE + 511), Some(3));
    assert_eq!(heap.load(BASE + 512), Some(0));
    let start = heap.byte_grain_allocator().get_start();
    assert_eq!(heap.load(start + 8), Some(0));
    assert_eq!(heap.load(start + POOL_PAGES * PAGE_SIZE - 1), Some(0));
    assert_eq!(heap.load(start + POOL_PAGES * PAGE_SIZE), Some(0xa5));
    assert_eq!(heap.load(BASE + len), None);
    assert_eq!(heap.load(BASE - 1), None);
}

#[test]
fn store_reaches_allocated_memory_only() {
    let mut heap = Heap::new(BASE, 600 * PAGE_SIZE).expect("layout fits");
    init(&mut heap);
    let start = heap.byte_grain_allocator().get_start();
    let a = alloc_bytes(&mut heap, 16);
    assert!(heap.store(a, 1));
    assert!(heap.store(a + 15, 2));
    assert!(!heap.store(a - 1, 3));
    assert!(!heap.store(a + 16, 3));
    assert!(!heap.store(a + 24, 3));
    assert!(!heap.store(BASE, 3));
    assert!(!heap.store(start + POOL_PAGES * PAGE_SIZE, 3));
    assert!(!heap.store(0, 3));
    assert_eq!(heap.load(a), Some(1));
    assert_eq!(heap.load(a + 15), Some(2));
    let page = alloc_pages(&mut heap, 1);
    assert!(heap.store(page + 4095, 9));
    assert!(!heap.store(page + 4096, 9));
    assert_eq!(heap.load(page + 4095), Some(9));
    free_bytes(&mut heap, a);
    assert!(!heap.store(a, 1));
    assert_eq!(alloc_bytes(&mut heap, 16), a);
    assert_eq!(heap.load(a + 15), Some(2));
}

#[test]
fn probe_tells_the_kind_of_a_device() {
    assert_eq!(classify(0, 2), Probe::NotVirtio);
    assert_eq!(classify(0x7472_6976, 0), Probe::NotConnected);
    assert_eq!(classify(0x7472_6976, 2), Probe::Block);
    assert_eq!(classify(0x7472_6976, 16), Probe::Gpu);
    assert_eq!(classify(0x7472_6976, 18), Probe::Input);
    assert_eq!(classify(0x7472_6976, 1), Probe::Ignored { device_id: 1 });
}

#[test]
fn interrupt_goes_to_the_device_in_its_place() {
    let mut table = DeviceTable::new();
    assert_eq!(table.interrupt_handler(8), Dispatch::Spurious);
    table.set_virtio_device_type(VIRTIO_START + 7 * 0x1000, BLOCK);
    table.set_virtio_device_type(VIRTIO_START, GPU);
    table.set_virtio_device_type(VIRTIO_START + 8 * 0x1000, BLOCK);
    table.set_virtio_device_type(0, BLOCK);
    assert_eq!(table.interrupt_handler(8), Dispatch::Block);
    assert_eq!(table.interrupt_handler(1), Dispatch::Invalid { device_type: 16 });
    assert_eq!(table.interrupt_handler(2), Dispatch::Spurious);
    assert_eq!(table.interrupt_handler(0), Dispatch::Spurious);
    assert_eq!(table.interrupt_handler(9), Dispatch::Spurious);
}

fn small_disk() -> Disk {
    let mut bytes = vec![0u8; 16 * 1024];
    bytes[1024..1028].copy_from_slice(&32u32.to_le_bytes());
    bytes[1024 + 6] = 1;
    bytes[1024 + 8] = 1;
    bytes[1024 + 10] = 1;
    bytes[1024 + 20..1024 + 24].copy_from_slice(&80u32.to_le_bytes());
    bytes[1024 + 24..1024 + 26].copy_from_slice(&0x4d5au16.to_le_bytes());
    bytes[2048] = 0x07;
    bytes[3072] = 0xff;
    bytes[3073] = 0x03;
    let table = 4 * 1024;
    bytes[table..table + 2].copy_from_slice(&0x41edu16.to_le_bytes());
    bytes[table + 8] = 192;
    bytes[table + 24] = 6;
    bytes[table + 64..table + 66].copy_from_slice(&0x81a4u16.to_le_bytes());
    bytes[table + 64 + 8] = 3;
    bytes[table + 64 + 24] = 7;
    let root = 6 * 1024;
    bytes[root + 128] = 2;
    bytes[root + 132..root + 133].copy_from_slice(b"f");
    bytes[root + 4] = b'.';
    Disk::new(bytes)
}

#[test]
fn filesystem_report_counts_the_bitmaps() {
    let disk = small_disk();
    let filesystem = corrosion::minixfs3::init(&disk);
    let report = fs(&filesystem, &disk);
    assert_eq!(report.superblock.ninodes, 32);
    assert_eq!(report.inode_bitmap, vec![0x07, 0, 0, 0]);
    assert_eq!(report.inodes_used, 3);
    assert_eq!(report.first_free_inode, Some(4));
    assert_eq!(report.zone_bitmap, vec![0xff, 0x03, 0, 0, 0, 0, 0, 0, 0]);
    assert_eq!(report.zones_used, 10);
    assert_eq!(report.first_free_zone, Some(11));
    assert_eq!(report.root.map(|i| i.size), Some(192));
    assert_eq!(report.second.map(|i| i.size), Some(3));
    let cache = fs_cache(&filesystem);
    assert_eq!(cache.len(), 1);
    assert_eq!(cache[0].0, "/f");
    assert_eq!(cache[0].1.size, 3);
    assert!(filesystem.cached("/f"));
    assert!(!filesystem.cached("/g"));
}
