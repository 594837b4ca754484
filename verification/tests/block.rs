use corrosion::allocator::{alloc_bytes, alloc_bytes_zeroed, init as heap_init, Heap, HEADER_SIZE};
use corrosion::block::{
    init, interrupt_handler, read, BlockDevice, DeviceState, MmioOp, Request, Submission,
    UsedElem, Wait, Header, Data, Status, MMIO_GUEST_FEATURES, MMIO_GUEST_PAGE_SIZE,
    MMIO_HOST_FEATURES, MMIO_QUEUE_NOTIFY, MMIO_QUEUE_NUMBER, MMIO_QUEUE_NUMBER_MAX,
    MMIO_QUEUE_PFN, MMIO_QUEUE_SELECT, MMIO_STATUS, REQUEST_SIZE,
};
use corrosion::config::{PAGE_SIZE, WAIT_FOR_READY};

const BASE: usize = 0x8000_0000;
const MMIO: usize = 0x1000_8000;

fn fresh_heap() -> Heap {
    let mut heap = Heap::new(BASE, 600 * PAGE_SIZE).expect("layout fits");
    heap_init(&mut heap);
    heap
}

/// The other side of the queue: a disk that serves the requests that the
/// driver has published and reports them in the used ring.
struct Device {
    disk: Vec<u8>,
    seen: u16,
}

impl Device {
    fn new(disk: Vec<u8>) -> Device {
        Device { disk, seen: 0 }
    }

    fn service(&mut self, dev: &mut BlockDevice, heap: &mut Heap) {
        let queue = *dev.shared_queue();
        while self.seen != queue.avail.idx {
            let head = queue.avail.ring[self.seen as usize % 128];
            let header = queue.desc[head as usize];
            let data = queue.desc[header.next as usize];
            let status = queue.desc[data.next as usize];
            let mut record = [0u8; 16];
            for (i, byte) in record.iter_mut().enumerate() {
                *byte = heap.load(header.addr as usize + i).expect("header in memory");
            }
            let kind = u32::from_le_bytes([record[0], record[1], record[2], record[3]]);
            let sector = u64::from_le_bytes([
                record[8], record[9], record[10], record[11], record[12], record[13], record[14],
                record[15],
            ]);
            let at = sector as usize * 512;
            for i in 0..data.len as usize {
                if kind == 0 {
                    assert!(heap.store(data.addr as usize + i, self.disk[at + i]));
                } else {
                    self.disk[at + i] = heap.load(data.addr as usize + i).expect("data in memory");
                }
            }
            assert!(heap.store(status.addr as usize, 0));
            let used = &mut dev.queue_mut().used;
            used.ring[used.idx as usize % 128] = UsedElem { id: head as u32, len: data.len };
            used.idx = used.idx.wrapping_add(1);
            self.seen = self.seen.wrapping_add(1);
        }
    }
}

fn negotiated(heap: &mut Heap, host_features: u32) -> BlockDevice {
    let (mut dev, _) = init(MMIO);
    dev.negotiate(heap, host_features);
    dev.negotiate(heap, 11);
    dev.negotiate(heap, 1024);
    assert_eq!(dev.device_state(), DeviceState::Ready);
    dev
}

fn queued(outcome: Submission) -> (usize, usize) {
    match outcome {
        Submission::Queued { slot, request, notify } => {
            assert_eq!(notify, MmioOp::Write { reg: MMIO_QUEUE_NOTIFY, value: 0 });
            (slot, request)
        },
        other => panic!("not queued: {:?}", other),
    }
}

#[test]
fn negotiation_performs_the_legacy_sequence() {
    let mut heap = fresh_heap();
    let (mut dev, ops) = init(MMIO);
    assert_eq!(dev.base(), MMIO);
    assert_eq!(dev.device_state(), DeviceState::Negotiating);
    assert_eq!(
        ops,
        vec![
            MmioOp::Write { reg: MMIO_STATUS, value: 0 },
            MmioOp::Write { reg: MMIO_STATUS, value: 1 },
            MmioOp::Write { reg: MMIO_STATUS, value: 3 },
            MmioOp::Read { reg: MMIO_HOST_FEATURES },
        ]
    );
    let ops = dev.negotiate(&mut heap, 0x0000_0e54);
    assert_eq!(
        ops,
        vec![
            MmioOp::Write { reg: MMIO_GUEST_FEATURES, value: 0x0000_0e54 },
            MmioOp::Write { reg: MMIO_STATUS, value: 11 },
            MmioOp::Read { reg: MMIO_STATUS },
        ]
    );
    assert!(!dev.is_read_only());
    let ops = dev.negotiate(&mut heap, 11);
    assert_eq!(ops, vec![MmioOp::Read { reg: MMIO_QUEUE_NUMBER_MAX }]);
    assert_eq!(dev.queue_address(), 0);
    let ops = dev.negotiate(&mut heap, 128);
    let queue = dev.queue_address();
    assert_eq!(queue, heap.byte_grain_allocator().get_start() + 512 * PAGE_SIZE);
    assert_eq!(
        ops,
        vec![
            MmioOp::Write { reg: MMIO_QUEUE_NUMBER, value: 128 },
            MmioOp::Write { reg: MMIO_QUEUE_SELECT, value: 0 },
            MmioOp::Write { reg: MMIO_GUEST_PAGE_SIZE, value: 4096 },
            MmioOp::Write { reg: MMIO_QUEUE_PFN, value: (queue / 4096) as u32 },
            MmioOp::Write { reg: MMIO_STATUS, value: 15 },
        ]
    );
    assert_eq!(dev.device_state(), DeviceState::Ready);
    assert_eq!(heap.page_flags(512).flags, 1);
    assert_eq!(heap.page_flags(513).flags, 3);
    assert!(dev.negotiate(&mut heap, 7).is_empty());
    assert_eq!(dev.device_state(), DeviceState::Ready);
    assert_eq!(MMIO_HOST_FEATURES, 4);
    assert_eq!(MMIO_GUEST_FEATURES, 8);
    assert_eq!(MMIO_GUEST_PAGE_SIZE, 10);
    assert_eq!(MMIO_QUEUE_SELECT, 12);
    assert_eq!(MMIO_QUEUE_NUMBER_MAX, 13);
    assert_eq!(MMIO_QUEUE_NUMBER, 14);
    assert_eq!(MMIO_QUEUE_PFN, 16);
    assert_eq!(MMIO_QUEUE_NOTIFY, 20);
    assert_eq!(MMIO_STATUS, 28);
}

#[test]
fn read_only_bit_is_masked_out_and_remembered() {
    let mut heap = fresh_heap();
    let (mut dev, _) = init(MMIO);
    let ops = dev.negotiate(&mut heap, 0x64);
    assert_eq!(ops[0], MmioOp::Write { reg: MMIO_GUEST_FEATURES, value: 0x44 });
    assert!(dev.is_read_only());
}

#[test]
fn device_that_refuses_the_features_has_failed() {
    let mut heap = fresh_heap();
    let (mut dev, _) = init(MMIO);
    dev.negotiate(&mut heap, 0);
    let ops = dev.negotiate(&mut heap, 3);
    assert_eq!(ops, vec![MmioOp::Write { reg: MMIO_STATUS, value: 128 }]);
    assert_eq!(dev.device_state(), DeviceState::Failed);
    assert_eq!(read(&mut dev, &mut heap, 0x9000_0000, 512, 0), Submission::NoDevice);
    assert!(dev.negotiate(&mut heap, 11).is_empty());
}

#[test]
fn queue_that_is_too_small_fails_the_device() {
    let mut heap = fresh_heap();
    let (mut dev, _) = init(MMIO);
    dev.negotiate(&mut heap, 0);
    dev.negotiate(&mut heap, 8);
    let ops = dev.negotiate(&mut heap, 127);
    assert!(ops.is_empty());
    assert_eq!(dev.device_state(), DeviceState::Failed);
    assert_eq!(heap.page_flags(512).flags, 0);
}

#[test]
fn device_without_queue_pages_has_failed() {
    let mut heap = Heap::new(BASE, 513 * PAGE_SIZE).expect("layout fits");
    heap_init(&mut heap);
    let (mut dev, _) = init(MMIO);
    dev.negotiate(&mut heap, 0);
    dev.negotiate(&mut heap, 8);
    let ops = dev.negotiate(&mut heap, 128);
    assert_eq!(
        ops,
        vec![
            MmioOp::Write { reg: MMIO_QUEUE_NUMBER, value: 128 },
            MmioOp::Write { reg: MMIO_QUEUE_SELECT, value: 0 },
        ]
    );
    assert_eq!(dev.device_state(), DeviceState::Failed);
}

#[test]
fn request_is_a_chain_of_three_descriptors() {
    let mut heap = fresh_heap();
    let mut dev = negotiated(&mut heap, 0);
    let buffer = alloc_bytes(&mut heap, 512);
    let (slot, request) = queued(read(&mut dev, &mut heap, buffer, 512, 1024 + 17));
    assert_eq!(slot, 0);
    assert_eq!(request, buffer + 512 + HEADER_SIZE);
    let queue = *dev.shared_queue();
    assert_eq!(queue.avail.idx, 1);
    assert_eq!(queue.avail.ring[0], 1);
    let header = queue.desc[1];
    assert_eq!((header.addr, header.len, header.flags, header.next), (request as u64, 16, 1, 2));
    let data = queue.desc[2];
    assert_eq!((data.addr, data.len, data.flags, data.next), (buffer as u64, 512, 3, 3));
    let status = queue.desc[3];
    assert_eq!((status.addr, status.len, status.flags, status.next), (request as u64 + 24, 1, 2, 0));
    assert!(!dev.is_ready(0));
    assert!(dev.is_ready(1));
    let record: Vec<u8> = (0..REQUEST_SIZE).map(|i| heap.load(request + i).unwrap()).collect();
    let expect = Request {
        header: Header { blktype: 0, reserved: 0, sector: 2 },
        data: Data { data: buffer as u64 },
        status: Status { status: 111 },
        head: 0,
        watcher: 0,
    };
    assert_eq!(record, expect.to_bytes());
    assert_eq!(&record[0..4], &[0, 0, 0, 0]);
    assert_eq!(&record[8..16], &[2, 0, 0, 0, 0, 0, 0, 0]);
    assert_eq!(&record[16..24], &(buffer as u64).to_le_bytes());
    assert_eq!(record[24], 111);
}

#[test]
fn write_request_is_read_by_the_device() {
    let mut heap = fresh_heap();
    let mut dev = negotiated(&mut heap, 0);
    let buffer = alloc_bytes(&mut heap, 512);
    let (_, request) = queued(corrosion::block::write(&mut dev, &mut heap, buffer, 512, 512));
    let queue = *dev.shared_queue();
    assert_eq!(queue.desc[2].flags, 1);
    assert_eq!(heap.load(request), Some(1));
    assert_eq!(heap.load(request + 8), Some(1));
}

#[test]
fn read_only_device_rejects_writes_and_takes_reads() {
    let mut heap = fresh_heap();
    let mut dev = negotiated(&mut heap, 32);
    assert!(dev.is_read_only());
    let buffer = alloc_bytes(&mut heap, 512);
    assert_eq!(corrosion::block::write(&mut dev, &mut heap, buffer, 512, 0), Submission::Rejected);
    assert_eq!(dev.shared_queue().avail.idx, 0);
    queued(read(&mut dev, &mut heap, buffer, 512, 0));
    assert_eq!(dev.shared_queue().avail.idx, 1);
}

#[test]
fn interrupt_marks_the_place_ready_and_frees_the_record() {
    let mut heap = fresh_heap();
    let mut dev = negotiated(&mut heap, 0);
    let mut disk = vec![0u8; 4096];
    disk[1024] = 0xb0;
    disk[1025] = 0x2a;
    let mut device = Device::new(disk);
    let buffer = alloc_bytes(&mut heap, 512);
    let (slot, request) = queued(read(&mut dev, &mut heap, buffer, 512, 512 * 2));
    assert_eq!(dev.wait_step(slot, 0), Wait::Spin);
    assert_eq!(dev.wait_step(slot, WAIT_FOR_READY - 1), Wait::Spin);
    assert_eq!(dev.wait_step(slot, WAIT_FOR_READY), Wait::TimedOut);
    device.service(&mut dev, &mut heap);
    assert_eq!(dev.wait_step(slot, 5), Wait::Spin);
    assert_eq!(heap.load(request + 24), Some(0));
    interrupt_handler(&mut dev, &mut heap);
    assert_eq!(dev.wait_step(slot, 5), Wait::Ready);
    assert_eq!(dev.wait_step(slot, WAIT_FOR_READY), Wait::Ready);
    assert_eq!(heap.load(buffer), Some(0xb0));
    assert_eq!(heap.load(buffer + 1), Some(0x2a));
    assert_eq!(alloc_bytes(&mut heap, 32), request);
    interrupt_handler(&mut dev, &mut heap);
    assert_eq!(alloc_bytes(&mut heap, 32), request + 32 + HEADER_SIZE);
}

#[test]
fn written_block_reads_back_identical() {
    let mut heap = fresh_heap();
    let mut dev = negotiated(&mut heap, 0);
    let mut device = Device::new(vec![0u8; 16 * 512]);
    let out = alloc_bytes(&mut heap, 1024);
    for i in 0..1024usize {
        assert!(heap.store(out + i, (i * 7 % 253) as u8));
    }
    let (slot, _) = queued(corrosion::block::write(&mut dev, &mut heap, out, 1024, 3 * 512));
    device.service(&mut dev, &mut heap);
    interrupt_handler(&mut dev, &mut heap);
    assert!(dev.is_ready(slot));
    let back = alloc_bytes_zeroed(&mut heap, 1024);
    let (slot, _) = queued(read(&mut dev, &mut heap, back, 1024, 3 * 512));
    device.service(&mut dev, &mut heap);
    interrupt_handler(&mut dev, &mut heap);
    assert!(dev.is_ready(slot));
    for i in 0..1024usize {
        assert_eq!(heap.load(back + i), heap.load(out + i));
        assert_eq!(heap.load(back + i), Some((i * 7 % 253) as u8));
    }
    assert_eq!(device.disk[3 * 512 + 5], 35);
    assert_eq!(device.disk[3 * 512 - 1], 0);
}

#[test]
fn descriptor_index_wraps_at_the_ring_size() {
    let mut heap = fresh_heap();
    let mut dev = negotiated(&mut heap, 0);
    let mut device = Device::new(vec![0u8; 4096]);
    let buffer = alloc_bytes(&mut heap, 512);
    for round in 0..200usize {
        let (slot, _) = queued(read(&mut dev, &mut heap, buffer, 512, 0));
        assert_eq!(slot, round % 128);
        let queue = *dev.shared_queue();
        let head = queue.avail.ring[slot] as usize;
        assert_eq!(head, (3 * round + 1) % 128);
        assert_eq!(queue.desc[head].next as usize, (head + 1) % 128);
        assert_eq!(queue.desc[(head + 1) % 128].next as usize, (head + 2) % 128);
        assert_eq!(queue.desc[(head + 2) % 128].flags, 2);
        device.service(&mut dev, &mut heap);
        interrupt_handler(&mut dev, &mut heap);
        assert!(dev.is_ready(slot));
    }
    assert_eq!(dev.shared_queue().avail.idx, 200);
    assert_eq!(dev.shared_queue().used.idx, 200);
}

#[test]
fn several_completions_are_drained_by_one_interrupt() {
    let mut heap = fresh_heap();
    let mut dev = negotiated(&mut heap, 0);
    let mut device = Device::new(vec![9u8; 4096]);
    let buffer = alloc_bytes(&mut heap, 2048);
    let (first, a) = queued(read(&mut dev, &mut heap, buffer, 512, 0));
    let (second, b) = queued(read(&mut dev, &mut heap, buffer + 512, 512, 512));
    let (third, c) = queued(read(&mut dev, &mut heap, buffer + 1024, 512, 1024));
    assert_eq!((first, second, third), (0, 1, 2));
    device.service(&mut dev, &mut heap);
    interrupt_handler(&mut dev, &mut heap);
    assert!(dev.is_ready(0) && dev.is_ready(1) && dev.is_ready(2));
    assert_eq!(heap.load(buffer + 1535), Some(9));
    assert_eq!(alloc_bytes(&mut heap, 3 * 40 - 8), a);
    assert!(a < b && b < c);
}

#[test]
fn request_without_room_for_its_record_is_exhausted() {
    let mut heap = fresh_heap();
    let mut dev = negotiated(&mut heap, 0);
    let all = 512 * PAGE_SIZE - HEADER_SIZE;
    let buffer = alloc_bytes(&mut heap, all);
    assert_ne!(buffer, 0);
    assert_eq!(read(&mut dev, &mut heap, buffer, 512, 0), Submission::Exhausted);
    assert_eq!(dev.shared_queue().avail.idx, 0);
    assert!(dev.is_ready(0));
}

#[test]
fn interrupt_of_a_device_that_is_not_ready_changes_nothing() {
    let mut heap = fresh_heap();
    let (mut dev, _) = init(MMIO);
    let a = alloc_bytes(&mut heap, 32);
    dev.queue_mut().used.idx = 1;
    dev.queue_mut().desc[0].addr = a as u64;
    interrupt_handler(&mut dev, &mut heap);
    assert_eq!(alloc_bytes(&mut heap, 32), a + 32 + HEADER_SIZE);
}

#[test]
fn device_that_was_not_negotiated_takes_no_request() {
    let mut heap = fresh_heap();
    let mut dev = BlockDevice::new(MMIO);
    assert_eq!(dev.device_state(), DeviceState::Uninitialized);
    assert_eq!(dev.base(), MMIO);
    assert!(dev.negotiate(&mut heap, 5).is_empty());
    assert_eq!(dev.device_state(), DeviceState::Uninitialized);
    assert_eq!(read(&mut dev, &mut heap, 0x9000_0000, 512, 0), Submission::NoDevice);
    assert_eq!(
        corrosion::block::write(&mut dev, &mut heap, 0x9000_0000, 512, 0),
        Submission::NoDevice
    );
    assert!(dev.is_ready(0) && dev.is_ready(127) && dev.is_ready(128));
}

#[test]
fn queue_above_four_gigabytes_gets_its_whole_page_number() {
    let mut heap = Heap::new(1usize << 32, 600 * PAGE_SIZE).expect("layout fits");
    heap_init(&mut heap);
    let (mut dev, _) = init(MMIO);
    dev.negotiate(&mut heap, 0);
    dev.negotiate(&mut heap, 11);
    let ops = dev.negotiate(&mut heap, 128);
    let queue = dev.queue_address();
    assert_eq!(queue, (1usize << 32) + 4096 + 512 * PAGE_SIZE);
    assert_eq!(ops[3], MmioOp::Write { reg: MMIO_QUEUE_PFN, value: (1 << 20) + 513 });
    assert_eq!(dev.device_state(), DeviceState::Ready);
}

#[test]
fn queue_whose_page_number_does_not_fit_fails_the_device() {
    let mut heap = Heap::new(1usize << 44, 600 * PAGE_SIZE).expect("layout fits");
    heap_init(&mut heap);
    let (mut dev, _) = init(MMIO);
    dev.negotiate(&mut heap, 0);
    dev.negotiate(&mut heap, 11);
    let ops = dev.negotiate(&mut heap, 128);
    assert_eq!(
        ops,
        vec![
            MmioOp::Write { reg: MMIO_QUEUE_NUMBER, value: 128 },
            MmioOp::Write { reg: MMIO_QUEUE_SELECT, value: 0 },
        ]
    );
    assert_eq!(dev.device_state(), DeviceState::Failed);
    assert_eq!(dev.queue_address(), (1usize << 44) + 4096 + 512 * PAGE_SIZE);
    assert_eq!(read(&mut dev, &mut heap, 0x9000_0000, 512, 0), Submission::NoDevice);
}
