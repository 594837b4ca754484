use corrosion::allocator::{alloc_bytes, free_bytes, init as heap_init, Heap};
use corrosion::block::{
    init as block_init, interrupt_handler, read, BlockDevice, DeviceState, Submission, UsedElem,
    Wait,
};
use corrosion::config::PAGE_SIZE;
use corrosion::disk::{Disk, DiskReader};
use corrosion::minixfs3::{init as filesystem_init, MinixFileSystem};
use corrosion::virtio::{classify, Probe};

const BS: usize = 1024;

fn put_u16(bytes: &mut [u8], at: usize, v: u16) {
    bytes[at..at + 2].copy_from_slice(&v.to_le_bytes());
}

fn put_u32(bytes: &mut [u8], at: usize, v: u32) {
    bytes[at..at + 4].copy_from_slice(&v.to_le_bytes());
}

/// A formatted disk whose root directory holds the file `hello.txt`.
fn formatted() -> Vec<u8> {
    let mut bytes = vec![0u8; 16 * BS];
    put_u32(&mut bytes, BS, 32);
    put_u16(&mut bytes, BS + 6, 1);
    put_u16(&mut bytes, BS + 8, 1);
    put_u16(&mut bytes, BS + 10, 6);
    put_u32(&mut bytes, BS + 20, 16);
    put_u16(&mut bytes, BS + 24, 0x4d5a);
    put_u16(&mut bytes, BS + 28, 1024);
    let table = 4 * BS;
    put_u16(&mut bytes, table, 0x41ed);
    put_u32(&mut bytes, table + 8, 3 * 64);
    put_u32(&mut bytes, table + 24, 6);
    put_u16(&mut bytes, table + 64, 0x81a4);
    put_u32(&mut bytes, table + 64 + 8, 3);
    put_u32(&mut bytes, table + 64 + 24, 7);
    let root = 6 * BS;
    put_u32(&mut bytes, root, 1);
    bytes[root + 4] = b'.';
    put_u32(&mut bytes, root + 64, 1);
    bytes[root + 68..root + 70].copy_from_slice(b"..");
    put_u32(&mut bytes, root + 128, 2);
    bytes[root + 132..root + 141].copy_from_slice(b"hello.txt");
    bytes[7 * BS..7 * BS + 3].copy_from_slice(b"hi\n");
    bytes
}

fn serve(disk: &[u8], seen: &mut u16, dev: &mut BlockDevice, heap: &mut Heap) {
    let queue = *dev.shared_queue();
    while *seen != queue.avail.idx {
        let head = queue.avail.ring[*seen as usize % 128];
        let header = queue.desc[head as usize];
        let data = queue.desc[header.next as usize];
        let status = queue.desc[data.next as usize];
        let mut sector = [0u8; 8];
        for (i, byte) in sector.iter_mut().enumerate() {
            *byte = heap.load(header.addr as usize + 8 + i).expect("header in memory");
        }
        let at = u64::from_le_bytes(sector) as usize * 512;
        for i in 0..data.len as usize {
            assert!(heap.store(data.addr as usize + i, disk[at + i]));
        }
        assert!(heap.store(status.addr as usize, 0));
        let used = &mut dev.queue_mut().used;
        used.ring[used.idx as usize % 128] = UsedElem { id: head as u32, len: data.len };
        used.idx = used.idx.wrapping_add(1);
        *seen = seen.wrapping_add(1);
    }
}

#[test]
fn hello_is_read_through_allocator_driver_and_filesystem() {
    let image = formatted();
    let mut heap = Heap::new(0x8000_0000, 1024 * PAGE_SIZE).expect("layout fits");
    heap_init(&mut heap);
    assert_eq!(classify(0x7472_6976, 2), Probe::Block);
    let (mut dev, _) = block_init(0x1000_8000);
    dev.negotiate(&mut heap, 0);
    dev.negotiate(&mut heap, 11);
    dev.negotiate(&mut heap, 256);
    assert_eq!(dev.device_state(), DeviceState::Ready);

    let mut seen = 0u16;
    let buffer = alloc_bytes(&mut heap, 512);
    let mut load = |sectors: u64, dev: &mut BlockDevice, heap: &mut Heap| -> Disk {
        let mut reader = DiskReader::new(sectors);
        while let Some(offset) = reader.next_offset() {
            let slot = match read(dev, heap, buffer, 512, offset) {
                Submission::Queued { slot, .. } => slot,
                other => panic!("not queued: {:?}", other),
            };
            let mut counter = 0usize;
            loop {
                match dev.wait_step(slot, counter) {
                    Wait::Ready => break,
                    Wait::TimedOut => panic!("no completion"),
                    Wait::Spin => {
                        serve(&image, &mut seen, dev, heap);
                        interrupt_handler(dev, heap);
                        counter += 1;
                    },
                }
            }
            reader.deliver(heap, buffer);
        }
        reader.finish()
    };
    let front = load(4, &mut dev, &mut heap);
    assert_eq!(front.len(), 2048);
    assert_eq!(MinixFileSystem::device_sectors(&front), 32);
    let disk = load(MinixFileSystem::device_sectors(&front), &mut dev, &mut heap);
    assert_eq!(disk.len(), image.len());
    free_bytes(&mut heap, buffer);

    let fs = filesystem_init(&disk);
    let mut buf = vec![0u8; 100];
    let n = fs.read_file(&disk, "/hello.txt", &mut buf, 100, 0);
    assert_eq!(n, 3);
    assert_eq!(&buf[0..3], b"hi\n");
    let all = 512 * PAGE_SIZE - 8;
    assert_ne!(alloc_bytes(&mut heap, all), 0);
}
