//! A driver for one block device on the legacy virtio MMIO transport.
//!
//! The driver decides; it does not touch the device. Negotiation hands out
//! the register accesses to perform and takes the values that were read. A
//! request is built in the queue and in the heap, and the doorbell write is
//! handed out. Completion is learnt from the used ring, which the device
//! side fills through [`BlockDevice::queue_mut`].

use crate::allocator::{
    alloc_bytes, alloc_pages_zeroed, apply_op, chunk_need, first_fit, free_bytes,
    lemma_chunk_in_pool, lemma_chunks_ordered, lemma_first_fit, lemma_no_payload, run_ops, Heap,
    PoolOp, HEADER_SIZE,
};
use crate::allocator_laws::lemma_release_keeps_live;
use crate::memory::lemma_align_val_is_least;
use crate::config::{PAGE_SIZE, WAIT_FOR_READY};
use vstd::bytes::{
    spec_u16_to_le_bytes, spec_u32_to_le_bytes, spec_u64_to_le_bytes, u16_to_le_bytes,
    u32_to_le_bytes, u64_to_le_bytes,
};
use vstd::prelude::*;

verus! {

pub const MMIO_HOST_FEATURES: usize = 0x010 / 4;

pub const MMIO_GUEST_FEATURES: usize = 0x020 / 4;

pub const MMIO_GUEST_PAGE_SIZE: usize = 0x028 / 4;

pub const MMIO_QUEUE_SELECT: usize = 0x030 / 4;

pub const MMIO_QUEUE_NUMBER_MAX: usize = 0x034 / 4;

pub const MMIO_QUEUE_NUMBER: usize = 0x038 / 4;

pub const MMIO_QUEUE_PFN: usize = 0x040 / 4;

pub const MMIO_QUEUE_NOTIFY: usize = 0x050 / 4;

pub const MMIO_STATUS: usize = 0x070 / 4;

pub const VIRTIO_DESC_FLAG_NEXT: u16 = 1;

pub const VIRTIO_DESC_FLAG_WRITE: u16 = 2;

pub const VIRTIO_BLK_TYPE_IN: u32 = 0;

pub const VIRTIO_BLK_TYPE_OUT: u32 = 1;

pub const STATUS_FIELD_ACKNOWLEDGE: u32 = 1;

pub const STATUS_FIELD_DRIVER: u32 = 2;

pub const STATUS_FIELD_DRIVER_OK: u32 = 4;

pub const STATUS_FIELD_FEATURES_OK: u32 = 8;

pub const STATUS_FIELD_FAILED: u32 = 128;

/// Feature bit by which the host offers the device as read-only.
pub const VIRTIO_FEATURE_RO: u32 = 32;

/// Number of descriptors, and of places in each ring.
pub const VIRTIO_RING_SIZE: usize = 128;

pub const READ: bool = false;

pub const WRITE: bool = true;

/// Size in bytes of a sector, the unit in which the device is addressed.
pub const SECTOR_BYTES: u64 = 512;

/// Size in bytes of a request record in memory.
pub const REQUEST_SIZE: usize = 32;

/// Size in bytes of the header at the start of a request record.
pub const HEADER_BYTES: u32 = 16;

/// Offset in bytes of the status byte in a request record.
pub const STATUS_OFFSET: usize = 24;

/// Status that a request record holds until the device has answered.
pub const STATUS_PENDING: u8 = 111;

/// Pages that the queue takes: the descriptor table and the available ring
/// in the first, the used ring in the second.
pub const QUEUE_PAGES: usize = 2;

/// What the device is asked to do, and with which sector.
#[derive(Clone, Copy, Debug)]
pub struct Header {
    pub blktype: u32,
    pub reserved: u32,
    pub sector: u64,
}

/// Address of the caller's buffer.
#[derive(Clone, Copy, Debug)]
pub struct Data {
    pub data: u64,
}

/// The byte in which the device answers.
#[derive(Clone, Copy, Debug)]
pub struct Status {
    pub status: u8,
}

/// The record of one request.
#[derive(Clone, Copy, Debug)]
pub struct Request {
    pub header: Header,
    pub data: Data,
    pub status: Status,
    pub head: u16,
    pub watcher: u16,
}

#[derive(Clone, Copy, Debug)]
pub struct Descriptor {
    pub addr: u64,
    pub len: u32,
    pub flags: u16,
    pub next: u16,
}

#[derive(Clone, Copy, Debug)]
pub struct Available {
    pub flags: u16,
    pub idx: u16,
    pub ring: [u16; 128],
    pub event: u16,
}

#[derive(Clone, Copy, Debug)]
pub struct UsedElem {
    pub id: u32,
    pub len: u32,
}

#[derive(Clone, Copy, Debug)]
pub struct Used {
    pub flags: u16,
    pub idx: u16,
    pub ring: [UsedElem; 128],
    pub event: u16,
}

/// The queue that driver and device share.
#[derive(Clone, Copy, Debug)]
pub struct Queue {
    pub desc: [Descriptor; 128],
    pub avail: Available,
    pub used: Used,
}

/// One access to a register of the device; `reg` counts 32-bit registers
/// from the device's base address.
#[derive(Clone, Copy, Debug, PartialEq, Eq, Structural)]
pub enum MmioOp {
    /// Write `value` to the register.
    Write { reg: usize, value: u32 },
    /// Read the register, and hand the value to [`BlockDevice::negotiate`].
    Read { reg: usize },
}

/// Where the device stands.
#[derive(Clone, Copy, Debug, PartialEq, Eq, Structural)]
pub enum DeviceState {
    Uninitialized,
    Negotiating,
    Ready,
    Failed,
}

/// The register whose value negotiation waits for.
#[derive(Clone, Copy, Debug, PartialEq, Eq, Structural)]
pub enum Pending {
    Nothing,
    HostFeatures,
    Status,
    QueueNumberMax,
}

/// How a request to the device ended.
#[derive(Clone, Copy, Debug, PartialEq, Eq, Structural)]
pub enum Submission {
    /// The device is not ready to take requests.
    NoDevice,
    /// A write to a device that was negotiated as read-only.
    Rejected,
    /// The heap has no room for the request record.
    Exhausted,
    /// The request is in the queue: `slot` is its place in the available
    /// ring, `request` the address of its record, and `notify` the doorbell
    /// write that is to be performed.
    Queued { slot: usize, request: usize, notify: MmioOp },
}

/// What to do while a request is waited for.
#[derive(Clone, Copy, Debug, PartialEq, Eq, Structural)]
pub enum Wait {
    /// The request is complete.
    Ready,
    /// Pause and ask again.
    Spin,
    /// The budget of polls is used up; the request is not complete.
    TimedOut,
}

/// The bytes of a request record.
pub open spec fn request_bytes(r: Request) -> Seq<u8> {
    spec_u32_to_le_bytes(r.header.blktype) + spec_u32_to_le_bytes(r.header.reserved)
        + spec_u64_to_le_bytes(r.header.sector) + spec_u64_to_le_bytes(r.data.data) + seq![
        r.status.status,
        0u8,
    ] + spec_u16_to_le_bytes(r.head) + spec_u16_to_le_bytes(r.watcher) + seq![0u8, 0u8]
}

pub proof fn lemma_request_bytes_len(r: Request)
    ensures
        request_bytes(r).len() == REQUEST_SIZE,
{
    vstd::bytes::lemma_auto_spec_u16_to_from_le_bytes();
    vstd::bytes::lemma_auto_spec_u32_to_from_le_bytes();
    vstd::bytes::lemma_auto_spec_u64_to_from_le_bytes();
}

fn append_bytes(dst: &mut Vec<u8>, src: &Vec<u8>)
    ensures
        final(dst)@ == old(dst)@ + src@,
{
    let n: usize = src.len();
    let mut i: usize = 0;
    while i < n
        invariant
            i <= n,
            n == src.len(),
            dst@ == old(dst)@ + src@.subrange(0, i as int),
        decreases n - i,
    {
        dst.push(src[i]);
        assert(dst@ =~= old(dst)@ + src@.subrange(0, i + 1));
        i = i + 1;
    }
    assert(src@.subrange(0, n as int) =~= src@);
}

impl Request {
    /// The record as it lies in memory.
    pub fn to_bytes(&self) -> (r: Vec<u8>)
        ensures
            r@ == request_bytes(*self),
            r@.len() == REQUEST_SIZE,
    {
        let mut out: Vec<u8> = Vec::new();
        append_bytes(&mut out, &u32_to_le_bytes(self.header.blktype));
        append_bytes(&mut out, &u32_to_le_bytes(self.header.reserved));
        append_bytes(&mut out, &u64_to_le_bytes(self.header.sector));
        append_bytes(&mut out, &u64_to_le_bytes(self.data.data));
        out.push(self.status.status);
        out.push(0);
        append_bytes(&mut out, &u16_to_le_bytes(self.head));
        append_bytes(&mut out, &u16_to_le_bytes(self.watcher));
        out.push(0);
        out.push(0);
        proof {
            lemma_request_bytes_len(*self);
            assert(out@ =~= request_bytes(*self));
        }
        out
    }
}

impl Queue {
    /// A queue of zeros.
    pub fn new() -> (r: Self)
        ensures
            r.avail.idx == 0,
            r.avail.flags == 0,
            r.avail.event == 0,
            r.used.idx == 0,
            r.used.flags == 0,
            r.used.event == 0,
            forall|i: int| 0 <= i < 128 ==> (#[trigger] r.desc@[i]) == (Descriptor {
                addr: 0,
                len: 0,
                flags: 0,
                next: 0,
            }),
            forall|i: int| 0 <= i < 128 ==> #[trigger] r.avail.ring@[i] == 0,
            forall|i: int| 0 <= i < 128 ==> (#[trigger] r.used.ring@[i]) == (UsedElem {
                id: 0,
                len: 0,
            }),
    {
        Queue {
            desc: [Descriptor { addr: 0, len: 0, flags: 0, next: 0 };128],
            avail: Available { flags: 0, idx: 0, ring: [0u16;128], event: 0 },
            used: Used { flags: 0, idx: 0, ring: [UsedElem { id: 0, len: 0 };128], event: 0 },
        }
    }
}

/// The driver's state for one device.
pub struct BlockDevice {
    queue: Queue,
    queue_addr: usize,
    dev: usize,
    idx: u16,
    ack_used_idx: u16,
    read_only: bool,
    ready: [bool; 128],
    state: DeviceState,
    pending: Pending,
    status_bits: u32,
}

/// The accesses that begin negotiation: the status is reset, then
/// acknowledged, then the driver is announced, and the features of the host
/// are read.
pub open spec fn opening_ops() -> Seq<MmioOp> {
    seq![
        MmioOp::Write { reg: MMIO_STATUS, value: 0 },
        MmioOp::Write { reg: MMIO_STATUS, value: STATUS_FIELD_ACKNOWLEDGE },
        MmioOp::Write { reg: MMIO_STATUS, value: STATUS_FIELD_ACKNOWLEDGE | STATUS_FIELD_DRIVER },
        MmioOp::Read { reg: MMIO_HOST_FEATURES },
    ]
}

/// The accesses that answer the features of the host: the features of the
/// guest are those of the host without the read-only bit, the features are
/// declared complete, and the status is read back.
pub open spec fn features_ops(host_features: u32) -> Seq<MmioOp> {
    seq![
        MmioOp::Write { reg: MMIO_GUEST_FEATURES, value: host_features & !VIRTIO_FEATURE_RO },
        MmioOp::Write {
            reg: MMIO_STATUS,
            value: STATUS_FIELD_ACKNOWLEDGE | STATUS_FIELD_DRIVER | STATUS_FIELD_FEATURES_OK,
        },
        MmioOp::Read { reg: MMIO_STATUS },
    ]
}

/// The number that stands for the address `addr` in the device's register:
/// the address in pages.
pub open spec fn page_frame_number(addr: int) -> u32 {
    (addr / (PAGE_SIZE as int)) as u32
}

/// The address can be told to the device: it is not null, and its page-frame
/// number fits the register.
pub open spec fn queue_fits(addr: int) -> bool {
    addr != 0 && addr / (PAGE_SIZE as int) <= u32::MAX
}

/// The accesses that install the queue at the address `queue_addr` and
/// declare the driver ready.
pub open spec fn queue_ops(queue_addr: int) -> Seq<MmioOp> {
    seq![
        MmioOp::Write { reg: MMIO_QUEUE_NUMBER, value: VIRTIO_RING_SIZE as u32 },
        MmioOp::Write { reg: MMIO_QUEUE_SELECT, value: 0 },
        MmioOp::Write { reg: MMIO_GUEST_PAGE_SIZE, value: PAGE_SIZE as u32 },
        MmioOp::Write { reg: MMIO_QUEUE_PFN, value: page_frame_number(queue_addr) },
        MmioOp::Write {
            reg: MMIO_STATUS,
            value: STATUS_FIELD_ACKNOWLEDGE | STATUS_FIELD_DRIVER | STATUS_FIELD_FEATURES_OK
                | STATUS_FIELD_DRIVER_OK,
        },
    ]
}

/// The accesses that select the queue, before its pages are asked for.
pub open spec fn queue_select_ops() -> Seq<MmioOp> {
    seq![
        MmioOp::Write { reg: MMIO_QUEUE_NUMBER, value: VIRTIO_RING_SIZE as u32 },
        MmioOp::Write { reg: MMIO_QUEUE_SELECT, value: 0 },
    ]
}

impl BlockDevice {
    pub closed spec fn queue(&self) -> Queue {
        self.queue
    }

    /// Address of the queue's pages; null where none were taken.
    pub closed spec fn queue_addr(&self) -> usize {
        self.queue_addr
    }

    /// Address of the device's registers.
    pub closed spec fn dev(&self) -> usize {
        self.dev
    }

    /// Index of the descriptor that was filled last.
    pub closed spec fn idx(&self) -> u16 {
        self.idx
    }

    /// Value of the used ring's index up to which completions were seen.
    pub closed spec fn ack_used_idx(&self) -> u16 {
        self.ack_used_idx
    }

    pub closed spec fn read_only(&self) -> bool {
        self.read_only
    }

    /// For each place of the available ring, whether the request that was
    /// published there last is complete.
    pub closed spec fn ready(&self) -> Seq<bool> {
        self.ready@
    }

    pub closed spec fn state(&self) -> DeviceState {
        self.state
    }

    pub closed spec fn pending(&self) -> Pending {
        self.pending
    }

    /// The driver's invariant.
    pub closed spec fn wf(&self) -> bool {
        &&& self.idx < VIRTIO_RING_SIZE
        &&& self.state == DeviceState::Ready ==> queue_fits(self.queue_addr as int)
        &&& self.state == DeviceState::Uninitialized || self.state == DeviceState::Negotiating
            ==> self.queue_addr == 0
        &&& self.state == DeviceState::Negotiating <==> self.pending != Pending::Nothing
        &&& self.pending == Pending::HostFeatures ==> self.status_bits == STATUS_FIELD_ACKNOWLEDGE
            | STATUS_FIELD_DRIVER
        &&& self.pending == Pending::Status || self.pending == Pending::QueueNumberMax
            ==> self.status_bits == STATUS_FIELD_ACKNOWLEDGE | STATUS_FIELD_DRIVER
            | STATUS_FIELD_FEATURES_OK
    }

    /// No request was made yet: no descriptor is filled, the rings are at
    /// their start, and every place is ready.
    pub open spec fn fresh(&self) -> bool {
        &&& self.idx() == 0
        &&& self.ack_used_idx() == 0
        &&& self.queue().avail.idx == 0
        &&& self.queue().used.idx == 0
        &&& self.ready().len() == VIRTIO_RING_SIZE
        &&& forall|i: int| 0 <= i < VIRTIO_RING_SIZE ==> #[trigger] self.ready()[i]
    }

    /// The queue and the bookkeeping of requests are the same.
    pub open spec fn same_requests(&self, other: &BlockDevice) -> bool {
        &&& self.queue() == other.queue()
        &&& self.idx() == other.idx()
        &&& self.ack_used_idx() == other.ack_used_idx()
        &&& self.ready() == other.ready()
    }

    /// Everything but the queue and the bookkeeping of requests is the same.
    pub open spec fn same_device(&self, other: &BlockDevice) -> bool {
        &&& self.dev() == other.dev()
        &&& self.queue_addr() == other.queue_addr()
        &&& self.read_only() == other.read_only()
        &&& self.state() == other.state()
        &&& self.pending() == other.pending()
    }

    fn init_status(ops: &mut Vec<MmioOp>) -> (status_bits: u32)
        ensures
            status_bits == STATUS_FIELD_ACKNOWLEDGE | STATUS_FIELD_DRIVER,
            final(ops)@ == old(ops)@ + opening_ops().subrange(0, 3),
    {
        ops.push(MmioOp::Write { reg: MMIO_STATUS, value: 0 });
        let mut status_bits: u32 = STATUS_FIELD_ACKNOWLEDGE;
        ops.push(MmioOp::Write { reg: MMIO_STATUS, value: status_bits });
        status_bits = status_bits | STATUS_FIELD_DRIVER;
        ops.push(MmioOp::Write { reg: MMIO_STATUS, value: status_bits });
        assert(ops@ =~= old(ops)@ + opening_ops().subrange(0, 3));
        status_bits
    }

    fn init_guest_features(host_features: u32, ops: &mut Vec<MmioOp>) -> (ro: bool)
        ensures
            ro == (host_features & VIRTIO_FEATURE_RO != 0),
            final(ops)@ == old(ops)@.push(
                MmioOp::Write {
                    reg: MMIO_GUEST_FEATURES,
                    value: host_features & !VIRTIO_FEATURE_RO,
                },
            ),
    {
        let guest_features: u32 = host_features & !VIRTIO_FEATURE_RO;
        ops.push(MmioOp::Write { reg: MMIO_GUEST_FEATURES, value: guest_features });
        host_features & VIRTIO_FEATURE_RO != 0
    }

    /// Declares the features complete and asks for the status, in which the
    /// device says whether it accepts them.
    fn init_status_check(status_bits: u32, ops: &mut Vec<MmioOp>) -> (sb_out: u32)
        ensures
            sb_out == status_bits | STATUS_FIELD_FEATURES_OK,
            final(ops)@ == old(ops)@.push(MmioOp::Write { reg: MMIO_STATUS, value: sb_out }).push(
                MmioOp::Read { reg: MMIO_STATUS },
            ),
    {
        let sb_out: u32 = status_bits | STATUS_FIELD_FEATURES_OK;
        ops.push(MmioOp::Write { reg: MMIO_STATUS, value: sb_out });
        ops.push(MmioOp::Read { reg: MMIO_STATUS });
        sb_out
    }

    /// Whether the ring fits the device's largest queue; selects the queue
    /// where it does.
    fn init_queue_check(qnmax: u32, ops: &mut Vec<MmioOp>) -> (fits: bool)
        ensures
            fits == (VIRTIO_RING_SIZE <= qnmax),
            fits ==> final(ops)@ == old(ops)@ + queue_select_ops(),
            !fits ==> final(ops)@ == old(ops)@,
    {
        if VIRTIO_RING_SIZE as u32 > qnmax {
            return false;
        }
        ops.push(MmioOp::Write { reg: MMIO_QUEUE_NUMBER, value: VIRTIO_RING_SIZE as u32 });
        ops.push(MmioOp::Write { reg: MMIO_QUEUE_SELECT, value: 0 });
        assert(ops@ =~= old(ops)@ + queue_select_ops());
        true
    }

    /// Allocates the queue's pages, zeroed, and tells the device where they
    /// are, if their page-frame number fits the register. Returns the
    /// address of the pages, or the null address where the heap has none.
    fn init_pfn(heap: &mut Heap, ops: &mut Vec<MmioOp>) -> (queue_ptr: usize)
        requires
            old(heap).wf(),
        ensures
            final(heap).wf(),
            final(heap).pages_allocated(old(heap), QUEUE_PAGES as int, queue_ptr as int, true),
            queue_fits(queue_ptr as int) ==> final(ops)@ == old(ops)@.push(
                MmioOp::Write { reg: MMIO_GUEST_PAGE_SIZE, value: PAGE_SIZE as u32 },
            ).push(
                MmioOp::Write { reg: MMIO_QUEUE_PFN, value: page_frame_number(queue_ptr as int) },
            ),
            !queue_fits(queue_ptr as int) ==> final(ops)@ == old(ops)@,
    {
        let queue_ptr: usize = alloc_pages_zeroed(heap, QUEUE_PAGES);
        if queue_ptr == 0 {
            return 0;
        }
        let queue_pfn: usize = queue_ptr / PAGE_SIZE;
        if queue_pfn > u32::MAX as usize {
            return queue_ptr;
        }
        ops.push(MmioOp::Write { reg: MMIO_GUEST_PAGE_SIZE, value: PAGE_SIZE as u32 });
        ops.push(MmioOp::Write { reg: MMIO_QUEUE_PFN, value: queue_pfn as u32 });
        queue_ptr
    }

    /// Installs the queue and the bookkeeping of a device that is about to
    /// be ready.
    fn init_bd(&mut self, queue_ptr: usize, ro: bool)
        ensures
            final(self).queue_addr == queue_ptr,
            final(self).read_only == ro,
            final(self).idx == 0,
            final(self).ack_used_idx == 0,
            final(self).dev == old(self).dev,
            final(self).state == old(self).state,
            final(self).pending == old(self).pending,
            final(self).status_bits == old(self).status_bits,
            final(self).queue.avail.idx == 0,
            final(self).queue.used.idx == 0,
            forall|i: int| 0 <= i < 128 ==> #[trigger] final(self).ready@[i],
    {
        self.queue = Queue::new();
        self.queue_addr = queue_ptr;
        self.idx = 0;
        self.ack_used_idx = 0;
        self.read_only = ro;
        self.ready = [true;128];
    }

    fn init_notify(status_bits: u32, ops: &mut Vec<MmioOp>) -> (r: bool)
        ensures
            r,
            final(ops)@ == old(ops)@.push(
                MmioOp::Write { reg: MMIO_STATUS, value: status_bits | STATUS_FIELD_DRIVER_OK },
            ),
    {
        ops.push(MmioOp::Write { reg: MMIO_STATUS, value: status_bits | STATUS_FIELD_DRIVER_OK });
        true
    }

    /// The driver's state for a device at the address `ptr` with which
    /// nothing was negotiated yet.
    pub fn new(ptr: usize) -> (r: BlockDevice)
        ensures
            r.wf(),
            r.dev() == ptr,
            r.state() == DeviceState::Uninitialized,
            r.pending() == Pending::Nothing,
            r.queue_addr() == 0,
            !r.read_only(),
            r.fresh(),
    {
        BlockDevice {
            queue: Queue::new(),
            queue_addr: 0,
            dev: ptr,
            idx: 0,
            ack_used_idx: 0,
            read_only: false,
            ready: [true;128],
            state: DeviceState::Uninitialized,
            pending: Pending::Nothing,
            status_bits: 0,
        }
    }

    /// A device at the address `ptr` with which negotiation begins, and the
    /// accesses that begin it.
    fn init(ptr: usize) -> (r: (BlockDevice, Vec<MmioOp>))
        ensures
            r.0.wf(),
            r.0.dev() == ptr,
            r.0.state() == DeviceState::Negotiating,
            r.0.pending() == Pending::HostFeatures,
            r.0.queue_addr() == 0,
            !r.0.read_only(),
            r.0.fresh(),
            r.1@ == opening_ops(),
    {
        let mut ops: Vec<MmioOp> = Vec::new();
        let status_bits: u32 = BlockDevice::init_status(&mut ops);
        ops.push(MmioOp::Read { reg: MMIO_HOST_FEATURES });
        assert(ops@ =~= opening_ops());
        let mut bd = BlockDevice::new(ptr);
        bd.state = DeviceState::Negotiating;
        bd.pending = Pending::HostFeatures;
        bd.status_bits = status_bits;
        (bd, ops)
    }

    /// Takes the value that was read from the register that negotiation
    /// waits for, and returns the accesses to perform next. A list that
    /// ends with a read asks for another call; else negotiation is over and
    /// the device is ready or has failed.
    ///
    /// - Given the features of the host, the driver answers with
    ///   [`features_ops`] and notes whether the device is read-only.
    /// - Given the status, the driver asks for the largest queue where the
    ///   device has accepted the features; else it writes the failed status
    ///   and the device has failed.
    /// - Given the largest queue, the device has failed where the ring does
    ///   not fit. Else the queue is selected and its pages are taken from
    ///   the heap. Where there are such pages and their page-frame number
    ///   fits the register, the driver performs [`queue_ops`] and the device
    ///   is ready; else the device has failed.
    ///
    /// Nothing happens where negotiation waits for no value.
    pub fn negotiate(&mut self, heap: &mut Heap, value: u32) -> (ops: Vec<MmioOp>)
        requires
            old(self).wf(),
            old(heap).wf(),
        ensures
            final(self).wf(),
            final(heap).wf(),
            final(self).dev() == old(self).dev(),
            match old(self).pending() {
                Pending::Nothing => {
                    &&& *final(self) == *old(self)
                    &&& *final(heap) == *old(heap)
                    &&& ops@.len() == 0
                },
                Pending::HostFeatures => {
                    &&& *final(heap) == *old(heap)
                    &&& final(self).same_requests(old(self))
                    &&& ops@ == features_ops(value)
                    &&& final(self).read_only() == (value & VIRTIO_FEATURE_RO != 0)
                    &&& final(self).state() == DeviceState::Negotiating
                    &&& final(self).pending() == Pending::Status
                    &&& final(self).queue_addr() == 0
                },
                Pending::Status => {
                    &&& *final(heap) == *old(heap)
                    &&& final(self).same_requests(old(self))
                    &&& final(self).read_only() == old(self).read_only()
                    &&& final(self).queue_addr() == 0
                    &&& if value & STATUS_FIELD_FEATURES_OK == 0 {
                        &&& ops@ == seq![
                            MmioOp::Write { reg: MMIO_STATUS, value: STATUS_FIELD_FAILED },
                        ]
                        &&& final(self).state() == DeviceState::Failed
                    } else {
                        &&& ops@ == seq![MmioOp::Read { reg: MMIO_QUEUE_NUMBER_MAX }]
                        &&& final(self).state() == DeviceState::Negotiating
                        &&& final(self).pending() == Pending::QueueNumberMax
                    }
                },
                Pending::QueueNumberMax => {
                    &&& final(self).read_only() == old(self).read_only()
                    &&& if VIRTIO_RING_SIZE > value {
                        &&& *final(heap) == *old(heap)
                        &&& final(self).same_requests(old(self))
                        &&& final(self).queue_addr() == 0
                        &&& ops@.len() == 0
                        &&& final(self).state() == DeviceState::Failed
                    } else {
                        &&& final(heap).pages_allocated(
                            old(heap),
                            QUEUE_PAGES as int,
                            final(self).queue_addr() as int,
                            true,
                        )
                        &&& if queue_fits(final(self).queue_addr() as int) {
                            &&& final(self).state() == DeviceState::Ready
                            &&& ops@ == queue_ops(final(self).queue_addr() as int)
                            &&& final(self).fresh()
                        } else {
                            &&& final(self).state() == DeviceState::Failed
                            &&& final(self).same_requests(old(self))
                            &&& ops@ == queue_select_ops()
                        }
                    }
                },
            },
    {
        let mut ops: Vec<MmioOp> = Vec::new();
        match self.pending {
            Pending::Nothing => {},
            Pending::HostFeatures => {
                let ro: bool = BlockDevice::init_guest_features(value, &mut ops);
                self.read_only = ro;
                self.status_bits = BlockDevice::init_status_check(self.status_bits, &mut ops);
                self.pending = Pending::Status;
                assert(ops@ =~= features_ops(value));
            },
            Pending::Status => {
                if (value & STATUS_FIELD_FEATURES_OK) == 0 {
                    ops.push(MmioOp::Write { reg: MMIO_STATUS, value: STATUS_FIELD_FAILED });
                    self.state = DeviceState::Failed;
                    self.pending = Pending::Nothing;
                    assert(ops@ =~= seq![
                        MmioOp::Write { reg: MMIO_STATUS, value: STATUS_FIELD_FAILED },
                    ]);
                } else {
                    ops.push(MmioOp::Read { reg: MMIO_QUEUE_NUMBER_MAX });
                    self.pending = Pending::QueueNumberMax;
                    assert(ops@ =~= seq![MmioOp::Read { reg: MMIO_QUEUE_NUMBER_MAX }]);
                }
            },
            Pending::QueueNumberMax => {
                self.pending = Pending::Nothing;
                if !BlockDevice::init_queue_check(value, &mut ops) {
                    self.state = DeviceState::Failed;
                } else {
                    let queue_ptr: usize = BlockDevice::init_pfn(heap, &mut ops);
                    if queue_ptr == 0 || queue_ptr / PAGE_SIZE > u32::MAX as usize {
                        self.queue_addr = queue_ptr;
                        self.state = DeviceState::Failed;
                    } else {
                        let ro: bool = self.read_only;
                        self.init_bd(queue_ptr, ro);
                        BlockDevice::init_notify(self.status_bits, &mut ops);
                        self.state = DeviceState::Ready;
                        assert(ops@ =~= queue_ops(queue_ptr as int));
                    }
                }
            },
        }
        ops
    }
}

/// The descriptor index that follows `idx` by `n` places in the circle of
/// descriptors.
pub open spec fn slot_after(idx: u16, n: int) -> u16 {
    ((idx + n) % (VIRTIO_RING_SIZE as int)) as u16
}

/// The descriptor as it is stored: a descriptor that is chained points to
/// the descriptor `next`.
pub open spec fn stored_descriptor(desc: Descriptor, next: u16) -> Descriptor {
    Descriptor {
        addr: desc.addr,
        len: desc.len,
        flags: desc.flags,
        next: if desc.flags & VIRTIO_DESC_FLAG_NEXT != 0 {
            next
        } else {
            desc.next
        },
    }
}

/// The record of a request for the sector that holds byte `offset`.
pub open spec fn request_for(buffer: usize, offset: u64, write: bool) -> Request {
    Request {
        header: Header {
            blktype: if write {
                VIRTIO_BLK_TYPE_OUT
            } else {
                VIRTIO_BLK_TYPE_IN
            },
            reserved: 0,
            sector: offset / SECTOR_BYTES,
        },
        data: Data { data: buffer as u64 },
        status: Status { status: STATUS_PENDING },
        head: 0,
        watcher: 0,
    }
}

/// Flags of the descriptor of a request's data: chained, and written by the
/// device where the request is a read.
pub open spec fn data_flags(write: bool) -> u16 {
    VIRTIO_DESC_FLAG_NEXT | (if write {
        0u16
    } else {
        VIRTIO_DESC_FLAG_WRITE
    })
}

/// Going on by `a` places and then by `b` is going on by `a + b`.
proof fn lemma_slot_after(idx: u16, a: int, b: int)
    requires
        0 <= a,
        0 <= b <= VIRTIO_RING_SIZE,
    ensures
        slot_after(slot_after(idx, a), b) == slot_after(idx, a + b),
{
    vstd::arithmetic::div_mod::lemma_add_mod_noop(idx + a, b, VIRTIO_RING_SIZE as int);
    vstd::arithmetic::div_mod::lemma_mod_twice(idx + a, VIRTIO_RING_SIZE as int);
    vstd::arithmetic::div_mod::lemma_add_mod_noop(
        (idx + a) % (VIRTIO_RING_SIZE as int),
        b,
        VIRTIO_RING_SIZE as int,
    );
}

/// A write and a read at the same offset ask for the same sector; the
/// device reads the data of the write and writes the data of the read.
pub proof fn lemma_write_and_read_meet(out: usize, back: usize, offset: u64)
    ensures
        request_for(out, offset, WRITE).header.sector == request_for(
            back,
            offset,
            READ,
        ).header.sector,
        request_for(out, offset, WRITE).header.blktype == VIRTIO_BLK_TYPE_OUT,
        request_for(back, offset, READ).header.blktype == VIRTIO_BLK_TYPE_IN,
        data_flags(WRITE) & VIRTIO_DESC_FLAG_WRITE == 0,
        data_flags(READ) & VIRTIO_DESC_FLAG_WRITE != 0,
{
    assert((1u16 | 0) & 2 == 0 && (1u16 | 2) & 2 != 0) by (bit_vector);
}

proof fn lemma_descriptor_flags()
    ensures
        VIRTIO_DESC_FLAG_NEXT & VIRTIO_DESC_FLAG_NEXT != 0,
        data_flags(true) & VIRTIO_DESC_FLAG_NEXT != 0,
        data_flags(false) & VIRTIO_DESC_FLAG_NEXT != 0,
        VIRTIO_DESC_FLAG_WRITE & VIRTIO_DESC_FLAG_NEXT == 0,
{
    assert(1u16 & 1 != 0 && (1u16 | 0) & 1 != 0 && (1u16 | 2) & 1 != 0 && 2u16 & 1 == 0)
        by (bit_vector);
}

impl BlockDevice {
    /// The request is published in the queue of `before`: three descriptors
    /// behind the one that was filled last hold the chain of header, data
    /// and status, the head of the chain is in the next place of the
    /// available ring, and that place is not ready.
    pub open spec fn queued(
        &self,
        before: &BlockDevice,
        request: usize,
        buffer: usize,
        size: u32,
        write: bool,
    ) -> bool {
        let head = slot_after(before.idx(), 1);
        let data = slot_after(before.idx(), 2);
        let status = slot_after(before.idx(), 3);
        let place = before.queue().avail.idx as int % (VIRTIO_RING_SIZE as int);
        &&& self.same_device(before)
        &&& self.idx() == status
        &&& self.ack_used_idx() == before.ack_used_idx()
        &&& self.queue().used == before.queue().used
        &&& self.queue().desc@ == before.queue().desc@.update(
            head as int,
            Descriptor {
                addr: request as u64,
                len: HEADER_BYTES,
                flags: VIRTIO_DESC_FLAG_NEXT,
                next: data,
            },
        ).update(
            data as int,
            Descriptor { addr: buffer as u64, len: size, flags: data_flags(write), next: status },
        ).update(
            status as int,
            Descriptor {
                addr: (request + STATUS_OFFSET) as u64,
                len: 1,
                flags: VIRTIO_DESC_FLAG_WRITE,
                next: 0,
            },
        )
        &&& self.queue().avail.ring@ == before.queue().avail.ring@.update(place, head)
        &&& self.queue().avail.idx == (before.queue().avail.idx + 1) % 0x1_0000
        &&& self.queue().avail.flags == before.queue().avail.flags
        &&& self.queue().avail.event == before.queue().avail.event
        &&& self.ready() == before.ready().update(place, false)
    }

    /// Stores `desc` in the descriptor behind the one that was filled last,
    /// chained to its successor where its flags say so, and returns its
    /// index.
    fn fill_next_descriptor(&mut self, desc: Descriptor) -> (r: u16)
        requires
            old(self).wf(),
        ensures
            final(self).wf(),
            final(self).same_device(old(self)),
            r == slot_after(old(self).idx(), 1),
            final(self).idx() == r,
            final(self).queue().desc@ == old(self).queue().desc@.update(
                r as int,
                stored_descriptor(desc, slot_after(old(self).idx(), 2)),
            ),
            final(self).queue().avail == old(self).queue().avail,
            final(self).queue().used == old(self).queue().used,
            final(self).ready() == old(self).ready(),
            final(self).ack_used_idx() == old(self).ack_used_idx(),
            final(self).status_bits == old(self).status_bits,
    {
        self.idx = (self.idx + 1) % VIRTIO_RING_SIZE as u16;
        let at: usize = self.idx as usize;
        let mut stored = desc;
        if stored.flags & VIRTIO_DESC_FLAG_NEXT != 0 {
            stored.next = (self.idx + 1) % VIRTIO_RING_SIZE as u16;
        }
        self.queue.desc[at] = stored;
        proof {
            lemma_slot_after(old(self).idx(), 1, 1);
        }
        self.idx
    }

    /// Allocates the record of a request, writes it to the heap, and fills
    /// the descriptor of its header. Returns the address of the record and
    /// the index of the descriptor; the null address, with nothing changed,
    /// where the heap has no room.
    fn block_header(&mut self, heap: &mut Heap, buffer: usize, offset: u64, write: bool) -> (r: (
        usize,
        u16,
    ))
        requires
            old(self).wf(),
            old(heap).wf(),
        ensures
            final(self).wf(),
            final(heap).wf(),
            final(heap).bytes_allocated(old(heap), REQUEST_SIZE as int, r.0 as int, false),
            r.0 == 0 ==> *final(self) == *old(self),
            r.0 != 0 ==> {
                &&& forall|k: int|
                    0 <= k < REQUEST_SIZE ==> #[trigger] final(heap).byte(r.0 + k) == request_bytes(
                        request_for(buffer, offset, write),
                    )[k]
                &&& r.0 + REQUEST_SIZE <= usize::MAX
                &&& final(self).same_device(old(self))
                &&& r.1 == slot_after(old(self).idx(), 1)
                &&& final(self).idx() == r.1
                &&& final(self).queue().desc@ == old(self).queue().desc@.update(
                    r.1 as int,
                    Descriptor {
                        addr: r.0 as u64,
                        len: HEADER_BYTES,
                        flags: VIRTIO_DESC_FLAG_NEXT,
                        next: slot_after(old(self).idx(), 2),
                    },
                )
                &&& final(self).queue().avail == old(self).queue().avail
                &&& final(self).queue().used == old(self).queue().used
                &&& final(self).ready() == old(self).ready()
                &&& final(self).ack_used_idx() == old(self).ack_used_idx()
            },
    {
        let sector: u64 = offset / SECTOR_BYTES;
        let blk_request: usize = alloc_bytes(heap, REQUEST_SIZE);
        if blk_request == 0 {
            return (0, 0);
        }
        let ghost mid = *heap;
        let ghost chunks = old(heap).chunks();
        let ghost need = chunk_need(REQUEST_SIZE as int);
        let ghost i = first_fit(chunks, need);
        proof {
            vstd::arithmetic::power2::lemma2_to64();
            lemma_align_val_is_least(REQUEST_SIZE as int, 3);
            lemma_first_fit(chunks, need, 0);
            lemma_chunk_in_pool(
                old(heap).memory(),
                old(heap).start_off(),
                old(heap).pool_len(),
                chunks,
                i,
            );
            lemma_chunk_in_pool(mid.memory(), mid.start_off(), mid.pool_len(), mid.chunks(), i);
            lemma_descriptor_flags();
        }
        let desc = Descriptor {
            addr: blk_request as u64,
            len: HEADER_BYTES,
            flags: VIRTIO_DESC_FLAG_NEXT,
            next: 0,
        };
        let head_idx: u16 = self.fill_next_descriptor(desc);
        let request = Request {
            header: Header {
                blktype: if write {
                    VIRTIO_BLK_TYPE_OUT
                } else {
                    VIRTIO_BLK_TYPE_IN
                },
                reserved: 0,
                sector,
            },
            data: Data { data: buffer as u64 },
            status: Status { status: STATUS_PENDING },
            head: 0,
            watcher: 0,
        };
        let bytes = request.to_bytes();
        let mut k: usize = 0;
        while k < REQUEST_SIZE
            invariant
                k <= REQUEST_SIZE,
                bytes@ == request_bytes(request_for(buffer, offset, write)),
                bytes@.len() == REQUEST_SIZE,
                heap.wf(),
                mid.wf(),
                heap.same_frame(&mid),
                heap.chunks() == mid.chunks(),
                0 <= i < mid.chunks().len(),
                mid.chunks()[i].taken,
                blk_request == mid.start() + mid.chunks()[i].off + HEADER_SIZE,
                mid.chunks()[i].size >= REQUEST_SIZE + HEADER_SIZE,
                blk_request + REQUEST_SIZE <= usize::MAX,
                heap.heap_start() <= blk_request,
                blk_request - heap.heap_start() + REQUEST_SIZE <= heap.memory().len(),
                forall|j: int|
                    0 <= j < heap.memory().len() ==> heap.memory()[j] == (if blk_request
                        - heap.heap_start() <= j < blk_request - heap.heap_start() + k {
                        bytes@[j - (blk_request - heap.heap_start())]
                    } else {
                        mid.memory()[j]
                    }),
            decreases REQUEST_SIZE - k,
        {
            assert(heap.in_taken_chunk(blk_request + k)) by {
                assert(heap.chunks()[i].taken);
            }
            let ghost prev = heap.memory();
            let ghost at = blk_request + k - heap.heap_start();
            let ok: bool = heap.store(blk_request + k, bytes[k]);
            assert(ok);
            assert(heap.memory() == prev.update(at, bytes@[k as int]));
            assert forall|j: int| 0 <= j < heap.memory().len() implies heap.memory()[j] == (
            if blk_request - heap.heap_start() <= j < blk_request - heap.heap_start() + k + 1 {
                bytes@[j - (blk_request - heap.heap_start())]
            } else {
                mid.memory()[j]
            }) by {
                if j != at {
                    assert(heap.memory()[j] == prev[j]);
                }
            }
            k = k + 1;
        }
        proof {
            let pool_off = old(heap).start_off();
            assert forall|c: int, j: int|
                0 <= c < chunks.len() && (#[trigger] chunks[c]).taken && pool_off + chunks[c].off <= j
                    < pool_off + chunks[c].off + chunks[c].size implies #[trigger] heap.memory()[j]
                == old(heap).memory()[j] by {
                lemma_chunk_in_pool(old(heap).memory(), pool_off, old(heap).pool_len(), chunks, c);
                if c < i {
                    lemma_chunks_ordered(
                        old(heap).memory(),
                        pool_off,
                        old(heap).pool_len(),
                        chunks,
                        c,
                        i,
                    );
                } else if c > i {
                    lemma_chunks_ordered(
                        old(heap).memory(),
                        pool_off,
                        old(heap).pool_len(),
                        chunks,
                        i,
                        c,
                    );
                }
                assert(mid.memory()[j] == old(heap).memory()[j]);
            }
            assert forall|j: int|
                0 <= j < heap.memory().len() && !(heap.start_off() <= j < heap.start_off()
                    + heap.pool_len()) implies #[trigger] heap.memory()[j] == old(heap).memory()[j] by {
                assert(mid.memory()[j] == old(heap).memory()[j]);
            }
            assert forall|k: int| 0 <= k < REQUEST_SIZE implies #[trigger] heap.byte(blk_request + k)
                == request_bytes(request_for(buffer, offset, write))[k] by {
                assert(heap.memory()[blk_request + k - heap.heap_start()] == bytes@[k]);
            }
        }
        (blk_request, head_idx)
    }

    /// Fills the descriptor of a request's data.
    fn block_data(&mut self, buffer: usize, size: u32, write: bool)
        requires
            old(self).wf(),
        ensures
            final(self).wf(),
            final(self).same_device(old(self)),
            final(self).idx() == slot_after(old(self).idx(), 1),
            final(self).queue().desc@ == old(self).queue().desc@.update(
                final(self).idx() as int,
                Descriptor {
                    addr: buffer as u64,
                    len: size,
                    flags: data_flags(write),
                    next: slot_after(old(self).idx(), 2),
                },
            ),
            final(self).queue().avail == old(self).queue().avail,
            final(self).queue().used == old(self).queue().used,
            final(self).ready() == old(self).ready(),
            final(self).ack_used_idx() == old(self).ack_used_idx(),
    {
        proof {
            lemma_descriptor_flags();
        }
        let desc = Descriptor {
            addr: buffer as u64,
            len: size,
            flags: VIRTIO_DESC_FLAG_NEXT | if !write {
                VIRTIO_DESC_FLAG_WRITE
            } else {
                0
            },
            next: 0,
        };
        let _data_idx: u16 = self.fill_next_descriptor(desc);
    }

    /// Fills the descriptor of a request's status byte.
    fn block_status(&mut self, blk_request: usize)
        requires
            old(self).wf(),
            blk_request + STATUS_OFFSET <= usize::MAX,
        ensures
            final(self).wf(),
            final(self).same_device(old(self)),
            final(self).idx() == slot_after(old(self).idx(), 1),
            final(self).queue().desc@ == old(self).queue().desc@.update(
                final(self).idx() as int,
                Descriptor {
                    addr: (blk_request + STATUS_OFFSET) as u64,
                    len: 1,
                    flags: VIRTIO_DESC_FLAG_WRITE,
                    next: 0,
                },
            ),
            final(self).queue().avail == old(self).queue().avail,
            final(self).queue().used == old(self).queue().used,
            final(self).ready() == old(self).ready(),
            final(self).ack_used_idx() == old(self).ack_used_idx(),
    {
        proof {
            lemma_descriptor_flags();
        }
        let desc = Descriptor {
            addr: (blk_request + STATUS_OFFSET) as u64,
            len: 1,
            flags: VIRTIO_DESC_FLAG_WRITE,
            next: 0,
        };
        let _status_idx: u16 = self.fill_next_descriptor(desc);
    }

    /// Publishes the chain that begins at descriptor `head_idx` in the
    /// available ring and marks its place as not ready. Returns the place
    /// and the doorbell write.
    fn block_notify(&mut self, head_idx: u16) -> (r: (usize, MmioOp))
        requires
            old(self).wf(),
        ensures
            final(self).wf(),
            final(self).same_device(old(self)),
            r.0 == old(self).queue().avail.idx as int % (VIRTIO_RING_SIZE as int),
            r.1 == (MmioOp::Write { reg: MMIO_QUEUE_NOTIFY, value: 0 }),
            final(self).idx() == old(self).idx(),
            final(self).queue().desc == old(self).queue().desc,
            final(self).queue().used == old(self).queue().used,
            final(self).queue().avail.ring@ == old(self).queue().avail.ring@.update(
                r.0 as int,
                head_idx,
            ),
            final(self).queue().avail.idx == (old(self).queue().avail.idx + 1) % 0x1_0000,
            final(self).queue().avail.flags == old(self).queue().avail.flags,
            final(self).queue().avail.event == old(self).queue().avail.event,
            final(self).ready() == old(self).ready().update(r.0 as int, false),
            final(self).ack_used_idx() == old(self).ack_used_idx(),
    {
        let idx: usize = self.queue.avail.idx as usize % VIRTIO_RING_SIZE;
        self.queue.avail.ring[idx] = head_idx;
        self.queue.avail.idx = if self.queue.avail.idx == u16::MAX {
            0
        } else {
            self.queue.avail.idx + 1
        };
        self.ready[idx] = false;
        (idx, MmioOp::Write { reg: MMIO_QUEUE_NOTIFY, value: 0 })
    }

    /// Puts a request into the queue: a read of `size` bytes into the
    /// memory at `buffer`, or a write of them from there, at the sector
    /// that holds byte `offset` of the device.
    ///
    /// A device that is not ready takes no request, and a read-only device
    /// takes no write. Else a request record is allocated from the heap and
    /// written there, the chain of its three descriptors is published, and
    /// the doorbell write is handed out. The caller performs that write and
    /// waits with [`BlockDevice::wait_step`].
    pub fn block_operation(
        &mut self,
        heap: &mut Heap,
        buffer: usize,
        size: u32,
        offset: u64,
        write: bool,
    ) -> (r: Submission)
        requires
            old(self).wf(),
            old(heap).wf(),
        ensures
            final(self).wf(),
            final(heap).wf(),
            old(self).state() != DeviceState::Ready ==> r == Submission::NoDevice,
            old(self).state() == DeviceState::Ready && old(self).read_only() && write ==> r
                == Submission::Rejected,
            r == Submission::NoDevice || r == Submission::Rejected ==> *final(self) == *old(self)
                && *final(heap) == *old(heap),
            old(self).state() == DeviceState::Ready && !(old(self).read_only() && write) ==> {
                &&& r != Submission::NoDevice
                &&& r != Submission::Rejected
            },
            r == Submission::Exhausted ==> *final(self) == *old(self) && final(heap).bytes_allocated(
                old(heap),
                REQUEST_SIZE as int,
                0,
                false,
            ),
            r matches Submission::Queued { slot, request, notify } ==> {
                &&& request != 0
                &&& final(heap).bytes_allocated(old(heap), REQUEST_SIZE as int, request as int, false)
                &&& forall|k: int|
                    0 <= k < REQUEST_SIZE ==> #[trigger] final(heap).byte(request + k)
                        == request_bytes(request_for(buffer, offset, write))[k]
                &&& slot == old(self).queue().avail.idx as int % (VIRTIO_RING_SIZE as int)
                &&& notify == (MmioOp::Write { reg: MMIO_QUEUE_NOTIFY, value: 0 })
                &&& final(self).queued(old(self), request, buffer, size, write)
            },
    {
        if self.state != DeviceState::Ready {
            return Submission::NoDevice;
        }
        if self.read_only && write {
            return Submission::Rejected;
        }
        let (blk_request, head_idx) = self.block_header(heap, buffer, offset, write);
        if blk_request == 0 {
            return Submission::Exhausted;
        }
        self.block_data(buffer, size, write);
        self.block_status(blk_request);
        let (idx, notify) = self.block_notify(head_idx);
        proof {
            lemma_slot_after(old(self).idx(), 1, 1);
            lemma_slot_after(old(self).idx(), 1, 2);
            lemma_slot_after(old(self).idx(), 2, 1);
        }
        Submission::Queued { slot: idx, request: blk_request, notify }
    }

    /// What a caller that waits for the request in place `slot` of the
    /// available ring does next, after `counter` polls: nothing more where
    /// the request is complete, where it is not, another poll until the
    /// budget is used up.
    pub fn wait_step(&self, slot: usize, counter: usize) -> (r: Wait)
        ensures
            r == (if self.ready()[slot as int % (VIRTIO_RING_SIZE as int)] {
                Wait::Ready
            } else if counter < WAIT_FOR_READY {
                Wait::Spin
            } else {
                Wait::TimedOut
            }),
    {
        if self.ready[slot % VIRTIO_RING_SIZE] {
            Wait::Ready
        } else if counter < WAIT_FOR_READY {
            Wait::Spin
        } else {
            Wait::TimedOut
        }
    }
}

impl BlockDevice {
    /// Completions that the device has put into the used ring and the driver
    /// has not seen.
    pub open spec fn used_pending(&self) -> int {
        if self.queue().used.idx >= self.ack_used_idx() {
            self.queue().used.idx - self.ack_used_idx()
        } else {
            self.queue().used.idx - self.ack_used_idx() + 0x1_0000
        }
    }

    /// Place in the used ring of the completion that is seen after `j`
    /// others.
    pub open spec fn used_place(&self, j: int) -> int {
        ((self.ack_used_idx() + j) % 0x1_0000) % (VIRTIO_RING_SIZE as int)
    }

    /// Address of the request record of that completion: the address in the
    /// descriptor that the completion names.
    pub open spec fn used_request(&self, j: int) -> u64 {
        self.queue().desc@[self.queue().used.ring@[self.used_place(j)].id as int % (
        VIRTIO_RING_SIZE as int)].addr
    }

    /// The releases of the request records of the first `n` completions.
    pub open spec fn used_releases(&self, n: int) -> Seq<PoolOp> {
        Seq::new(n as nat, |j: int| PoolOp::Release { ptr: self.used_request(j) as int })
    }

    /// One of the first `n` completions lies in place `p` of the used ring.
    pub open spec fn completes(&self, n: int, p: int) -> bool {
        exists|j: int| 0 <= j < n && #[trigger] self.used_place(j) == p
    }

    /// Takes every completion that the driver has not seen from the used
    /// ring: its place is ready, and its request record goes back to the
    /// heap.
    fn use_queue(&mut self, heap: &mut Heap)
        requires
            old(self).wf(),
            old(heap).wf(),
        ensures
            final(self).wf(),
            final(heap).wf(),
            final(self).same_device(old(self)),
            final(self).queue() == old(self).queue(),
            final(self).idx() == old(self).idx(),
            final(self).ack_used_idx() == old(self).queue().used.idx,
            final(self).ready().len() == old(self).ready().len(),
            forall|p: int|
                0 <= p < VIRTIO_RING_SIZE ==> #[trigger] final(self).ready()[p] == (old(
                    self,
                ).ready()[p] || old(self).completes(old(self).used_pending(), p)),
            final(heap).same_frame(old(heap)),
            final(heap).outside_pool_kept(old(heap)),
            final(heap).live_kept(old(heap)),
            final(heap).chunks() == run_ops(
                old(heap).chunks(),
                old(heap).start(),
                old(self).used_releases(old(self).used_pending()),
            ),
    {
        let ghost total = self.used_pending();
        let ghost mut done: int = 0;
        proof {
            assert(self.used_releases(0) =~= Seq::empty());
        }
        while self.ack_used_idx != self.queue.used.idx
            invariant
                self.wf(),
                heap.wf(),
                old(heap).wf(),
                self.same_device(old(self)),
                self.queue == old(self).queue,
                self.idx == old(self).idx,
                self.status_bits == old(self).status_bits,
                total == old(self).used_pending(),
                0 <= done <= total,
                self.ack_used_idx == (old(self).ack_used_idx + done) % 0x1_0000,
                self.used_pending() == total - done,
                self.ready@.len() == old(self).ready@.len(),
                forall|p: int|
                    0 <= p < VIRTIO_RING_SIZE ==> #[trigger] self.ready@[p] == (old(self).ready@[p]
                        || old(self).completes(done, p)),
                heap.same_frame(old(heap)),
                heap.outside_pool_kept(old(heap)),
                heap.live_kept(old(heap)),
                heap.chunks() == run_ops(
                    old(heap).chunks(),
                    old(heap).start(),
                    old(self).used_releases(done),
                ),
            decreases total - done,
        {
            let idx: usize = self.ack_used_idx as usize % VIRTIO_RING_SIZE;
            let id: usize = self.queue.used.ring[idx].id as usize % VIRTIO_RING_SIZE;
            self.ack_used_idx = if self.ack_used_idx == u16::MAX {
                0
            } else {
                self.ack_used_idx + 1
            };
            let ghost before_ready = self.ready@;
            self.ready[idx] = true;
            let rq: u64 = self.queue.desc[id].addr;
            let ghost held = *heap;
            let ghost op = PoolOp::Release { ptr: rq as int };
            proof {
                assert(idx == old(self).used_place(done));
                assert(rq == old(self).used_request(done));
                assert(old(self).used_releases(done + 1).drop_last() =~= old(self).used_releases(
                    done,
                ));
                assert(old(self).used_releases(done + 1).last() == op);
            }
            if rq <= usize::MAX as u64 {
                free_bytes(heap, rq as usize);
                proof {
                    lemma_release_keeps_live(*heap, held, rq as int);
                }
            } else {
                proof {
                    let chunks = heap.chunks();
                    assert forall|k: int| 0 <= k < chunks.len() implies (#[trigger] chunks[k]).off
                        + HEADER_SIZE != rq - heap.start() by {
                        lemma_chunk_in_pool(
                            heap.memory(),
                            heap.start_off(),
                            heap.pool_len(),
                            chunks,
                            k,
                        );
                    }
                    lemma_no_payload(chunks, rq - heap.start(), 0);
                }
            }
            proof {
                assert(heap.chunks() == apply_op(held.chunks(), held.start(), op));
                assert forall|p: int| 0 <= p < VIRTIO_RING_SIZE implies #[trigger] self.ready@[p] == (
                old(self).ready@[p] || old(self).completes(done + 1, p)) by {
                    if p == idx {
                        assert(old(self).used_place(done) == p);
                    } else {
                        assert(self.ready@[p] == before_ready[p]);
                        if old(self).completes(done + 1, p) {
                            let j = choose|j: int|
                                0 <= j < done + 1 && #[trigger] old(self).used_place(j) == p;
                            assert(old(self).used_place(j) == p);
                            assert(j < done);
                        }
                        if old(self).completes(done, p) {
                            let j = choose|j: int|
                                0 <= j < done && #[trigger] old(self).used_place(j) == p;
                            assert(old(self).used_place(j) == p);
                        }
                    }
                }
                done = done + 1;
            }
        }
    }

    /// The queue, as the device sees it.
    pub fn shared_queue(&self) -> (r: &Queue)
        ensures
            *r == self.queue(),
    {
        &self.queue
    }

    /// The queue, for the side of the device: what the device writes to the
    /// memory that it shares with the driver is written here.
    pub fn queue_mut(&mut self) -> (r: &mut Queue)
        ensures
            *r == old(self).queue(),
            final(self).queue() == *final(r),
            final(self).wf() == old(self).wf(),
            final(self).same_device(old(self)),
            final(self).idx() == old(self).idx(),
            final(self).ack_used_idx() == old(self).ack_used_idx(),
            final(self).ready() == old(self).ready(),
    {
        &mut self.queue
    }

    pub fn device_state(&self) -> (r: DeviceState)
        ensures
            r == self.state(),
    {
        self.state
    }

    pub fn is_read_only(&self) -> (r: bool)
        ensures
            r == self.read_only(),
    {
        self.read_only
    }

    /// Address of the queue's pages; null where none were taken.
    pub fn queue_address(&self) -> (r: usize)
        ensures
            r == self.queue_addr(),
    {
        self.queue_addr
    }

    /// Address of the device's registers.
    pub fn base(&self) -> (r: usize)
        ensures
            r == self.dev(),
    {
        self.dev
    }

    /// Whether the request in place `slot` of the available ring is
    /// complete.
    pub fn is_ready(&self, slot: usize) -> (r: bool)
        ensures
            r == self.ready()[slot as int % (VIRTIO_RING_SIZE as int)],
    {
        self.ready[slot % VIRTIO_RING_SIZE]
    }
}

/// Begins the negotiation with the block device whose registers are at the
/// address `ptr`: returns the driver's state for the device and the first
/// accesses to perform, [`opening_ops`]. The value that the final access
/// reads goes to [`BlockDevice::negotiate`].
pub fn init(ptr: usize) -> (r: (BlockDevice, Vec<MmioOp>))
    ensures
        r.0.wf(),
        r.0.dev() == ptr,
        r.0.state() == DeviceState::Negotiating,
        r.0.pending() == Pending::HostFeatures,
        r.0.queue_addr() == 0,
        !r.0.read_only(),
        r.0.fresh(),
        r.1@ == opening_ops(),
{
    BlockDevice::init(ptr)
}

/// Handles the interrupt of the block device: every completion in the used
/// ring that was not seen yet makes its place ready and gives its request
/// record back to the heap. A device that is not ready is left alone.
pub fn interrupt_handler(dev: &mut BlockDevice, heap: &mut Heap)
    requires
        old(dev).wf(),
        old(heap).wf(),
    ensures
        final(dev).wf(),
        final(heap).wf(),
        old(dev).state() != DeviceState::Ready ==> *final(dev) == *old(dev) && *final(heap) == *old(
            heap,
        ),
        old(dev).state() == DeviceState::Ready ==> {
            &&& final(dev).same_device(old(dev))
            &&& final(dev).queue() == old(dev).queue()
            &&& final(dev).idx() == old(dev).idx()
            &&& final(dev).ack_used_idx() == old(dev).queue().used.idx
            &&& final(dev).ready().len() == old(dev).ready().len()
            &&& forall|p: int|
                0 <= p < VIRTIO_RING_SIZE ==> #[trigger] final(dev).ready()[p] == (old(
                    dev,
                ).ready()[p] || old(dev).completes(old(dev).used_pending(), p))
            &&& final(heap).same_frame(old(heap))
            &&& final(heap).outside_pool_kept(old(heap))
            &&& final(heap).live_kept(old(heap))
            &&& final(heap).chunks() == run_ops(
                old(heap).chunks(),
                old(heap).start(),
                old(dev).used_releases(old(dev).used_pending()),
            )
        },
{
    if dev.state == DeviceState::Ready {
        dev.use_queue(heap);
    }
}

/// Asks the device to read `size` bytes into the memory at `buffer`, from
/// the sector that holds byte `offset`; see
/// [`BlockDevice::block_operation`].
pub fn read(dev: &mut BlockDevice, heap: &mut Heap, buffer: usize, size: u32, offset: u64) -> (r:
    Submission)
    requires
        old(dev).wf(),
        old(heap).wf(),
    ensures
        final(dev).wf(),
        final(heap).wf(),
        old(dev).state() != DeviceState::Ready <==> r == Submission::NoDevice,
        r != Submission::Rejected,
        r == Submission::NoDevice ==> *final(dev) == *old(dev) && *final(heap) == *old(heap),
        r == Submission::Exhausted ==> *final(dev) == *old(dev) && final(heap).bytes_allocated(
            old(heap),
            REQUEST_SIZE as int,
            0,
            false,
        ),
        r matches Submission::Queued { slot, request, notify } ==> {
            &&& request != 0
            &&& final(heap).bytes_allocated(old(heap), REQUEST_SIZE as int, request as int, false)
            &&& forall|k: int|
                0 <= k < REQUEST_SIZE ==> #[trigger] final(heap).byte(request + k) == request_bytes(
                    request_for(buffer, offset, READ),
                )[k]
            &&& slot == old(dev).queue().avail.idx as int % (VIRTIO_RING_SIZE as int)
            &&& notify == (MmioOp::Write { reg: MMIO_QUEUE_NOTIFY, value: 0 })
            &&& final(dev).queued(old(dev), request, buffer, size, READ)
        },
{
    dev.block_operation(heap, buffer, size, offset, READ)
}

/// Asks the device to write `size` bytes from the memory at `buffer` to
/// the sector that holds byte `offset`; see
/// [`BlockDevice::block_operation`].
pub fn write(dev: &mut BlockDevice, heap: &mut Heap, buffer: usize, size: u32, offset: u64) -> (r:
    Submission)
    requires
        old(dev).wf(),
        old(heap).wf(),
    ensures
        final(dev).wf(),
        final(heap).wf(),
        old(dev).state() != DeviceState::Ready <==> r == Submission::NoDevice,
        old(dev).state() == DeviceState::Ready && old(dev).read_only() <==> r
            == Submission::Rejected,
        r == Submission::NoDevice || r == Submission::Rejected ==> *final(dev) == *old(dev)
            && *final(heap) == *old(heap),
        r == Submission::Exhausted ==> *final(dev) == *old(dev) && final(heap).bytes_allocated(
            old(heap),
            REQUEST_SIZE as int,
            0,
            false,
        ),
        r matches Submission::Queued { slot, request, notify } ==> {
            &&& request != 0
            &&& final(heap).bytes_allocated(old(heap), REQUEST_SIZE as int, request as int, false)
            &&& forall|k: int|
                0 <= k < REQUEST_SIZE ==> #[trigger] final(heap).byte(request + k) == request_bytes(
                    request_for(buffer, offset, WRITE),
                )[k]
            &&& slot == old(dev).queue().avail.idx as int % (VIRTIO_RING_SIZE as int)
            &&& notify == (MmioOp::Write { reg: MMIO_QUEUE_NOTIFY, value: 0 })
            &&& final(dev).queued(old(dev), request, buffer, size, WRITE)
        },
{
    dev.block_operation(heap, buffer, size, offset, WRITE)
}

} // verus!
