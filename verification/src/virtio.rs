//! Discovery of the virtio devices and routing of their interrupts.

use vstd::prelude::*;

verus! {

/// Address of the registers of the first device.
pub const VIRTIO_START: usize = 0x1000_1000;

/// Address of the registers of the last device.
pub const VIRTIO_END: usize = 0x1000_8000;

/// Distance between the registers of two devices.
pub const VIRTIO_STRIDE: usize = 0x1000;

/// The magic value of a virtio device: `virt` in little-endian ASCII.
pub const VIRTIO_MAGIC_LE: u32 = 0x74_72_69_76;

pub const BLOCK: u32 = 2;

pub const GPU: u32 = 16;

pub const INPUT: u32 = 18;

/// Number of places for devices.
pub const VIRTIO_DEVICES: usize = 8;

/// What was found at the address of a device.
#[derive(Clone, Copy, Debug, PartialEq, Eq, Structural)]
pub enum Probe {
    /// The magic value is missing.
    NotVirtio,
    /// The device identifier is 0.
    NotConnected,
    Block,
    Gpu,
    Input,
    /// A device of a kind that is not handled.
    Ignored { device_id: u32 },
}

/// Where an interrupt goes.
#[derive(Clone, Copy, Debug, PartialEq, Eq, Structural)]
pub enum Dispatch {
    /// To the driver of the block device.
    Block,
    /// The device in that place is of a kind that raises no interrupt here.
    Invalid { device_type: u32 },
    /// No device is in that place, or the interrupt names no place.
    Spurious,
}

/// What the two values read from a device's registers say it is.
pub open spec fn spec_classify(magic: u32, device_id: u32) -> Probe {
    if magic != VIRTIO_MAGIC_LE {
        Probe::NotVirtio
    } else if device_id == 0 {
        Probe::NotConnected
    } else if device_id == BLOCK {
        Probe::Block
    } else if device_id == GPU {
        Probe::Gpu
    } else if device_id == INPUT {
        Probe::Input
    } else {
        Probe::Ignored { device_id }
    }
}

/// Tells what a device is from its magic value and its device identifier.
#[verifier::when_used_as_spec(spec_classify)]
pub fn classify(magic: u32, device_id: u32) -> (r: Probe)
    ensures
        r == spec_classify(magic, device_id),
{
    if VIRTIO_MAGIC_LE != magic {
        Probe::NotVirtio
    } else if 0 == device_id {
        Probe::NotConnected
    } else if device_id == BLOCK {
        Probe::Block
    } else if device_id == GPU {
        Probe::Gpu
    } else if device_id == INPUT {
        Probe::Input
    } else {
        Probe::Ignored { device_id }
    }
}

/// The kind of the device in each place, where one was found.
pub struct DeviceTable {
    types: [Option<u32>; 8],
}

/// The place of the device whose registers are at `addr`.
pub open spec fn device_place(addr: usize) -> int {
    (addr - VIRTIO_START) / (VIRTIO_STRIDE as int)
}

impl View for DeviceTable {
    type V = Seq<Option<u32>>;

    closed spec fn view(&self) -> Seq<Option<u32>> {
        self.types@
    }
}

impl DeviceTable {
    /// A table without devices.
    pub fn new() -> (r: Self)
        ensures
            r@.len() == VIRTIO_DEVICES,
            forall|i: int| 0 <= i < VIRTIO_DEVICES ==> r@[i] is None,
    {
        DeviceTable { types: [None, None, None, None, None, None, None, None] }
    }

    /// Notes the kind of the device whose registers are at `addr`; an
    /// address that is not one of a device changes nothing.
    pub fn set_virtio_device_type(&mut self, addr: usize, value: u32)
        ensures
            VIRTIO_START <= addr && device_place(addr) < VIRTIO_DEVICES ==> final(self)@ == old(
                self,
            )@.update(device_place(addr), Some(value)),
            !(VIRTIO_START <= addr && device_place(addr) < VIRTIO_DEVICES) ==> final(self)@ == old(
                self,
            )@,
    {
        if addr < VIRTIO_START {
            return ;
        }
        let idx: usize = (addr - VIRTIO_START) / VIRTIO_STRIDE;
        if idx < VIRTIO_DEVICES {
            self.types[idx] = Some(value);
        }
    }

    /// Where the interrupt with the number `interrupt` goes: to the device
    /// in the place `interrupt - 1`.
    pub fn interrupt_handler(&self, interrupt: u32) -> (r: Dispatch)
        ensures
            r == (if 1 <= interrupt <= VIRTIO_DEVICES {
                match self@[interrupt - 1] {
                    Some(device_type) => if device_type == BLOCK {
                        Dispatch::Block
                    } else {
                        Dispatch::Invalid { device_type }
                    },
                    None => Dispatch::Spurious,
                }
            } else {
                Dispatch::Spurious
            }),
    {
        if interrupt < 1 || interrupt as usize > VIRTIO_DEVICES {
            return Dispatch::Spurious;
        }
        let idx: usize = interrupt as usize - 1;
        match self.types[idx] {
            Some(vd) => {
                if vd == BLOCK {
                    Dispatch::Block
                } else {
                    Dispatch::Invalid { device_type: vd }
                }
            },
            None => Dispatch::Spurious,
        }
    }
}

} // verus!
