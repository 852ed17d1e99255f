//! The object database: the single in-memory device record that the
//! Who-Is / I-Am services answer about.

use vstd::prelude::*;

verus! {

/// The object type code of a device object.
pub const DEVICE: u16 = 8;

/// The one BACnet object this stack maintains: the description of the
/// local device that is reported in I-Am messages.
#[derive(Debug, PartialEq, Eq, Structural, Clone, Copy)]
pub struct DeviceObject {
    pub instance: u32,
    pub max_apdu_length_supported: u32,
    pub segmentation_supported: u8,
    pub vendor_identifier: u32,
}

/// An object identifier: object type and instance number.
#[derive(Debug, PartialEq, Eq, Structural, Clone, Copy)]
pub struct ObjectId(pub u16, pub u32);

/// The object database. It currently holds exactly one device object,
/// immutable after construction.
pub struct BacnetDB {
    device: DeviceObject,
}

impl BacnetDB {
    /// The device record held by this database.
    pub closed spec fn spec_device(&self) -> DeviceObject {
        self.device
    }

    pub fn new(device: DeviceObject) -> (db: BacnetDB)
        ensures
            db.spec_device() == device,
    {
        BacnetDB { device }
    }

    pub fn device(&self) -> (dev: &DeviceObject)
        ensures
            *dev == self.spec_device(),
    {
        &self.device
    }
}

} // verus!
